//! The decisions of the session server and of the processes that start
//! it: how requests are turned into input for the session, how the daemon
//! reports readiness, and how a target session is chosen.
use vstd::prelude::*;
use vstd::string::*;

use crate::ipc::{spec_validate_session_name, validate_session_name, IpcRequest, SessionNameError};
use crate::text::{
    chars_of, chars_skip, chars_start_with, find_chars, find_from, push_chars, push_str,
    starts_with, string_from_chars, trim, trim_chars,
};

verus! {

broadcast use vstd::string::group_string_axioms;

/// A request line longer than this is refused.
pub const MAX_IPC_LINE_BYTES: usize = 16 * 1024 * 1024;

/// A request line is refused when it fills the whole limit without ending.
pub fn request_exceeds_limit(line_len: usize, ends_with_newline: bool) -> (b: bool)
    ensures
        b == (line_len >= MAX_IPC_LINE_BYTES && !ends_with_newline),
{
    line_len >= MAX_IPC_LINE_BYTES && !ends_with_newline
}

/// A window size is applied only when both dimensions are positive.
pub fn resize_applies(cols: u16, rows: u16) -> (b: bool)
    ensures
        b == (cols > 0 && rows > 0),
{
    cols > 0 && rows > 0
}

/// The window size that an attaching client asks for, as `(cols, rows)`,
/// when it gives both dimensions and both are positive.
pub fn attach_window_size(cols: Option<u16>, rows: Option<u16>) -> (r: Option<(u16, u16)>)
    ensures
        r == match (cols, rows) {
            (Some(c), Some(w)) => if c > 0 && w > 0 {
                Some((c, w))
            } else {
                None
            },
            _ => None,
        },
{
    match (cols, rows) {
        (Some(c), Some(w)) => if c > 0 && w > 0 {
            Some((c, w))
        } else {
            None
        },
        _ => None,
    }
}

pub open spec fn paste_start() -> Seq<char> {
    seq!['\u{1b}', '[', '2', '0', '0', '~']
}

pub open spec fn paste_end() -> Seq<char> {
    seq!['\u{1b}', '[', '2', '0', '1', '~']
}

/// The bytes that a `Write` request injects: the text, wrapped in
/// bracketed-paste markers when asked, then a newline when asked.
pub open spec fn spec_write_payload(text: Seq<char>, enter: bool, bracketed_paste: bool) -> Seq<char> {
    let t = if bracketed_paste {
        paste_start() + text + paste_end()
    } else {
        text
    };
    if enter {
        t.push('\n')
    } else {
        t
    }
}

pub fn write_payload(text: &str, enter: bool, bracketed_paste: bool) -> (r: String)
    ensures
        r@ == spec_write_payload(text@, enter, bracketed_paste),
{
    let mut v: Vec<char> = Vec::new();
    if bracketed_paste {
        let start = vec!['\u{1b}', '[', '2', '0', '0', '~'];
        assert(start@ =~= paste_start());
        push_chars(&mut v, start.as_slice());
    }
    push_str(&mut v, text);
    if bracketed_paste {
        let end = vec!['\u{1b}', '[', '2', '0', '1', '~'];
        assert(end@ =~= paste_end());
        push_chars(&mut v, end.as_slice());
    }
    if enter {
        v.push('\n');
    }
    assert(v@ =~= spec_write_payload(text@, enter, bracketed_paste));
    string_from_chars(v.as_slice())
}

fn trim_chars_str(s: &str) -> (r: String)
    ensures
        r@ == trim(s@),
{
    let c = chars_of(s);
    let t = trim_chars(c.as_slice());
    string_from_chars(t.as_slice())
}

/// The program and argument vector of a new session: the given command,
/// or the shell run interactively (`<shell> -i`) when none is given.
pub fn exec_command(command: &[String], default_shell: &str) -> (r: (String, Vec<String>))
    ensures
        command@.len() > 0 ==> r.0@ == command@[0]@ && r.1@.map_values(|s: String| s@)
            == command@.map_values(|s: String| s@),
        command@.len() == 0 ==> r.0@ == default_shell@ && r.1@.map_values(|s: String| s@) == seq![
            default_shell@,
            seq!['-', 'i'],
        ],
{
    if command.len() > 0 {
        let mut args: Vec<String> = Vec::new();
        let mut i: usize = 0;
        while i < command.len()
            invariant
                i <= command@.len(),
                args@.len() == i,
                forall|j: int| 0 <= j < i ==> (#[trigger] args@[j])@ == command@[j]@,
            decreases command@.len() - i,
        {
            let s = command[i].clone();
            args.push(s);
            i = i + 1;
        }
        assert(args@.map_values(|s: String| s@) =~= command@.map_values(|s: String| s@));
        (command[0].clone(), args)
    } else {
        let mut args: Vec<String> = Vec::new();
        args.push(String::from_str(default_shell));
        let flag = vec!['-', 'i'];
        let f = string_from_chars(flag.as_slice());
        assert(f@ =~= seq!['-', 'i']);
        args.push(f);
        assert(args@.map_values(|s: String| s@) =~= seq![default_shell@, seq!['-', 'i']]);
        (String::from_str(default_shell), args)
    }
}

/// What the daemon wrote back to the process that started it.
pub enum ReadyMessage {
    /// The daemon is serving, at the socket path it names, if it names one.
    Ready(Option<String>),
    /// The daemon reported a failure; the message is passed on.
    Failed(String),
    /// The daemon wrote nothing.
    Silent,
}

pub open spec fn ready_word() -> Seq<char> {
    seq!['R', 'E', 'A', 'D', 'Y']
}

/// Reads the daemon's report: `READY <path>` on success, an error text on
/// failure, or nothing.
pub fn parse_ready_message(msg: &str) -> (r: ReadyMessage)
    ensures
        ({
            let t = trim(msg@);
            if starts_with(t, ready_word()) {
                let p = trim(t.skip(5));
                if p.len() > 0 {
                    r matches ReadyMessage::Ready(Some(s)) && s@ == p
                } else {
                    r matches ReadyMessage::Ready(None)
                }
            } else if t.len() > 0 {
                r matches ReadyMessage::Failed(m) && m@ == msg@
            } else {
                r matches ReadyMessage::Silent
            }
        }),
{
    let c = chars_of(msg);
    let t = trim_chars(c.as_slice());
    let ready = vec!['R', 'E', 'A', 'D', 'Y'];
    assert(ready@ =~= ready_word());
    if chars_start_with(t.as_slice(), ready.as_slice()) {
        let rest = chars_skip(t.as_slice(), 5);
        let p = trim_chars(rest.as_slice());
        if p.len() > 0 {
            ReadyMessage::Ready(Some(string_from_chars(p.as_slice())))
        } else {
            ReadyMessage::Ready(None)
        }
    } else if t.len() > 0 {
        ReadyMessage::Failed(String::from_str(msg))
    } else {
        ReadyMessage::Silent
    }
}

pub open spec fn started_marker() -> Seq<char> {
    seq!['S', 't', 'a', 'r', 't', 'e', 'd', ' ', 's', 'e', 's', 's', 'i', 'o', 'n', ' ', '\'']
}

/// The session name in a `Started session '<name>'` line of `start`'s
/// output: the text between the marker and the next quote, trimmed.
pub open spec fn spec_started_session_name(out: Seq<char>) -> Option<Seq<char>> {
    match find_from(out, started_marker(), 0) {
        Some(pos) => {
            let rest = out.skip(pos + 17);
            match find_from(rest, seq!['\''], 0) {
                Some(end) => Some(trim(rest.take(end))),
                None => None,
            }
        },
        None => None,
    }
}

pub fn parse_started_session_name(stdout: &str) -> (r: Option<String>)
    ensures
        match spec_started_session_name(stdout@) {
            Some(n) => r matches Some(s) && s@ == n,
            None => r is None,
        },
{
    let c = chars_of(stdout);
    let marker = vec!['S', 't', 'a', 'r', 't', 'e', 'd', ' ', 's', 'e', 's', 's', 'i', 'o', 'n', ' ', '\''];
    assert(marker@ =~= started_marker());
    assert(marker@.len() == 17);
    let cl = c.len();
    match find_chars(c.as_slice(), marker.as_slice()) {
        Some(pos) => {
            assert(find_from(stdout@, started_marker(), 0) == Some(pos as int));
            assert(pos + 17 <= cl);
            let rest = chars_skip(c.as_slice(), pos + 17);
            let quote = vec!['\''];
            assert(quote@ =~= seq!['\'']);
            match find_chars(rest.as_slice(), quote.as_slice()) {
                Some(end) => {
                    assert(rest@ == stdout@.skip(pos + 17));
                    assert(find_from(rest@, seq!['\''], 0) == Some(end as int));
                    let mut name: Vec<char> = Vec::new();
                    let mut i: usize = 0;
                    while i < end
                        invariant
                            end <= rest@.len(),
                            i <= end,
                            name@ == rest@.take(i as int),
                        decreases end - i,
                    {
                        name.push(rest[i]);
                        i = i + 1;
                        assert(name@ =~= rest@.take(i as int));
                    }
                    let t = trim_chars(name.as_slice());
                    Some(string_from_chars(t.as_slice()))
                },
                None => None,
            }
        },
        None => None,
    }
}

/// What the server does with a request.
pub enum RequestPlan {
    /// Send the screen as text, then stream the session's output.
    Subscribe,
    /// Serve an interactive client: resize to `size` (columns, rows) when
    /// one is given, repaint its screen, then relay both ways.
    Attach { size: Option<(u16, u16)> },
    /// Resize to `size` (columns, rows) when one is given; answer
    /// `resized`.
    Resize { size: Option<(u16, u16)> },
    /// Answer with the screen text.
    Read { lines: Option<usize>, all: bool, with_color: bool },
    /// Answer with the repaint payload.
    Redraw,
    /// Inject `payload` into the program; answer `sent`.
    Inject { payload: String },
    /// Answer with the session's description.
    Info,
    /// Rename the session to `name` (the requested name, trimmed), or
    /// refuse it for the reason in `check`.
    Rename { name: String, check: Result<(), SessionNameError> },
    /// Answer `pong`.
    Pong,
}

/// Decides what a request asks of the server.
pub fn plan_request(req: IpcRequest) -> (r: RequestPlan)
    ensures
        match req {
            IpcRequest::Subscribe => r is Subscribe,
            IpcRequest::Attach { cols, rows } => r matches RequestPlan::Attach { size } && size
                == match (cols, rows) {
                (Some(c), Some(w)) => if c > 0 && w > 0 {
                    Some((c, w))
                } else {
                    None
                },
                _ => None,
            },
            IpcRequest::Resize { cols, rows } => r matches RequestPlan::Resize { size } && size == if cols
                > 0 && rows > 0 {
                Some((cols, rows))
            } else {
                None
            },
            IpcRequest::Read { lines, all, with_color } => r == (RequestPlan::Read { lines, all, with_color }),
            IpcRequest::Redraw => r is Redraw,
            IpcRequest::Write { text, enter, bracketed_paste } => r matches RequestPlan::Inject { payload }
                && payload@ == spec_write_payload(text@, enter, bracketed_paste),
            IpcRequest::Info => r is Info,
            IpcRequest::Rename { new_name } => r matches RequestPlan::Rename { name, check } && name@
                == trim(new_name@) && check == spec_validate_session_name(
                trim(new_name@),
                vstd::utf8::encode_utf8(trim(new_name@)).len() as usize,
            ),
            IpcRequest::Ping => r is Pong,
        },
{
    match req {
        IpcRequest::Subscribe => RequestPlan::Subscribe,
        IpcRequest::Attach { cols, rows } => RequestPlan::Attach { size: attach_window_size(cols, rows) },
        IpcRequest::Resize { cols, rows } => {
            let size = if resize_applies(cols, rows) {
                Some((cols, rows))
            } else {
                None
            };
            RequestPlan::Resize { size }
        },
        IpcRequest::Read { lines, all, with_color } => RequestPlan::Read { lines, all, with_color },
        IpcRequest::Redraw => RequestPlan::Redraw,
        IpcRequest::Write { text, enter, bracketed_paste } => RequestPlan::Inject {
            payload: write_payload(text.as_str(), enter, bracketed_paste),
        },
        IpcRequest::Info => RequestPlan::Info,
        IpcRequest::Rename { new_name } => {
            let name = trim_chars_str(new_name.as_str());
            let check = validate_session_name(name.as_str());
            RequestPlan::Rename { name, check }
        },
        IpcRequest::Ping => RequestPlan::Pong,
    }
}

/// What a rename of the session's socket comes to.
pub enum RenameStep {
    /// The socket already has the asked-for path.
    AlreadyNamed,
    /// A live session already has the asked-for name: refused.
    TargetActive,
    /// Move the socket, first removing the dead socket at the new path when
    /// `remove_stale`.
    Move { remove_stale: bool },
}

/// Decides a rename: nothing to do when the socket's path `is_current`
/// already, refused when a live session serves at the new path, else a
/// move (over a dead socket left there, when one exists).
pub fn rename_step(is_current: bool, target_exists: bool, target_alive: bool) -> (r: RenameStep)
    ensures
        r == if is_current {
            RenameStep::AlreadyNamed
        } else if target_exists && target_alive {
            RenameStep::TargetActive
        } else {
            RenameStep::Move { remove_stale: target_exists }
        },
{
    if is_current {
        RenameStep::AlreadyNamed
    } else if target_exists && target_alive {
        RenameStep::TargetActive
    } else {
        RenameStep::Move { remove_stale: target_exists }
    }
}

/// The answer to a rename to `name`: that the session is named so already,
/// that a live session has the name, or (after a move) that it was renamed.
pub open spec fn rename_answer(step: RenameStep, name: Seq<char>) -> Seq<char> {
    match step {
        RenameStep::AlreadyNamed => "Session is already named '"@ + name + "'"@,
        RenameStep::TargetActive => "Cannot rename session: target session '"@ + name
            + "' already exists and is active"@,
        RenameStep::Move { .. } => "Renamed session to '"@ + name + "'"@,
    }
}

pub fn rename_reply(step: &RenameStep, name: &str) -> (r: String)
    ensures
        r@ == rename_answer(*step, name@),
{
    let mut v: Vec<char> = Vec::new();
    match step {
        RenameStep::AlreadyNamed => {
            push_str(&mut v, "Session is already named '");
            push_str(&mut v, name);
            push_str(&mut v, "'");
        },
        RenameStep::TargetActive => {
            push_str(&mut v, "Cannot rename session: target session '");
            push_str(&mut v, name);
            push_str(&mut v, "' already exists and is active");
        },
        RenameStep::Move { .. } => {
            push_str(&mut v, "Renamed session to '");
            push_str(&mut v, name);
            push_str(&mut v, "'");
        },
    }
    assert(v@ =~= rename_answer(*step, name@));
    string_from_chars(v.as_slice())
}

/// A connection is served only when its peer's credentials could be read
/// and name the user that the server runs as.
pub fn admit_peer(peer_uid: Option<u32>, own_uid: u32) -> (b: bool)
    ensures
        b == (peer_uid == Some(own_uid)),
{
    match peer_uid {
        Some(u) => u == own_uid,
        None => false,
    }
}

/// The signals on which the session ends: each is passed on to the
/// program, and the attached clients are told why the session ended.
#[derive(Debug, Clone, Copy, PartialEq, Eq, Structural)]
pub enum StopSignal {
    Terminate,
    Interrupt,
    Hangup,
}

/// What the clients are sent when the session ends on `sig`.
pub open spec fn stop_notice_text(sig: StopSignal) -> Seq<char> {
    match sig {
        StopSignal::Terminate => "\r\n[ttyman: Session terminated by SIGTERM]\r\n"@,
        StopSignal::Interrupt => "\r\n[ttyman: Session interrupted by SIGINT]\r\n"@,
        StopSignal::Hangup => "\r\n[ttyman: Session terminated by SIGHUP]\r\n"@,
    }
}

pub fn stop_notice(sig: StopSignal) -> (r: String)
    ensures
        r@ == stop_notice_text(sig),
{
    match sig {
        StopSignal::Terminate => String::from_str("\r\n[ttyman: Session terminated by SIGTERM]\r\n"),
        StopSignal::Interrupt => String::from_str("\r\n[ttyman: Session interrupted by SIGINT]\r\n"),
        StopSignal::Hangup => String::from_str("\r\n[ttyman: Session terminated by SIGHUP]\r\n"),
    }
}

/// How long the program is given to exit after the session signals it,
/// before it is killed, in milliseconds.
pub const CHILD_EXIT_GRACE_MS: u64 = 200;

/// The exit code reported for the program: its own, or 128 plus the number
/// of the signal that ended it.
pub fn program_exit_code(exit_code: Option<i32>, signal_number: i32) -> (c: i32)
    requires
        exit_code is None ==> signal_number <= i32::MAX - 128,
    ensures
        c == match exit_code {
            Some(code) => code as int,
            None => 128 + signal_number,
        },
{
    match exit_code {
        Some(code) => code,
        None => 128 + signal_number,
    }
}

/// What resolving the target of `attach` or `start` came to.
pub enum TargetSession {
    /// Nothing more to do: the request was answered already.
    Handled,
    /// The session's socket, and whether a session is serving there.
    Ready { sock_path: String, is_alive: bool },
    /// No session was named and none is current.
    Unspecified,
}

/// How a client that runs inside a session treats a request to attach.
pub enum NestedDecision {
    /// Refused: the target is the session the client runs in.
    AlreadyInSession,
    /// Not attached from inside another session; the client says so (and
    /// starts the target in the background when it is not running).
    NestedNotice,
    /// Go ahead.
    Proceed,
}

pub fn nested_decision(disallow_self_attach: bool, is_inside_session: bool, is_self_attach: bool) -> (r: NestedDecision)
    ensures
        disallow_self_attach && is_self_attach ==> r is AlreadyInSession,
        !(disallow_self_attach && is_self_attach) && is_inside_session && !is_self_attach
            ==> r is NestedNotice,
        !(disallow_self_attach && is_self_attach) && !(is_inside_session && !is_self_attach)
            ==> r is Proceed,
{
    if disallow_self_attach && is_self_attach {
        NestedDecision::AlreadyInSession
    } else if is_inside_session && !is_self_attach {
        NestedDecision::NestedNotice
    } else {
        NestedDecision::Proceed
    }
}

} // verus!
