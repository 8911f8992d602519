//! The arguments of the `ttyman` subcommands, and the computations of the
//! `list`, `play` and `run` subcommands.
use vstd::prelude::*;

use vstd::string::*;
use vstd::utf8::*;

use crate::attach::{join_words, str_views};
use crate::text::{chars_eq, chars_of, decimal, decimal_chars, decimal_padded, push_chars, push_str, string_from_chars};

verus! {

broadcast use vstd::string::group_string_axioms;

/// `ttyman attach`.
pub struct AttachArgs {
    pub no_resize: bool,
    pub config: Option<String>,
    pub session: Option<String>,
    pub command: Vec<String>,
}

/// `ttyman kill`.
pub struct KillArgs {
    pub session: Option<String>,
}

/// `ttyman list`.
pub struct ListArgs {
    pub json: bool,
    pub clean: bool,
}

/// `ttyman read`.
pub struct ReadArgs {
    pub lines: Option<usize>,
    pub all: bool,
    pub ansi: bool,
    pub session: Option<String>,
}

/// `ttyman record`.
pub struct RecordArgs {
    pub append: bool,
    pub file: Option<String>,
}

/// `ttyman rename`.
pub struct RenameArgs {
    pub session: Option<String>,
    pub new_name: String,
}

/// `ttyman run`.
pub struct RunArgs {
    pub session: Option<String>,
    pub config: Option<String>,
    pub term_mode: String,
    pub command: Vec<String>,
}

/// `ttyman start`.
pub struct StartArgs {
    pub config: Option<String>,
    pub session: Option<String>,
    pub command: Vec<String>,
}

/// `ttyman watch`.
pub struct WatchArgs {
    pub session: Option<String>,
}

/// `ttyman write`.
pub struct WriteArgs {
    pub text: Option<String>,
    pub enter: bool,
    pub bracketed_paste: bool,
    pub session: Option<String>,
}

/// One row of `ttyman list`.
pub struct SessionEntry {
    pub name: String,
    pub pid: u32,
    pub socket: String,
    pub command: Vec<String>,
    pub term_size: (u16, u16),
    pub clients: usize,
    pub age_secs: u64,
    pub is_alive: bool,
    pub is_current: bool,
}

/// A duration as `list` shows it: `42s`, `10m 05s` or `3h 07m`.
pub open spec fn spec_format_duration(secs: nat) -> Seq<char> {
    if secs < 60 {
        decimal(secs).push('s')
    } else if secs < 3600 {
        decimal(secs / 60) + seq!['m', ' '] + decimal_padded(secs % 60, 2) + seq!['s']
    } else {
        decimal(secs / 3600) + seq!['h', ' '] + decimal_padded((secs % 3600) / 60, 2) + seq!['m']
    }
}

fn push_padded2(v: &mut Vec<char>, n: u64)
    requires
        n < 100,
    ensures
        final(v)@ == old(v)@ + decimal_padded(n as nat, 2),
{
    let d = decimal_chars(n);
    if n < 10 {
        v.push('0');
        assert(Seq::new(1, |i: int| '0') =~= seq!['0']);
    } else {
        assert(decimal(n as nat).len() == decimal((n / 10) as nat).len() + 1);
    }
    push_chars(v, d.as_slice());
    assert(final(v)@ =~= old(v)@ + decimal_padded(n as nat, 2));
}

pub fn format_duration(secs: u64) -> (s: String)
    ensures
        s@ == spec_format_duration(secs as nat),
{
    let mut v: Vec<char> = Vec::new();
    if secs < 60 {
        let d = decimal_chars(secs);
        push_chars(&mut v, d.as_slice());
        v.push('s');
    } else if secs < 3600 {
        let d = decimal_chars(secs / 60);
        push_chars(&mut v, d.as_slice());
        v.push('m');
        v.push(' ');
        push_padded2(&mut v, secs % 60);
        v.push('s');
    } else {
        let d = decimal_chars(secs / 3600);
        push_chars(&mut v, d.as_slice());
        v.push('h');
        v.push(' ');
        push_padded2(&mut v, (secs % 3600) / 60);
        v.push('m');
    }
    assert(v@ =~= spec_format_duration(secs as nat));
    string_from_chars(v.as_slice())
}

/// The SIZE column: `<cols>x<rows>`, or `-` when the size is unknown.
pub fn size_display(term_size: (u16, u16)) -> (s: String)
    ensures
        s@ == if term_size.0 == 0 && term_size.1 == 0 {
            seq!['-']
        } else {
            decimal(term_size.1 as nat) + seq!['x'] + decimal(term_size.0 as nat)
        },
{
    let mut v: Vec<char> = Vec::new();
    if term_size.0 == 0 && term_size.1 == 0 {
        v.push('-');
    } else {
        let c = decimal_chars(term_size.1 as u64);
        push_chars(&mut v, c.as_slice());
        v.push('x');
        let r = decimal_chars(term_size.0 as u64);
        push_chars(&mut v, r.as_slice());
    }
    assert(v@ =~= if term_size.0 == 0 && term_size.1 == 0 {
        seq!['-']
    } else {
        decimal(term_size.1 as nat) + seq!['x'] + decimal(term_size.0 as nat)
    });
    string_from_chars(v.as_slice())
}

/// The CLIENTS column: the count, or `dead` for a session that is gone.
pub fn clients_display(is_alive: bool, clients: usize) -> (s: String)
    ensures
        s@ == if is_alive {
            decimal(clients as nat)
        } else {
            seq!['d', 'e', 'a', 'd']
        },
{
    if is_alive {
        let d = decimal_chars(clients as u64);
        string_from_chars(d.as_slice())
    } else {
        let v = vec!['d', 'e', 'a', 'd'];
        string_from_chars(v.as_slice())
    }
}

/// The AGE column: the formatted age, or `-` when it is unknown.
pub fn age_display(age_secs: u64) -> (s: String)
    ensures
        s@ == if age_secs > 0 {
            spec_format_duration(age_secs as nat)
        } else {
            seq!['-']
        },
{
    if age_secs > 0 {
        format_duration(age_secs)
    } else {
        let v = vec!['-'];
        string_from_chars(v.as_slice())
    }
}

/// How the AGE column shows a duration: under a minute as seconds; under
/// an hour as whole minutes and the remaining seconds in two digits;
/// otherwise as whole hours and the remaining whole minutes in two digits.
/// The parts shown add back up to the duration (to the minute, for hours).
pub proof fn lemma_duration_text(secs: nat)
    ensures
        secs < 60 ==> spec_format_duration(secs) == decimal(secs) + seq!['s'],
        60 <= secs < 3600 ==> exists|m: nat, r: nat|
            #![trigger decimal(m), decimal_padded(r, 2)]
            1 <= m < 60 && r < 60 && m * 60 + r == secs && spec_format_duration(secs) == decimal(m)
                + seq!['m', ' '] + decimal_padded(r, 2) + seq!['s'],
        secs >= 3600 ==> exists|h: nat, m: nat|
            #![trigger decimal(h), decimal_padded(m, 2)]
            h >= 1 && m < 60 && h * 3600 + m * 60 <= secs < h * 3600 + m * 60 + 60
                && spec_format_duration(secs) == decimal(h) + seq!['h', ' '] + decimal_padded(m, 2)
                + seq!['m'],
{
    if secs < 60 {
        assert(decimal(secs).push('s') =~= decimal(secs) + seq!['s']);
    } else if secs < 3600 {
        let m = secs / 60;
        let r = secs % 60;
        assert(m * 60 + r == secs && r < 60 && 1 <= m < 60) by (nonlinear_arith)
            requires
                60 <= secs < 3600,
                m == secs / 60,
                r == secs % 60,
        ;
        assert(spec_format_duration(secs) == decimal(m) + seq!['m', ' '] + decimal_padded(r, 2) + seq!['s']);
    } else {
        let h = secs / 3600;
        let m = (secs % 3600) / 60;
        assert(h >= 1 && m < 60 && h * 3600 + m * 60 <= secs < h * 3600 + m * 60 + 60) by (nonlinear_arith)
            requires
                secs >= 3600,
                h == secs / 3600,
                m == (secs % 3600) / 60,
        ;
        assert(spec_format_duration(secs) == decimal(h) + seq!['h', ' '] + decimal_padded(m, 2) + seq!['m']);
    }
}

/// `s` padded with spaces on the right to `w` characters (`{:<w}`).
pub open spec fn pad_right(s: Seq<char>, w: int) -> Seq<char> {
    if s.len() < w {
        s + Seq::new((w - s.len()) as nat, |i: int| ' ')
    } else {
        s
    }
}

fn push_padded(v: &mut Vec<char>, s: &str, w: usize)
    ensures
        final(v)@ == old(v)@ + pad_right(s@, w as int),
{
    let c = chars_of(s);
    push_chars(v, c.as_slice());
    let mut k = c.len();
    while k < w
        invariant
            c@ == s@,
            c@.len() <= k <= w || (k == c@.len() && k >= w),
            v@ == old(v)@ + s@ + Seq::new((k - c@.len()) as nat, |i: int| ' '),
        decreases w - k,
    {
        v.push(' ');
        k = k + 1;
        assert(v@ =~= old(v)@ + s@ + Seq::new((k - c@.len()) as nat, |i: int| ' '));
    }
    assert(v@ =~= old(v)@ + pad_right(s@, w as int));
}

/// A column cell shortened to fit: a text longer than `limit` bytes is cut
/// to its first `keep` bytes and marked with `...`.
pub open spec fn shortened(s: Seq<char>, limit: int, keep: int) -> Seq<char> {
    if encode_utf8(s).len() > limit {
        decode_utf8(encode_utf8(s).subrange(0, keep)) + "..."@
    } else {
        s
    }
}

/// Shortens a column cell; the cut must fall between characters (a cut
/// inside one is where `str` slicing panics).
pub fn shorten(s: &str, limit: usize, keep: usize) -> (r: String)
    requires
        s.spec_bytes().len() > limit ==> is_char_boundary(s.spec_bytes(), keep as int),
    ensures
        r@ == shortened(s@, limit as int, keep as int),
{
    broadcast use vstd::utf8::encode_utf8_decode_utf8;

    let n = s.as_bytes().len();
    if n > limit {
        let (head, _) = s.split_at(keep);
        let mut v: Vec<char> = Vec::new();
        push_str(&mut v, head);
        push_str(&mut v, "...");
        proof {
            assert(decode_utf8(encode_utf8(head@)) == head@);
            assert(head.spec_bytes() == encode_utf8(head@));
            assert(encode_utf8(head@) =~= encode_utf8(s@).subrange(0, keep as int));
            assert(encode_utf8(s@).len() > limit);
        }
        assert(v@ =~= shortened(s@, limit as int, keep as int));
        string_from_chars(v.as_slice())
    } else {
        assert(encode_utf8(s@).len() <= limit);
        String::from_str(s)
    }
}

/// The words of a command joined by spaces.
pub fn join_command(words: &Vec<String>) -> (r: String)
    ensures
        r@ == join_words(str_views(words@)),
{
    let ghost ws = str_views(words@);
    let mut v: Vec<char> = Vec::new();
    let mut i: usize = 0;
    assert(ws.take(0) =~= Seq::<Seq<char>>::empty());
    while i < words.len()
        invariant
            i <= words@.len(),
            ws == str_views(words@),
            v@ == join_words(ws.take(i as int)),
        decreases words@.len() - i,
    {
        if i > 0 {
            v.push(' ');
        }
        push_str(&mut v, words[i].as_str());
        proof {
            let t = ws.take(i as int + 1);
            assert(t.drop_last() =~= ws.take(i as int));
            assert(t.last() == words@[i as int]@);
            if i == 0 {
                assert(v@ =~= t[0]);
            } else {
                assert(v@ =~= join_words(t.drop_last()) + seq![' '] + t.last());
            }
        }
        i = i + 1;
    }
    assert(ws.take(words@.len() as int) =~= ws);
    string_from_chars(v.as_slice())
}

/// The header line of the `list` table.
pub open spec fn list_header_text() -> Seq<char> {
    "  "@ + pad_right("NAME"@, 18) + " "@ + pad_right("PID"@, 8) + " "@ + pad_right("COMMAND"@, 32) + " "@
        + pad_right("SIZE"@, 10) + " "@ + pad_right("CLIENTS"@, 9) + " "@ + pad_right("AGE"@, 10)
}

pub fn list_header() -> (r: String)
    ensures
        r@ == list_header_text(),
{
    let mut v: Vec<char> = Vec::new();
    push_str(&mut v, "  ");
    push_padded(&mut v, "NAME", 18);
    push_str(&mut v, " ");
    push_padded(&mut v, "PID", 8);
    push_str(&mut v, " ");
    push_padded(&mut v, "COMMAND", 32);
    push_str(&mut v, " ");
    push_padded(&mut v, "SIZE", 10);
    push_str(&mut v, " ");
    push_padded(&mut v, "CLIENTS", 9);
    push_str(&mut v, " ");
    push_padded(&mut v, "AGE", 10);
    assert(v@ =~= list_header_text());
    string_from_chars(v.as_slice())
}

/// A row of the `list` table: `* ` for the current session (else two
/// spaces), then the name (shortened past 17 bytes), the process id, the
/// command (shortened past 31 bytes), the size, the clients and the age,
/// each padded to its column.
pub open spec fn list_row_text(e: SessionEntry) -> Seq<char> {
    let marker = if e.is_current {
        "* "@
    } else {
        "  "@
    };
    let size = if e.term_size.0 == 0 && e.term_size.1 == 0 {
        seq!['-']
    } else {
        decimal(e.term_size.1 as nat) + seq!['x'] + decimal(e.term_size.0 as nat)
    };
    let clients = if e.is_alive {
        decimal(e.clients as nat)
    } else {
        seq!['d', 'e', 'a', 'd']
    };
    let age = if e.age_secs > 0 {
        spec_format_duration(e.age_secs as nat)
    } else {
        seq!['-']
    };
    marker + pad_right(shortened(e.name@, 17, 14), 18) + " "@ + pad_right(decimal(e.pid as nat), 8) + " "@
        + pad_right(shortened(join_words(str_views(e.command@)), 31, 28), 32) + " "@ + pad_right(size, 10)
        + " "@ + pad_right(clients, 9) + " "@ + pad_right(age, 10)
}

pub fn list_row(e: &SessionEntry) -> (r: String)
    requires
        encode_utf8(e.name@).len() > 17 ==> is_char_boundary(encode_utf8(e.name@), 14),
        encode_utf8(join_words(str_views(e.command@))).len() > 31 ==> is_char_boundary(
            encode_utf8(join_words(str_views(e.command@))),
            28,
        ),
    ensures
        r@ == list_row_text(*e),
{
    let mut v: Vec<char> = Vec::new();
    if e.is_current {
        push_str(&mut v, "* ");
    } else {
        push_str(&mut v, "  ");
    }
    let name = shorten(e.name.as_str(), 17, 14);
    push_padded(&mut v, name.as_str(), 18);
    push_str(&mut v, " ");
    let pid = decimal_chars(e.pid as u64);
    let pid_s = string_from_chars(pid.as_slice());
    push_padded(&mut v, pid_s.as_str(), 8);
    push_str(&mut v, " ");
    let cmd = join_command(&e.command);
    let cmd_s = shorten(cmd.as_str(), 31, 28);
    push_padded(&mut v, cmd_s.as_str(), 32);
    push_str(&mut v, " ");
    let size = size_display(e.term_size);
    push_padded(&mut v, size.as_str(), 10);
    push_str(&mut v, " ");
    let clients = clients_display(e.is_alive, e.clients);
    push_padded(&mut v, clients.as_str(), 9);
    push_str(&mut v, " ");
    let age = age_display(e.age_secs);
    push_padded(&mut v, age.as_str(), 10);
    assert(v@ =~= list_row_text(*e));
    string_from_chars(v.as_slice())
}

/// How long ago a session started; 0 when its start is unknown (0) or in
/// the future.
pub fn session_age(now_epoch_sec: u64, started_at_epoch_sec: u64) -> (age: u64)
    ensures
        age == if started_at_epoch_sec > 0 && now_epoch_sec >= started_at_epoch_sec {
            now_epoch_sec - started_at_epoch_sec
        } else {
            0
        },
{
    if started_at_epoch_sec > 0 && now_epoch_sec >= started_at_epoch_sec {
        now_epoch_sec - started_at_epoch_sec
    } else {
        0
    }
}

/// Whether a listed session is the one `$TTYMAN_SESSION` names, by name or
/// by process id.
pub fn is_current_session(current_session: Option<&str>, name: &str, pid: u32) -> (b: bool)
    ensures
        b == match current_session {
            Some(c) => c@ == name@ || c@ == decimal(pid as nat),
            None => false,
        },
{
    match current_session {
        Some(c) => {
            let cc = chars_of(c);
            let nc = chars_of(name);
            let pc = decimal_chars(pid as u64);
            chars_eq(cc.as_slice(), nc.as_slice()) || chars_eq(cc.as_slice(), pc.as_slice())
        },
        None => false,
    }
}

/// The time between two frame timestamps, in microseconds (negative when
/// the second is earlier).
pub fn calculate_frame_micros(prev_sec: u64, prev_usec: u32, cur_sec: u64, cur_usec: u32) -> (d: i64)
    requires
        prev_sec <= i64::MAX,
        cur_sec <= i64::MAX,
        i64::MIN <= (cur_sec - prev_sec) * 1_000_000 + (cur_usec - prev_usec) <= i64::MAX,
        i64::MIN <= (cur_sec - prev_sec) * 1_000_000 <= i64::MAX,
    ensures
        d == (cur_sec - prev_sec) * 1_000_000 + (cur_usec - prev_usec),
{
    let diff_sec = (cur_sec as i64) - (prev_sec as i64);
    let diff_usec = (cur_usec as i64) - (prev_usec as i64);
    diff_sec * 1_000_000 + diff_usec
}

/// Whether `run` gives the command a terminal: `never`, `always`, or (any
/// other mode) when standard input is a terminal.
pub fn use_tty(term_mode: &str, is_stdin_tty: bool) -> (b: bool)
    ensures
        b == if term_mode@ == seq!['n', 'e', 'v', 'e', 'r'] {
            false
        } else if term_mode@ == seq!['a', 'l', 'w', 'a', 'y', 's'] {
            true
        } else {
            is_stdin_tty
        },
{
    let m = chars_of(term_mode);
    let never = vec!['n', 'e', 'v', 'e', 'r'];
    let always = vec!['a', 'l', 'w', 'a', 'y', 's'];
    assert(never@ =~= seq!['n', 'e', 'v', 'e', 'r']);
    assert(always@ =~= seq!['a', 'l', 'w', 'a', 'y', 's']);
    if chars_eq(m.as_slice(), never.as_slice()) {
        false
    } else if chars_eq(m.as_slice(), always.as_slice()) {
        true
    } else {
        is_stdin_tty
    }
}

} // verus!
