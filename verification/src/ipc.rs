//! Session names, socket paths and the IPC vocabulary that clients and the
//! session server exchange over a Unix domain socket.
use vstd::prelude::*;
use vstd::string::*;

use crate::text::{
    chars_end_with, chars_eq, chars_of, chars_skip, chars_start_with, decimal, decimal_chars, ends_with,
    push_chars, push_str, starts_with, string_from_chars, trim, trim_str,
};

verus! {

broadcast use vstd::string::group_string_axioms;

/// The environment variable that names the current session.
pub const DEFAULT_SESSION_VAR: &'static str = "TTYMAN_SESSION";

/// Session names are at most this many bytes long.
pub const MAX_SESSION_NAME_BYTES: usize = 64;

/// Why a session name is refused.
#[derive(Debug, Clone, Copy, PartialEq, Eq, Structural)]
pub enum SessionNameError {
    Empty,
    TooLong(usize),
    LeadingHyphen,
    Reserved,
    SockSuffix,
    InvalidCharacter,
}

/// ASCII letters and digits, `_`, `-` and `.`.
pub open spec fn session_name_char(c: char) -> bool {
    ('a' <= c <= 'z') || ('A' <= c <= 'Z') || ('0' <= c <= '9') || c == '_' || c == '-' || c == '.'
}

pub open spec fn sock_suffix() -> Seq<char> {
    seq!['.', 's', 'o', 'c', 'k']
}

/// The checks of `validate_session_name`, in the order it makes them, for a
/// name of characters `s` that takes `byte_len` bytes in UTF-8.
pub open spec fn spec_validate_session_name(s: Seq<char>, byte_len: usize) -> Result<(), SessionNameError> {
    if s.len() == 0 {
        Err(SessionNameError::Empty)
    } else if byte_len > MAX_SESSION_NAME_BYTES {
        Err(SessionNameError::TooLong(byte_len))
    } else if s[0] == '-' {
        Err(SessionNameError::LeadingHyphen)
    } else if s == seq!['.'] || s == seq!['.', '.'] {
        Err(SessionNameError::Reserved)
    } else if ends_with(s, sock_suffix()) {
        Err(SessionNameError::SockSuffix)
    } else if exists|i: int| 0 <= i < s.len() && !session_name_char(#[trigger] s[i]) {
        Err(SessionNameError::InvalidCharacter)
    } else {
        Ok(())
    }
}

/// The message that users see for a session name refused for `e`.
pub open spec fn name_refusal(name: Seq<char>, e: SessionNameError) -> Seq<char> {
    match e {
        SessionNameError::Empty => "Session name cannot be empty"@,
        SessionNameError::TooLong(n) => "Session name '"@ + name + "' is too long (max 64 characters, got "@
            + decimal(n as nat) + ")"@,
        SessionNameError::LeadingHyphen => "Session name '"@ + name + "' cannot start with a hyphen '-'"@,
        SessionNameError::Reserved => "Session name '"@ + name + "' is reserved and cannot be '.' or '..'"@,
        SessionNameError::SockSuffix => "Session name '"@ + name + "' cannot end with '.sock'"@,
        SessionNameError::InvalidCharacter => "Invalid session name '"@ + name
            + "': only ASCII alphanumeric characters, '_', '-', and '.' are allowed"@,
    }
}

/// The message for a session name `name` refused for `e`.
pub fn session_name_message(name: &str, e: SessionNameError) -> (r: String)
    ensures
        r@ == name_refusal(name@, e),
{
    let mut v: Vec<char> = Vec::new();
    match e {
        SessionNameError::Empty => {
            push_str(&mut v, "Session name cannot be empty");
        },
        SessionNameError::TooLong(n) => {
            push_str(&mut v, "Session name '");
            push_str(&mut v, name);
            push_str(&mut v, "' is too long (max 64 characters, got ");
            let d = decimal_chars(n as u64);
            push_chars(&mut v, d.as_slice());
            push_str(&mut v, ")");
        },
        SessionNameError::LeadingHyphen => {
            push_str(&mut v, "Session name '");
            push_str(&mut v, name);
            push_str(&mut v, "' cannot start with a hyphen '-'");
        },
        SessionNameError::Reserved => {
            push_str(&mut v, "Session name '");
            push_str(&mut v, name);
            push_str(&mut v, "' is reserved and cannot be '.' or '..'");
        },
        SessionNameError::SockSuffix => {
            push_str(&mut v, "Session name '");
            push_str(&mut v, name);
            push_str(&mut v, "' cannot end with '.sock'");
        },
        SessionNameError::InvalidCharacter => {
            push_str(&mut v, "Invalid session name '");
            push_str(&mut v, name);
            push_str(&mut v, "': only ASCII alphanumeric characters, '_', '-', and '.' are allowed");
        },
    }
    assert(v@ =~= name_refusal(name@, e));
    string_from_chars(v.as_slice())
}

/// A name that a session may take: 1 to 64 characters drawn from ASCII
/// letters, digits, `_`, `-` and `.`, not starting with `-`, not `.` or
/// `..`, and not ending in `.sock`.
pub open spec fn valid_session_name(s: Seq<char>) -> bool {
    &&& 0 < s.len() <= MAX_SESSION_NAME_BYTES
    &&& forall|i: int| 0 <= i < s.len() ==> session_name_char(#[trigger] s[i])
    &&& s[0] != '-'
    &&& s != seq!['.'] && s != seq!['.', '.']
    &&& !ends_with(s, sock_suffix())
}

#[verifier::loop_isolation(false)]
pub fn validate_session_name(name: &str) -> (r: Result<(), SessionNameError>)
    ensures
        r == spec_validate_session_name(name@, name.spec_bytes().len() as usize),
        r is Ok <==> valid_session_name(name@),
{
    let c = chars_of(name);
    let count = c.len();
    assert(name@.len() == count);
    if count == 0 {
        return Err(SessionNameError::Empty);
    }
    let byte_len = name.len();
    if byte_len > MAX_SESSION_NAME_BYTES {
        proof {
            lemma_name_bytes(name@, name.spec_bytes().len());
        }
        return Err(SessionNameError::TooLong(byte_len));
    }
    if c[0] == '-' {
        return Err(SessionNameError::LeadingHyphen);
    }
    let dot = vec!['.'];
    let dotdot = vec!['.', '.'];
    assert(dot@ =~= seq!['.']);
    assert(dotdot@ =~= seq!['.', '.']);
    if chars_eq(c.as_slice(), dot.as_slice()) || chars_eq(c.as_slice(), dotdot.as_slice()) {
        return Err(SessionNameError::Reserved);
    }
    let suffix = vec!['.', 's', 'o', 'c', 'k'];
    assert(suffix@ =~= sock_suffix());
    if chars_end_with(c.as_slice(), suffix.as_slice()) {
        return Err(SessionNameError::SockSuffix);
    }
    let mut i: usize = 0;
    while i < c.len()
        invariant
            i <= c@.len(),
            forall|j: int| 0 <= j < i ==> session_name_char(#[trigger] c@[j]),
        decreases c@.len() - i,
    {
        let ch = c[i];
        if !(('a' <= ch && ch <= 'z') || ('A' <= ch && ch <= 'Z') || ('0' <= ch && ch <= '9') || ch
            == '_' || ch == '-' || ch == '.') {
            proof {
                lemma_name_bytes(name@, name.spec_bytes().len());
            }
            return Err(SessionNameError::InvalidCharacter);
        }
        i = i + 1;
    }
    proof {
        lemma_name_bytes(name@, name.spec_bytes().len());
    }
    Ok(())
}

/// A name of ASCII characters takes one byte per character, so the byte
/// limit and the character limit agree on every name that passes the
/// character check.
proof fn lemma_name_bytes(s: Seq<char>, byte_len: nat)
    requires
        byte_len == vstd::utf8::encode_utf8(s).len(),
    ensures
        (forall|i: int| 0 <= i < s.len() ==> session_name_char(#[trigger] s[i])) ==> byte_len
            == s.len(),
    decreases s.len(),
{
    if forall|i: int| 0 <= i < s.len() ==> session_name_char(#[trigger] s[i]) {
        assert(vstd::utf8::is_ascii_chars(s)) by {
            assert forall|i: int| 0 <= i < s.len() implies '\0' <= #[trigger] s[i] <= '\u{7f}' by {
                assert(session_name_char(s[i]));
            }
        }
        vstd::utf8::is_ascii_chars_encode_utf8(s);
    }
}

/// Every socket file is named `ttyman-` followed by the session name.
pub open spec fn socket_prefix() -> Seq<char> {
    seq!['t', 't', 'y', 'm', 'a', 'n', '-']
}

/// The index of the last `/` in `s`.
pub open spec fn last_slash(s: Seq<char>) -> Option<int>
    decreases s.len(),
{
    if s.len() == 0 {
        None
    } else if s.last() == '/' {
        Some(s.len() - 1)
    } else {
        last_slash(s.drop_last())
    }
}

/// Where `last_slash` points: at a `/`, or nowhere when the string has none.
pub proof fn lemma_last_slash(s: Seq<char>)
    ensures
        last_slash(s) matches Some(i) ==> 0 <= i < s.len() && s[i] == '/',
        last_slash(s) is None ==> forall|j: int| 0 <= j < s.len() ==> s[j] != '/',
    decreases s.len(),
{
    if s.len() > 0 && s.last() != '/' {
        lemma_last_slash(s.drop_last());
        if last_slash(s) is None {
            assert forall|j: int| 0 <= j < s.len() implies s[j] != '/' by {
                if j < s.len() - 1 {
                    assert(s.drop_last()[j] == s[j]);
                }
            }
        }
    }
}

/// `Path::file_name` on a Unix path: its last component, when that is a
/// normal name. Components are separated by `/`; empty components and `.`
/// are skipped, and `..`, the root and the empty path have no file name.
pub open spec fn path_file_name(path: Seq<char>) -> Option<Seq<char>>
    decreases path.len(),
{
    match last_slash(path) {
        Some(i) => {
            proof {
                lemma_last_slash(path);
            }
            let seg = path.skip(i + 1);
            if seg.len() == 0 || seg == seq!['.'] {
                path_file_name(path.take(i))
            } else if seg == seq!['.', '.'] {
                None
            } else {
                Some(seg)
            }
        },
        None => if path.len() == 0 || path == seq!['.'] || path == seq!['.', '.'] {
            None
        } else {
            Some(path)
        },
    }
}

/// Calls `Path::file_name` on `path` and converts the component back to a
/// string (a path made from a `&str` always converts): the last component
/// of the path when it is a normal name, as std documents and
/// `path_file_name` states.
#[verifier::external_body]
fn file_name_of(path: &str) -> (r: Option<String>)
    ensures
        match r {
            Some(f) => path_file_name(path@) == Some(f@),
            None => path_file_name(path@) is None,
        },
{
    std::path::Path::new(path).file_name().and_then(|n| n.to_str()).map(|n| n.to_string())
}

/// The session name shown for a socket at `path` whose file name is
/// `file_name`: the file name without its `ttyman-` prefix, or the whole
/// path when there is no such file name.
pub open spec fn session_name_from(path: Seq<char>, file_name: Option<Seq<char>>) -> Seq<char> {
    match file_name {
        Some(f) => if starts_with(f, socket_prefix()) {
            f.skip(socket_prefix().len() as int)
        } else {
            path
        },
        None => path,
    }
}

pub open spec fn opt_str_view(o: Option<&str>) -> Option<Seq<char>> {
    match o {
        Some(s) => Some(s@),
        None => None,
    }
}

/// The session name shown for a socket path.
pub open spec fn socket_display_name(path: Seq<char>) -> Seq<char> {
    session_name_from(path, path_file_name(path))
}

fn prefix_chars() -> (v: Vec<char>)
    ensures
        v@ == socket_prefix(),
{
    let v = vec!['t', 't', 'y', 'm', 'a', 'n', '-'];
    assert(v@ =~= socket_prefix());
    v
}

/// The session name for a socket whose file name is already known.
pub fn name_from_file_name(path: &str, file_name: Option<&str>) -> (r: String)
    ensures
        r@ == session_name_from(path@, opt_str_view(file_name)),
{
    match file_name {
        Some(f) => {
            let fc = chars_of(f);
            let prefix = prefix_chars();
            if chars_start_with(fc.as_slice(), prefix.as_slice()) {
                let rest = chars_skip(fc.as_slice(), 7);
                string_from_chars(rest.as_slice())
            } else {
                String::from_str(path)
            }
        },
        None => String::from_str(path),
    }
}

/// The session name that a socket path stands for: the file name without
/// its `ttyman-` prefix, or the whole path.
pub fn parse_name_from_socket_path(path: &str) -> (r: String)
    ensures
        r@ == socket_display_name(path@),
{
    let f = file_name_of(path);
    match f {
        Some(name) => name_from_file_name(path, Some(name.as_str())),
        None => name_from_file_name(path, None),
    }
}

proof fn lemma_last_slash_append(y: Seq<char>, f: Seq<char>)
    requires
        forall|j: int| 0 <= j < f.len() ==> f[j] != '/',
    ensures
        last_slash(y + f) == last_slash(y),
    decreases f.len(),
{
    if f.len() == 0 {
        assert(y + f =~= y);
    } else {
        assert((y + f).drop_last() =~= y + f.drop_last());
        lemma_last_slash_append(y, f.drop_last());
    }
}

/// The socket path of a session reads back as the session's name: the
/// file name of `join_path(dir, "ttyman-" + n)` is that component, so
/// `parse_name_from_socket_path` gives `n` back, for every name without a
/// `/` (every valid session name, and every process id in decimal).
pub proof fn lemma_socket_path_roundtrip(dir: Seq<char>, n: Seq<char>)
    requires
        forall|j: int| 0 <= j < n.len() ==> n[j] != '/',
    ensures
        path_file_name(join_path(dir, socket_prefix() + n)) == Some(socket_prefix() + n),
        socket_display_name(join_path(dir, socket_prefix() + n)) == n,
{
    let f = socket_prefix() + n;
    assert forall|j: int| 0 <= j < f.len() implies f[j] != '/' by {
        if j >= 7 {
            assert(f[j] == n[j - 7]);
        }
    }
    let p = join_path(dir, f);
    if dir.len() == 0 {
        lemma_last_slash_append(Seq::empty(), f);
        assert(Seq::<char>::empty() + f =~= f);
        assert(f.len() >= 7);
        assert(f != seq!['.'] && f != seq!['.', '.']) by {
            assert(f.len() != 1 && f.len() != 2);
        }
    } else {
        let y = if dir.last() == '/' {
            dir
        } else {
            dir + seq!['/']
        };
        assert(p =~= y + f);
        lemma_last_slash_append(y, f);
        assert(last_slash(y) == Some(y.len() - 1));
        assert(p.skip(y.len() as int) =~= f);
        assert(f != seq!['.'] && f != seq!['.', '.']) by {
            assert(f.len() != 1 && f.len() != 2);
        }
    }
    lemma_socket_name_roundtrip(p, n);
}

/// Valid session names and decimal process ids hold no `/`, so their
/// socket paths read back (see `lemma_socket_path_roundtrip`).
pub proof fn lemma_socket_names_without_slash(n: Seq<char>, pid: u32)
    ensures
        valid_session_name(n) ==> forall|j: int| 0 <= j < n.len() ==> n[j] != '/',
        forall|j: int| 0 <= j < decimal(pid as nat).len() ==> decimal(pid as nat)[j] != '/',
{
    if valid_session_name(n) {
        assert forall|j: int| 0 <= j < n.len() implies n[j] != '/' by {
            assert(session_name_char(n[j]));
        }
    }
    crate::terminal::lemma_decimal_ascii(pid as nat);
}

/// A socket file named for session `n` is read back as `n`.
pub proof fn lemma_socket_name_roundtrip(path: Seq<char>, n: Seq<char>)
    ensures
        session_name_from(path, Some(socket_prefix() + n)) == n,
{
    let f = socket_prefix() + n;
    assert(f.take(7) =~= socket_prefix());
    assert(f.skip(7) =~= n);
}

/// `PathBuf::join` with a relative component: a separator is put between
/// the two unless `dir` is empty or already ends in one.
pub open spec fn join_path(dir: Seq<char>, name: Seq<char>) -> Seq<char> {
    if dir.len() == 0 {
        name
    } else if dir.last() == '/' {
        dir + name
    } else {
        dir + seq!['/'] + name
    }
}

pub fn join_chars(dir: &str, name: &[char]) -> (r: String)
    ensures
        r@ == join_path(dir@, name@),
{
    let mut v = chars_of(dir);
    if v.len() > 0 && v[v.len() - 1] != '/' {
        v.push('/');
    }
    push_chars(&mut v, name);
    string_from_chars(v.as_slice())
}

/// The socket of a session known by its server's process id, in
/// `runtime_dir`.
pub fn default_socket_path(runtime_dir: &str, pid: u32) -> (r: String)
    ensures
        r@ == join_path(runtime_dir@, socket_prefix() + decimal(pid as nat)),
{
    let mut f = prefix_chars();
    let d = decimal_chars(pid as u64);
    push_chars(&mut f, d.as_slice());
    join_chars(runtime_dir, f.as_slice())
}

/// The socket of the session named `name`, in `runtime_dir`.
pub fn named_socket_path(runtime_dir: &str, name: &str) -> (r: String)
    ensures
        r@ == join_path(runtime_dir@, socket_prefix() + name@),
{
    let mut f = prefix_chars();
    push_str(&mut f, name);
    join_chars(runtime_dir, f.as_slice())
}

/// The private runtime directory used when `$XDG_RUNTIME_DIR` is unset:
/// `/tmp/ttyman-<uid>`.
pub fn fallback_runtime_dir(uid: u32) -> (r: String)
    ensures
        r@ == seq!['/', 't', 'm', 'p', '/'] + socket_prefix() + decimal(uid as nat),
{
    let mut v = vec!['/', 't', 'm', 'p', '/'];
    let p = prefix_chars();
    push_chars(&mut v, p.as_slice());
    let d = decimal_chars(uid as u64);
    push_chars(&mut v, d.as_slice());
    assert(v@ =~= seq!['/', 't', 'm', 'p', '/'] + socket_prefix() + decimal(uid as nat));
    string_from_chars(v.as_slice())
}

/// The runtime directory that `$XDG_RUNTIME_DIR` names: its value without
/// surrounding whitespace, unless that is empty or the variable is unset.
pub fn runtime_dir_from_env(xdg_runtime_dir: Option<&str>) -> (r: Option<String>)
    ensures
        match xdg_runtime_dir {
            Some(v) => if trim(v@).len() > 0 {
                r matches Some(d) && d@ == trim(v@)
            } else {
                r is None
            },
            None => r is None,
        },
{
    match xdg_runtime_dir {
        Some(v) => {
            let t = trim_str(v);
            if t.as_str().is_empty() {
                None
            } else {
                Some(t)
            }
        },
        None => None,
    }
}

/// Why an existing fallback runtime directory is not used.
#[derive(Debug, Clone, Copy, PartialEq, Eq, Structural)]
pub enum RuntimeDirProblem {
    Symlink,
    NotDirectory,
    WrongOwner { owner: u32, expected: u32 },
}

/// The fallback directory is used only when it is a real directory (not a
/// symlink) owned by the current user.
pub fn check_runtime_dir(is_symlink: bool, is_dir: bool, owner_uid: u32, uid: u32) -> (r: Result<(), RuntimeDirProblem>)
    ensures
        r == if is_symlink {
            Err(RuntimeDirProblem::Symlink)
        } else if !is_dir {
            Err(RuntimeDirProblem::NotDirectory)
        } else if owner_uid != uid {
            Err(RuntimeDirProblem::WrongOwner { owner: owner_uid, expected: uid })
        } else {
            Ok(())
        },
{
    if is_symlink {
        Err(RuntimeDirProblem::Symlink)
    } else if !is_dir {
        Err(RuntimeDirProblem::NotDirectory)
    } else if owner_uid != uid {
        Err(RuntimeDirProblem::WrongOwner { owner: owner_uid, expected: uid })
    } else {
        Ok(())
    }
}

pub open spec fn is_digit(c: char) -> bool {
    '0' <= c <= '9'
}

/// The number that a string of decimal digits denotes.
pub open spec fn digits_value(s: Seq<char>) -> nat
    decreases s.len(),
{
    if s.len() == 0 {
        0
    } else {
        digits_value(s.drop_last()) * 10 + ((s.last() as u32) - ('0' as u32)) as nat
    }
}

/// `str::parse::<u32>`: an optional `+` followed by one or more decimal
/// digits whose value fits in 32 bits.
pub open spec fn all_digits(d: Seq<char>) -> bool {
    forall|i: int| 0 <= i < d.len() ==> is_digit(#[trigger] d[i])
}

/// The digits part of a number: without a leading `+`.
pub open spec fn unsigned_digits(s: Seq<char>) -> Seq<char> {
    if s.len() > 0 && s[0] == '+' {
        s.skip(1)
    } else {
        s
    }
}

pub open spec fn spec_parse_u32(s: Seq<char>) -> Option<u32> {
    let d = unsigned_digits(s);
    if d.len() > 0 && all_digits(d) && digits_value(d) <= u32::MAX {
        Some(digits_value(d) as u32)
    } else {
        None
    }
}

proof fn lemma_digits_value_grows(s: Seq<char>, k: int)
    requires
        0 <= k <= s.len(),
        forall|i: int| 0 <= i < s.len() ==> is_digit(#[trigger] s[i]),
    ensures
        digits_value(s.take(k)) <= digits_value(s),
    decreases s.len() - k,
{
    if k < s.len() {
        lemma_digits_value_grows(s.drop_last(), k);
        assert(s.drop_last().take(k) =~= s.take(k));
    } else {
        assert(s.take(k) =~= s);
    }
}

#[verifier::loop_isolation(false)]
pub fn parse_u32(s: &str) -> (r: Option<u32>)
    ensures
        r == spec_parse_u32(s@),
{
    let c = chars_of(s);
    let start: usize = if c.len() > 0 && c[0] == '+' {
        1
    } else {
        0
    };
    let ghost d = unsigned_digits(c@);
    assert(d =~= c@.skip(start as int));
    if c.len() == start {
        return None;
    }
    let mut value: u64 = 0;
    let mut i = start;
    while i < c.len()
        invariant
            start <= i <= c@.len(),
            d == c@.skip(start as int),
            forall|j: int| 0 <= j < i - start ==> is_digit(#[trigger] d[j]),
            value == digits_value(d.take(i - start)),
            value <= u32::MAX,
        decreases c@.len() - i,
    {
        let ch = c[i];
        if !('0' <= ch && ch <= '9') {
            proof {
                assert(!is_digit(d[i - start]));
                assert(c@ == s@);
                assert(!(forall|j: int| 0 <= j < d.len() ==> is_digit(#[trigger] d[j])));
                assert(!all_digits(d));
            }
            return None;
        }
        let digit = (ch as u32) - ('0' as u32);
        let next = value * 10 + digit as u64;
        proof {
            assert(d.take(i - start + 1).drop_last() =~= d.take(i - start));
        }
        if next > 0xFFFF_FFFFu64 {
            proof {
                assert forall|j: int| 0 <= j < i - start + 1 implies is_digit(
                    #[trigger] d.take(i - start + 1)[j],
                ) by {
                    if j < i - start {
                        assert(d.take(i - start + 1)[j] == d[j]);
                    }
                }
                assert(c@ == s@);
                if all_digits(d) {
                    lemma_digits_value_grows(d, i - start + 1);
                    assert(digits_value(d) > u32::MAX);
                }
            }
            return None;
        }
        value = next;
        i = i + 1;
    }
    assert(d.take(d.len() as int) =~= d);
    Some(value as u32)
}

/// The process id in a socket's file name `ttyman-<pid>`.
pub fn pid_from_file_name(file_name: Option<&str>) -> (r: Option<u32>)
    ensures
        match file_name {
            Some(f) => if starts_with(f@, socket_prefix()) {
                r == spec_parse_u32(f@.skip(7))
            } else {
                r is None
            },
            None => r is None,
        },
{
    match file_name {
        Some(f) => {
            let fc = chars_of(f);
            let prefix = prefix_chars();
            if chars_start_with(fc.as_slice(), prefix.as_slice()) {
                let rest = chars_skip(fc.as_slice(), 7);
                let s = string_from_chars(rest.as_slice());
                parse_u32(s.as_str())
            } else {
                None
            }
        },
        None => None,
    }
}

/// The process id that names a socket at `path`, if it is named for one.
pub fn parse_pid_from_socket_name(path: &str) -> (r: Option<u32>)
    ensures
        match path_file_name(path@) {
            Some(f) => if starts_with(f, socket_prefix()) {
                r == spec_parse_u32(f.skip(7))
            } else {
                r is None
            },
            None => r is None,
        },
{
    let f = file_name_of(path);
    match f {
        Some(name) => pid_from_file_name(Some(name.as_str())),
        None => pid_from_file_name(None),
    }
}

/// The places to look for the socket of session `name`, most preferred
/// first: by name in the runtime directory, by process id there (when the
/// name is a number), then the same two in the fallback directory. The
/// first that exists is taken, else the first.
pub open spec fn spec_socket_candidates(runtime_dir: Seq<char>, fallback_dir: Seq<char>, name: Seq<char>) -> Seq<Seq<char>> {
    match spec_parse_u32(name) {
        Some(pid) => seq![
            join_path(runtime_dir, socket_prefix() + name),
            join_path(runtime_dir, socket_prefix() + decimal(pid as nat)),
            join_path(fallback_dir, socket_prefix() + name),
            join_path(fallback_dir, socket_prefix() + decimal(pid as nat)),
        ],
        None => seq![
            join_path(runtime_dir, socket_prefix() + name),
            join_path(fallback_dir, socket_prefix() + name),
        ],
    }
}

pub fn socket_path_candidates(runtime_dir: &str, fallback_dir: &str, name: &str) -> (r: Result<Vec<String>, SessionNameError>)
    ensures
        match spec_validate_session_name(name@, name.spec_bytes().len() as usize) {
            Err(e) => r == Err::<Vec<String>, SessionNameError>(e),
            Ok(()) => r matches Ok(v) && v@.map_values(|p: String| p@) == spec_socket_candidates(
                runtime_dir@,
                fallback_dir@,
                name@,
            ),
        },
{
    match validate_session_name(name) {
        Err(e) => return Err(e),
        Ok(()) => {},
    }
    let mut v: Vec<String> = Vec::new();
    match parse_u32(name) {
        Some(pid) => {
            v.push(named_socket_path(runtime_dir, name));
            v.push(default_socket_path(runtime_dir, pid));
            v.push(named_socket_path(fallback_dir, name));
            v.push(default_socket_path(fallback_dir, pid));
        },
        None => {
            v.push(named_socket_path(runtime_dir, name));
            v.push(named_socket_path(fallback_dir, name));
        },
    }
    assert(v@.map_values(|p: String| p@) =~= spec_socket_candidates(runtime_dir@, fallback_dir@, name@));
    Ok(v)
}

/// `path_exists` answered `b` when asked about the path `path`.
pub open spec fn answered<E: Fn(&str) -> bool>(path_exists: E, path: Seq<char>, b: bool) -> bool {
    exists|q: &str| #![trigger path_exists.ensures((q,), b)] q@ == path && path_exists.ensures((q,), b)
}

/// The first of the candidates `c` that exists, or `None` when `path_exists`
/// answered false for each.
pub open spec fn first_existing<E: Fn(&str) -> bool>(c: Seq<Seq<char>>, path_exists: E, r: Option<Seq<char>>) -> bool {
    match r {
        Some(p) => exists|k: int|
            #![trigger c[k]]
            0 <= k < c.len() && p == c[k] && answered(path_exists, c[k], true) && forall|j: int|
                0 <= j < k ==> answered(path_exists, #[trigger] c[j], false),
        None => forall|j: int| 0 <= j < c.len() ==> answered(path_exists, #[trigger] c[j], false),
    }
}

fn find_existing<E: Fn(&str) -> bool>(cands: &Vec<String>, path_exists: &E) -> (r: Option<usize>)
    requires
        forall|p: &str| path_exists.requires((p,)),
    ensures
        match r {
            Some(k) => k < cands@.len() && answered(*path_exists, cands@[k as int]@, true) && forall|j: int|
                0 <= j < k ==> answered(*path_exists, #[trigger] cands@[j]@, false),
            None => forall|j: int| 0 <= j < cands@.len() ==> answered(*path_exists, #[trigger] cands@[j]@, false),
        },
{
    let mut i: usize = 0;
    while i < cands.len()
        invariant
            i <= cands@.len(),
            forall|p: &str| path_exists.requires((p,)),
            forall|j: int| 0 <= j < i ==> answered(*path_exists, #[trigger] cands@[j]@, false),
        decreases cands@.len() - i,
    {
        let q = cands[i].as_str();
        let b = path_exists(q);
        if b {
            return Some(i);
        }
        assert(answered(*path_exists, cands@[i as int]@, false));
        i = i + 1;
    }
    None
}

/// The socket of the session `name`: the first of its candidate paths that
/// `path_exists` finds, else the first candidate; an invalid name is refused.
pub fn locate_socket<E: Fn(&str) -> bool>(runtime_dir: &str, fallback_dir: &str, name: &str, path_exists: E) -> (r: Result<String, SessionNameError>)
    requires
        forall|p: &str| path_exists.requires((p,)),
    ensures
        match spec_validate_session_name(name@, name.spec_bytes().len() as usize) {
            Err(e) => r == Err::<String, SessionNameError>(e),
            Ok(()) => r matches Ok(p) && {
                let c = spec_socket_candidates(runtime_dir@, fallback_dir@, name@);
                ||| first_existing(c, path_exists, Some(p@))
                ||| (first_existing(c, path_exists, None) && p@ == c[0])
            },
        },
{
    let cands = match socket_path_candidates(runtime_dir, fallback_dir, name) {
        Ok(v) => v,
        Err(e) => return Err(e),
    };
    let ghost c = spec_socket_candidates(runtime_dir@, fallback_dir@, name@);
    assert(cands@.len() == c.len());
    assert(forall|j: int| 0 <= j < c.len() ==> #[trigger] c[j] == cands@[j]@);
    match find_existing(&cands, &path_exists) {
        Some(k) => {
            assert(c[k as int] == cands@[k as int]@);
            Ok(cands[k].clone())
        },
        None => {
            assert(c[0] == cands@[0]@);
            Ok(cands[0].clone())
        },
    }
}

/// Where a client's socket is, before falling back to the session of
/// `$TTYMAN_PID`: the named session's socket (`target`), else that of the
/// session in `$TTYMAN_SESSION` (`env_session`) when it is a valid name
/// and one of its candidate paths path_exists; `Ok(None)` when neither gives
/// one.
pub fn resolve_socket<E: Fn(&str) -> bool>(
    runtime_dir: &str,
    fallback_dir: &str,
    target: Option<&str>,
    env_session: Option<&str>,
    path_exists: E,
) -> (r: Result<Option<String>, SessionNameError>)
    requires
        forall|p: &str| path_exists.requires((p,)),
    ensures
        match target {
            Some(t) => match spec_validate_session_name(t@, t.spec_bytes().len() as usize) {
                Err(e) => r == Err::<Option<String>, SessionNameError>(e),
                Ok(()) => r matches Ok(Some(p)) && {
                    let c = spec_socket_candidates(runtime_dir@, fallback_dir@, t@);
                    ||| first_existing(c, path_exists, Some(p@))
                    ||| (first_existing(c, path_exists, None) && p@ == c[0])
                },
            },
            None => match env_session {
                Some(s) => if valid_session_name(s@) {
                    r matches Ok(o) && first_existing(
                        spec_socket_candidates(runtime_dir@, fallback_dir@, s@),
                        path_exists,
                        match o {
                            Some(p) => Some(p@),
                            None => None,
                        },
                    )
                } else {
                    r == Ok::<Option<String>, SessionNameError>(None)
                },
                None => r == Ok::<Option<String>, SessionNameError>(None),
            },
        },
{
    match target {
        Some(t) => {
            let located = locate_socket(runtime_dir, fallback_dir, t, path_exists);
            match located {
                Ok(p) => {
                    assert(spec_validate_session_name(t@, t.spec_bytes().len() as usize) is Ok);
                    Ok(Some(p))
                },
                Err(e) => Err(e),
            }
        },
        None => match env_session {
            Some(s) => {
                if validate_session_name(s).is_err() {
                    return Ok(None);
                }
                let cands = match socket_path_candidates(runtime_dir, fallback_dir, s) {
                    Ok(v) => v,
                    Err(_) => return Ok(None),
                };
                let ghost c = spec_socket_candidates(runtime_dir@, fallback_dir@, s@);
                assert(forall|j: int| 0 <= j < c.len() ==> #[trigger] c[j] == cands@[j]@);
                match find_existing(&cands, &path_exists) {
                    Some(k) => {
                        assert(c[k as int] == cands@[k as int]@);
                        Ok(Some(cands[k].clone()))
                    },
                    None => Ok(None),
                }
            },
            None => Ok(None),
        },
    }
}

/// What a session reports about itself.
pub struct SessionInfo {
    pub pid: u32,
    pub started_at_epoch_sec: u64,
    pub command: Vec<String>,
    pub term_size: (u16, u16),
    pub persist: bool,
    pub clients: usize,
    pub pty_slave_path: Option<String>,
}

/// A request from a client to a session.
#[allow(inconsistent_fields)]
pub enum IpcRequest {
    Read { lines: Option<usize>, all: bool, with_color: bool },
    Redraw,
    Write { text: String, enter: bool, bracketed_paste: bool },
    Subscribe,
    Attach { cols: Option<u16>, rows: Option<u16> },
    Resize { cols: u16, rows: u16 },
    Rename { new_name: String },
    Info,
    Ping,
}

/// A session's answer to a request. `Success` is the reply that the wire
/// format tags `Ok`.
pub enum IpcResponse {
    Success(String),
    Info(SessionInfo),
    Error(String),
}

} // verus!
