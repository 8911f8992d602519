//! The attaching client's decisions: reading the menu command's answer,
//! spotting the menu key in keyboard input, and keeping the history of
//! recently visited sessions.
use vstd::prelude::*;
use vstd::string::*;

use crate::ipc::{answered, socket_display_name};
use crate::text::{
    chars_eq_ignore_ascii_case, chars_of, chars_skip, chars_start_with, eq_ignore_ascii_case,
    push_str, starts_with, string_from_chars, trim, trim_chars,
};

verus! {

broadcast use vstd::string::group_string_axioms;

/// What the menu command's answer asks for.
pub enum MenuAction {
    Detach,
    /// Start a new anonymous session and switch to it.
    AttachNew,
    /// Switch to the named session (starting it when it is not running).
    AttachTo(String),
    /// Go back to the current screen.
    Cancel,
}

pub open spec fn detach_word() -> Seq<char> {
    seq!['d', 'e', 't', 'a', 'c', 'h']
}

pub open spec fn attach_word() -> Seq<char> {
    seq!['a', 't', 't', 'a', 'c', 'h']
}

/// The menu protocol: `detach`, `attach` and `attach <SESSION>` (the
/// single words in any ASCII case); anything else cancels.
/// Reads what a successful menu command wrote to standard output.
pub fn parse_menu_output(output: &str) -> (r: MenuAction)
    ensures
        ({
            let t = trim(output@);
            if eq_ignore_ascii_case(t, detach_word()) {
                r is Detach
            } else if eq_ignore_ascii_case(t, attach_word()) {
                r is AttachNew
            } else if starts_with(t, attach_word().push(' ')) {
                let target = trim(t.skip(7));
                if target.len() > 0 {
                    r matches MenuAction::AttachTo(s) && s@ == target
                } else {
                    r is AttachNew
                }
            } else {
                r is Cancel
            }
        }),
{
    let c = chars_of(output);
    let t = trim_chars(c.as_slice());
    let detach = vec!['d', 'e', 't', 'a', 'c', 'h'];
    let attach = vec!['a', 't', 't', 'a', 'c', 'h'];
    let attach_sp = vec!['a', 't', 't', 'a', 'c', 'h', ' '];
    assert(detach@ =~= detach_word());
    assert(attach@ =~= attach_word());
    assert(attach_sp@ =~= attach_word().push(' '));
    if chars_eq_ignore_ascii_case(t.as_slice(), detach.as_slice()) {
        MenuAction::Detach
    } else if chars_eq_ignore_ascii_case(t.as_slice(), attach.as_slice()) {
        MenuAction::AttachNew
    } else if chars_start_with(t.as_slice(), attach_sp.as_slice()) {
        let rest = chars_skip(t.as_slice(), 7);
        let target = trim_chars(rest.as_slice());
        if target.len() > 0 {
            MenuAction::AttachTo(string_from_chars(target.as_slice()))
        } else {
            MenuAction::AttachNew
        }
    } else {
        MenuAction::Cancel
    }
}

/// Where the menu key first appears in a chunk of keyboard input.
pub fn menu_key_position(buf: &[u8], key: u8) -> (r: Option<usize>)
    ensures
        r matches Some(p) ==> p < buf@.len() && buf@[p as int] == key && forall|j: int|
            0 <= j < p ==> buf@[j] != key,
        r is None ==> forall|j: int| 0 <= j < buf@.len() ==> buf@[j] != key,
{
    let mut i: usize = 0;
    while i < buf.len()
        invariant
            i <= buf@.len(),
            forall|j: int| 0 <= j < i ==> buf@[j] != key,
        decreases buf@.len() - i,
    {
        if buf[i] == key {
            return Some(i);
        }
        i = i + 1;
    }
    None
}

/// When the attached session ends and no visited session is left, the
/// client moves to the other live session whose socket changed last: the
/// first of those with the latest modification time.
pub fn most_recent(mtimes: &[u128]) -> (r: Option<usize>)
    ensures
        mtimes@.len() == 0 <==> r is None,
        r matches Some(i) ==> i < mtimes@.len() && (forall|j: int|
            0 <= j < mtimes@.len() ==> mtimes@[j] <= mtimes@[i as int]) && (forall|j: int|
            0 <= j < i ==> mtimes@[j] < mtimes@[i as int]),
{
    if mtimes.len() == 0 {
        return None;
    }
    let mut best: usize = 0;
    let mut i: usize = 1;
    while i < mtimes.len()
        invariant
            0 < mtimes@.len(),
            best < i <= mtimes@.len(),
            forall|j: int| 0 <= j < i ==> mtimes@[j] <= mtimes@[best as int],
            forall|j: int| 0 <= j < best ==> mtimes@[j] < mtimes@[best as int],
        decreases mtimes@.len() - i,
    {
        if mtimes[i] > mtimes[best] {
            best = i;
        }
        i = i + 1;
    }
    Some(best)
}

/// `h` without any occurrence of `x`, the rest in order.
pub open spec fn remove_all(h: Seq<Seq<char>>, x: Seq<char>) -> Seq<Seq<char>>
    decreases h.len(),
{
    if h.len() == 0 {
        h
    } else if h.last() == x {
        remove_all(h.drop_last(), x)
    } else {
        remove_all(h.drop_last(), x).push(h.last())
    }
}

pub open spec fn str_views(h: Seq<String>) -> Seq<Seq<char>> {
    h.map_values(|s: String| s@)
}

fn remove_all_exec(history: &Vec<String>, current: &str) -> (r: Vec<String>)
    ensures
        str_views(r@) == remove_all(str_views(history@), current@),
{
    let cur = chars_of(current);
    let mut kept: Vec<String> = Vec::new();
    let mut i: usize = 0;
    while i < history.len()
        invariant
            i <= history@.len(),
            cur@ == current@,
            str_views(kept@) == remove_all(str_views(history@.take(i as int)), current@),
        decreases history@.len() - i,
    {
        let hc = chars_of(history[i].as_str());
        let same = crate::text::chars_eq(hc.as_slice(), cur.as_slice());
        proof {
            let prefix = str_views(history@.take(i + 1));
            assert(prefix.drop_last() =~= str_views(history@.take(i as int)));
            assert(prefix.last() == history@[i as int]@);
        }
        if !same {
            kept.push(history[i].clone());
            assert(str_views(kept@) =~= remove_all(str_views(history@.take(i + 1)), current@));
        }
        i = i + 1;
    }
    assert(history@.take(history@.len() as int) =~= history@);
    kept
}

/// Records a visit to the session at `current`: it moves to the end of the
/// history (most recent last), and appears there once.
pub fn touch_history(history: &mut Vec<String>, current: &str)
    ensures
        str_views(final(history)@) == remove_all(str_views(old(history)@), current@).push(current@),
{
    let mut kept = remove_all_exec(history, current);
    kept.push(String::from_str(current));
    assert(str_views(kept@) =~= remove_all(str_views(old(history)@), current@).push(current@));
    *history = kept;
}

/// Removes a session that ended from the history.
pub fn forget_session(history: &mut Vec<String>, current: &str)
    ensures
        str_views(final(history)@) == remove_all(str_views(old(history)@), current@),
{
    let kept = remove_all_exec(history, current);
    *history = kept;
}

/// When the attached session ends, the client goes back to the most
/// recently visited session that is still alive: the history loses its
/// last entries down to and including that session, and the sessions
/// found dead on the way. `None` when no visited session is alive; the
/// history is then empty.
pub fn next_live_session<A: Fn(&str) -> bool>(history: &mut Vec<String>, alive: A) -> (r: Option<String>)
    requires
        forall|p: &str| alive.requires((p,)),
    ensures
        match r {
            Some(p) => exists|k: int|
                #![trigger old(history)@[k]]
                0 <= k < old(history)@.len() && final(history)@ == old(history)@.take(k) && p@ == old(
                    history,
                )@[k]@ && answered(alive, p@, true) && forall|j: int|
                    k < j < old(history)@.len() ==> answered(alive, #[trigger] old(history)@[j]@, false),
            None => final(history)@.len() == 0 && forall|j: int|
                0 <= j < old(history)@.len() ==> answered(alive, #[trigger] old(history)@[j]@, false),
        },
{
    let ghost h0 = history@;
    assert(h0.take(h0.len() as int) =~= h0);
    while history.len() > 0
        invariant
            forall|p: &str| alive.requires((p,)),
            h0 == old(history)@,
            history@.len() <= h0.len(),
            history@ == h0.take(history@.len() as int),
            forall|j: int| history@.len() <= j < h0.len() ==> answered(alive, #[trigger] h0[j]@, false),
        decreases history@.len(),
    {
        let ghost n = history@.len();
        let prev = history.pop().unwrap();
        assert(prev == h0[n - 1]);
        assert(history@ =~= h0.take(n - 1));
        let found = alive(prev.as_str());
        if found {
            assert(old(history)@[n - 1] == prev);
            assert(answered(alive, prev@, true));
            return Some(prev);
        }
        assert(answered(alive, h0[n - 1]@, false));
    }
    None
}

pub open spec fn no_duplicates(h: Seq<Seq<char>>) -> bool {
    forall|i: int, j: int| 0 <= i < j < h.len() ==> h[i] != h[j]
}

proof fn lemma_remove_all_props(h: Seq<Seq<char>>, x: Seq<char>)
    ensures
        forall|i: int| 0 <= i < remove_all(h, x).len() ==> #[trigger] remove_all(h, x)[i] != x,
        forall|i: int| 0 <= i < remove_all(h, x).len() ==> h.contains(#[trigger] remove_all(h, x)[i]),
        no_duplicates(h) ==> no_duplicates(remove_all(h, x)),
    decreases h.len(),
{
    if h.len() > 0 {
        let p = h.drop_last();
        lemma_remove_all_props(p, x);
        let r = remove_all(h, x);
        let rp = remove_all(p, x);
        assert forall|i: int| 0 <= i < r.len() implies h.contains(#[trigger] r[i]) by {
            if i < rp.len() {
                assert(p.contains(rp[i]));
                let k = choose|k: int| 0 <= k < p.len() && p[k] == rp[i];
                assert(h[k] == p[k]);
            } else {
                assert(h[h.len() - 1] == r[i]);
            }
        }
        if no_duplicates(h) {
            assert(no_duplicates(p)) by {
                assert forall|i: int, j: int| 0 <= i < j < p.len() implies p[i] != p[j] by {
                    assert(p[i] == h[i] && p[j] == h[j]);
                }
            }
            if h.last() != x {
                assert forall|i: int, j: int| 0 <= i < j < r.len() implies r[i] != r[j] by {
                    if j == r.len() - 1 {
                        assert(p.contains(rp[i]));
                        let k = choose|k: int| 0 <= k < p.len() && p[k] == rp[i];
                        assert(h[k] != h[h.len() - 1]);
                    } else {
                        assert(r[i] == rp[i] && r[j] == rp[j]);
                    }
                }
            }
        }
    }
}

/// The history of visited sessions never lists a session twice, and the
/// session just visited is the most recent entry.
pub proof fn lemma_history_touch(h: Seq<Seq<char>>, current: Seq<char>)
    requires
        no_duplicates(h),
    ensures
        no_duplicates(remove_all(h, current).push(current)),
        remove_all(h, current).push(current).last() == current,
{
    lemma_remove_all_props(h, current);
    let r = remove_all(h, current);
    let n = r.push(current);
    assert forall|i: int, j: int| 0 <= i < j < n.len() implies n[i] != n[j] by {
        if j == n.len() - 1 {
            assert(n[i] == r[i]);
        } else {
            assert(n[i] == r[i] && n[j] == r[j]);
        }
    }
}

/// Words joined by single spaces.
pub open spec fn join_words(ws: Seq<Seq<char>>) -> Seq<char>
    decreases ws.len(),
{
    if ws.len() == 0 {
        Seq::empty()
    } else if ws.len() == 1 {
        ws[0]
    } else {
        join_words(ws.drop_last()) + seq![' '] + ws.last()
    }
}

/// The session names of the history, most recent first.
pub open spec fn recent_names(history: Seq<String>) -> Seq<Seq<char>> {
    history.reverse().map_values(|p: String| socket_display_name(p@))
}

/// The `TTYMAN_RECENT_SESSIONS` value handed to the menu command: the names
/// of the visited sessions, most recent first, separated by spaces.
pub fn recent_sessions(history: &Vec<String>) -> (r: String)
    ensures
        r@ == join_words(recent_names(history@)),
{
    let mut v: Vec<char> = Vec::new();
    let n = history.len();
    let mut k: usize = 0;
    let ghost names = recent_names(history@);
    while k < n
        invariant
            n == history@.len(),
            k <= n,
            names == recent_names(history@),
            v@ == join_words(names.take(k as int)),
        decreases n - k,
    {
        let name = crate::ipc::parse_name_from_socket_path(history[n - 1 - k].as_str());
        proof {
            assert(names[k as int] == socket_display_name(history@[n - 1 - k]@));
            assert(names.take(k + 1).drop_last() =~= names.take(k as int));
        }
        if k > 0 {
            v.push(' ');
        }
        push_str(&mut v, name.as_str());
        proof {
            let t = names.take(k + 1);
            assert(t.last() == name@);
            if k == 0 {
                assert(v@ =~= t[0]);
            } else {
                assert(v@ =~= join_words(t.drop_last()) + seq![' '] + t.last());
            }
        }
        k = k + 1;
    }
    assert(names.take(n as int) =~= names);
    string_from_chars(v.as_slice())
}

} // verus!
