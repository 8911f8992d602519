//! Shell completion scripts that complete `-s, --session` with the names of
//! the running sessions. The scripts themselves are generated by
//! `clap_complete`; this module rewrites what it generated so that the
//! session option asks `ttyman list --json` for its candidates.
use vstd::prelude::*;

use crate::terminal::join_lines;
use crate::text::{chars_end_with, chars_of, find_chars, find_from, occurs_at_exec, ends_with, push_chars, string_from_chars};

verus! {

broadcast use vstd::string::group_string_axioms;

/// The shells that completion scripts are generated for.
#[derive(Debug, Clone, Copy, PartialEq, Eq, Structural)]
pub enum CompletionShell {
    Bash,
    Elvish,
    Fish,
    PowerShell,
    Zsh,
}

/// `str::replace`: each occurrence of `from`, found from left to right and
/// not overlapping the one before, replaced by `to`.
pub open spec fn replace_all(s: Seq<char>, from: Seq<char>, to: Seq<char>) -> Seq<char>
    recommends
        from.len() > 0,
    decreases s.len(),
{
    if from.len() == 0 || s.len() < from.len() {
        s
    } else if s.take(from.len() as int) == from {
        to + replace_all(s.skip(from.len() as int), from, to)
    } else {
        seq![s[0]] + replace_all(s.skip(1), from, to)
    }
}

/// `str::replace` on characters.
pub fn replace_chars(s: &[char], from: &[char], to: &[char]) -> (v: Vec<char>)
    requires
        from@.len() > 0,
    ensures
        v@ == replace_all(s@, from@, to@),
{
    let n = s.len();
    let k = from.len();
    let mut v: Vec<char> = Vec::new();
    let mut i: usize = 0;
    assert(s@.skip(0) =~= s@);
    assert(v@ + replace_all(s@, from@, to@) =~= replace_all(s@, from@, to@));
    while i < n && k <= n - i
        invariant
            n == s@.len(),
            k == from@.len(),
            k > 0,
            i <= n,
            replace_all(s@, from@, to@) == v@ + replace_all(s@.skip(i as int), from@, to@),
        decreases n - i,
    {
        let ghost rest = s@.skip(i as int);
        let ghost before = v@;
        assert(rest.take(k as int) =~= s@.subrange(i as int, i + k));
        if occurs_at_exec(s, from, i) {
            assert(rest.skip(k as int) =~= s@.skip(i + k));
            push_chars(&mut v, to);
            i = i + k;
            assert(before + (to@ + replace_all(s@.skip(i as int), from@, to@)) =~= v@ + replace_all(
                s@.skip(i as int),
                from@,
                to@,
            ));
        } else {
            assert(rest.skip(1) =~= s@.skip(i + 1));
            v.push(s[i]);
            i = i + 1;
            assert(before + (seq![rest[0]] + replace_all(s@.skip(i as int), from@, to@)) =~= v@
                + replace_all(s@.skip(i as int), from@, to@));
        }
    }
    assert(replace_all(s@.skip(i as int), from@, to@) == s@.skip(i as int));
    let ghost base = v@;
    let mut j = i;
    while j < n
        invariant
            n == s@.len(),
            i <= j <= n,
            v@ == base + s@.subrange(i as int, j as int),
        decreases n - j,
    {
        v.push(s[j]);
        j = j + 1;
        assert(v@ =~= base + s@.subrange(i as int, j as int));
    }
    assert(s@.subrange(i as int, n as int) =~= s@.skip(i as int));
    v
}

/// The pieces of `s` between its newlines: one more than it has newlines.
pub open spec fn split_newlines(s: Seq<char>) -> Seq<Seq<char>>
    decreases s.len(),
{
    if s.len() == 0 {
        seq![Seq::empty()]
    } else {
        let p = split_newlines(s.drop_last());
        if s.last() == '\n' {
            p.push(Seq::empty())
        } else {
            p.update(p.len() - 1, p.last().push(s.last()))
        }
    }
}

/// A line that ended in `\r\n` loses its `\r`.
pub open spec fn strip_cr(l: Seq<char>) -> Seq<char> {
    if l.len() > 0 && l.last() == '\r' {
        l.drop_last()
    } else {
        l
    }
}

/// `str::lines`: the pieces between newlines, each that a newline ended
/// without its `\r`, and no last piece when it is empty (a final newline
/// ends the last line rather than starting another).
pub open spec fn str_lines(s: Seq<char>) -> Seq<Seq<char>> {
    let p = split_newlines(s);
    let body = Seq::new((p.len() - 1) as nat, |k: int| strip_cr(p[k]));
    if p.last().len() == 0 {
        body
    } else {
        body.push(p.last())
    }
}

pub open spec fn char_views(v: Seq<Vec<char>>) -> Seq<Seq<char>> {
    v.map_values(|l: Vec<char>| l@)
}

proof fn lemma_split_newlines_nonempty(s: Seq<char>)
    ensures
        split_newlines(s).len() >= 1,
    decreases s.len(),
{
    if s.len() > 0 {
        lemma_split_newlines_nonempty(s.drop_last());
    }
}

fn split_pieces(s: &[char]) -> (p: Vec<Vec<char>>)
    ensures
        char_views(p@) == split_newlines(s@),
        p@.len() >= 1,
{
    let n = s.len();
    let mut pieces: Vec<Vec<char>> = Vec::new();
    let mut cur: Vec<char> = Vec::new();
    let mut i: usize = 0;
    assert(s@.take(0) =~= Seq::<char>::empty());
    assert(char_views(pieces@).push(cur@) =~= seq![Seq::<char>::empty()]);
    while i < n
        invariant
            n == s@.len(),
            i <= n,
            split_newlines(s@.take(i as int)) == char_views(pieces@).push(cur@),
        decreases n - i,
    {
        let c = s[i];
        let ghost t = s@.take(i as int + 1);
        assert(t.drop_last() =~= s@.take(i as int));
        assert(t.last() == c);
        let ghost before = char_views(pieces@);
        if c == '\n' {
            pieces.push(cur);
            cur = Vec::new();
            assert(char_views(pieces@) =~= before.push(char_views(pieces@).last()));
            assert(split_newlines(t) =~= char_views(pieces@).push(cur@));
        } else {
            cur.push(c);
            assert(split_newlines(t) =~= char_views(pieces@).push(cur@));
        }
        i = i + 1;
    }
    assert(s@.take(n as int) =~= s@);
    let ghost before = char_views(pieces@);
    pieces.push(cur);
    assert(char_views(pieces@) =~= before.push(char_views(pieces@).last()));
    pieces
}

/// A copy of `s`.
fn copy_chars(s: &[char]) -> (v: Vec<char>)
    ensures
        v@ == s@,
{
    let mut v: Vec<char> = Vec::new();
    push_chars(&mut v, s);
    assert(v@ =~= s@);
    v
}

fn strip_cr_chars(l: &[char]) -> (v: Vec<char>)
    ensures
        v@ == strip_cr(l@),
{
    let n = l.len();
    if n > 0 && l[n - 1] == '\r' {
        let mut v: Vec<char> = Vec::new();
        let mut i: usize = 0;
        while i < n - 1
            invariant
                n == l@.len(),
                n > 0,
                i <= n - 1,
                v@ == l@.take(i as int),
            decreases n - 1 - i,
        {
            v.push(l[i]);
            i = i + 1;
            assert(v@ =~= l@.take(i as int));
        }
        assert(l@.drop_last() =~= l@.take(n - 1));
        v
    } else {
        copy_chars(l)
    }
}

/// `str::lines`, as characters.
pub fn lines_of(s: &[char]) -> (ls: Vec<Vec<char>>)
    ensures
        char_views(ls@) == str_lines(s@),
{
    let p = split_pieces(s);
    let m = p.len() - 1;
    let ghost pv = char_views(p@);
    let mut out: Vec<Vec<char>> = Vec::new();
    let mut k: usize = 0;
    while k < m
        invariant
            m == p@.len() - 1,
            pv == char_views(p@),
            k <= m,
            char_views(out@) == Seq::new(k as nat, |q: int| strip_cr(pv[q])),
        decreases m - k,
    {
        assert(pv[k as int] == p@[k as int]@);
        let l = strip_cr_chars(p[k].as_slice());
        assert(l@ == strip_cr(pv[k as int]));
        let ghost before = out@;
        out.push(l);
        assert(out@ == before.push(l));
        assert(char_views(out@) =~= char_views(before).push(l@));
        k = k + 1;
        assert(char_views(out@) =~= Seq::new(k as nat, |q: int| strip_cr(pv[q])));
    }
    assert(pv.last() == p@[m as int]@);
    if p[m].len() > 0 {
        let l = copy_chars(p[m].as_slice());
        let ghost before = char_views(out@);
        out.push(l);
        assert(char_views(out@) =~= before.push(pv.last()));
    }
    out
}

/// Lines joined by newlines, as characters.
pub fn join_char_lines(ls: &Vec<Vec<char>>) -> (v: Vec<char>)
    ensures
        v@ == join_lines(char_views(ls@)),
{
    let n = ls.len();
    let ghost lv = char_views(ls@);
    let mut v: Vec<char> = Vec::new();
    let mut i: usize = 0;
    assert(lv.take(0) =~= Seq::<Seq<char>>::empty());
    while i < n
        invariant
            n == ls@.len(),
            lv == char_views(ls@),
            i <= n,
            v@ == join_lines(lv.take(i as int)),
        decreases n - i,
    {
        let ghost before = v@;
        if i > 0 {
            v.push('\n');
        }
        push_chars(&mut v, ls[i].as_slice());
        proof {
            let t = lv.take(i as int + 1);
            assert(t.drop_last() =~= lv.take(i as int));
            assert(t.last() == ls@[i as int]@);
            if i == 0 {
                assert(v@ =~= t[0]);
            } else {
                assert(v@ =~= join_lines(t.drop_last()) + seq!['\n'] + t.last());
            }
        }
        i = i + 1;
    }
    assert(lv.take(n as int) =~= lv);
    v
}

/// The value that `clap_complete` gives the session option in a zsh script.
pub const ZSH_SESSION_DEFAULT: &'static str = ":SESSION:_default";

/// The zsh completer of session names.
pub const ZSH_SESSION_COMPLETER: &'static str = ":SESSION:_ttyman_sessions";

/// The zsh function that lists the running sessions.
pub const ZSH_SESSIONS_FN: &'static str = "\n\
_ttyman_sessions() {\n\
    local -a sessions\n\
    sessions=(${(f)\"$(ttyman list --json 2>/dev/null | sed -n 's/.*\"name\": \"\\([^\"]*\\)\".*/\\1/p' 2>/dev/null)\"})\n\
    _describe 'active session' sessions\n\
}\n";

/// The bash case that completes `--session` with file names.
pub const BASH_LONG_OPTION_FILES: &'static str = "                --session)\n                    COMPREPLY=($(compgen -f \"${cur}\"))\n                    return 0\n                    ;;";

/// The bash case that completes `--session` with session names.
pub const BASH_LONG_OPTION_SESSIONS: &'static str = "                --session)\n                    _ttyman_sessions\n                    return 0\n                    ;;";

/// The bash case that completes `-s` with file names.
pub const BASH_SHORT_OPTION_FILES: &'static str = "                -s)\n                    COMPREPLY=($(compgen -f \"${cur}\"))\n                    return 0\n                    ;;";

/// The bash case that completes `-s` with session names.
pub const BASH_SHORT_OPTION_SESSIONS: &'static str = "                -s)\n                    _ttyman_sessions\n                    return 0\n                    ;;";

/// The bash function that lists the running sessions.
pub const BASH_SESSIONS_FN: &'static str = "\n\
_ttyman_sessions() {\n\
    local sessions\n\
    sessions=$(ttyman list --json 2>/dev/null | sed -n 's/.*\"name\": \"\\([^\"]*\\)\".*/\\1/p' 2>/dev/null)\n\
    COMPREPLY=( $(compgen -W \"${sessions}\" -- \"${cur}\") )\n\
}\n";

/// What marks the fish completion of the session option.
pub const FISH_SESSION_OPTION: &'static str = "-l session";

/// How a fish completion that takes an argument ends.
pub const FISH_REQUIRES_ARGUMENT: &'static str = "-r";

/// What turns the fish completion of the session option to session names.
pub const FISH_SESSION_SOURCE: &'static str = " -f -a '(__fish_ttyman_sessions)'";

/// The fish function that lists the running sessions.
pub const FISH_SESSIONS_FN: &'static str = "\n\
function __fish_ttyman_sessions\n\
    ttyman list --json 2>/dev/null | sed -n 's/.*\"name\": \"\\([^\"]*\\)\".*/\\1/p' 2>/dev/null\n\
end\n";

/// A fish completion line: the one for the session option (it names
/// `-l session` and ends in `-r`) draws its candidates from the sessions.
pub open spec fn patch_fish_line(line: Seq<char>) -> Seq<char> {
    if find_from(line, FISH_SESSION_OPTION@, 0) is Some && ends_with(line, FISH_REQUIRES_ARGUMENT@) {
        line + FISH_SESSION_SOURCE@
    } else {
        line
    }
}

/// The completion script for `shell`, given what `clap_complete` generated:
/// for zsh, bash and fish the session option completes the running
/// sessions' names, through a function appended to the script; the other
/// shells' scripts are kept as generated.
pub open spec fn session_completion(shell: CompletionShell, generated: Seq<char>) -> Seq<char> {
    match shell {
        CompletionShell::Zsh => replace_all(generated, ZSH_SESSION_DEFAULT@, ZSH_SESSION_COMPLETER@)
            + ZSH_SESSIONS_FN@,
        CompletionShell::Bash => replace_all(
            replace_all(generated, BASH_LONG_OPTION_FILES@, BASH_LONG_OPTION_SESSIONS@),
            BASH_SHORT_OPTION_FILES@,
            BASH_SHORT_OPTION_SESSIONS@,
        ) + BASH_SESSIONS_FN@,
        CompletionShell::Fish => join_lines(str_lines(generated).map_values(|l: Seq<char>| patch_fish_line(l)))
            + FISH_SESSIONS_FN@,
        _ => generated,
    }
}

fn patch_fish_line_chars(line: &[char]) -> (v: Vec<char>)
    ensures
        v@ == patch_fish_line(line@),
{
    let opt = chars_of(FISH_SESSION_OPTION);
    let req = chars_of(FISH_REQUIRES_ARGUMENT);
    let mut v = copy_chars(line);
    let has_option = match find_chars(line, opt.as_slice()) {
        Some(_) => true,
        None => false,
    };
    if has_option && chars_end_with(line, req.as_slice()) {
        let src = chars_of(FISH_SESSION_SOURCE);
        push_chars(&mut v, src.as_slice());
    }
    v
}

fn replace_str(s: &[char], from: &str, to: &str) -> (v: Vec<char>)
    requires
        from@.len() > 0,
    ensures
        v@ == replace_all(s@, from@, to@),
{
    let f = chars_of(from);
    let t = chars_of(to);
    replace_chars(s, f.as_slice(), t.as_slice())
}

/// Rewrites a completion script that `clap_complete` generated for `shell`
/// so that `-s, --session` completes the names of the running sessions.
pub fn completion_script(shell: CompletionShell, generated: &str) -> (r: String)
    ensures
        r@ == session_completion(shell, generated@),
{
    let g = chars_of(generated);
    match shell {
        CompletionShell::Zsh => {
            proof {
                reveal_strlit(":SESSION:_default");
            }
            let mut v = replace_str(g.as_slice(), ZSH_SESSION_DEFAULT, ZSH_SESSION_COMPLETER);
            let f = chars_of(ZSH_SESSIONS_FN);
            push_chars(&mut v, f.as_slice());
            string_from_chars(v.as_slice())
        },
        CompletionShell::Bash => {
            proof {
                reveal_strlit("                --session)\n                    COMPREPLY=($(compgen -f \"${cur}\"))\n                    return 0\n                    ;;");
                reveal_strlit("                -s)\n                    COMPREPLY=($(compgen -f \"${cur}\"))\n                    return 0\n                    ;;");
            }
            let v1 = replace_str(g.as_slice(), BASH_LONG_OPTION_FILES, BASH_LONG_OPTION_SESSIONS);
            let mut v = replace_str(v1.as_slice(), BASH_SHORT_OPTION_FILES, BASH_SHORT_OPTION_SESSIONS);
            let f = chars_of(BASH_SESSIONS_FN);
            push_chars(&mut v, f.as_slice());
            string_from_chars(v.as_slice())
        },
        CompletionShell::Fish => {
            let ls = lines_of(g.as_slice());
            let ghost lv = char_views(ls@);
            let mut patched: Vec<Vec<char>> = Vec::new();
            let mut i: usize = 0;
            while i < ls.len()
                invariant
                    i <= ls@.len(),
                    lv == char_views(ls@),
                    char_views(patched@) == lv.take(i as int).map_values(|l: Seq<char>| patch_fish_line(l)),
                decreases ls@.len() - i,
            {
                assert(lv[i as int] == ls@[i as int]@);
                let p = patch_fish_line_chars(ls[i].as_slice());
                assert(p@ == patch_fish_line(lv[i as int]));
                let ghost before = patched@;
                patched.push(p);
                proof {
                    assert(patched@ == before.push(p));
                    assert(lv.take(i as int + 1) =~= lv.take(i as int).push(lv[i as int]));
                    assert(char_views(patched@) =~= char_views(before).push(p@));
                    assert(char_views(patched@) =~= lv.take(i as int + 1).map_values(
                        |l: Seq<char>| patch_fish_line(l),
                    ));
                }
                i = i + 1;
            }
            assert(lv.take(ls@.len() as int) =~= lv);
            let mut v = join_char_lines(&patched);
            let f = chars_of(FISH_SESSIONS_FN);
            push_chars(&mut v, f.as_slice());
            string_from_chars(v.as_slice())
        },
        _ => String::from_str(generated),
    }
}

} // verus!
