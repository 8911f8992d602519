//! In-memory VT100 terminal model of a session's screen and scrollback,
//! kept by the `vt100` crate, and the text that `read` and redraws make of
//! it.
use vstd::prelude::*;

use crate::text::{
    chars_of, decimal, digit_char, decimal_chars, is_white_char, push_chars, string_from_chars, trim, trim_end,
    trim_end_str,
};

verus! {

broadcast use vstd::string::group_string_axioms;

/// The `vt100` parser, held opaque. Verus cannot declare `vt100::Parser`
/// itself: its type parameter is bounded by the crate's own `Callbacks`
/// trait.
#[verifier::external_body]
pub struct VtParser {
    inner: vt100::Parser,
}

/// The screen size, `(rows, cols)`, that a parser was made or last resized
/// with.
pub uninterp spec fn vt_dims(p: VtParser) -> (u16, u16);

/// The parser's state is one that its printing handles: the screen is at
/// least two columns wide, and in neither of its two grids does a wide
/// character stand in the last column with its second half cut off. (On a
/// one-column screen, or at such a cut character, which a resize to fewer
/// columns can leave, the crate's `Screen::text` and `Row::erase` index
/// past the end of the row and panic.)
pub uninterp spec fn vt_printable(p: VtParser) -> bool;

/// The parser that `vt100::Parser::new` makes.
pub uninterp spec fn vt_fresh(rows: u16, cols: u16, scrollback_len: usize) -> VtParser;

/// The parser after `vt100::Parser::process` fed it `data`.
pub uninterp spec fn vt_after(p: VtParser, data: Seq<u8>) -> VtParser;

/// The parser after `vt100::Screen::set_size`.
pub uninterp spec fn vt_resized(p: VtParser, rows: u16, cols: u16) -> VtParser;

/// The parser after `vt100::Screen::set_scrollback(rows)`.
pub uninterp spec fn vt_scrolled(p: VtParser, rows: usize) -> VtParser;

/// What `vt100::Screen::scrollback` returns: the view's offset into the
/// history.
pub uninterp spec fn vt_offset(p: VtParser) -> usize;

/// The text of each row in view, as `vt100::Screen::rows` gives it.
pub uninterp spec fn vt_screen_rows(p: VtParser, start: u16, width: u16) -> Seq<Seq<char>>;

/// Each row in view with its escape sequences, as
/// `vt100::Screen::rows_formatted` gives it.
pub uninterp spec fn vt_formatted_rows(p: VtParser, start: u16, width: u16) -> Seq<Seq<u8>>;

/// The cursor's `(row, col)`, as `vt100::Screen::cursor_position` gives it.
pub uninterp spec fn vt_cursor(p: VtParser) -> (u16, u16);

/// The formatted screen, as `vt100::Screen::contents_formatted` gives it.
pub uninterp spec fn vt_contents(p: VtParser) -> Seq<u8>;

/// Whether the cursor is hidden, as `vt100::Screen::hide_cursor` gives it.
pub uninterp spec fn vt_cursor_hidden(p: VtParser) -> bool;

/// Calls `vt100::Parser::new` (rows and columns as given, with room for
/// `scrollback_len` lines of history). The crate builds both of its grids
/// at that size.
#[verifier::external_body]
fn vt_new(rows: u16, cols: u16, scrollback_len: usize) -> (r: VtParser)
    requires
        rows > 0,
        cols > 0,
    ensures
        r == vt_fresh(rows, cols, scrollback_len),
        vt_dims(r) == (rows, cols),
        cols >= 2 ==> vt_printable(r),
{
    VtParser { inner: vt100::Parser::new(rows, cols, scrollback_len) }
}

/// Calls `vt100::Parser::process`: feeds terminal output to the model.
/// Only `Screen::set_size` resizes the crate's grids, so the size stays.
/// The crate places a wide character only where both its halves fit, and
/// where it shifts cells off the end of a row (`Row::truncate`) it clears a
/// wide character that it cuts, so a printable state stays printable.
#[verifier::external_body]
fn vt_process(p: &mut VtParser, data: &[u8])
    requires
        vt_printable(*old(p)),
    ensures
        *final(p) == vt_after(*old(p), data@),
        vt_dims(*final(p)) == vt_dims(*old(p)),
        vt_printable(*final(p)),
{
    p.inner.process(data)
}

/// Calls `vt100::Screen::set_size`, which resizes both grids to the given
/// size. Rows are added blank or dropped whole, and a row is widened with
/// blank cells, so a printable state stays printable unless columns are
/// taken away (`Row::resize` cuts without clearing) or fewer than two
/// remain.
#[verifier::external_body]
fn vt_set_size(p: &mut VtParser, rows: u16, cols: u16)
    requires
        rows > 0,
        cols > 0,
    ensures
        *final(p) == vt_resized(*old(p), rows, cols),
        vt_dims(*final(p)) == (rows, cols),
        vt_printable(*old(p)) && cols >= 2 && cols >= vt_dims(*old(p)).1 ==> vt_printable(*final(p)),
{
    p.inner.screen_mut().set_size(rows, cols)
}

/// Calls `vt100::Screen::set_scrollback`: scrolls the view back by `rows`
/// lines, clamped by the crate to the history that exists. Only the view's
/// offset changes (the crate sets it and nothing else), so the size stays
/// and scrolling the result anywhere is scrolling the parser given there.
#[verifier::external_body]
fn vt_set_scrollback(p: &mut VtParser, rows: usize)
    ensures
        *final(p) == vt_scrolled(*old(p), rows),
        vt_dims(*final(p)) == vt_dims(*old(p)),
        vt_printable(*final(p)) == vt_printable(*old(p)),
        forall|b: usize| #[trigger] vt_scrolled(*final(p), b) == vt_scrolled(*old(p), b),
{
    p.inner.screen_mut().set_scrollback(rows)
}

/// Calls `vt100::Screen::scrollback`: the current scrollback offset.
#[verifier::external_body]
fn vt_scrollback(p: &VtParser) -> (r: usize)
    ensures
        r == vt_offset(*p),
{
    p.inner.screen().scrollback()
}

/// Calls `vt100::Screen::size`: `(rows, cols)` of the grid in use; both
/// grids always have the same size.
#[verifier::external_body]
fn vt_size(p: &VtParser) -> (r: (u16, u16))
    ensures
        r == vt_dims(*p),
{
    p.inner.screen().size()
}

/// Calls `vt100::Screen::rows`: the plain text of each visible row,
/// collected top to bottom.
#[verifier::external_body]
fn vt_rows(p: &VtParser, start: u16, width: u16) -> (r: Vec<String>)
    ensures
        str_views(r@) == vt_screen_rows(*p, start, width),
{
    p.inner.screen().rows(start, width).collect()
}

/// Calls `vt100::Screen::rows_formatted`: each visible row with its
/// escape sequences, collected top to bottom.
#[verifier::external_body]
fn vt_rows_formatted(p: &VtParser, start: u16, width: u16) -> (r: Vec<Vec<u8>>)
    ensures
        r@.map_values(|b: Vec<u8>| b@) == vt_formatted_rows(*p, start, width),
{
    p.inner.screen().rows_formatted(start, width).collect()
}

/// Calls `vt100::Screen::cursor_position`: `(row, col)`.
#[verifier::external_body]
fn vt_cursor_position(p: &VtParser) -> (r: (u16, u16))
    ensures
        r == vt_cursor(*p),
{
    p.inner.screen().cursor_position()
}

/// Calls `vt100::Screen::contents_formatted`: the whole screen with its
/// escape sequences.
#[verifier::external_body]
fn vt_contents_formatted(p: &VtParser) -> (r: Vec<u8>)
    ensures
        r@ == vt_contents(*p),
{
    p.inner.screen().contents_formatted()
}

/// Calls `vt100::Screen::hide_cursor`.
#[verifier::external_body]
fn vt_hide_cursor(p: &VtParser) -> (r: bool)
    ensures
        r == vt_cursor_hidden(*p),
{
    p.inner.screen().hide_cursor()
}

/// The text that `String::from_utf8_lossy` makes of `bytes`.
pub uninterp spec fn lossy_utf8(bytes: Seq<u8>) -> Seq<char>;

/// Calls `String::from_utf8_lossy`: valid UTF-8 is decoded as it is (std
/// documents that the bytes are then returned unchanged); other input is
/// named and nothing more is claimed of it.
#[verifier::external_body]
fn utf8_lossy(bytes: &[u8]) -> (s: String)
    ensures
        s@ == lossy_utf8(bytes@),
        vstd::utf8::valid_utf8(bytes@) ==> s@ == vstd::utf8::decode_utf8(bytes@),
{
    String::from_utf8_lossy(bytes).to_string()
}

/// The last row among the first `k` that holds anything but whitespace.
pub open spec fn last_content_row(rows: Seq<Seq<char>>, k: int) -> Option<int>
    decreases k,
{
    if k <= 0 {
        None
    } else if trim(rows[k - 1]).len() > 0 {
        Some(k - 1)
    } else {
        last_content_row(rows, k - 1)
    }
}

/// How many visible rows a snapshot shows: down to the last row with
/// content or the cursor's row, whichever is lower, and no more than the
/// screen has.
pub open spec fn spec_active_rows(visible: Seq<Seq<char>>, cursor_row: int, rows: int) -> int {
    let base = match last_content_row(visible, visible.len() as int) {
        Some(idx) => if idx + 1 > cursor_row + 1 {
            idx + 1
        } else {
            cursor_row + 1
        },
        None => cursor_row + 1,
    };
    if base < rows {
        base
    } else {
        rows
    }
}

pub open spec fn str_views(v: Seq<String>) -> Seq<Seq<char>> {
    v.map_values(|s: String| s@)
}

fn is_blank(s: &str) -> (b: bool)
    ensures
        b == (trim(s@).len() == 0),
{
    let c = chars_of(s);
    let t = crate::text::trim_chars(c.as_slice());
    t.len() == 0
}

pub fn active_visible_rows(visible: &Vec<String>, cursor_row: u16, rows: u16) -> (n: usize)
    ensures
        n == spec_active_rows(str_views(visible@), cursor_row as int, rows as int),
{
    let ghost v = str_views(visible@);
    let mut k = visible.len();
    while k > 0 && is_blank(visible[k - 1].as_str())
        invariant
            k <= visible@.len(),
            v == str_views(visible@),
            last_content_row(v, visible@.len() as int) == last_content_row(v, k as int),
        decreases k,
    {
        k = k - 1;
    }
    let cursor_next = cursor_row as usize + 1;
    let base = if k > 0 {
        assert(last_content_row(v, k as int) == Some(k - 1));
        if k > cursor_next {
            k
        } else {
            cursor_next
        }
    } else {
        cursor_next
    };
    if base < rows as usize {
        base
    } else {
        rows as usize
    }
}

/// Lines joined by newlines.
pub open spec fn join_lines(ls: Seq<Seq<char>>) -> Seq<char>
    decreases ls.len(),
{
    if ls.len() == 0 {
        Seq::empty()
    } else if ls.len() == 1 {
        ls[0]
    } else {
        join_lines(ls.drop_last()) + seq!['\n'] + ls.last()
    }
}

/// The lines a snapshot keeps: all of them, or the last `lines` of them
/// (the last screenful when no count is given).
pub open spec fn selected_lines(all_lines: Seq<Seq<char>>, rows: u16, lines: Option<usize>, all: bool) -> Seq<Seq<char>> {
    if all {
        all_lines
    } else {
        let n: int = match lines {
            Some(n) => n as int,
            None => rows as int,
        };
        let count = if n < all_lines.len() {
            n
        } else {
            all_lines.len() as int
        };
        all_lines.skip(all_lines.len() - count)
    }
}

pub open spec fn trim_lines(ls: Seq<Seq<char>>) -> Seq<Seq<char>> {
    ls.map_values(|l: Seq<char>| trim_end(l))
}

/// The text of a snapshot: the selected lines, each without trailing
/// whitespace, joined by newlines.
pub open spec fn snapshot_text(all_lines: Seq<Seq<char>>, rows: u16, lines: Option<usize>, all: bool) -> Seq<char> {
    join_lines(trim_lines(selected_lines(all_lines, rows, lines, all)))
}

pub fn select_and_join(all_lines: &Vec<String>, rows: u16, lines: Option<usize>, all: bool) -> (s: String)
    ensures
        s@ == snapshot_text(str_views(all_lines@), rows, lines, all),
{
    let total = all_lines.len();
    let start: usize = if all {
        0
    } else {
        let n: usize = match lines {
            Some(n) => n,
            None => rows as usize,
        };
        let count = if n < total {
            n
        } else {
            total
        };
        total - count
    };
    let ghost sel = selected_lines(str_views(all_lines@), rows, lines, all);
    let ghost trimmed = trim_lines(sel);
    assert(sel =~= str_views(all_lines@).skip(start as int));
    let mut v: Vec<char> = Vec::new();
    let mut i = start;
    while i < total
        invariant
            total == all_lines@.len(),
            start <= i <= total,
            sel == str_views(all_lines@).skip(start as int),
            trimmed == trim_lines(sel),
            v@ == join_lines(trimmed.take(i - start)),
        decreases total - i,
    {
        let line = trim_end_str(all_lines[i].as_str());
        proof {
            assert(trimmed[i - start] == trim_end(all_lines@[i as int]@));
            assert(trimmed.take(i - start + 1).drop_last() =~= trimmed.take(i - start));
        }
        if i > start {
            v.push('\n');
        }
        let lc = chars_of(line.as_str());
        push_chars(&mut v, lc.as_slice());
        proof {
            let t = trimmed.take(i - start + 1);
            assert(t.last() == lc@);
            if i == start {
                assert(v@ =~= t[0]);
            } else {
                assert(v@ =~= join_lines(t.drop_last()) + seq!['\n'] + t.last());
            }
        }
        i = i + 1;
    }
    assert(trimmed.take(total - start) =~= trimmed);
    string_from_chars(v.as_slice())
}

/// The rows of the page in view, as `read` takes them: the plain rows, or
/// the formatted rows decoded (lossily) as UTF-8.
pub open spec fn page_lines(p: VtParser, cols: u16, with_color: bool) -> Seq<Seq<char>> {
    if with_color {
        vt_formatted_rows(p, 0, cols).map_values(|b: Seq<u8>| lossy_utf8(b))
    } else {
        vt_screen_rows(p, 0, cols)
    }
}

/// The history, oldest first, read a page of `r` rows at a time: the view
/// is scrolled back `remaining` lines and the top `min(remaining, r)` rows
/// of that page are taken, then the rest is read the same way.
pub open spec fn scroll_lines(p: VtParser, remaining: nat, r: nat, cols: u16, with_color: bool) -> Seq<Seq<char>>
    decreases remaining,
{
    if remaining == 0 || r == 0 {
        Seq::empty()
    } else {
        let chunk: nat = if remaining < r {
            remaining
        } else {
            r
        };
        let page = page_lines(vt_scrolled(p, remaining as usize), cols, with_color);
        let k: int = if chunk < page.len() {
            chunk as int
        } else {
            page.len() as int
        };
        page.take(k) + scroll_lines(p, (remaining - chunk) as nat, r, cols, with_color)
    }
}

/// All the lines a read of the screen chooses from: the whole history
/// (scrolling back as far as it goes), then the rows of the screen down to
/// the last one in use (`spec_active_rows`, counted on the plain rows).
pub open spec fn screen_lines(p: VtParser, with_color: bool) -> Seq<Seq<char>> {
    let rows = vt_dims(p).0;
    let cols = vt_dims(p).1;
    let z = vt_scrolled(p, 0);
    let history = scroll_lines(p, vt_offset(vt_scrolled(p, usize::MAX)) as nat, rows as nat, cols, with_color);
    let shown = page_lines(z, cols, with_color);
    let active = spec_active_rows(vt_screen_rows(z, 0, cols), vt_cursor(z).0 as int, rows as int);
    let n: int = if active < shown.len() {
        active
    } else {
        shown.len() as int
    };
    history + shown.take(n)
}

proof fn lemma_scroll_lines_same(p: VtParser, q: VtParser, remaining: nat, r: nat, cols: u16, with_color: bool)
    requires
        forall|b: usize| #[trigger] vt_scrolled(p, b) == vt_scrolled(q, b),
    ensures
        scroll_lines(p, remaining, r, cols, with_color) == scroll_lines(q, remaining, r, cols, with_color),
    decreases remaining,
{
    if remaining > 0 && r > 0 {
        let chunk: nat = if remaining < r {
            remaining
        } else {
            r
        };
        assert(vt_scrolled(p, remaining as usize) == vt_scrolled(q, remaining as usize));
        lemma_scroll_lines_same(p, q, (remaining - chunk) as nat, r, cols, with_color);
    }
}

/// Two parsers that differ at most in where their view is scrolled to show
/// the same lines.
proof fn lemma_screen_lines_same(p: VtParser, q: VtParser, with_color: bool)
    requires
        forall|b: usize| #[trigger] vt_scrolled(p, b) == vt_scrolled(q, b),
        vt_dims(p) == vt_dims(q),
    ensures
        screen_lines(p, with_color) == screen_lines(q, with_color),
{
    assert(vt_scrolled(p, 0) == vt_scrolled(q, 0));
    assert(vt_scrolled(p, usize::MAX) == vt_scrolled(q, usize::MAX));
    lemma_scroll_lines_same(
        p,
        q,
        vt_offset(vt_scrolled(p, usize::MAX)) as nat,
        vt_dims(p).0 as nat,
        vt_dims(p).1,
        with_color,
    );
}

pub open spec fn ascii_bytes(s: Seq<char>) -> Seq<u8> {
    s.map_values(|c: char| (c as u32) as u8)
}

pub open spec fn redraw_prefix() -> Seq<u8> {
    seq![0x1bu8, 0x5b, 0x30, 0x6d, 0x1b, 0x5b, 0x32, 0x4a, 0x1b, 0x5b, 0x48]
}

/// The bytes that repaint a client's screen: reset attributes, clear the
/// screen and home the cursor (`ESC[0m ESC[2J ESC[H`), the formatted screen
/// contents, then move the cursor to its place (`ESC[<row+1>;<col+1>H`) and
/// hide or show it (`ESC[?25l` / `ESC[?25h`).
pub open spec fn spec_redraw(contents: Seq<u8>, row: u16, col: u16, hidden: bool) -> Seq<u8> {
    redraw_prefix() + contents + seq![0x1bu8, 0x5b] + ascii_bytes(decimal(row as nat + 1)) + seq![
        0x3bu8,
    ] + ascii_bytes(decimal(col as nat + 1)) + seq![0x48u8] + seq![0x1bu8, 0x5b, 0x3f, 0x32, 0x35]
        + if hidden {
        seq![0x6cu8]
    } else {
        seq![0x68u8]
    }
}

proof fn lemma_digit_char(d: nat)
    requires
        d < 10,
    ensures
        48 <= (digit_char(d) as u32) <= 57,
{
    assert((48 + d) as char as u32 == 48 + d);
}

pub(crate) proof fn lemma_decimal_ascii(n: nat)
    ensures
        forall|i: int| 0 <= i < decimal(n).len() ==> 48 <= (#[trigger] decimal(n)[i] as u32) <= 57,
    decreases n,
{
    if n < 10 {
        lemma_digit_char(n);
    } else {
        lemma_decimal_ascii(n / 10);
        lemma_digit_char(n % 10);
        let p = decimal(n / 10);
        assert forall|i: int| 0 <= i < decimal(n).len() implies 48 <= (#[trigger] decimal(n)[i] as u32) <= 57 by {
            if i < p.len() {
                assert(decimal(n)[i] == p[i]);
            }
        }
    }
}

fn push_decimal_bytes(v: &mut Vec<u8>, n: u64)
    ensures
        final(v)@ == old(v)@ + ascii_bytes(decimal(n as nat)),
{
    let d = decimal_chars(n);
    proof {
        lemma_decimal_ascii(n as nat);
    }
    let mut i: usize = 0;
    while i < d.len()
        invariant
            i <= d@.len(),
            d@ == decimal(n as nat),
            v@ == old(v)@ + ascii_bytes(d@.take(i as int)),
        decreases d@.len() - i,
    {
        let c = d[i];
        proof {
            lemma_decimal_ascii(n as nat);
            assert(c == decimal(n as nat)[i as int]);
        }
        assert(48 <= (c as u32) <= 57);
        let b = (c as u32) as u8;
        assert(b == (c as u32) as u8);
        v.push(b);
        i = i + 1;
        assert(v@ =~= old(v)@ + ascii_bytes(d@.take(i as int)));
    }
    assert(d@.take(d@.len() as int) =~= d@);
}

pub fn redraw_bytes(contents: &[u8], row: u16, col: u16, hidden: bool) -> (v: Vec<u8>)
    ensures
        v@ == spec_redraw(contents@, row, col, hidden),
{
    let mut v: Vec<u8> = Vec::new();
    v.extend_from_slice(&[0x1bu8, 0x5b, 0x30, 0x6d, 0x1b, 0x5b, 0x32, 0x4a, 0x1b, 0x5b, 0x48]);
    v.extend_from_slice(contents);
    v.push(0x1b);
    v.push(0x5b);
    push_decimal_bytes(&mut v, row as u64 + 1);
    v.push(0x3b);
    push_decimal_bytes(&mut v, col as u64 + 1);
    v.push(0x48);
    v.extend_from_slice(&[0x1bu8, 0x5b, 0x3f, 0x32, 0x35]);
    if hidden {
        v.push(0x6c);
    } else {
        v.push(0x68);
    }
    assert(v@ =~= spec_redraw(contents@, row, col, hidden));
    v
}

/// In-memory virtual terminal emulator (VT100) model for screen state and
/// scrollback history inspection.
pub struct Terminal {
    parser: VtParser,
}

impl Terminal {
    /// The state of the screen model.
    pub closed spec fn state(&self) -> VtParser {
        self.parser
    }

    /// The screen model can take the program's output (see
    /// `vt_printable`).
    pub open spec fn printable(&self) -> bool {
        vt_printable(self.state())
    }

    /// The screen size, `(rows, cols)`.
    pub open spec fn screen_size(&self) -> (u16, u16) {
        vt_dims(self.state())
    }

    /// The lines a read chooses from (see `screen_lines`).
    pub open spec fn lines_of(&self, with_color: bool) -> Seq<Seq<char>> {
        screen_lines(self.state(), with_color)
    }

    /// The text that `read(lines, all, with_color)` gives.
    pub open spec fn text(&self, lines: Option<usize>, all: bool, with_color: bool) -> Seq<char> {
        snapshot_text(self.lines_of(with_color), self.screen_size().0, lines, all)
    }

    /// A terminal of the given size (24 rows or 80 columns stand in for a
    /// zero) keeping `scrollback_len` lines of history.
    pub fn new(rows: u16, cols: u16, scrollback_len: usize) -> (r: Self)
        ensures
            r.state() == vt_fresh(
                if rows > 0 {
                    rows
                } else {
                    24u16
                },
                if cols > 0 {
                    cols
                } else {
                    80u16
                },
                scrollback_len,
            ),
            r.screen_size() == (if rows > 0 {
                rows
            } else {
                24u16
            }, if cols > 0 {
                cols
            } else {
                80u16
            }),
            cols != 1 ==> r.printable(),
    {
        let r = if rows > 0 {
            rows
        } else {
            24
        };
        let c = if cols > 0 {
            cols
        } else {
            80
        };
        Self { parser: vt_new(r, c, scrollback_len) }
    }

    /// Feeds the program's output to the screen model; the size stays.
    pub fn process(&mut self, data: &[u8])
        requires
            old(self).printable(),
        ensures
            final(self).printable(),
            final(self).state() == vt_after(old(self).state(), data@),
            final(self).screen_size() == old(self).screen_size(),
    {
        vt_process(&mut self.parser, data)
    }

    /// Resizes the screen; a zero dimension leaves it as it is.
    pub fn set_size(&mut self, rows: u16, cols: u16)
        ensures
            final(self).state() == if rows == 0 || cols == 0 {
                old(self).state()
            } else {
                vt_resized(old(self).state(), rows, cols)
            },
            final(self).screen_size() == if rows == 0 || cols == 0 {
                old(self).screen_size()
            } else {
                (rows, cols)
            },
            old(self).printable() && (rows == 0 || cols == 0 || (cols >= 2 && cols
                >= old(self).screen_size().1)) ==> final(self).printable(),
    {
        if rows == 0 || cols == 0 {
            return ;
        }
        vt_set_size(&mut self.parser, rows, cols)
    }

    /// `(rows, cols)`.
    pub fn size(&self) -> (r: (u16, u16))
        ensures
            r == self.screen_size(),
    {
        vt_size(&self.parser)
    }

    /// The screen as text: the scrollback history from oldest to newest,
    /// then the visible rows down to the last one in use; of these all
    /// lines (`all`), the last `lines`, or the last screenful. Each line
    /// loses its trailing whitespace and the lines are joined by newlines;
    /// with `with_color` the lines keep their escape sequences. The view is
    /// left scrolled to the bottom, so reading again gives the same text.
    pub fn read(&mut self, lines: Option<usize>, all: bool, with_color: bool) -> (s: String)
        ensures
            s@ == old(self).text(lines, all, with_color),
            final(self).state() == vt_scrolled(old(self).state(), 0),
            forall|b: usize| #[trigger]
                vt_scrolled(final(self).state(), b) == vt_scrolled(old(self).state(), b),
            final(self).screen_size() == old(self).screen_size(),
            final(self).printable() == old(self).printable(),
            forall|l: Option<usize>, a: bool, c: bool| #[trigger]
                final(self).text(l, a, c) == old(self).text(l, a, c),
    {
        let ghost p0 = self.parser;
        vt_set_scrollback(&mut self.parser, usize::MAX);
        let total_scrollback = vt_scrollback(&self.parser);
        let (rows, cols) = vt_size(&self.parser);
        let r_size = rows as usize;
        let ghost history = scroll_lines(p0, total_scrollback as nat, rows as nat, cols, with_color);
        let mut all_lines: Vec<String> = Vec::new();
        let mut remaining = total_scrollback;
        while remaining > 0 && r_size > 0
            invariant
                vt_dims(self.parser) == vt_dims(p0),
                vt_printable(self.parser) == vt_printable(p0),
                forall|b: usize| #[trigger] vt_scrolled(self.parser, b) == vt_scrolled(p0, b),
                r_size == rows as usize,
                history == str_views(all_lines@) + scroll_lines(
                    p0,
                    remaining as nat,
                    rows as nat,
                    cols,
                    with_color,
                ),
            decreases remaining,
        {
            let chunk_size = if remaining < r_size {
                remaining
            } else {
                r_size
            };
            vt_set_scrollback(&mut self.parser, remaining);
            let ghost q = vt_scrolled(p0, remaining);
            let ghost pl = page_lines(q, cols, with_color);
            let ghost acc = str_views(all_lines@);
            let ghost k: int = if chunk_size < pl.len() {
                chunk_size as int
            } else {
                pl.len() as int
            };
            assert(self.parser == q);
            if with_color {
                let page = vt_rows_formatted(&self.parser, 0, cols);
                assert(pl.len() == page@.len());
                let mut j: usize = 0;
                while j < chunk_size && j < page.len()
                    invariant
                        j <= page@.len(),
                        j <= chunk_size,
                        pl.len() == page@.len(),
                        forall|i: int| 0 <= i < pl.len() ==> #[trigger] pl[i] == lossy_utf8(page@[i]@),
                        str_views(all_lines@) == acc + pl.take(j as int),
                    decreases chunk_size - j,
                {
                    let line = utf8_lossy(page[j].as_slice());
                    let ghost before = all_lines@;
                    assert(line@ == pl[j as int]);
                    all_lines.push(line);
                    assert(str_views(all_lines@) =~= str_views(before).push(line@));
                    assert(pl.take(j as int + 1) =~= pl.take(j as int).push(pl[j as int]));
                    j = j + 1;
                }
                assert(j as int == k);
            } else {
                let page = vt_rows(&self.parser, 0, cols);
                let mut j: usize = 0;
                while j < chunk_size && j < page.len()
                    invariant
                        j <= page@.len(),
                        j <= chunk_size,
                        pl == str_views(page@),
                        str_views(all_lines@) == acc + pl.take(j as int),
                    decreases chunk_size - j,
                {
                    let line = page[j].clone();
                    let ghost before = all_lines@;
                    assert(line@ == pl[j as int]);
                    all_lines.push(line);
                    assert(str_views(all_lines@) =~= str_views(before).push(line@));
                    assert(pl.take(j as int + 1) =~= pl.take(j as int).push(pl[j as int]));
                    j = j + 1;
                }
                assert(j as int == k);
            }
            proof {
                assert(scroll_lines(p0, remaining as nat, rows as nat, cols, with_color) == pl.take(k)
                    + scroll_lines(p0, (remaining - chunk_size) as nat, rows as nat, cols, with_color));
                assert(history =~= str_views(all_lines@) + scroll_lines(
                    p0,
                    (remaining - chunk_size) as nat,
                    rows as nat,
                    cols,
                    with_color,
                ));
            }
            remaining = remaining - chunk_size;
        }
        assert(str_views(all_lines@) =~= history);
        vt_set_scrollback(&mut self.parser, 0);
        let ghost z = vt_scrolled(p0, 0);
        assert(self.parser == z);
        let ghost scroll = str_views(all_lines@);
        let (cursor_row, _) = vt_cursor_position(&self.parser);
        let visible_plain = vt_rows(&self.parser, 0, cols);
        let ghost visible = str_views(visible_plain@);
        let active = active_visible_rows(&visible_plain, cursor_row, rows);
        let ghost shown = page_lines(z, cols, with_color);
        if with_color {
            let page = vt_rows_formatted(&self.parser, 0, cols);
            assert(shown.len() == page@.len());
            let mut j: usize = 0;
            while j < active && j < page.len()
                invariant
                    j <= page@.len(),
                    j <= active,
                    shown.len() == page@.len(),
                    forall|i: int| 0 <= i < shown.len() ==> #[trigger] shown[i] == lossy_utf8(page@[i]@),
                    str_views(all_lines@) == scroll + shown.take(j as int),
                decreases active - j,
            {
                let line = utf8_lossy(page[j].as_slice());
                let ghost before = all_lines@;
                assert(line@ == shown[j as int]);
                all_lines.push(line);
                assert(str_views(all_lines@) =~= str_views(before).push(line@));
                assert(shown.take(j as int + 1) =~= shown.take(j as int).push(shown[j as int]));
                j = j + 1;
            }
            assert(j as int == if (active as int) < shown.len() { active as int } else { shown.len() as int });
        } else {
            let mut j: usize = 0;
            while j < active && j < visible_plain.len()
                invariant
                    j <= visible_plain@.len(),
                    j <= active,
                    shown == str_views(visible_plain@),
                    str_views(all_lines@) == scroll + shown.take(j as int),
                decreases active - j,
            {
                let line = visible_plain[j].clone();
                let ghost before = all_lines@;
                assert(line@ == shown[j as int]);
                all_lines.push(line);
                assert(str_views(all_lines@) =~= str_views(before).push(line@));
                assert(shown.take(j as int + 1) =~= shown.take(j as int).push(shown[j as int]));
                j = j + 1;
            }
        }
        assert(str_views(all_lines@) == screen_lines(p0, with_color));
        let text = select_and_join(&all_lines, rows, lines, all);
        vt_set_scrollback(&mut self.parser, 0);
        proof {
            lemma_screen_lines_same(self.parser, p0, false);
            lemma_screen_lines_same(self.parser, p0, true);
        }
        text
    }

    /// The ANSI payload to cleanly repaint the terminal screen and restore
    /// cursor state: the screen's formatted contents, then the cursor's
    /// position and visibility.
    pub fn redraw_payload(&self) -> (v: Vec<u8>)
        ensures
            v@ == spec_redraw(
                vt_contents(self.state()),
                vt_cursor(self.state()).0,
                vt_cursor(self.state()).1,
                vt_cursor_hidden(self.state()),
            ),
    {
        let contents = vt_contents_formatted(&self.parser);
        let (row, col) = vt_cursor_position(&self.parser);
        let hidden = vt_hide_cursor(&self.parser);
        redraw_bytes(contents.as_slice(), row, col, hidden)
    }
}

/// What `read` gives, as the README promises it: everything is the whole
/// history then the screen's rows in use; asking for `n` lines gives the
/// last `n` of those (all of them when there are fewer); asking for none
/// gives the last screenful; every line is stripped of trailing
/// whitespace.
pub proof fn lemma_read_selection(t: Terminal, n: usize, with_color: bool)
    ensures
        t.text(None, true, with_color) == join_lines(trim_lines(t.lines_of(with_color))),
        t.text(Some(n), false, with_color) == join_lines(
            trim_lines(t.lines_of(with_color)).skip(
                t.lines_of(with_color).len() - (if (n as int) < t.lines_of(with_color).len() {
                    n as int
                } else {
                    t.lines_of(with_color).len() as int
                }),
            ),
        ),
        t.text(None, false, with_color) == t.text(Some(t.screen_size().0 as usize), false, with_color),
        forall|i: int|
            0 <= i < t.lines_of(with_color).len() ==> trim_end(
                #[trigger] trim_lines(t.lines_of(with_color))[i],
            ) == trim_lines(t.lines_of(with_color))[i],
{
    let all = t.lines_of(with_color);
    let cnt: int = if (n as int) < all.len() {
        n as int
    } else {
        all.len() as int
    };
    assert(trim_lines(all).skip(all.len() - cnt) =~= trim_lines(all.skip(all.len() - cnt)));
    lemma_trim_end_idempotent_all(all);
}

/// `line` is one of the rows of some view of the screen, as `read` takes
/// rows.
pub open spec fn row_of_some_view(line: Seq<char>, p: VtParser, cols: u16, with_color: bool) -> bool {
    exists|b: usize, j: int|
        0 <= j < page_lines(vt_scrolled(p, b), cols, with_color).len() && line == #[trigger] page_lines(
            vt_scrolled(p, b),
            cols,
            with_color,
        )[j]
}

proof fn lemma_scroll_lines_rows(p: VtParser, remaining: nat, r: nat, cols: u16, with_color: bool)
    requires
        remaining <= usize::MAX,
    ensures
        forall|i: int|
            0 <= i < scroll_lines(p, remaining, r, cols, with_color).len() ==> row_of_some_view(
                #[trigger] scroll_lines(p, remaining, r, cols, with_color)[i],
                p,
                cols,
                with_color,
            ),
    decreases remaining,
{
    if remaining > 0 && r > 0 {
        let chunk: nat = if remaining < r {
            remaining
        } else {
            r
        };
        let q = vt_scrolled(p, remaining as usize);
        let page = page_lines(q, cols, with_color);
        let k: int = if chunk < page.len() {
            chunk as int
        } else {
            page.len() as int
        };
        lemma_scroll_lines_rows(p, (remaining - chunk) as nat, r, cols, with_color);
        let rest = scroll_lines(p, (remaining - chunk) as nat, r, cols, with_color);
        let all = scroll_lines(p, remaining, r, cols, with_color);
        assert(all == page.take(k) + rest);
        assert forall|i: int| 0 <= i < all.len() implies row_of_some_view(#[trigger] all[i], p, cols, with_color) by {
            if i < k {
                assert(all[i] == page[i]);
                assert(page_lines(vt_scrolled(p, remaining as usize), cols, with_color)[i] == all[i]);
            } else {
                assert(all[i] == rest[i - k]);
            }
        }
    }
}

/// `line` is a row of some view of the screen as vt100 formats it (with
/// its escape sequences), decoded as UTF-8.
pub open spec fn formatted_row_of_some_view(line: Seq<char>, p: VtParser, cols: u16) -> bool {
    exists|b: usize, j: int|
        0 <= j < vt_formatted_rows(vt_scrolled(p, b), 0, cols).len() && line == lossy_utf8(
            #[trigger] vt_formatted_rows(vt_scrolled(p, b), 0, cols)[j],
        )
}

/// `line` is a plain row of some view of the screen.
pub open spec fn plain_row_of_some_view(line: Seq<char>, p: VtParser, cols: u16) -> bool {
    exists|b: usize, j: int|
        0 <= j < vt_screen_rows(vt_scrolled(p, b), 0, cols).len() && line == #[trigger] vt_screen_rows(
            vt_scrolled(p, b),
            0,
            cols,
        )[j]
}

/// Reading with colours gives the rows as vt100 formats them (with their
/// escape sequences), decoded as UTF-8; reading without gives its plain
/// rows. Every line of `lines_of(true)` is a formatted row, and every line
/// of `lines_of(false)` a plain row, of a view of the screen scrolled back
/// some number of lines.
pub proof fn lemma_read_rows(t: Terminal)
    ensures
        forall|i: int|
            0 <= i < t.lines_of(true).len() ==> formatted_row_of_some_view(
                #[trigger] t.lines_of(true)[i],
                t.state(),
                t.screen_size().1,
            ),
        forall|i: int|
            0 <= i < t.lines_of(false).len() ==> plain_row_of_some_view(
                #[trigger] t.lines_of(false)[i],
                t.state(),
                t.screen_size().1,
            ),
{
    let p = t.state();
    let rows = vt_dims(p).0;
    let cols = vt_dims(p).1;
    let total = vt_offset(vt_scrolled(p, usize::MAX));
    let z = vt_scrolled(p, 0);
    assert forall|c: bool, i: int| 0 <= i < t.lines_of(c).len() implies row_of_some_view(
        #[trigger] t.lines_of(c)[i],
        p,
        cols,
        c,
    ) by {
        lemma_scroll_lines_rows(p, total as nat, rows as nat, cols, c);
        let hist = scroll_lines(p, total as nat, rows as nat, cols, c);
        let shown = page_lines(z, cols, c);
        let active = spec_active_rows(vt_screen_rows(z, 0, cols), vt_cursor(z).0 as int, rows as int);
        let n: int = if active < shown.len() {
            active
        } else {
            shown.len() as int
        };
        assert(t.lines_of(c) == hist + shown.take(n));
        if i < hist.len() {
            assert(t.lines_of(c)[i] == hist[i]);
        } else {
            assert(t.lines_of(c)[i] == shown[i - hist.len()]);
            assert(page_lines(vt_scrolled(p, 0), cols, c)[i - hist.len()] == t.lines_of(c)[i]);
        }
    }
    assert forall|i: int| 0 <= i < t.lines_of(true).len() implies formatted_row_of_some_view(
        #[trigger] t.lines_of(true)[i],
        p,
        cols,
    ) by {
        assert(row_of_some_view(t.lines_of(true)[i], p, cols, true));
        let (b, j) = choose|b: usize, j: int|
            0 <= j < page_lines(vt_scrolled(p, b), cols, true).len() && t.lines_of(true)[i]
                == #[trigger] page_lines(vt_scrolled(p, b), cols, true)[j];
        assert(page_lines(vt_scrolled(p, b), cols, true)[j] == lossy_utf8(
            vt_formatted_rows(vt_scrolled(p, b), 0, cols)[j],
        ));
    }
    assert forall|i: int| 0 <= i < t.lines_of(false).len() implies plain_row_of_some_view(
        #[trigger] t.lines_of(false)[i],
        p,
        cols,
    ) by {
        assert(row_of_some_view(t.lines_of(false)[i], p, cols, false));
        let (b, j) = choose|b: usize, j: int|
            0 <= j < page_lines(vt_scrolled(p, b), cols, false).len() && t.lines_of(false)[i]
                == #[trigger] page_lines(vt_scrolled(p, b), cols, false)[j];
        assert(page_lines(vt_scrolled(p, b), cols, false)[j] == vt_screen_rows(vt_scrolled(p, b), 0, cols)[j]);
    }
}

proof fn lemma_trim_end_idempotent(s: Seq<char>)
    ensures
        trim_end(trim_end(s)) == trim_end(s),
    decreases s.len(),
{
    if s.len() > 0 && crate::text::is_white(s.last()) {
        lemma_trim_end_idempotent(s.drop_last());
    }
}

proof fn lemma_trim_end_idempotent_all(sel: Seq<Seq<char>>)
    ensures
        forall|i: int|
            0 <= i < sel.len() ==> trim_end(#[trigger] trim_lines(sel)[i])
                == trim_lines(sel)[i],
{
    assert forall|i: int| 0 <= i < sel.len() implies trim_end(
        #[trigger] trim_lines(sel)[i],
    ) == trim_lines(sel)[i] by {
        lemma_trim_end_idempotent(sel[i]);
    }
}

} // verus!
