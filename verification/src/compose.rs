//! Frame composition: the output layer first, then Neovim's grid on top with every placeholder
//! cell transparent. Placement is read from the render stream: a vertical run of one slot's
//! cells is that output's visible extent.

use crate::grid::Grid;
use crate::outputs::{block_rows, blocks_view, Block, BlockV, OutputView};
use crate::redraw::{HlAttr, HlV};
use crate::style::{plain, Color, Emphasis, Style};
use crate::text::{
    all_digits, append_chars, chars_of, decimal, decimal_chars, digit_char, digits_value, find_char,
    find_char_in, is_digit, number_in, parse_number, rest, string_of, substr,
};
use vstd::prelude::*;

verus! {

broadcast use vstd::std_specs::hash::group_hash_axioms;

/// A visible stretch of one output: rows `[top, top + len)` of the screen, columns `[x0, x1)`,
/// showing rows `[offset, offset + len)` of the output.
#[derive(Clone, Copy, Debug, PartialEq, Eq, Structural)]
pub struct Run {
    pub slot: u16,
    pub top: u16,
    pub len: u16,
    pub x0: u16,
    pub x1: u16,
    pub offset: usize,
}

pub open spec fn tag_text(row: int) -> Seq<char> {
    "#"@ + decimal(row as nat) + "#"@
}

/// Placeholder rows carry their row index as `#<n>#`, invisible because placeholder cells are
/// transparent. Reading it back gives the exact offset of a clipped output.
pub fn row_tag(row: usize) -> (r: String)
    ensures
        r@ == tag_text(row as int),
{
    let mut out = chars_of("#");
    append_chars(&mut out, &decimal_chars(row as u64));
    append_chars(&mut out, &chars_of("#"));
    string_of(&out)
}

/// The row that a tag at the start of a text gives.
pub open spec fn tag_of(text: Seq<char>) -> Option<usize> {
    if text.len() > 0 && text[0] == '#' {
        let tail = text.skip(1);
        let end = find_char(tail, '#');
        if end < tail.len() {
            match number_in(tail.take(end), usize::MAX as nat) {
                Some(n) => Some(n as usize),
                None => None,
            }
        } else {
            None
        }
    } else {
        None
    }
}

fn parse_tag(text: &Vec<char>) -> (r: Option<usize>)
    ensures
        r == tag_of(text@),
{
    if text.len() == 0 || text[0] != '#' {
        return None;
    }
    let tail = rest(text, 1);
    let end = find_char_in(&tail, '#');
    if end >= tail.len() {
        return None;
    }
    assert(tail@.subrange(0, end as int) =~= tail@.take(end as int));
    match parse_number(&substr(&tail, 0, end), usize::MAX as u64) {
        Some(n) => Some(n as usize),
        None => None,
    }
}

proof fn lemma_digit(d: int)
    requires
        0 <= d < 10,
    ensures
        is_digit(digit_char(d)),
        digit_char(d) as int - '0' as int == d,
{
}

/// A number written in decimal reads back.
pub proof fn decimal_round_trip(n: nat)
    ensures
        digits_value(decimal(n)) == n,
        all_digits(decimal(n)),
        decimal(n).len() >= 1,
        is_digit(decimal(n)[0]),
    decreases n,
{
    if n < 10 {
        lemma_digit(n as int);
        let s = decimal(n);
        assert(s.drop_last() =~= Seq::empty());
        assert(digits_value(s.drop_last()) == 0);
    } else {
        decimal_round_trip(n / 10);
        lemma_digit((n % 10) as int);
        let s = decimal(n);
        assert(s.drop_last() =~= decimal(n / 10));
        assert forall|i: int| 0 <= i < s.len() implies is_digit(#[trigger] s[i]) by {
            if i < s.len() - 1 {
                assert(decimal(n / 10)[i] == s[i]);
            }
        }
        assert(decimal(n / 10)[0] == s[0]);
    }
}

proof fn lemma_find_char(s: Seq<char>, c: char, i: int)
    requires
        0 <= i <= s.len(),
        forall|j: int| 0 <= j < i ==> #[trigger] s[j] != c,
        i < s.len() ==> s[i] == c,
    ensures
        find_char(s, c) == i,
    decreases i,
{
    if i > 0 {
        assert(s[0] != c);
        assert forall|j: int| 0 <= j < i - 1 implies #[trigger] s.skip(1)[j] != c by {
            assert(s[j + 1] != c);
        }
        lemma_find_char(s.skip(1), c, i - 1);
    }
}

/// A row's tag gives the row, whatever follows it.
pub proof fn tag_round_trip(row: int, more: Seq<char>)
    requires
        0 <= row <= usize::MAX,
    ensures
        tag_of(tag_text(row) + more) == Some(row as usize),
{
    reveal_strlit("#");
    let d = decimal(row as nat);
    decimal_round_trip(row as nat);
    let text = tag_text(row) + more;
    assert(text[0] == '#');
    let tail = text.skip(1);
    assert(tail =~= d + "#"@ + more);
    assert forall|j: int| 0 <= j < d.len() implies #[trigger] tail[j] != '#' by {
        assert(tail[j] == d[j]);
        assert(is_digit(d[j]));
    }
    assert(tail[d.len() as int] == '#');
    lemma_find_char(tail, '#', d.len() as int);
    assert(tail.take(d.len() as int) =~= d);
}

/// The slot of the placeholder at a place of the grid.
pub open spec fn slot_v(g: &Grid, row: int, col: int) -> Option<u16> {
    let hl = g.at(row, col).hl;
    if g.slots@.dom().contains(hl) {
        Some(g.slots@[hl])
    } else {
        None
    }
}

/// Where a stretch of one slot ends.
pub open spec fn stretch_end(g: &Grid, row: int, col: int, slot: u16) -> int
    decreases g.width - col,
{
    if col >= g.width || slot_v(g, row, col) != Some(slot) {
        col
    } else {
        stretch_end(g, row, col + 1, slot)
    }
}

/// The text of a stretch.
pub open spec fn stretch_text(g: &Grid, row: int, from: int, to: int) -> Seq<char>
    decreases to - from,
{
    if to <= from {
        Seq::empty()
    } else {
        stretch_text(g, row, from, to - 1) + g.at(row, to - 1).text
    }
}

/// A stretch of one slot's cells in a row.
pub struct StretchV {
    pub slot: u16,
    pub x0: int,
    pub x1: int,
    pub tag: Option<usize>,
}

/// The stretches of a row, from `col` on.
pub open spec fn stretches(g: &Grid, row: int, col: int) -> Seq<StretchV>
    decreases g.width - col,
{
    if col >= g.width {
        Seq::empty()
    } else {
        match slot_v(g, row, col) {
            None => stretches(g, row, col + 1),
            Some(slot) => {
                let end = stretch_end(g, row, col, slot);
                if col < end <= g.width {
                    seq![
                        StretchV {
                            slot,
                            x0: col,
                            x1: end,
                            tag: tag_of(stretch_text(g, row, col, end)),
                        },
                    ] + stretches(g, row, end)
                } else {
                    Seq::empty()
                }
            },
        }
    }
}

/// A run being assembled: slot, top row, column span, length, and the first tag seen with its
/// row within the run.
pub struct OpenV {
    pub slot: u16,
    pub top: int,
    pub x0: int,
    pub x1: int,
    pub len: int,
    pub tag: Option<(usize, int)>,
}

pub open spec fn overlaps(o: OpenV, s: StretchV) -> bool {
    o.slot == s.slot && o.x0 < s.x1 && s.x0 < o.x1
}

/// The first run that a stretch overlaps, from `i` on, or the number of runs.
pub open spec fn overlapped(v: Seq<OpenV>, s: StretchV, i: int) -> int
    decreases v.len() - i,
{
    if i >= v.len() || overlaps(v[i], s) {
        i
    } else {
        overlapped(v, s, i + 1)
    }
}

pub open spec fn least(a: int, b: int) -> int {
    if a < b {
        a
    } else {
        b
    }
}

pub open spec fn most(a: int, b: int) -> int {
    if a > b {
        a
    } else {
        b
    }
}

/// The tag of two runs, with its row within a run from `top` on: the one on the upper row.
pub open spec fn upper_tag(a: OpenV, b: OpenV, top: int) -> Option<(usize, int)> {
    match (a.tag, b.tag) {
        (Some((t, i)), Some((u, j))) => if a.top + i <= b.top + j {
            Some((t, a.top + i - top))
        } else {
            Some((u, b.top + j - top))
        },
        (Some((t, i)), None) => Some((t, a.top + i - top)),
        (None, Some((u, j))) => Some((u, b.top + j - top)),
        (None, None) => None,
    }
}

/// Two runs of one slot as one that reaches `row`.
pub open spec fn united(a: OpenV, b: OpenV, row: int) -> OpenV {
    let top = least(a.top, b.top);
    OpenV {
        slot: a.slot,
        top,
        x0: least(a.x0, b.x0),
        x1: most(a.x1, b.x1),
        len: row + 1 - top,
        tag: upper_tag(a, b, top),
    }
}

/// A run of one stretch.
pub open spec fn run_of(s: StretchV, row: int) -> OpenV {
    OpenV {
        slot: s.slot,
        top: row,
        x0: s.x0,
        x1: s.x1,
        len: 1,
        tag: match s.tag {
            Some(t) => Some((t, 0)),
            None => None,
        },
    }
}

/// A run united with those, from `i` on, that a stretch overlaps.
pub open spec fn gathered(v: Seq<OpenV>, s: StretchV, i: int, run: OpenV, row: int) -> OpenV
    decreases v.len() - i,
{
    if i >= v.len() {
        run
    } else {
        let rest = gathered(v, s, i + 1, run, row);
        if overlaps(v[i], s) {
            united(v[i], rest, row)
        } else {
            rest
        }
    }
}

/// Those of the first `n` runs that a stretch does not overlap.
pub open spec fn apart(v: Seq<OpenV>, s: StretchV, n: int) -> Seq<OpenV>
    decreases n,
{
    if n <= 0 {
        Seq::empty()
    } else if overlaps(v[n - 1], s) {
        apart(v, s, n - 1)
    } else {
        apart(v, s, n - 1).push(v[n - 1])
    }
}

/// The runs of the row above that are not continued yet, and those of this row, after one more
/// stretch. A stretch continues a run of the same slot when their columns overlap. Where it
/// overlaps several, they are one: something covering part of an output splits stretches but
/// not the run.
pub open spec fn stretch_placed(open: Seq<OpenV>, next: Seq<OpenV>, s: StretchV, row: int) -> (
    Seq<OpenV>,
    Seq<OpenV>,
) {
    let above = gathered(open, s, 0, run_of(s, row), row);
    let whole = gathered(next, s, 0, above, row);
    (
        apart(open, s, open.len() as int),
        apart(next, s, next.len() as int).insert(overlapped(next, s, 0), whole),
    )
}

pub open spec fn stretches_placed(open: Seq<OpenV>, s: Seq<StretchV>, row: int) -> (
    Seq<OpenV>,
    Seq<OpenV>,
)
    decreases s.len(),
{
    if s.len() == 0 {
        (open, Seq::empty())
    } else {
        let r = stretches_placed(open, s.drop_last(), row);
        stretch_placed(r.0, r.1, s.last(), row)
    }
}

/// The runs that ended above row `n`, and those that reach the row before it.
pub open spec fn runs_upto(g: &Grid, n: int) -> (Seq<OpenV>, Seq<OpenV>)
    decreases n,
{
    if n <= 0 {
        (Seq::empty(), Seq::empty())
    } else {
        let r = runs_upto(g, n - 1);
        let p = stretches_placed(r.1, stretches(g, n - 1, 0), n - 1);
        (r.0 + p.0, p.1)
    }
}

/// A slot's full height, if it is known.
pub open spec fn height_of(heights: Seq<Option<usize>>, slot: u16) -> Option<usize> {
    if slot < heights.len() {
        heights[slot as int]
    } else {
        None
    }
}

/// The first row of the output that a run shows: from its tag, or, with every tag hidden, as
/// much as is clipped at the top of the screen.
pub open spec fn run_offset(o: OpenV, height: Option<usize>) -> int {
    let full = match height {
        Some(h) => h as int,
        None => o.len,
    };
    match o.tag {
        Some((tag, at)) => if tag > at {
            tag - at
        } else {
            0
        },
        None => if o.len < full && o.top == 0 {
            full - o.len
        } else {
            0
        },
    }
}

/// A run as it is handed out.
pub open spec fn is_run(r: Run, o: OpenV, heights: Seq<Option<usize>>) -> bool {
    &&& r.slot == o.slot
    &&& r.top == o.top
    &&& r.len == o.len
    &&& r.x0 == o.x0
    &&& r.x1 == o.x1
    &&& r.offset == run_offset(o, height_of(heights, o.slot))
}

/// A run being assembled.
#[derive(Clone, Copy)]
struct Open {
    slot: u16,
    top: u16,
    x0: u16,
    x1: u16,
    len: u16,
    tag: Option<(usize, u16)>,
}

impl Open {
    spec fn seen(&self) -> OpenV {
        OpenV {
            slot: self.slot,
            top: self.top as int,
            x0: self.x0 as int,
            x1: self.x1 as int,
            len: self.len as int,
            tag: match self.tag {
                Some((t, at)) => Some((t, at as int)),
                None => None,
            },
        }
    }
}

spec fn opens(v: Seq<Open>) -> Seq<OpenV> {
    Seq::new(v.len(), |i: int| v[i].seen())
}

/// A run within the first `rows` rows of a grid of this width.
pub open spec fn run_fits(o: OpenV, width: int, rows: int) -> bool {
    &&& 0 <= o.x0 < o.x1 <= width
    &&& 1 <= o.len
    &&& 0 <= o.top
    &&& o.top + o.len <= rows
    &&& o.tag matches Some((_, at)) ==> 0 <= at < o.len
}

pub open spec fn all_fit(v: Seq<OpenV>, width: int, rows: int) -> bool {
    forall|i: int| 0 <= i < v.len() ==> run_fits(#[trigger] v[i], width, rows)
}

pub open spec fn stretch_fits(s: StretchV, width: int) -> bool {
    0 <= s.x0 < s.x1 <= width
}

proof fn lemma_stretch_end(g: &Grid, row: int, col: int, slot: u16)
    requires
        0 <= col <= g.width,
    ensures
        col <= stretch_end(g, row, col, slot) <= g.width,
        col < g.width && slot_v(g, row, col) == Some(slot) ==> col < stretch_end(
            g,
            row,
            col,
            slot,
        ),
    decreases g.width - col,
{
    if col < g.width && slot_v(g, row, col) == Some(slot) {
        lemma_stretch_end(g, row, col + 1, slot);
    }
}

proof fn lemma_stretches_fit(g: &Grid, row: int, col: int)
    requires
        0 <= col <= g.width,
    ensures
        forall|i: int|
            0 <= i < stretches(g, row, col).len() ==> stretch_fits(
                #[trigger] stretches(g, row, col)[i],
                g.width as int,
            ),
    decreases g.width - col,
{
    if col < g.width {
        match slot_v(g, row, col) {
            None => {
                lemma_stretches_fit(g, row, col + 1);
                let tail = stretches(g, row, col + 1);
                assert(stretches(g, row, col) == tail);
                assert forall|i: int| 0 <= i < stretches(g, row, col).len() implies stretch_fits(
                    #[trigger] stretches(g, row, col)[i],
                    g.width as int,
                ) by {
                    assert(stretch_fits(tail[i], g.width as int));
                }
            },
            Some(slot) => {
                lemma_stretch_end(g, row, col, slot);
                let end = stretch_end(g, row, col, slot);
                lemma_stretches_fit(g, row, end);
                let tail = stretches(g, row, end);
                let all = stretches(g, row, col);
                assert forall|i: int| 0 <= i < all.len() implies stretch_fits(
                    #[trigger] all[i],
                    g.width as int,
                ) by {
                    if i > 0 {
                        assert(all[i] == tail[i - 1]);
                    }
                }
            },
        }
    }
}

proof fn lemma_overlapped(v: Seq<OpenV>, s: StretchV, i: int)
    requires
        0 <= i <= v.len(),
    ensures
        i <= overlapped(v, s, i) <= v.len(),
    decreases v.len() - i,
{
    if i < v.len() && !overlaps(v[i], s) {
        lemma_overlapped(v, s, i + 1);
    }
}

proof fn lemma_apart(v: Seq<OpenV>, s: StretchV, n: int, width: int, rows: int)
    requires
        0 <= n <= v.len(),
        all_fit(v, width, rows),
    ensures
        all_fit(apart(v, s, n), width, rows),
        apart(v, s, n).len() <= n,
        least(overlapped(v, s, 0), n) <= apart(v, s, n).len(),
    decreases n,
{
    if n > 0 {
        lemma_apart(v, s, n - 1, width, rows);
        assert(run_fits(v[n - 1], width, rows));
        if overlaps(v[n - 1], s) {
            lemma_overlapped_before(v, s, 0, n - 1);
        }
    }
}

proof fn lemma_overlapped_before(v: Seq<OpenV>, s: StretchV, i: int, n: int)
    requires
        0 <= i <= n < v.len(),
        overlaps(v[n], s),
    ensures
        overlapped(v, s, i) <= n,
    decreases n - i,
{
    if i < n && !overlaps(v[i], s) {
        lemma_overlapped_before(v, s, i + 1, n);
    }
}

proof fn lemma_gathered(v: Seq<OpenV>, s: StretchV, i: int, run: OpenV, row: int, width: int)
    requires
        0 <= i <= v.len(),
        all_fit(v, width, row + 1),
        run_fits(run, width, row + 1),
    ensures
        run_fits(gathered(v, s, i, run, row), width, row + 1),
    decreases v.len() - i,
{
    if i < v.len() {
        lemma_gathered(v, s, i + 1, run, row, width);
        assert(run_fits(v[i], width, row + 1));
    }
}

proof fn lemma_fit_below(v: Seq<OpenV>, width: int, rows: int)
    requires
        all_fit(v, width, rows),
    ensures
        all_fit(v, width, rows + 1),
{
    assert forall|i: int| 0 <= i < v.len() implies run_fits(#[trigger] v[i], width, rows + 1) by {
        assert(run_fits(v[i], width, rows));
    }
}

proof fn lemma_placed_fits(open: Seq<OpenV>, next: Seq<OpenV>, s: StretchV, row: int, width: int)
    requires
        all_fit(open, width, row),
        all_fit(next, width, row + 1),
        stretch_fits(s, width),
        row >= 0,
    ensures
        all_fit(stretch_placed(open, next, s, row).0, width, row),
        all_fit(stretch_placed(open, next, s, row).1, width, row + 1),
{
    let at = overlapped(next, s, 0);
    lemma_overlapped(next, s, 0);
    lemma_apart(open, s, open.len() as int, width, row);
    lemma_apart(next, s, next.len() as int, width, row + 1);
    lemma_fit_below(open, width, row);
    let above = gathered(open, s, 0, run_of(s, row), row);
    let whole = gathered(next, s, 0, above, row);
    lemma_gathered(open, s, 0, run_of(s, row), row, width);
    lemma_gathered(next, s, 0, above, row, width);
    let kept = apart(next, s, next.len() as int);
    let r = kept.insert(at, whole);
    assert forall|k: int| 0 <= k < r.len() implies run_fits(#[trigger] r[k], width, row + 1) by {
        if k < at {
            assert(r[k] == kept[k]);
        } else if k > at {
            assert(r[k] == kept[k - 1]);
        }
    }
}

proof fn lemma_row_fits(open: Seq<OpenV>, s: Seq<StretchV>, row: int, width: int)
    requires
        all_fit(open, width, row),
        row >= 0,
        forall|i: int| 0 <= i < s.len() ==> stretch_fits(#[trigger] s[i], width),
    ensures
        all_fit(stretches_placed(open, s, row).0, width, row),
        all_fit(stretches_placed(open, s, row).1, width, row + 1),
    decreases s.len(),
{
    if s.len() > 0 {
        let front = s.drop_last();
        assert forall|i: int| 0 <= i < front.len() implies stretch_fits(#[trigger] front[i], width) by {
            assert(stretch_fits(s[i], width));
        }
        lemma_row_fits(open, front, row, width);
        let r = stretches_placed(open, front, row);
        assert(stretch_fits(s[s.len() - 1], width));
        lemma_placed_fits(r.0, r.1, s.last(), row, width);
    }
}

/// Every run lies within the grid.
pub proof fn runs_lie_in_the_grid(g: &Grid, n: int)
    requires
        0 <= n,
    ensures
        all_fit(runs_upto(g, n).0, g.width as int, n),
        all_fit(runs_upto(g, n).1, g.width as int, n),
    decreases n,
{
    if n > 0 {
        runs_lie_in_the_grid(g, n - 1);
        let r = runs_upto(g, n - 1);
        let s = stretches(g, n - 1, 0);
        lemma_stretches_fit(g, n - 1, 0);
        lemma_row_fits(r.1, s, n - 1, g.width as int);
        let p = stretches_placed(r.1, s, n - 1);
        let done = r.0 + p.0;
        assert forall|i: int| 0 <= i < done.len() implies run_fits(
            #[trigger] done[i],
            g.width as int,
            n,
        ) by {
            if i < r.0.len() {
                assert(done[i] == r.0[i]);
            } else {
                assert(done[i] == p.0[i - r.0.len()]);
            }
        }
    }
}

/// Whether a run of the slot covers a place.
pub open spec fn holds_place(o: OpenV, slot: u16, row: int, col: int) -> bool {
    o.slot == slot && o.top <= row < o.top + o.len && o.x0 <= col < o.x1
}

/// Whether one of the runs covers a place of the slot.
pub open spec fn covered(v: Seq<OpenV>, slot: u16, row: int, col: int) -> bool {
    exists|i: int| 0 <= i < v.len() && holds_place(#[trigger] v[i], slot, row, col)
}

/// Whether a row has a cell of a run's slot among the run's columns.
pub open spec fn row_has(g: &Grid, o: OpenV, row: int) -> bool {
    exists|col: int| o.x0 <= col < o.x1 && #[trigger] slot_v(g, row, col) == Some(o.slot)
}

/// Whether every row of a run holds a cell of its slot.
pub open spec fn filled(g: &Grid, o: OpenV) -> bool {
    forall|row: int| o.top <= row < o.top + o.len ==> #[trigger] row_has(g, o, row)
}

/// Whether the runs hold cells of their slots in every row and end above row `n`.
pub open spec fn all_filled(g: &Grid, v: Seq<OpenV>, n: int) -> bool {
    forall|i: int|
        0 <= i < v.len() ==> filled(g, #[trigger] v[i]) && v[i].top + v[i].len == n
}

proof fn lemma_row_has(g: &Grid, a: OpenV, b: OpenV, row: int)
    requires
        row_has(g, a, row),
        a.slot == b.slot,
        b.x0 <= a.x0,
        a.x1 <= b.x1,
    ensures
        row_has(g, b, row),
{
    let col = choose|col: int| a.x0 <= col < a.x1 && #[trigger] slot_v(g, row, col) == Some(a.slot);
    assert(slot_v(g, row, col) == Some(b.slot));
}

/// The cells from a column up to where a stretch ends are of its slot.
proof fn lemma_stretch_slot(g: &Grid, row: int, col: int, slot: u16, c: int)
    requires
        col <= c < stretch_end(g, row, col, slot),
    ensures
        slot_v(g, row, c) == Some(slot),
    decreases g.width - col,
{
    if col < g.width && slot_v(g, row, col) == Some(slot) && c > col {
        lemma_stretch_slot(g, row, col + 1, slot, c);
    }
}

/// The first cell of a stretch is of its slot, and every placeholder is in a stretch of its slot.
proof fn lemma_stretches_cover(g: &Grid, row: int, col: int)
    requires
        0 <= col <= g.width,
    ensures
        forall|i: int|
            0 <= i < stretches(g, row, col).len() ==> slot_v(
                g,
                row,
                (#[trigger] stretches(g, row, col)[i]).x0,
            ) == Some(stretches(g, row, col)[i].slot),
        forall|c: int|
            col <= c < g.width && (#[trigger] slot_v(g, row, c)) is Some ==> in_stretch(
                stretches(g, row, col),
                slot_v(g, row, c)->0,
                c,
            ),
    decreases g.width - col,
{
    if col < g.width {
        let all = stretches(g, row, col);
        match slot_v(g, row, col) {
            None => {
                lemma_stretches_cover(g, row, col + 1);
            },
            Some(slot) => {
                lemma_stretch_end(g, row, col, slot);
                let end = stretch_end(g, row, col, slot);
                lemma_stretches_cover(g, row, end);
                let tail = stretches(g, row, end);
                assert forall|i: int| 0 <= i < all.len() implies slot_v(
                    g,
                    row,
                    (#[trigger] all[i]).x0,
                ) == Some(all[i].slot) by {
                    if i > 0 {
                        assert(all[i] == tail[i - 1]);
                    }
                }
                assert forall|c: int|
                    col <= c < g.width && (#[trigger] slot_v(g, row, c)) is Some implies in_stretch(
                    all,
                    slot_v(g, row, c)->0,
                    c,
                ) by {
                    if c < end {
                        lemma_stretch_slot(g, row, col, slot, c);
                        assert(in_columns(all[0], slot, c));
                    } else {
                        let s = slot_v(g, row, c)->0;
                        assert(in_stretch(tail, s, c));
                        let i = choose|i: int|
                            0 <= i < tail.len() && in_columns(#[trigger] tail[i], s, c);
                        assert(all[i + 1] == tail[i]);
                        assert(in_columns(all[i + 1], s, c));
                    }
                }
            },
        }
    }
}

spec fn in_columns(s: StretchV, slot: u16, col: int) -> bool {
    s.slot == slot && s.x0 <= col < s.x1
}

spec fn in_stretch(v: Seq<StretchV>, slot: u16, col: int) -> bool {
    exists|i: int| 0 <= i < v.len() && in_columns(#[trigger] v[i], slot, col)
}

/// What is gathered is of the stretch's slot, reaches the row, holds a cell in every row, and
/// covers the run and all that the stretch overlaps.
proof fn lemma_gathered_covers(
    g: &Grid,
    v: Seq<OpenV>,
    s: StretchV,
    i: int,
    run: OpenV,
    row: int,
    n: int,
)
    requires
        0 <= i <= v.len(),
        row <= n <= row + 1,
        all_filled(g, v, n),
        filled(g, run),
        run.slot == s.slot,
        run.top + run.len == row + 1,
        run.top <= row,
        forall|k: int| 0 <= k < v.len() ==> (#[trigger] v[k]).top < v[k].top + v[k].len,
    ensures
        ({
            let r = gathered(v, s, i, run, row);
            &&& filled(g, r)
            &&& r.slot == s.slot
            &&& r.top + r.len == row + 1
            &&& r.top <= run.top && r.x0 <= run.x0 && run.x1 <= r.x1
            &&& forall|k: int|
                i <= k < v.len() && overlaps(#[trigger] v[k], s) ==> r.top <= v[k].top && r.x0
                    <= v[k].x0 && v[k].x1 <= r.x1
        }),
    decreases v.len() - i,
{
    if i < v.len() {
        lemma_gathered_covers(g, v, s, i + 1, run, row, n);
        let rest = gathered(v, s, i + 1, run, row);
        let r = gathered(v, s, i, run, row);
        if overlaps(v[i], s) {
            let a = v[i];
            assert(filled(g, a) && a.top + a.len == n);
            assert forall|y: int| r.top <= y < r.top + r.len implies #[trigger] row_has(g, r, y) by {
                if y >= rest.top {
                    assert(row_has(g, rest, y));
                    lemma_row_has(g, rest, r, y);
                } else {
                    assert(row_has(g, a, y));
                    lemma_row_has(g, a, r, y);
                }
            }
        }
    }
}

proof fn lemma_apart_has(v: Seq<OpenV>, s: StretchV, n: int, k: int)
    requires
        0 <= k < n <= v.len(),
        !overlaps(v[k], s),
    ensures
        exists|j: int| 0 <= j < apart(v, s, n).len() && #[trigger] apart(v, s, n)[j] == v[k],
    decreases n,
{
    let r = apart(v, s, n);
    if k == n - 1 {
        assert(r[r.len() - 1] == v[k]);
    } else {
        lemma_apart_has(v, s, n - 1, k);
        let front = apart(v, s, n - 1);
        let j = choose|j: int| 0 <= j < front.len() && #[trigger] front[j] == v[k];
        assert(r[j] == v[k]);
    }
}

proof fn lemma_apart_filled(g: &Grid, v: Seq<OpenV>, s: StretchV, m: int, n: int)
    requires
        0 <= m <= v.len(),
        all_filled(g, v, n),
    ensures
        all_filled(g, apart(v, s, m), n),
    decreases m,
{
    if m > 0 {
        lemma_apart_filled(g, v, s, m - 1, n);
        assert(filled(g, v[m - 1]));
    }
}

/// One more stretch leaves runs with a cell in every row.
proof fn lemma_placed_filled(g: &Grid, open: Seq<OpenV>, next: Seq<OpenV>, s: StretchV, row: int)
    requires
        row >= 0,
        stretch_fits(s, g.width as int),
        slot_v(g, row, s.x0) == Some(s.slot),
        all_fit(open, g.width as int, row),
        all_fit(next, g.width as int, row + 1),
        all_filled(g, open, row),
        all_filled(g, next, row + 1),
    ensures
        all_filled(g, stretch_placed(open, next, s, row).0, row),
        all_filled(g, stretch_placed(open, next, s, row).1, row + 1),
        ({
            let one = run_of(s, row);
            let above = gathered(open, s, 0, one, row);
            let whole = gathered(next, s, 0, above, row);
            &&& whole.slot == s.slot
            &&& whole.top + whole.len == row + 1
            &&& whole.top <= row && whole.x0 <= s.x0 && s.x1 <= whole.x1
            &&& forall|k: int|
                0 <= k < open.len() && overlaps(#[trigger] open[k], s) ==> whole.top <= open[k].top
                    && whole.x0 <= open[k].x0 && open[k].x1 <= whole.x1
            &&& forall|k: int|
                0 <= k < next.len() && overlaps(#[trigger] next[k], s) ==> whole.top <= next[k].top
                    && whole.x0 <= next[k].x0 && next[k].x1 <= whole.x1
        }),
{
    let one = run_of(s, row);
    assert(row_has(g, one, row));
    assert(filled(g, one));
    let above = gathered(open, s, 0, one, row);
    assert forall|k: int| 0 <= k < open.len() implies (#[trigger] open[k]).top < open[k].top
        + open[k].len by {
        assert(run_fits(open[k], g.width as int, row));
    }
    assert forall|k: int| 0 <= k < next.len() implies (#[trigger] next[k]).top < next[k].top
        + next[k].len by {
        assert(run_fits(next[k], g.width as int, row + 1));
    }
    lemma_gathered_covers(g, open, s, 0, one, row, row);
    lemma_gathered_covers(g, next, s, 0, above, row, row + 1);
    lemma_apart_filled(g, open, s, open.len() as int, row);
    lemma_apart_filled(g, next, s, next.len() as int, row + 1);
    lemma_overlapped(next, s, 0);
    lemma_apart(next, s, next.len() as int, g.width as int, row + 1);
    let kept = apart(next, s, next.len() as int);
    let at = overlapped(next, s, 0);
    let whole = gathered(next, s, 0, above, row);
    let r = kept.insert(at, whole);
    assert forall|k: int| 0 <= k < r.len() implies filled(g, #[trigger] r[k]) && r[k].top + r[k].len
        == row + 1 by {
        if k < at {
            assert(r[k] == kept[k]);
        } else if k > at {
            assert(r[k] == kept[k - 1]);
        }
    }
}

/// One more stretch leaves every place covered that was, and covers its own.
proof fn lemma_placed_covers(
    g: &Grid,
    open: Seq<OpenV>,
    next: Seq<OpenV>,
    s: StretchV,
    row: int,
    slot: u16,
    y: int,
    x: int,
)
    requires
        row >= 0,
        stretch_fits(s, g.width as int),
        slot_v(g, row, s.x0) == Some(s.slot),
        all_fit(open, g.width as int, row),
        all_fit(next, g.width as int, row + 1),
        all_filled(g, open, row),
        all_filled(g, next, row + 1),
        covered(open, slot, y, x) || covered(next, slot, y, x) || (y == row && in_columns(
            s,
            slot,
            x,
        )),
    ensures
        covered(stretch_placed(open, next, s, row).0, slot, y, x) || covered(
            stretch_placed(open, next, s, row).1,
            slot,
            y,
            x,
        ),
{
    lemma_placed_filled(g, open, next, s, row);
    let r = stretch_placed(open, next, s, row);
    let above = gathered(open, s, 0, run_of(s, row), row);
    let whole = gathered(next, s, 0, above, row);
    let kept = apart(next, s, next.len() as int);
    let at = overlapped(next, s, 0);
    lemma_overlapped(next, s, 0);
    lemma_apart(next, s, next.len() as int, g.width as int, row + 1);
    assert(r.1[at] == whole);
    if covered(open, slot, y, x) {
        let k = choose|k: int| 0 <= k < open.len() && holds_place(#[trigger] open[k], slot, y, x);
        assert(run_fits(open[k], g.width as int, row));
        if overlaps(open[k], s) {
            assert(holds_place(r.1[at], slot, y, x));
        } else {
            lemma_apart_has(open, s, open.len() as int, k);
            let j = choose|j: int| 0 <= j < r.0.len() && #[trigger] r.0[j] == open[k];
            assert(holds_place(r.0[j], slot, y, x));
        }
    } else if covered(next, slot, y, x) {
        let k = choose|k: int| 0 <= k < next.len() && holds_place(#[trigger] next[k], slot, y, x);
        assert(run_fits(next[k], g.width as int, row + 1));
        if overlaps(next[k], s) {
            assert(holds_place(r.1[at], slot, y, x));
        } else {
            lemma_apart_has(next, s, next.len() as int, k);
            let j = choose|j: int| 0 <= j < kept.len() && #[trigger] kept[j] == next[k];
            let i = if j < at {
                j
            } else {
                j + 1
            };
            assert(r.1[i] == kept[j]);
            assert(holds_place(r.1[i], slot, y, x));
        }
    } else {
        assert(holds_place(r.1[at], slot, y, x));
    }
}

proof fn lemma_row_covers(g: &Grid, open: Seq<OpenV>, s: Seq<StretchV>, row: int)
    requires
        row >= 0,
        all_fit(open, g.width as int, row),
        all_filled(g, open, row),
        forall|i: int|
            0 <= i < s.len() ==> stretch_fits(#[trigger] s[i], g.width as int) && slot_v(
                g,
                row,
                s[i].x0,
            ) == Some(s[i].slot),
    ensures
        ({
            let r = stretches_placed(open, s, row);
            &&& all_filled(g, r.0, row)
            &&& all_filled(g, r.1, row + 1)
            &&& forall|slot: u16, y: int, x: int| #[trigger]
                covered(open, slot, y, x) ==> covered(r.0, slot, y, x) || covered(r.1, slot, y, x)
            &&& forall|slot: u16, x: int| #[trigger]
                in_stretch(s, slot, x) ==> covered(r.0, slot, row, x) || covered(r.1, slot, row, x)
        }),
    decreases s.len(),
{
    if s.len() > 0 {
        let front = s.drop_last();
        let last = s.last();
        assert forall|i: int| 0 <= i < front.len() implies stretch_fits(
            #[trigger] front[i],
            g.width as int,
        ) && slot_v(g, row, front[i].x0) == Some(front[i].slot) by {
            assert(front[i] == s[i]);
        }
        assert(stretch_fits(s[s.len() - 1], g.width as int));
        lemma_row_covers(g, open, front, row);
        lemma_row_fits(open, front, row, g.width as int);
        let p = stretches_placed(open, front, row);
        let r = stretches_placed(open, s, row);
        lemma_placed_filled(g, p.0, p.1, last, row);
        assert forall|slot: u16, y: int, x: int| #[trigger] covered(open, slot, y, x) implies covered(
            r.0,
            slot,
            y,
            x,
        ) || covered(r.1, slot, y, x) by {
            lemma_placed_covers(g, p.0, p.1, last, row, slot, y, x);
        }
        assert forall|slot: u16, x: int| #[trigger] in_stretch(s, slot, x) implies covered(
            r.0,
            slot,
            row,
            x,
        ) || covered(r.1, slot, row, x) by {
            let i = choose|i: int| 0 <= i < s.len() && in_columns(#[trigger] s[i], slot, x);
            if i < front.len() {
                assert(in_columns(front[i], slot, x));
                assert(in_stretch(front, slot, x));
            }
            lemma_placed_covers(g, p.0, p.1, last, row, slot, row, x);
        }
    }
}

proof fn lemma_covered_append(a: Seq<OpenV>, b: Seq<OpenV>, slot: u16, row: int, col: int)
    ensures
        covered(a + b, slot, row, col) == (covered(a, slot, row, col) || covered(b, slot, row, col)),
{
    let all = a + b;
    if covered(a, slot, row, col) {
        let i = choose|i: int| 0 <= i < a.len() && holds_place(#[trigger] a[i], slot, row, col);
        assert(holds_place(all[i], slot, row, col));
    }
    if covered(b, slot, row, col) {
        let i = choose|i: int| 0 <= i < b.len() && holds_place(#[trigger] b[i], slot, row, col);
        assert(holds_place(all[a.len() + i], slot, row, col));
    }
    if covered(all, slot, row, col) {
        let i = choose|i: int| 0 <= i < all.len() && holds_place(#[trigger] all[i], slot, row, col);
        if i < a.len() {
            assert(holds_place(a[i], slot, row, col));
        } else {
            assert(holds_place(b[i - a.len()], slot, row, col));
        }
    }
}

/// Every placeholder in the first `n` rows lies in a run of its slot, and every row of a run
/// holds a placeholder of its slot among the run's columns. Those runs that are not done reach
/// the last row.
pub proof fn runs_are_the_placeholders(g: &Grid, n: int)
    requires
        0 <= n,
    ensures
        forall|row: int, col: int|
            0 <= row < n && 0 <= col < g.width && (#[trigger] slot_v(g, row, col)) is Some
                ==> covered(
                runs_upto(g, n).0 + runs_upto(g, n).1,
                slot_v(g, row, col)->0,
                row,
                col,
            ),
        forall|i: int|
            0 <= i < (runs_upto(g, n).0 + runs_upto(g, n).1).len() ==> filled(
                g,
                #[trigger] (runs_upto(g, n).0 + runs_upto(g, n).1)[i],
            ),
        all_filled(g, runs_upto(g, n).1, n),
    decreases n,
{
    if n > 0 {
        let row = n - 1;
        runs_are_the_placeholders(g, row);
        runs_lie_in_the_grid(g, row);
        let r = runs_upto(g, row);
        let s = stretches(g, row, 0);
        lemma_stretches_fit(g, row, 0);
        lemma_stretches_cover(g, row, 0);
        lemma_row_covers(g, r.1, s, row);
        let p = stretches_placed(r.1, s, row);
        let all = runs_upto(g, n).0 + runs_upto(g, n).1;
        assert forall|y: int, x: int|
            0 <= y < n && 0 <= x < g.width && (#[trigger] slot_v(g, y, x)) is Some implies covered(
            all,
            slot_v(g, y, x)->0,
            y,
            x,
        ) by {
            let slot = slot_v(g, y, x)->0;
            lemma_covered_append(r.0, r.1, slot, y, x);
            lemma_covered_append(r.0, p.0, slot, y, x);
            lemma_covered_append(r.0 + p.0, p.1, slot, y, x);
            if y == row {
                assert(in_stretch(s, slot, x));
            } else {
                assert(covered(r.0 + r.1, slot, y, x));
            }
        }
        assert forall|i: int| 0 <= i < all.len() implies filled(g, #[trigger] all[i]) by {
            let before = r.0 + r.1;
            if i < r.0.len() {
                assert(all[i] == before[i]);
            } else if i < r.0.len() + p.0.len() {
                assert(all[i] == p.0[i - r.0.len()]);
            } else {
                assert(all[i] == p.1[i - r.0.len() - p.0.len()]);
            }
        }
    }
}

fn slot_of(g: &Grid, row: usize, col: usize) -> (r: Option<u16>)
    requires
        g.wf(),
        row < g.height,
        col < g.width,
    ensures
        r == slot_v(g, row as int, col as int),
{
    g.slot_at(row, col)
}

fn find_overlap(v: &Vec<Open>, s: &Stretch) -> (r: usize)
    ensures
        r == overlapped(opens(v@), s.seen(), 0),
        r <= v@.len(),
{
    let ghost all = opens(v@);
    let mut i: usize = 0;
    while i < v.len()
        invariant
            i <= v@.len(),
            all == opens(v@),
            overlapped(all, s.seen(), 0) == overlapped(all, s.seen(), i as int),
        decreases v@.len() - i,
    {
        assert(all[i as int] == v@[i as int].seen());
        if meets(&v[i], s) {
            return i;
        }
        i += 1;
    }
    i
}

/// A stretch of one slot's cells in a row.
#[derive(Clone, Copy)]
struct Stretch {
    slot: u16,
    x0: u16,
    x1: u16,
    tag: Option<usize>,
}

impl Stretch {
    spec fn seen(&self) -> StretchV {
        StretchV { slot: self.slot, x0: self.x0 as int, x1: self.x1 as int, tag: self.tag }
    }
}

spec fn stretches_seen(v: Seq<Stretch>) -> Seq<StretchV> {
    Seq::new(v.len(), |i: int| v[i].seen())
}

fn find_stretches(g: &Grid, row: usize) -> (r: Vec<Stretch>)
    requires
        g.wf(),
        row < g.height,
        g.width <= u16::MAX,
    ensures
        stretches_seen(r@) == stretches(g, row as int, 0),
{
    let mut out: Vec<Stretch> = Vec::new();
    let mut col: usize = 0;
    assert(stretches_seen(out@) + stretches(g, row as int, 0) =~= stretches(g, row as int, 0));
    while col < g.width
        invariant
            g.wf(),
            row < g.height,
            g.width <= u16::MAX,
            col <= g.width,
            stretches_seen(out@) + stretches(g, row as int, col as int) == stretches(
                g,
                row as int,
                0,
            ),
        decreases g.width - col,
    {
        match slot_of(g, row, col) {
            None => {
                col += 1;
            },
            Some(slot) => {
                let start = col;
                let mut text: Vec<char> = Vec::new();
                let mut end: usize = col;
                assert(text@ =~= stretch_text(g, row as int, start as int, start as int));
                while end < g.width && slot_of(g, row, end) == Some(slot)
                    invariant
                        g.wf(),
                        row < g.height,
                        start <= end <= g.width,
                        text@ == stretch_text(g, row as int, start as int, end as int),
                        stretch_end(g, row as int, start as int, slot) == stretch_end(
                            g,
                            row as int,
                            end as int,
                            slot,
                        ),
                    decreases g.width - end,
                {
                    append_chars(&mut text, &chars_of(g.cell(row, end).text.as_str()));
                    end += 1;
                }
                proof {
                    lemma_stretch_end(g, row as int, start as int, slot);
                }
                let ghost before = stretches_seen(out@);
                let s = Stretch {
                    slot,
                    x0: start as u16,
                    x1: end as u16,
                    tag: parse_tag(&text),
                };
                out.push(s);
                assert(stretches_seen(out@) =~= before.push(s.seen()));
                assert(stretches_seen(out@) + stretches(g, row as int, end as int) =~= before
                    + stretches(g, row as int, start as int));
                col = end;
            },
        }
    }
    assert(stretches_seen(out@) =~= stretches(g, row as int, 0));
    out
}

fn unite(a: &Open, b: &Open, row: u16, width: Ghost<int>) -> (r: Open)
    requires
        row < u16::MAX,
        run_fits(a.seen(), width@, row + 1),
        run_fits(b.seen(), width@, row + 1),
    ensures
        r.seen() == united(a.seen(), b.seen(), row as int),
{
    let top = if a.top < b.top {
        a.top
    } else {
        b.top
    };
    Open {
        slot: a.slot,
        top,
        x0: if a.x0 < b.x0 {
            a.x0
        } else {
            b.x0
        },
        x1: if a.x1 > b.x1 {
            a.x1
        } else {
            b.x1
        },
        len: row + 1 - top,
        tag: match (a.tag, b.tag) {
            (Some((t, i)), Some((u, j))) => if a.top + i <= b.top + j {
                Some((t, a.top + i - top))
            } else {
                Some((u, b.top + j - top))
            },
            (Some((t, i)), None) => Some((t, a.top + i - top)),
            (None, Some((u, j))) => Some((u, b.top + j - top)),
            (None, None) => None,
        },
    }
}

fn meets(o: &Open, s: &Stretch) -> (r: bool)
    ensures
        r == overlaps(o.seen(), s.seen()),
{
    o.slot == s.slot && o.x0 < s.x1 && s.x0 < o.x1
}

fn gather(v: &Vec<Open>, s: &Stretch, run: Open, row: u16, width: Ghost<int>) -> (r: Open)
    requires
        row < u16::MAX,
        all_fit(opens(v@), width@, row + 1),
        run_fits(run.seen(), width@, row + 1),
    ensures
        r.seen() == gathered(opens(v@), s.seen(), 0, run.seen(), row as int),
{
    let ghost all = opens(v@);
    let mut out = run;
    let mut i: usize = v.len();
    while i > 0
        invariant
            i <= v@.len(),
            row < u16::MAX,
            all == opens(v@),
            all_fit(all, width@, row + 1),
            run_fits(run.seen(), width@, row + 1),
            out.seen() == gathered(all, s.seen(), i as int, run.seen(), row as int),
        decreases i,
    {
        assert(all[i - 1] == v@[i - 1].seen());
        proof {
            lemma_gathered(all, s.seen(), i as int, run.seen(), row as int, width@);
        }
        if meets(&v[i - 1], s) {
            assert(run_fits(all[i - 1], width@, row + 1));
            out = unite(&v[i - 1], &out, row, width);
        }
        i -= 1;
    }
    out
}

fn set_apart(v: &Vec<Open>, s: &Stretch) -> (r: Vec<Open>)
    ensures
        opens(r@) == apart(opens(v@), s.seen(), v@.len() as int),
{
    let ghost all = opens(v@);
    let mut out: Vec<Open> = Vec::new();
    let mut i: usize = 0;
    assert(opens(out@) =~= Seq::empty());
    while i < v.len()
        invariant
            i <= v@.len(),
            all == opens(v@),
            opens(out@) == apart(all, s.seen(), i as int),
        decreases v@.len() - i,
    {
        assert(all[i as int] == v@[i as int].seen());
        let ghost before = opens(out@);
        if !meets(&v[i], s) {
            out.push(v[i]);
            assert(opens(out@) =~= before.push(v@[i as int].seen()));
        }
        i += 1;
    }
    out
}

fn place_stretch(
    open: &mut Vec<Open>,
    next: &mut Vec<Open>,
    s: &Stretch,
    row: u16,
    width: Ghost<int>,
)
    requires
        row < u16::MAX,
        stretch_fits(s.seen(), width@),
        all_fit(opens(old(open)@), width@, row as int),
        all_fit(opens(old(next)@), width@, row + 1),
    ensures
        (opens(final(open)@), opens(final(next)@)) == stretch_placed(
            opens(old(open)@),
            opens(old(next)@),
            s.seen(),
            row as int,
        ),
{
    let ghost before = opens(open@);
    let ghost now = opens(next@);
    proof {
        lemma_fit_below(before, width@, row as int);
        lemma_overlapped(now, s.seen(), 0);
        lemma_apart(now, s.seen(), now.len() as int, width@, row + 1);
        lemma_gathered(before, s.seen(), 0, run_of(s.seen(), row as int), row as int, width@);
    }
    let single = Open {
        slot: s.slot,
        top: row,
        x0: s.x0,
        x1: s.x1,
        len: 1,
        tag: match s.tag {
            Some(t) => Some((t, 0)),
            None => None,
        },
    };
    assert(single.seen() == run_of(s.seen(), row as int));
    let above = gather(open, s, single, row, width);
    let whole = gather(next, s, above, row, width);
    let at = find_overlap(next, s);
    let left = set_apart(open, s);
    let mut kept = set_apart(next, s);
    let ghost rest = opens(kept@);
    kept.insert(at, whole);
    assert(opens(kept@) =~= rest.insert(at as int, whole.seen()));
    *open = left;
    *next = kept;
}

fn finish_run(o: &Open, heights: &Vec<Option<usize>>) -> (r: Run)
    ensures
        is_run(r, o.seen(), heights@),
{
    let known = if (o.slot as usize) < heights.len() {
        heights[o.slot as usize]
    } else {
        None
    };
    let full = match known {
        Some(h) => h,
        None => o.len as usize,
    };
    let offset = match o.tag {
        Some((tag, at)) => if tag > at as usize {
            tag - at as usize
        } else {
            0
        },
        None => if (o.len as usize) < full && o.top == 0 {
            full - o.len as usize
        } else {
            0
        },
    };
    Run { slot: o.slot, top: o.top, len: o.len, x0: o.x0, x1: o.x1, offset }
}

/// Finds every output run in the grid. `heights` has the outputs' full heights, by slot.
///
/// A row's segment continues a run of the same slot on the row above when their columns
/// overlap; a float covering part of an output splits segments but not the run: pieces that a
/// segment below has in common are one run.
pub fn find_runs(g: &Grid, heights: &Vec<Option<usize>>) -> (r: Vec<Run>)
    requires
        g.wf(),
        g.width <= u16::MAX,
        g.height <= u16::MAX,
    ensures
        ({
            let runs = runs_upto(g, g.height as int);
            let all = runs.0 + runs.1;
            &&& r@.len() == all.len()
            &&& forall|i: int| 0 <= i < all.len() ==> is_run(#[trigger] r@[i], all[i], heights@)
        }),
{
    let mut open: Vec<Open> = Vec::new();
    let mut done: Vec<Open> = Vec::new();
    let mut row: usize = 0;
    assert(opens(open@) =~= Seq::empty());
    assert(opens(done@) =~= Seq::empty());
    while row < g.height
        invariant
            g.wf(),
            g.width <= u16::MAX,
            g.height <= u16::MAX,
            row <= g.height,
            (opens(done@), opens(open@)) == runs_upto(g, row as int),
        decreases g.height - row,
    {
        proof {
            runs_lie_in_the_grid(g, row as int);
            lemma_stretches_fit(g, row as int, 0);
        }
        let found = find_stretches(g, row);
        let ghost all = stretches(g, row as int, 0);
        let ghost above = opens(open@);
        let mut next: Vec<Open> = Vec::new();
        let mut i: usize = 0;
        assert(opens(next@) =~= Seq::empty());
        assert(all.take(0) =~= Seq::empty());
        while i < found.len()
            invariant
                row < g.height <= u16::MAX,
                i <= found@.len(),
                all == stretches_seen(found@),
                all_fit(above, g.width as int, row as int),
                forall|k: int|
                    0 <= k < all.len() ==> stretch_fits(#[trigger] all[k], g.width as int),
                (opens(open@), opens(next@)) == stretches_placed(
                    above,
                    all.take(i as int),
                    row as int,
                ),
            decreases found@.len() - i,
        {
            proof {
                let front = all.take(i as int);
                assert(all.take(i + 1).drop_last() =~= front);
                assert(all.take(i + 1).last() == found@[i as int].seen());
                assert forall|k: int| 0 <= k < front.len() implies stretch_fits(
                    #[trigger] front[k],
                    g.width as int,
                ) by {
                    assert(stretch_fits(all[k], g.width as int));
                }
                lemma_row_fits(above, front, row as int, g.width as int);
            }
            let s = found[i];
            assert(stretch_fits(all[i as int], g.width as int));
            place_stretch(&mut open, &mut next, &s, row as u16, Ghost(g.width as int));
            i += 1;
        }
        assert(all.take(i as int) =~= all);
        let ghost ended = opens(done@);
        let ghost left = opens(open@);
        done.append(&mut open);
        assert(opens(done@) =~= ended + left);
        open = next;
        row += 1;
    }
    let ghost ended = opens(done@);
    let ghost left = opens(open@);
    done.append(&mut open);
    assert(opens(done@) =~= ended + left);
    let ghost all = opens(done@);
    let mut out: Vec<Run> = Vec::new();
    let mut i: usize = 0;
    while i < done.len()
        invariant
            i <= done@.len(),
            all == opens(done@),
            out@.len() == i,
            forall|k: int| 0 <= k < i ==> is_run(#[trigger] out@[k], all[k], heights@),
        decreases done@.len() - i,
    {
        assert(all[i as int] == done@[i as int].seen());
        out.push(finish_run(&done[i], heights));
        i += 1;
    }
    out
}

pub open spec fn rgb_of(c: u32) -> Color {
    Color::Rgb((c / 65536 % 256) as u8, (c / 256 % 256) as u8, (c % 256) as u8)
}

pub open spec fn rgb_or(c: Option<u32>, other: Option<u32>) -> Color {
    match c {
        Some(c) => rgb_of(c),
        None => match other {
            Some(c) => rgb_of(c),
            None => Color::Reset,
        },
    }
}

/// The style of a highlight over the default colours.
pub open spec fn hl_style(a: HlV, fg: Option<u32>, bg: Option<u32>) -> Style {
    let front = rgb_or(a.fg, fg);
    let back = rgb_or(a.bg, bg);
    Style {
        fg: Some(
            if a.reverse {
                back
            } else {
                front
            },
        ),
        bg: Some(
            if a.reverse {
                front
            } else {
                back
            },
        ),
        underline_color: if a.undercurl {
            match a.sp {
                Some(c) => Some(rgb_of(c)),
                None => None,
            }
        } else {
            None
        },
        added: Emphasis {
            bold: a.bold,
            italic: a.italic,
            underlined: a.underline || a.undercurl,
            crossed_out: a.strikethrough,
            ..plain()
        },
        removed: plain(),
    }
}

/// A highlight that sets nothing.
pub open spec fn no_hl() -> HlV {
    HlV {
        fg: None,
        bg: None,
        sp: None,
        bold: false,
        italic: false,
        underline: false,
        undercurl: false,
        strikethrough: false,
        reverse: false,
        names: Seq::empty(),
    }
}

pub(crate) fn rgb(c: u32) -> (r: Color)
    ensures
        r == rgb_of(c),
{
    Color::Rgb((c / 65536 % 256) as u8, (c / 256 % 256) as u8, (c % 256) as u8)
}

fn rgb_first(c: Option<u32>, other: Option<u32>) -> (r: Color)
    ensures
        r == rgb_or(c, other),
{
    match c {
        Some(c) => rgb(c),
        None => match other {
            Some(c) => rgb(c),
            None => Color::Reset,
        },
    }
}

pub fn style_of(attr: Option<&HlAttr>, default_fg: Option<u32>, default_bg: Option<u32>) -> (r:
    Style)
    ensures
        r == hl_style(
            match attr {
                Some(a) => a@,
                None => no_hl(),
            },
            default_fg,
            default_bg,
        ),
{
    match attr {
        Some(a) => {
            let front = rgb_first(a.fg, default_fg);
            let back = rgb_first(a.bg, default_bg);
            Style {
                fg: Some(
                    if a.reverse {
                        back
                    } else {
                        front
                    },
                ),
                bg: Some(
                    if a.reverse {
                        front
                    } else {
                        back
                    },
                ),
                underline_color: if a.undercurl {
                    match a.sp {
                        Some(c) => Some(rgb(c)),
                        None => None,
                    }
                } else {
                    None
                },
                added: Emphasis {
                    bold: a.bold,
                    italic: a.italic,
                    underlined: a.underline || a.undercurl,
                    crossed_out: a.strikethrough,
                    ..Emphasis::none()
                },
                removed: Emphasis::none(),
            }
        },
        None => Style {
            fg: Some(rgb_first(None, default_fg)),
            bg: Some(rgb_first(None, default_bg)),
            ..Style::default()
        },
    }
}

/// A part of an output that is drawn in a run.
#[derive(Clone, Copy, Debug, PartialEq, Eq, Structural)]
pub enum Slice {
    /// Line `line` of block `block` at a row of the screen.
    Text { block: usize, line: usize, y: u16 },
    /// Block `block`, a picture, whose top is `above` rows above the run or `below` rows below
    /// its first row.
    Image { block: usize, above: usize, below: usize },
}

/// The slices of the lines `from..to` of a block of text that begins at row `start`.
pub open spec fn text_slices(run: Run, block: int, start: int, from: int, to: int) -> Seq<Slice>
    decreases to - from,
{
    if to <= from {
        Seq::empty()
    } else {
        text_slices(run, block, start, from, to - 1).push(
            Slice::Text {
                block: block as usize,
                line: (to - 1 - start) as usize,
                y: (run.top + (to - 1 - run.offset)) as u16,
            },
        )
    }
}

/// The slices of a block that begins at row `start` of the output.
pub open spec fn block_slices(run: Run, b: BlockV, block: int, start: int) -> Seq<Slice> {
    let from = most(start, run.offset as int);
    let to = least(start + block_rows(b), run.offset + run.len);
    if from >= to {
        Seq::empty()
    } else {
        match b {
            BlockV::Text(_) => text_slices(run, block, start, from, to),
            BlockV::Image { .. } => seq![
                Slice::Image {
                    block: block as usize,
                    above: most(run.offset - start, 0) as usize,
                    below: most(start - run.offset, 0) as usize,
                },
            ],
        }
    }
}

/// The slices of the first `n` blocks.
pub open spec fn slices_upto(run: Run, blocks: Seq<BlockV>, n: int) -> Seq<Slice>
    decreases n,
{
    if n <= 0 {
        Seq::empty()
    } else {
        slices_upto(run, blocks, n - 1) + block_slices(
            run,
            blocks[n - 1],
            n - 1,
            crate::outputs::rows_total(blocks.take(n - 1)),
        )
    }
}

/// What is drawn of an output in a run: the rows of its blocks that fall in the run's window.
pub fn draw_output(run: &Run, view: &OutputView) -> (r: Vec<Slice>)
    requires
        run.top + run.len <= u16::MAX,
        run.offset + run.len <= usize::MAX,
        crate::outputs::rows_total(blocks_view(view.blocks@)) <= usize::MAX,
    ensures
        r@ == slices_upto(*run, blocks_view(view.blocks@), view.blocks@.len() as int),
{
    let ghost all = blocks_view(view.blocks@);
    let mut out: Vec<Slice> = Vec::new();
    let mut start: usize = 0;
    let mut i: usize = 0;
    assert(all.take(0) =~= Seq::empty());
    while i < view.blocks.len()
        invariant
            run.top + run.len <= u16::MAX,
            run.offset + run.len <= usize::MAX,
            i <= view.blocks@.len(),
            all == blocks_view(view.blocks@),
            crate::outputs::rows_total(all) <= usize::MAX,
            start == crate::outputs::rows_total(all.take(i as int)),
            out@ == slices_upto(*run, all, i as int),
        decreases view.blocks@.len() - i,
    {
        proof {
            assert(all.take(i + 1).drop_last() =~= all.take(i as int));
            assert(all.take(i + 1).last() == view.blocks@[i as int]@);
            crate::outputs::lemma_rows_grow(all, i + 1);
        }
        let h = view.blocks[i].height();
        let end = start + h;
        let from = if start > run.offset {
            start
        } else {
            run.offset
        };
        let bottom = run.offset + run.len as usize;
        let to = if end < bottom {
            end
        } else {
            bottom
        };
        let ghost before = out@;
        if from < to {
            match &view.blocks[i] {
                Block::Text(_) => {
                    let mut r: usize = from;
                    assert(before + text_slices(*run, i as int, start as int, from as int, from as int)
                        =~= before);
                    while r < to
                        invariant
                            run.top + run.len <= u16::MAX,
                            from <= r <= to,
                            start <= from,
                            run.offset <= from,
                            to <= run.offset + run.len,
                            out@ == before + text_slices(
                                *run,
                                i as int,
                                start as int,
                                from as int,
                                r as int,
                            ),
                        decreases to - r,
                    {
                        let y = run.top + (r - run.offset) as u16;
                        out.push(Slice::Text { block: i, line: r - start, y });
                        assert(out@ =~= before + text_slices(
                            *run,
                            i as int,
                            start as int,
                            from as int,
                            r + 1,
                        ));
                        r += 1;
                    }
                },
                Block::Image { .. } => {
                    let above = if run.offset > start {
                        run.offset - start
                    } else {
                        0
                    };
                    let below = if start > run.offset {
                        start - run.offset
                    } else {
                        0
                    };
                    out.push(Slice::Image { block: i, above, below });
                    assert(out@ =~= before + block_slices(*run, all[i as int], i as int, start as int));
                },
            }
        } else {
            assert(out@ =~= before + Seq::empty());
        }
        assert(out@ =~= slices_upto(*run, all, i + 1));
        start = end;
        i += 1;
    }
    out
}

/// What is drawn at a place of the grid.
#[derive(Clone, Copy, Debug, PartialEq, Eq, Structural)]
pub enum Drawn {
    /// Nothing: the output layer shows through.
    Transparent,
    /// The right half of a double-width character.
    Half,
    /// The cell's text, in a style.
    Text(Style),
}

/// What is drawn of Neovim's grid at a place. Placeholder cells are transparent; everything
/// else covers what the output layer put there.
pub fn drawn_at(g: &Grid, row: usize, col: usize) -> (r: Drawn)
    requires
        g.wf(),
        row < g.height,
        col < g.width,
    ensures
        r == drawn_v(g, row as int, col as int),
{
    if slot_of(g, row, col).is_some() {
        return Drawn::Transparent;
    }
    let cell = g.cell(row, col);
    if chars_of(cell.text.as_str()).len() == 0 {
        return Drawn::Half;
    }
    Drawn::Text(style_of(g.attr(cell.hl), g.default_fg, g.default_bg))
}

/// A cell of the screen that Neovim's grid covers: its text and style, or the right half of a
/// double-width character.
#[derive(Debug, PartialEq, Eq)]
pub struct GridPut {
    pub row: usize,
    pub col: usize,
    pub text: Option<(String, Style)>,
}

/// What a [`GridPut`] holds.
pub struct GridPutV {
    pub row: int,
    pub col: int,
    pub text: Option<(Seq<char>, Style)>,
}

impl View for GridPut {
    type V = GridPutV;

    open spec fn view(&self) -> GridPutV {
        GridPutV {
            row: self.row as int,
            col: self.col as int,
            text: match self.text {
                Some(t) => Some((t.0@, t.1)),
                None => None,
            },
        }
    }
}

pub open spec fn grid_puts_view(v: Seq<GridPut>) -> Seq<GridPutV> {
    Seq::new(v.len(), |i: int| v[i]@)
}

/// What is drawn at a place of the grid.
pub open spec fn drawn_v(g: &Grid, row: int, col: int) -> Drawn {
    let c = g.at(row, col);
    if slot_v(g, row, col) is Some {
        Drawn::Transparent
    } else if c.text.len() == 0 {
        Drawn::Half
    } else {
        Drawn::Text(
            hl_style(
                if g.hl@.dom().contains(c.hl) {
                    g.hl@[c.hl]@
                } else {
                    no_hl()
                },
                g.default_fg,
                g.default_bg,
            ),
        )
    }
}

/// What covers a place of the screen, if anything.
pub open spec fn covering(g: &Grid, row: int, col: int) -> Option<GridPutV> {
    match drawn_v(g, row, col) {
        Drawn::Transparent => None,
        Drawn::Half => Some(GridPutV { row, col, text: None }),
        Drawn::Text(style) => Some(
            GridPutV { row, col, text: Some((g.at(row, col).text, style)) },
        ),
    }
}

/// What covers the first `n` columns of a row.
pub open spec fn row_covering(g: &Grid, row: int, n: int) -> Seq<GridPutV>
    decreases n,
{
    if n <= 0 {
        Seq::empty()
    } else {
        let front = row_covering(g, row, n - 1);
        match covering(g, row, n - 1) {
            Some(p) => front.push(p),
            None => front,
        }
    }
}

/// What covers the first `m` rows of `n` columns.
pub open spec fn grid_covering(g: &Grid, m: int, n: int) -> Seq<GridPutV>
    decreases m,
{
    if m <= 0 {
        Seq::empty()
    } else {
        grid_covering(g, m - 1, n) + row_covering(g, m - 1, n)
    }
}

/// Neovim's grid as it is drawn over a screen of this size. Placeholder cells are left out:
/// what is under them shows.
pub fn draw_grid(g: &Grid, width: u16, height: u16) -> (r: Vec<GridPut>)
    requires
        g.wf(),
    ensures
        grid_puts_view(r@) == grid_covering(
            g,
            least(g.height as int, height as int),
            least(g.width as int, width as int),
        ),
{
    let rows = if g.height < height as usize {
        g.height
    } else {
        height as usize
    };
    let cols = if g.width < width as usize {
        g.width
    } else {
        width as usize
    };
    let mut out: Vec<GridPut> = Vec::new();
    let mut row: usize = 0;
    assert(grid_puts_view(out@) =~= grid_covering(g, 0, cols as int));
    while row < rows
        invariant
            g.wf(),
            row <= rows <= g.height,
            cols <= g.width,
            grid_puts_view(out@) == grid_covering(g, row as int, cols as int),
        decreases rows - row,
    {
        let ghost above = grid_puts_view(out@);
        let mut col: usize = 0;
        assert(above =~= above + row_covering(g, row as int, 0));
        while col < cols
            invariant
                g.wf(),
                row < rows <= g.height,
                col <= cols <= g.width,
                grid_puts_view(out@) == above + row_covering(g, row as int, col as int),
            decreases cols - col,
        {
            let ghost before = grid_puts_view(out@);
            let text = match drawn_at(g, row, col) {
                Drawn::Transparent => {
                    col += 1;
                    continue;
                },
                Drawn::Half => None,
                Drawn::Text(style) => Some((g.cell(row, col).text.clone(), style)),
            };
            let put = GridPut { row, col, text };
            out.push(put);
            proof {
                assert(covering(g, row as int, col as int) == Some(put@));
                assert(grid_puts_view(out@) =~= before.push(put@));
                assert(before.push(put@) =~= above + row_covering(g, row as int, col + 1));
            }
            col += 1;
        }
        row += 1;
    }
    out
}

/// A colour is the red, green and blue that its number is written with.
pub proof fn color_is_its_bytes(c: u32, red: u8, green: u8, blue: u8)
    requires
        c == red * 65536 + green * 256 + blue,
    ensures
        rgb_of(c) == Color::Rgb(red, green, blue),
{
    assert(c / 65536 == red);
    assert(c / 256 == red * 256 + green);
    assert(c % 256 == blue);
}

/// A highlight is drawn in the colours that it sets, and in the default ones where it sets
/// none; reversed, it is drawn in the same two colours exchanged.
pub proof fn highlight_shows_its_colors(a: HlV, fg: Option<u32>, bg: Option<u32>)
    ensures
        ({
            let s = hl_style(a, fg, bg);
            let front = if a.reverse {
                s.bg
            } else {
                s.fg
            };
            let back = if a.reverse {
                s.fg
            } else {
                s.bg
            };
            &&& a.fg is Some ==> front == Some(rgb_of(a.fg->0))
            &&& a.fg is None && fg is Some ==> front == Some(rgb_of(fg->0))
            &&& a.fg is None && fg is None ==> front == Some(Color::Reset)
            &&& a.bg is Some ==> back == Some(rgb_of(a.bg->0))
            &&& a.bg is None && bg is Some ==> back == Some(rgb_of(bg->0))
            &&& a.bg is None && bg is None ==> back == Some(Color::Reset)
        }),
        ({
            let turned = hl_style(HlV { reverse: !a.reverse, ..a }, fg, bg);
            &&& turned.fg == hl_style(a, fg, bg).bg
            &&& turned.bg == hl_style(a, fg, bg).fg
            &&& turned.added == hl_style(a, fg, bg).added
        }),
{
}

/// A highlight has just the emphases that it sets: an undercurl is an underline, in its own
/// colour if it has one.
pub proof fn highlight_shows_its_emphases(a: HlV, fg: Option<u32>, bg: Option<u32>)
    ensures
        ({
            let s = hl_style(a, fg, bg);
            &&& s.added.bold <==> a.bold
            &&& s.added.italic <==> a.italic
            &&& s.added.underlined <==> (a.underline || a.undercurl)
            &&& s.added.crossed_out <==> a.strikethrough
            &&& !s.added.dim && !s.added.reversed
            &&& s.removed == plain()
            &&& a.undercurl && a.sp is Some ==> s.underline_color == Some(rgb_of(a.sp->0))
            &&& !a.undercurl || a.sp is None ==> s.underline_color is None
        }),
{
}

proof fn lemma_row_covering(g: &Grid, row: int, n: int)
    requires
        0 <= n,
    ensures
        forall|i: int|
            0 <= i < row_covering(g, row, n).len() ==> (#[trigger] row_covering(g, row, n)[i]).row == row
                && 0 <= row_covering(g, row, n)[i].col < n && covering(
                g,
                row,
                row_covering(g, row, n)[i].col,
            ) == Some(row_covering(g, row, n)[i]),
        forall|col: int|
            0 <= col < n && (#[trigger] covering(g, row, col)) is Some ==> row_covering(
                g,
                row,
                n,
            ).contains(covering(g, row, col)->0),
    decreases n,
{
    if n > 0 {
        lemma_row_covering(g, row, n - 1);
        let front = row_covering(g, row, n - 1);
        let all = row_covering(g, row, n);
        assert forall|i: int| 0 <= i < all.len() implies (#[trigger] all[i]).row == row && 0
            <= all[i].col < n && covering(g, row, all[i].col) == Some(all[i]) by {
            if i < front.len() {
                assert(all[i] == front[i]);
            }
        }
        assert forall|col: int| 0 <= col < n && (#[trigger] covering(g, row, col)) is Some implies all.contains(
            covering(g, row, col)->0,
        ) by {
            let p = covering(g, row, col)->0;
            if col < n - 1 {
                assert(front.contains(p));
                let i = choose|i: int| 0 <= i < front.len() && front[i] == p;
                assert(all[i] == p);
            } else {
                assert(all[all.len() - 1] == p);
            }
        }
    }
}

proof fn lemma_grid_covering(g: &Grid, m: int, n: int)
    requires
        0 <= m,
        0 <= n,
    ensures
        forall|i: int|
            0 <= i < grid_covering(g, m, n).len() ==> 0 <= (#[trigger] grid_covering(g, m, n)[i]).row < m
                && 0 <= grid_covering(g, m, n)[i].col < n && covering(
                g,
                grid_covering(g, m, n)[i].row,
                grid_covering(g, m, n)[i].col,
            ) == Some(grid_covering(g, m, n)[i]),
        forall|row: int, col: int|
            0 <= row < m && 0 <= col < n && (#[trigger] covering(g, row, col)) is Some
                ==> grid_covering(g, m, n).contains(covering(g, row, col)->0),
    decreases m,
{
    if m > 0 {
        lemma_grid_covering(g, m - 1, n);
        lemma_row_covering(g, m - 1, n);
        let above = grid_covering(g, m - 1, n);
        let last = row_covering(g, m - 1, n);
        let all = grid_covering(g, m, n);
        assert forall|i: int| 0 <= i < all.len() implies 0 <= (#[trigger] all[i]).row < m && 0
            <= all[i].col < n && covering(g, all[i].row, all[i].col) == Some(all[i]) by {
            if i < above.len() {
                assert(all[i] == above[i]);
            } else {
                assert(all[i] == last[i - above.len()]);
            }
        }
        assert forall|row: int, col: int|
            0 <= row < m && 0 <= col < n && (#[trigger] covering(g, row, col)) is Some implies all.contains(
            covering(g, row, col)->0,
        ) by {
            let p = covering(g, row, col)->0;
            if row < m - 1 {
                assert(above.contains(p));
                let i = choose|i: int| 0 <= i < above.len() && above[i] == p;
                assert(all[i] == p);
            } else {
                assert(last.contains(p));
                let i = choose|i: int| 0 <= i < last.len() && last[i] == p;
                assert(all[above.len() + i] == p);
            }
        }
    }
}

/// Whether something is drawn at a place.
pub open spec fn drawn_in(v: Seq<GridPutV>, row: int, col: int) -> bool {
    exists|i: int| 0 <= i < v.len() && (#[trigger] v[i]).row == row && v[i].col == col
}

/// Neovim's grid is drawn cell by cell: each cell that is no placeholder shows its own text, in
/// the style of its own highlight, and a placeholder leaves its place to what is below. Nothing
/// is drawn elsewhere.
pub proof fn grid_shows_its_cells(g: &Grid, rows: int, cols: int, row: int, col: int)
    requires
        0 <= row < rows,
        0 <= col < cols,
    ensures
        ({
            let puts = grid_covering(g, rows, cols);
            let cell = g.at(row, col);
            let a = if g.hl@.dom().contains(cell.hl) {
                g.hl@[cell.hl]@
            } else {
                no_hl()
            };
            &&& drawn_in(puts, row, col) <==> !g.slots@.dom().contains(cell.hl)
            &&& forall|i: int|
                0 <= i < puts.len() && (#[trigger] puts[i]).row == row && puts[i].col == col ==> {
                    &&& cell.text.len() > 0 ==> puts[i].text == Some(
                        (cell.text, hl_style(a, g.default_fg, g.default_bg)),
                    )
                    &&& cell.text.len() == 0 ==> puts[i].text is None
                }
            &&& forall|i: int|
                0 <= i < puts.len() ==> 0 <= (#[trigger] puts[i]).row < rows && 0 <= puts[i].col < cols
        }),
{
    lemma_grid_covering(g, rows, cols);
    let puts = grid_covering(g, rows, cols);
    if slot_v(g, row, col) is None {
        let p = covering(g, row, col)->0;
        assert(puts.contains(p));
        let i = choose|i: int| 0 <= i < puts.len() && puts[i] == p;
        assert(puts[i].row == row && puts[i].col == col);
    }
}

proof fn lemma_text_slices(run: Run, block: int, start: int, from: int, to: int)
    requires
        from <= to,
    ensures
        text_slices(run, block, start, from, to).len() == to - from,
        forall|j: int|
            0 <= j < to - from ==> #[trigger] text_slices(run, block, start, from, to)[j]
                == (Slice::Text {
                block: block as usize,
                line: (from + j - start) as usize,
                y: (run.top + (from + j - run.offset)) as u16,
            }),
    decreases to - from,
{
    if from < to {
        lemma_text_slices(run, block, start, from, to - 1);
        let front = text_slices(run, block, start, from, to - 1);
        let all = text_slices(run, block, start, from, to);
        assert forall|j: int| 0 <= j < to - from implies #[trigger] all[j] == (Slice::Text {
            block: block as usize,
            line: (from + j - start) as usize,
            y: (run.top + (from + j - run.offset)) as u16,
        }) by {
            if j < to - from - 1 {
                assert(all[j] == front[j]);
            }
        }
    }
}

/// Where a row of a block stands in the output.
pub open spec fn row_in_output(blocks: Seq<BlockV>, block: int, line: int) -> int {
    crate::outputs::rows_total(blocks.take(block)) + line
}

proof fn lemma_block_rows(blocks: Seq<BlockV>, block: int)
    requires
        0 <= block < blocks.len(),
    ensures
        crate::outputs::rows_total(blocks.take(block + 1)) == crate::outputs::rows_total(
            blocks.take(block),
        ) + block_rows(blocks[block]),
        0 <= crate::outputs::rows_total(blocks.take(block)),
        crate::outputs::rows_total(blocks.take(block + 1)) <= crate::outputs::rows_total(blocks),
{
    assert(blocks.take(block + 1).drop_last() =~= blocks.take(block));
    crate::outputs::lemma_rows_grow(blocks, block + 1);
    crate::outputs::lemma_rows_grow(blocks, block);
}

/// A run shows the rows of the output that are in its window, each where it belongs: a line of
/// text that stands `d` rows below the window's first row is drawn `d` rows below the run's
/// top, and a picture is placed by where its first row stands to the window's.
#[verifier::spinoff_prover]
#[verifier::rlimit(40)]
pub proof fn run_shows_its_window(run: Run, blocks: Seq<BlockV>, n: int, block: int, line: int)
    requires
        0 <= block < n <= blocks.len(),
        blocks.len() <= usize::MAX,
        0 <= line < block_rows(blocks[block]),
        run.top + run.len <= u16::MAX,
        run.offset + run.len <= usize::MAX,
        crate::outputs::rows_total(blocks) <= usize::MAX,
        run.offset <= row_in_output(blocks, block, line) < run.offset + run.len,
    ensures
        match blocks[block] {
            BlockV::Text(_) => slices_upto(run, blocks, n).contains(
                Slice::Text {
                    block: block as usize,
                    line: line as usize,
                    y: (run.top + row_in_output(blocks, block, line) - run.offset) as u16,
                },
            ),
            BlockV::Image { .. } => exists|i: int|
                0 <= i < slices_upto(run, blocks, n).len() && places_image(
                    #[trigger] slices_upto(run, blocks, n)[i],
                    block,
                    row_in_output(blocks, block, 0) - run.offset,
                ),
        },
    decreases n,
{
    let all = slices_upto(run, blocks, n);
    let front = slices_upto(run, blocks, n - 1);
    lemma_block_rows(blocks, block);
    if block < n - 1 {
        run_shows_its_window(run, blocks, n - 1, block, line);
        match blocks[block] {
            BlockV::Text(_) => {
                let s = Slice::Text {
                    block: block as usize,
                    line: line as usize,
                    y: (run.top + row_in_output(blocks, block, line) - run.offset) as u16,
                };
                let i = choose|i: int| 0 <= i < front.len() && front[i] == s;
                assert(all[i] == s);
            },
            BlockV::Image { .. } => {
                let i = choose|i: int|
                    0 <= i < front.len() && places_image(
                        #[trigger] front[i],
                        block,
                        row_in_output(blocks, block, 0) - run.offset,
                    );
                assert(all[i] == front[i]);
            },
        }
    } else {
        let start = crate::outputs::rows_total(blocks.take(block));
        let from = most(start, run.offset as int);
        let to = least(start + block_rows(blocks[block]), run.offset + run.len);
        let last = block_slices(run, blocks[block], block, start);
        match blocks[block] {
            BlockV::Text(_) => {
                lemma_text_slices(run, block, start, from, to);
                let j = start + line - from;
                assert(last[j] == all[front.len() + j]);
            },
            BlockV::Image { .. } => {
                assert(last[0] == all[front.len() as int]);
                assert(places_image(all[front.len() as int], block, start - run.offset));
            },
        }
    }
}

/// Whether a slice places the picture of a block with its first row `at` rows below the run's
/// top, or above it where `at` is negative.
pub open spec fn places_image(s: Slice, block: int, at: int) -> bool {
    s matches Slice::Image { block: b, above, below } && b == block && below - above == at && (above
        == 0 || below == 0)
}

/// Nothing but the output's own rows is drawn in a run, and none outside it.
pub proof fn run_shows_no_more(run: Run, blocks: Seq<BlockV>, n: int, i: int)
    requires
        0 <= n <= blocks.len(),
        blocks.len() <= usize::MAX,
        run.top + run.len <= u16::MAX,
        run.offset + run.len <= usize::MAX,
        crate::outputs::rows_total(blocks) <= usize::MAX,
        0 <= i < slices_upto(run, blocks, n).len(),
    ensures
        match slices_upto(run, blocks, n)[i] {
            Slice::Text { block, line, y } => {
                &&& block < n
                &&& blocks[block as int] is Text
                &&& line < block_rows(blocks[block as int])
                &&& run.top <= y < run.top + run.len
                &&& y - run.top == row_in_output(blocks, block as int, line as int) - run.offset
            },
            Slice::Image { block, .. } => block < n && blocks[block as int] is Image,
        },
    decreases n,
{
    let all = slices_upto(run, blocks, n);
    let front = slices_upto(run, blocks, n - 1);
    if i < front.len() {
        run_shows_no_more(run, blocks, n - 1, i);
        assert(all[i] == front[i]);
    } else {
        let block = n - 1;
        lemma_block_rows(blocks, block);
        let start = crate::outputs::rows_total(blocks.take(block));
        let from = most(start, run.offset as int);
        let to = least(start + block_rows(blocks[block]), run.offset + run.len);
        let last = block_slices(run, blocks[block], block, start);
        assert(all[i] == last[i - front.len()]);
        if from < to && blocks[block] is Text {
            lemma_text_slices(run, block, start, from, to);
        }
    }
}

} // verus!
