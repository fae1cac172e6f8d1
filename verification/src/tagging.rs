//! Which row of an output a run of placeholders shows first: what the tags in its rows say.

use crate::compose::{
    apart, gathered, is_run, overlapped, overlaps, run_of, run_offset, runs_upto, stretch_placed, stretches,
    stretches_placed, united, OpenV, Run, StretchV,
};
use crate::grid::Grid;
use vstd::prelude::*;

verus! {

/// Whether a stretch of a run's slot, within its columns, says a row of the output.
pub open spec fn says_row(s: StretchV, o: OpenV, tag: usize) -> bool {
    s.slot == o.slot && o.x0 <= s.x0 && s.x1 <= o.x1 && s.tag == Some(tag)
}

/// Whether a row of the grid says, within a run's columns, which row of the output it shows.
pub open spec fn row_says(g: &Grid, o: OpenV, row: int, tag: usize) -> bool {
    exists|j: int| 0 <= j < stretches(g, row, 0).len() && says_row(#[trigger] stretches(g, row, 0)[j], o, tag)
}

/// Whether a run's tag is what the row says that it was read from.
pub open spec fn reads_its_tag(g: &Grid, o: OpenV, rows: int) -> bool {
    &&& 0 <= o.top
    &&& o.len >= 1
    &&& o.top + o.len <= rows
    &&& o.tag is Some ==> 0 <= (o.tag->0).1 < o.len && row_says(
        g,
        o,
        o.top + (o.tag->0).1,
        (o.tag->0).0,
    )
}

pub open spec fn all_read(g: &Grid, v: Seq<OpenV>, rows: int) -> bool {
    forall|i: int| 0 <= i < v.len() ==> reads_its_tag(g, #[trigger] v[i], rows)
}

proof fn lemma_wider(g: &Grid, a: OpenV, b: OpenV, row: int, tag: usize)
    requires
        row_says(g, a, row, tag),
        a.slot == b.slot,
        b.x0 <= a.x0,
        a.x1 <= b.x1,
    ensures
        row_says(g, b, row, tag),
{
    let j = choose|j: int|
        0 <= j < stretches(g, row, 0).len() && says_row(#[trigger] stretches(g, row, 0)[j], a, tag);
    assert(says_row(stretches(g, row, 0)[j], b, tag));
}

proof fn lemma_united(g: &Grid, a: OpenV, b: OpenV, row: int)
    requires
        reads_its_tag(g, a, row + 1),
        reads_its_tag(g, b, row + 1),
        a.slot == b.slot,
    ensures
        reads_its_tag(g, united(a, b, row), row + 1),
{
    let u = united(a, b, row);
    if a.tag is Some {
        lemma_wider(g, a, u, a.top + (a.tag->0).1, (a.tag->0).0);
    }
    if b.tag is Some {
        lemma_wider(g, b, u, b.top + (b.tag->0).1, (b.tag->0).0);
    }
}

proof fn lemma_gathered(g: &Grid, v: Seq<OpenV>, s: StretchV, i: int, run: OpenV, row: int)
    requires
        0 <= i <= v.len(),
        all_read(g, v, row + 1),
        reads_its_tag(g, run, row + 1),
        run.slot == s.slot,
    ensures
        reads_its_tag(g, gathered(v, s, i, run, row), row + 1),
        gathered(v, s, i, run, row).slot == s.slot,
    decreases v.len() - i,
{
    if i < v.len() {
        lemma_gathered(g, v, s, i + 1, run, row);
        assert(reads_its_tag(g, v[i], row + 1));
        if overlaps(v[i], s) {
            lemma_united(g, v[i], gathered(v, s, i + 1, run, row), row);
        }
    }
}

proof fn lemma_apart(g: &Grid, v: Seq<OpenV>, s: StretchV, n: int, rows: int)
    requires
        0 <= n <= v.len(),
        all_read(g, v, rows),
    ensures
        all_read(g, apart(v, s, n), rows),
    decreases n,
{
    if n > 0 {
        lemma_apart(g, v, s, n - 1, rows);
        assert(reads_its_tag(g, v[n - 1], rows));
    }
}

proof fn lemma_overlap_kept(v: Seq<OpenV>, s: StretchV, i: int, n: int)
    requires
        0 <= i <= n <= v.len(),
        i <= overlapped(v, s, 0),
    ensures
        i <= apart(v, s, n).len(),
    decreases n,
{
    if n > i {
        lemma_overlap_kept(v, s, i, n - 1);
    } else if n > 0 {
        lemma_before(v, s, 0, i - 1);
        lemma_overlap_kept(v, s, i - 1, n - 1);
    }
}

proof fn lemma_before(v: Seq<OpenV>, s: StretchV, from: int, k: int)
    requires
        0 <= from <= k < v.len(),
        k < overlapped(v, s, from),
    ensures
        !overlaps(v[k], s),
    decreases v.len() - from,
{
    if from < k {
        lemma_before(v, s, from + 1, k);
    }
}

proof fn lemma_overlapped_within(v: Seq<OpenV>, s: StretchV, i: int)
    requires
        0 <= i <= v.len(),
    ensures
        i <= overlapped(v, s, i) <= v.len(),
    decreases v.len() - i,
{
    if i < v.len() && !overlaps(v[i], s) {
        lemma_overlapped_within(v, s, i + 1);
    }
}

proof fn lemma_later(g: &Grid, v: Seq<OpenV>, rows: int)
    requires
        all_read(g, v, rows),
    ensures
        all_read(g, v, rows + 1),
{
    assert forall|i: int| 0 <= i < v.len() implies reads_its_tag(g, #[trigger] v[i], rows + 1) by {
        assert(reads_its_tag(g, v[i], rows));
    }
}

proof fn lemma_placed(g: &Grid, open: Seq<OpenV>, next: Seq<OpenV>, s: StretchV, row: int)
    requires
        all_read(g, open, row),
        all_read(g, next, row + 1),
        row >= 0,
        stretches(g, row, 0).contains(s),
    ensures
        all_read(g, stretch_placed(open, next, s, row).0, row),
        all_read(g, stretch_placed(open, next, s, row).1, row + 1),
{
    let at = overlapped(next, s, 0);
    lemma_overlapped_within(next, s, 0);
    lemma_apart(g, open, s, open.len() as int, row);
    lemma_apart(g, next, s, next.len() as int, row + 1);
    lemma_later(g, open, row);
    let one = run_of(s, row);
    let j = choose|j: int| 0 <= j < stretches(g, row, 0).len() && stretches(g, row, 0)[j] == s;
    if s.tag is Some {
        assert(says_row(stretches(g, row, 0)[j], one, s.tag->0));
    }
    assert(reads_its_tag(g, one, row + 1));
    let above = gathered(open, s, 0, one, row);
    lemma_gathered(g, open, s, 0, one, row);
    lemma_gathered(g, next, s, 0, above, row);
    let whole = gathered(next, s, 0, above, row);
    let kept = apart(next, s, next.len() as int);
    lemma_overlap_kept(next, s, at, next.len() as int);
    let r = kept.insert(at, whole);
    assert forall|k: int| 0 <= k < r.len() implies reads_its_tag(g, #[trigger] r[k], row + 1) by {
        if k < at {
            assert(r[k] == kept[k]);
        } else if k > at {
            assert(r[k] == kept[k - 1]);
        }
    }
}

proof fn lemma_row(g: &Grid, open: Seq<OpenV>, s: Seq<StretchV>, row: int)
    requires
        all_read(g, open, row),
        row >= 0,
        forall|i: int| 0 <= i < s.len() ==> stretches(g, row, 0).contains(#[trigger] s[i]),
    ensures
        all_read(g, stretches_placed(open, s, row).0, row),
        all_read(g, stretches_placed(open, s, row).1, row + 1),
    decreases s.len(),
{
    if s.len() > 0 {
        let front = s.drop_last();
        assert forall|i: int| 0 <= i < front.len() implies stretches(g, row, 0).contains(
            #[trigger] front[i],
        ) by {
            assert(front[i] == s[i]);
        }
        lemma_row(g, open, front, row);
        let r = stretches_placed(open, front, row);
        assert(s[s.len() - 1] == s.last());
        lemma_placed(g, r.0, r.1, s.last(), row);
    }
}

/// The tag of a run is what the placeholders of its slot say, in the row that it is counted
/// from and within the run's columns.
pub proof fn runs_read_their_tags(g: &Grid, n: int)
    requires
        0 <= n,
    ensures
        all_read(g, runs_upto(g, n).0, n),
        all_read(g, runs_upto(g, n).1, n),
    decreases n,
{
    if n > 0 {
        runs_read_their_tags(g, n - 1);
        let r = runs_upto(g, n - 1);
        let s = stretches(g, n - 1, 0);
        assert forall|i: int| 0 <= i < s.len() implies s.contains(#[trigger] s[i]) by {}
        lemma_row(g, r.1, s, n - 1);
        let p = stretches_placed(r.1, s, n - 1);
        lemma_later(g, r.0, n - 1);
        lemma_later(g, p.0, n - 1);
        let all = r.0 + p.0;
        assert forall|i: int| 0 <= i < all.len() implies reads_its_tag(g, #[trigger] all[i], n) by {
            if i < r.0.len() {
                assert(all[i] == r.0[i]);
            } else {
                assert(all[i] == p.0[i - r.0.len()]);
            }
        }
    }
}

/// A run shows the output from the row that makes its tagged row the one the tag says. With no
/// tag to read, one that is clipped at the top of the screen shows the output's end, and any
/// other shows it from its beginning.
pub proof fn tag_gives_the_first_row(o: OpenV, height: usize)
    ensures
        o.tag is Some && (o.tag->0).0 >= (o.tag->0).1 ==> run_offset(o, Some(height)) + (o.tag->0).1
            == (o.tag->0).0 && run_offset(o, None) + (o.tag->0).1 == (o.tag->0).0,
        o.tag is None && o.top == 0 && o.len <= height ==> run_offset(o, Some(height)) + o.len
            == height,
        o.tag is None && o.top > 0 ==> run_offset(o, Some(height)) == 0,
        o.tag is None ==> run_offset(o, None) == 0,
{
}

/// A run that is handed out has its slot's place on the screen, and begins with the row of the
/// output that its tag says.
pub proof fn run_is_where_its_slot_is(r: Run, o: OpenV, heights: Seq<Option<usize>>, g: &Grid, n: int)
    requires
        is_run(r, o, heights),
        reads_its_tag(g, o, n),
    ensures
        r.slot == o.slot,
        r.top == o.top && r.len == o.len && r.x0 == o.x0 && r.x1 == o.x1,
        o.tag is Some ==> row_says(g, o, r.top + (o.tag->0).1, (o.tag->0).0),
        o.tag is Some && (o.tag->0).0 >= (o.tag->0).1 ==> r.offset + (o.tag->0).1 == (o.tag->0).0,
        o.tag is None && r.slot < heights.len() && heights[r.slot as int] is Some && r.top == 0
            && r.len <= heights[r.slot as int]->0 ==> r.offset + r.len
            == heights[r.slot as int]->0,
{
}

} // verus!
