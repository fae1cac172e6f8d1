//! What each structural change does to the cells, as a reader of the notebook sees it.

use crate::adapter::CellKind;
use crate::document::{held_outputs, kind_is_set, kind_keeps_cell, raw_kind};
use crate::document::{source_keeps_cell, source_round_trip};
use crate::history::{
    after, applied, doc_wf, joined, lemma_pos, lemma_pos_is, lines_of, pos, run, source_of, valid,
    ChangeV, DocV, Name,
};
use crate::text::{join, lemma_join_split, lemma_split_free, lemma_split_join, one};
use vstd::prelude::*;

verus! {

/// Deleting the cell at `i` takes it out of the order, keeps it as it was among the tombstoned
/// cells, and leaves every other cell in its order and as it was. The cell that follows is
/// looked at next, or the last one.
pub proof fn hiding_takes_the_cell_out(d: DocV, i: int, other: Name)
    requires
        doc_wf(d),
        0 <= i < d.order.len(),
        other != d.order[i],
    ensures
        ({
            let k = d.order[i];
            let r = applied(d, ChangeV::Hide { key: k });
            let e = r->Some_0.0;
            &&& r is Some
            &&& e.order == d.order.take(i) + d.order.skip(i + 1)
            &&& !e.live.dom().contains(k)
            &&& e.tombs.dom().contains(k) && e.tombs[k] == d.live[k]
            &&& e.live.dom().contains(other) == d.live.dom().contains(other)
            &&& d.live.dom().contains(other) ==> e.live[other] == d.live[other]
            &&& e.tombs.dom().contains(other) == d.tombs.dom().contains(other)
            &&& i < e.order.len() ==> r->Some_0.2 == i
            &&& e.order.len() > 0 && i == e.order.len() ==> r->Some_0.2 == i - 1
        }),
{
    let k = d.order[i];
    lemma_pos_is(d.order, k, i);
    let r = applied(d, ChangeV::Hide { key: k });
    assert(r->Some_0.0.order =~= d.order.take(i) + d.order.skip(i + 1));
}

/// A cell shown at `i` stands there, as it was tombstoned; past the end it stands last. The
/// others keep their order, and it is looked at next.
pub proof fn showing_puts_the_cell_in(d: DocV, k: Name, i: int, other: Name)
    requires
        doc_wf(d),
        d.tombs.dom().contains(k),
        0 <= i,
        other != k,
    ensures
        ({
            let r = applied(d, ChangeV::Show { key: k, index: i });
            let e = r->Some_0.0;
            let at = r->Some_0.2;
            &&& r is Some
            &&& i <= d.order.len() ==> at == i
            &&& i > d.order.len() ==> at == d.order.len()
            &&& e.order == d.order.take(at) + seq![k] + d.order.skip(at)
            &&& e.live.dom().contains(k) && e.live[k] == d.tombs[k]
            &&& !e.tombs.dom().contains(k)
            &&& e.live.dom().contains(other) == d.live.dom().contains(other)
            &&& d.live.dom().contains(other) ==> e.live[other] == d.live[other]
            &&& e.tombs.dom().contains(other) == d.tombs.dom().contains(other)
        }),
{
    let r = applied(d, ChangeV::Show { key: k, index: i });
    let at = r->Some_0.2;
    assert(r->Some_0.0.order =~= d.order.take(at) + seq![k] + d.order.skip(at));
}

/// A cell moved down stands at its new place, those that it passed one place up; no cell
/// changes.
pub proof fn moving_down_passes_cells(d: DocV, from: int, to: int)
    requires
        doc_wf(d),
        0 <= from <= to < d.order.len(),
    ensures
        ({
            let r = applied(d, ChangeV::Move { key: d.order[from], index: to });
            let e = r->Some_0.0;
            &&& r is Some
            &&& r->Some_0.2 == to
            &&& e.order == d.order.take(from) + d.order.subrange(from + 1, to + 1)
                + seq![d.order[from]] + d.order.skip(to + 1)
            &&& e.live == d.live && e.tombs == d.tombs
        }),
{
    let k = d.order[from];
    lemma_pos_is(d.order, k, from);
    let r = applied(d, ChangeV::Move { key: k, index: to });
    assert(r->Some_0.0.order =~= d.order.take(from) + d.order.subrange(from + 1, to + 1) + seq![k]
        + d.order.skip(to + 1));
}

/// A cell moved up stands at its new place, those that it passed one place down; no cell
/// changes.
pub proof fn moving_up_passes_cells(d: DocV, from: int, to: int)
    requires
        doc_wf(d),
        0 <= to <= from < d.order.len(),
    ensures
        ({
            let r = applied(d, ChangeV::Move { key: d.order[from], index: to });
            let e = r->Some_0.0;
            &&& r is Some
            &&& r->Some_0.2 == to
            &&& e.order == d.order.take(to) + seq![d.order[from]] + d.order.subrange(to, from)
                + d.order.skip(from + 1)
            &&& e.live == d.live && e.tombs == d.tombs
        }),
{
    let k = d.order[from];
    lemma_pos_is(d.order, k, from);
    let r = applied(d, ChangeV::Move { key: k, index: to });
    assert(r->Some_0.0.order =~= d.order.take(to) + seq![k] + d.order.subrange(to, from)
        + d.order.skip(from + 1));
}

/// Retyping a cell sets its type and keeps its source and outputs, its place, and every other
/// cell; a cell that has the type already is not changed.
pub proof fn retyping_sets_the_type(d: DocV, i: int, kind: CellKind, other: Name)
    requires
        valid(d),
        0 <= i < d.order.len(),
        other != d.order[i],
    ensures
        ({
            let k = d.order[i];
            let r = applied(d, ChangeV::Kind { key: k, kind });
            let e = r->Some_0.0;
            &&& r is Some <==> raw_kind(d.live[k].raw) != kind
            &&& r is Some ==> {
                &&& r->Some_0.2 == i
                &&& e.order == d.order && e.tombs == d.tombs
                &&& raw_kind(e.live[k].raw) == kind
                &&& source_of(e.live[k]) == source_of(d.live[k])
                &&& held_outputs(e.live[k].raw, e.live[k].stash) == held_outputs(
                    d.live[k].raw,
                    d.live[k].stash,
                )
                &&& e.live[other] == d.live[other]
            }
        }),
{
    let k = d.order[i];
    lemma_pos_is(d.order, k, i);
    assert(d.order.contains(k));
    assert(d.live.dom().contains(k));
    kind_is_set(d.live[k].raw, d.live[k].stash, kind);
    kind_keeps_cell(d.live[k].raw, d.live[k].stash, kind);
}

/// A join that is a line break between two texts.
proof fn lemma_joined_parts(lines: Seq<Seq<char>>, at: int)
    requires
        0 < at < lines.len(),
    ensures
        joined(lines) == joined(lines.take(at)) + one('\n') + joined(lines.skip(at)),
    decreases lines.len(),
{
    if at == lines.len() - 1 {
        assert(lines.drop_last() =~= lines.take(at));
        assert(lines.skip(at) =~= seq![lines.last()]);
        assert(joined(lines.skip(at)) =~= lines.last()) by {
            reveal_with_fuel(join, 2);
        }
    } else {
        lemma_joined_parts(lines.drop_last(), at);
        assert(lines.drop_last().take(at) =~= lines.take(at));
        assert(lines.skip(at).drop_last() =~= lines.drop_last().skip(at));
        assert(lines.skip(at).last() == lines.last());
        assert(joined(lines) =~= joined(lines.take(at)) + one('\n') + joined(lines.skip(at)));
    }
}

/// Splitting a cell before line `line` of its source leaves it its first `line` lines, and gives
/// the rest to a cell directly below: with a line break between them the two are the source as
/// it was. Types and outputs stay, and so does every other cell.
pub proof fn splitting_parts_the_source(d: DocV, i: int, line: int, fresh: Name, other: Name)
    requires
        valid(d),
        0 <= i < d.order.len(),
        d.tombs.dom().contains(fresh),
        0 < line < lines_of(source_of(d.live[d.order[i]])).len(),
        other != d.order[i],
        other != fresh,
    ensures
        ({
            let k = d.order[i];
            let r = applied(d, ChangeV::Split { key: k, line, fresh });
            let e = r->Some_0.0;
            &&& r is Some
            &&& r->Some_0.2 == i
            &&& e.order == d.order.take(i + 1) + seq![fresh] + d.order.skip(i + 1)
            &&& lines_of(source_of(e.live[k])).len() == line
            &&& source_of(e.live[k]) + one('\n') + source_of(e.live[fresh]) == source_of(d.live[k])
            &&& raw_kind(e.live[k].raw) == raw_kind(d.live[k].raw)
            &&& raw_kind(e.live[fresh].raw) == raw_kind(d.tombs[fresh].raw)
            &&& held_outputs(e.live[k].raw, e.live[k].stash) == held_outputs(
                d.live[k].raw,
                d.live[k].stash,
            )
            &&& !e.tombs.dom().contains(fresh)
            &&& e.live.dom().contains(other) == d.live.dom().contains(other)
            &&& e.live[other] == d.live[other]
        }),
{
    let k = d.order[i];
    lemma_pos_is(d.order, k, i);
    assert(d.order.contains(k));
    assert(d.live.dom().contains(k));
    assert(k != fresh);
    let source = source_of(d.live[k]);
    let lines = lines_of(source);
    let e = after(d, ChangeV::Split { key: k, line, fresh });
    assert(e.order =~= d.order.take(i + 1) + seq![fresh] + d.order.skip(i + 1));
    lemma_split_free(source, '\n');
    lemma_join_split(source, '\n');
    lemma_split_join(lines.take(line), '\n');
    lemma_joined_parts(lines, line);
    source_round_trip(d.live[k].raw, joined(lines.take(line)));
    source_keeps_cell(d.live[k].raw, d.live[k].stash, joined(lines.take(line)));
    source_round_trip(d.tombs[fresh].raw, joined(lines.skip(line)));
    source_keeps_cell(d.tombs[fresh].raw, d.tombs[fresh].stash, joined(lines.skip(line)));
}

/// Joining the cell at `j` onto that at `i` leaves one source, the two with a line break
/// between them. The cell joined on is tombstoned as it was; the other keeps its type and
/// outputs.
pub proof fn joining_puts_sources_together(d: DocV, i: int, j: int, other: Name)
    requires
        valid(d),
        0 <= i < d.order.len(),
        0 <= j < d.order.len(),
        i != j,
        other != d.order[i],
        other != d.order[j],
    ensures
        ({
            let k = d.order[i];
            let next = d.order[j];
            let r = applied(d, ChangeV::Merge { key: k, next });
            let e = r->Some_0.0;
            &&& r is Some
            &&& r->Some_0.2 == i
            &&& e.order == d.order.take(j) + d.order.skip(j + 1)
            &&& source_of(e.live[k]) == source_of(d.live[k]) + seq!['\n'] + source_of(d.live[next])
            &&& raw_kind(e.live[k].raw) == raw_kind(d.live[k].raw)
            &&& held_outputs(e.live[k].raw, e.live[k].stash) == held_outputs(
                d.live[k].raw,
                d.live[k].stash,
            )
            &&& !e.live.dom().contains(next)
            &&& e.tombs[next] == d.live[next]
            &&& e.live.dom().contains(other) == d.live.dom().contains(other)
            &&& e.live[other] == d.live[other]
        }),
{
    let k = d.order[i];
    let next = d.order[j];
    lemma_pos_is(d.order, k, i);
    lemma_pos_is(d.order, next, j);
    assert(d.order.contains(k) && d.live.dom().contains(k));
    assert(one('\n') =~= seq!['\n']);
    let whole = source_of(d.live[k]) + one('\n') + source_of(d.live[next]);
    source_round_trip(d.live[k].raw, whole);
    source_keeps_cell(d.live[k].raw, d.live[k].stash, whole);
    let e = after(d, ChangeV::Merge { key: k, next });
    assert(e.order =~= d.order.take(j) + d.order.skip(j + 1));
}

/// A change to a cell that is not there is no change.
pub proof fn absent_cells_are_not_changed(d: DocV, k: Name, i: int, kind: CellKind, line: int, other: Name)
    requires
        doc_wf(d),
    ensures
        !d.tombs.dom().contains(k) ==> applied(d, ChangeV::Show { key: k, index: i }) is None
            && applied(d, ChangeV::Split { key: other, line, fresh: k }) is None,
        !d.order.contains(k) ==> applied(d, ChangeV::Hide { key: k }) is None && applied(
            d,
            ChangeV::Move { key: k, index: i },
        ) is None && applied(d, ChangeV::Kind { key: k, kind }) is None && applied(
            d,
            ChangeV::Split { key: k, line, fresh: other },
        ) is None && applied(d, ChangeV::Merge { key: k, next: other }) is None && applied(
            d,
            ChangeV::Merge { key: other, next: k },
        ) is None,
{
    lemma_pos(d.order, k);
    if pos(d.order, k) < d.order.len() {
        assert(d.order[pos(d.order, k)] == k);
    }
}

/// Changes are applied one after the other: those of two groups in a row are those of one after
/// those of the other.
pub proof fn groups_run_in_turn(d: DocV, g: Seq<ChangeV>, h: Seq<ChangeV>)
    ensures
        run(d, g + h).0 == run(run(d, g).0, h).0,
    decreases h.len(),
{
    if h.len() == 0 {
        assert(g + h =~= g);
    } else {
        groups_run_in_turn(d, g, h.drop_last());
        assert((g + h).drop_last() =~= g + h.drop_last());
        assert((g + h).last() == h.last());
    }
}

} // verus!
