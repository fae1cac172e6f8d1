//! Structural changes to a document, and what undoing and redoing them gives back.

use crate::adapter::CellKind;
use crate::document::{
    cell_wf, held_outputs, kind_is_set, kind_keeps_cell, raw_kind, raw_source, source_keeps_cell,
    source_round_trip, with_kind, with_source, CellV,
};
use crate::json::JsonV;
use crate::text::{
    join, lemma_join_split, lemma_split_free, lemma_split_join, lemma_split_nonempty, one, split,
};
use vstd::prelude::*;

verus! {

/// A key's text.
pub type Name = Seq<char>;

/// A structural change, by the keys' texts.
pub enum ChangeV {
    /// Makes a tombstoned cell live at `index`, or at the end.
    Show { key: Name, index: int },
    /// Tombstones a live cell.
    Hide { key: Name },
    /// Moves a live cell to `index`, or to the end.
    Move { key: Name, index: int },
    /// Changes a live cell's type.
    Kind { key: Name, kind: CellKind },
    /// Splits a live cell before a line of its source. The lines from there on move into the
    /// tombstoned cell `fresh`, which becomes live directly below.
    Split { key: Name, line: int, fresh: Name },
    /// Appends the source of live cell `next` to that of `key`, and tombstones `next`.
    Merge { key: Name, next: Name },
    /// Takes a merge back: the lines of `key` from `line` on move into the tombstoned cell
    /// `next`, which becomes live at `index`, or at the end.
    Unmerge { key: Name, line: int, next: Name, index: int },
}

/// The live cells in order, and the tombstoned ones.
pub struct DocV {
    pub order: Seq<Name>,
    pub live: Map<Name, CellV>,
    pub tombs: Map<Name, CellV>,
}

/// Where `k` stands in `order`, or its length.
pub open spec fn pos(order: Seq<Name>, k: Name) -> int
    decreases order.len(),
{
    if order.len() == 0 || order[0] == k {
        0
    } else {
        pos(order.skip(1), k) + 1
    }
}

/// A position, held to `0..=n`.
pub open spec fn at_most(i: int, n: int) -> int {
    if i < 0 {
        0
    } else if i < n {
        i
    } else {
        n
    }
}

pub open spec fn source_of(c: CellV) -> Seq<char> {
    raw_source(c.raw)
}

pub open spec fn sourced(c: CellV, source: Seq<char>) -> CellV {
    CellV { raw: with_source(c.raw, source), ..c }
}

pub open spec fn kinded(c: CellV, kind: CellKind) -> CellV {
    let r = with_kind(c.raw, c.stash, kind);
    CellV { raw: r.0, stash: r.1, ..c }
}

/// The lines of a text.
pub open spec fn lines_of(s: Seq<char>) -> Seq<Seq<char>> {
    split(s, '\n')
}

pub open spec fn joined(lines: Seq<Seq<char>>) -> Seq<char> {
    join(lines, one('\n'))
}

/// Whether a live cell can be divided before a line, into a tombstoned one: both keep a line.
pub open spec fn divides(d: DocV, key: Name, line: int, fresh: Name) -> bool {
    &&& pos(d.order, key) < d.order.len()
    &&& d.tombs.dom().contains(fresh)
    &&& 0 < line < lines_of(source_of(d.live[key])).len()
}

/// The document with the lines of `key` from `line` on in `fresh`, live at `at`.
pub open spec fn divided(d: DocV, key: Name, line: int, fresh: Name, at: int) -> DocV {
    let lines = lines_of(source_of(d.live[key]));
    let head = sourced(d.live[key], joined(lines.take(line)));
    let tail = sourced(d.tombs[fresh], joined(lines.skip(line)));
    DocV {
        order: d.order.insert(at, fresh),
        live: d.live.insert(key, head).insert(fresh, tail),
        tombs: d.tombs.remove(fresh),
    }
}

/// What a change makes of a document, its inverse, and the position to look at. None if the
/// change does not apply.
pub open spec fn applied(d: DocV, c: ChangeV) -> Option<(DocV, ChangeV, int)> {
    let n = d.order.len() as int;
    match c {
        ChangeV::Show { key, index } => if d.tombs.dom().contains(key) {
            let at = at_most(index, n);
            Some(
                (
                    DocV {
                        order: d.order.insert(at, key),
                        live: d.live.insert(key, d.tombs[key]),
                        tombs: d.tombs.remove(key),
                    },
                    ChangeV::Hide { key },
                    at,
                ),
            )
        } else {
            None
        },
        ChangeV::Hide { key } => {
            let at = pos(d.order, key);
            if at < n {
                Some(
                    (
                        DocV {
                            order: d.order.remove(at),
                            live: d.live.remove(key),
                            tombs: d.tombs.insert(key, d.live[key]),
                        },
                        ChangeV::Show { key, index: at },
                        at_most(
                            at,
                            if n >= 2 {
                                n - 2
                            } else {
                                0
                            },
                        ),
                    ),
                )
            } else {
                None
            }
        },
        ChangeV::Move { key, index } => {
            let from = pos(d.order, key);
            if from < n {
                let at = at_most(index, n - 1);
                Some(
                    (
                        DocV { order: d.order.remove(from).insert(at, key), ..d },
                        ChangeV::Move { key, index: from },
                        at,
                    ),
                )
            } else {
                None
            }
        },
        ChangeV::Kind { key, kind } => {
            let at = pos(d.order, key);
            let old = raw_kind(d.live[key].raw);
            if at < n && old != kind {
                Some(
                    (
                        DocV { live: d.live.insert(key, kinded(d.live[key], kind)), ..d },
                        ChangeV::Kind { key, kind: old },
                        at,
                    ),
                )
            } else {
                None
            }
        },
        ChangeV::Split { key, line, fresh } => {
            let at = pos(d.order, key);
            if divides(d, key, line, fresh) {
                Some(
                    (
                        divided(d, key, line, fresh, at + 1),
                        ChangeV::Merge { key, next: fresh },
                        at,
                    ),
                )
            } else {
                None
            }
        },
        ChangeV::Unmerge { key, line, next, index } => {
            let at = pos(d.order, key);
            let place = at_most(index, n);
            if divides(d, key, line, next) {
                Some(
                    (
                        divided(d, key, line, next, place),
                        ChangeV::Merge { key, next },
                        if place <= at {
                            at + 1
                        } else {
                            at
                        },
                    ),
                )
            } else {
                None
            }
        },
        ChangeV::Merge { key, next } => {
            let at = pos(d.order, key);
            let below = pos(d.order, next);
            if at < n && below < n && key != next {
                let head = source_of(d.live[key]);
                let tail = source_of(d.live[next]);
                let whole = sourced(d.live[key], head + one('\n') + tail);
                Some(
                    (
                        DocV {
                            order: d.order.remove(below),
                            live: d.live.insert(key, whole).remove(next),
                            tombs: d.tombs.insert(next, d.live[next]),
                        },
                        ChangeV::Unmerge {
                            key,
                            line: lines_of(head).len() as int,
                            next,
                            index: below,
                        },
                        at,
                    ),
                )
            } else {
                None
            }
        },
    }
}

/// The document after a change.
pub open spec fn after(d: DocV, c: ChangeV) -> DocV {
    applied(d, c)->Some_0.0
}

/// The inverse of a change.
pub open spec fn inverse(d: DocV, c: ChangeV) -> ChangeV {
    applied(d, c)->Some_0.1
}

/// The changes applied in order, those that do not apply left out: the document, the inverses
/// in reverse order, and the position of the first that applied.
pub open spec fn run(d: DocV, g: Seq<ChangeV>) -> (DocV, Seq<ChangeV>, Option<int>)
    decreases g.len(),
{
    if g.len() == 0 {
        (d, Seq::empty(), None)
    } else {
        let r = run(d, g.drop_last());
        match applied(r.0, g.last()) {
            Some((e, inverse, at)) => (
                e,
                seq![inverse] + r.1,
                if r.2 is Some {
                    r.2
                } else {
                    Some(at)
                },
            ),
            None => r,
        }
    }
}

/// Every live cell stands once in the order, and no cell is both live and tombstoned.
pub open spec fn doc_wf(d: DocV) -> bool {
    &&& d.order.no_duplicates()
    &&& forall|k: Name| #[trigger] d.live.dom().contains(k) == d.order.contains(k)
    &&& forall|k: Name| !(#[trigger] d.live.dom().contains(k) && d.tombs.dom().contains(k))
}

/// Every cell keeps its own invariant.
pub open spec fn cells_wf(d: DocV) -> bool {
    &&& forall|k: Name| #[trigger] d.live.dom().contains(k) ==> cell_wf(d.live[k].raw, d.live[k].stash)
    &&& forall|k: Name| #[trigger]
        d.tombs.dom().contains(k) ==> cell_wf(d.tombs[k].raw, d.tombs[k].stash)
}

pub open spec fn valid(d: DocV) -> bool {
    doc_wf(d) && cells_wf(d)
}

pub proof fn lemma_pos(order: Seq<Name>, k: Name)
    ensures
        0 <= pos(order, k) <= order.len(),
        pos(order, k) < order.len() ==> order[pos(order, k)] == k,
        (pos(order, k) < order.len()) == order.contains(k),
        forall|j: int| 0 <= j < pos(order, k) ==> #[trigger] order[j] != k,
    decreases order.len(),
{
    if order.len() > 0 && order[0] != k {
        let rest = order.skip(1);
        lemma_pos(rest, k);
        assert forall|j: int| 0 <= j < pos(order, k) implies #[trigger] order[j] != k by {
            if j > 0 {
                assert(rest[j - 1] == order[j]);
            }
        }
        if order.contains(k) {
            let j = choose|j: int| 0 <= j < order.len() && order[j] == k;
            assert(rest[j - 1] == k);
        }
        if rest.contains(k) {
            let j = choose|j: int| 0 <= j < rest.len() && rest[j] == k;
            assert(order[j + 1] == k);
        }
    }
}

pub proof fn lemma_pos_is(order: Seq<Name>, k: Name, i: int)
    requires
        order.no_duplicates(),
        0 <= i < order.len(),
        order[i] == k,
    ensures
        pos(order, k) == i,
{
    lemma_pos(order, k);
}

pub proof fn lemma_insert(order: Seq<Name>, i: int, k: Name)
    requires
        order.no_duplicates(),
        !order.contains(k),
        0 <= i <= order.len(),
    ensures
        order.insert(i, k).no_duplicates(),
        forall|x: Name| #[trigger]
            order.insert(i, k).contains(x) == (order.contains(x) || x == k),
        pos(order.insert(i, k), k) == i,
        order.insert(i, k).remove(i) == order,
{
    let t = order.insert(i, k);
    assert forall|a: int, b: int| 0 <= a < b < t.len() implies t[a] != t[b] by {
        let x = if a < i {
            a
        } else {
            a - 1
        };
        let y = if b < i {
            b
        } else {
            b - 1
        };
        if a != i {
            assert(t[a] == order[x]);
        }
        if b != i {
            assert(t[b] == order[y]);
        }
    }
    assert forall|x: Name| #[trigger] t.contains(x) == (order.contains(x) || x == k) by {
        if t.contains(x) {
            let j = choose|j: int| 0 <= j < t.len() && t[j] == x;
            if j < i {
                assert(order[j] == x);
            } else if j > i {
                assert(order[j - 1] == x);
            }
        }
        if order.contains(x) {
            let j = choose|j: int| 0 <= j < order.len() && order[j] == x;
            if j < i {
                assert(t[j] == x);
            } else {
                assert(t[j + 1] == x);
            }
        }
        assert(t[i] == k);
    }
    lemma_pos_is(t, k, i);
    assert(t.remove(i) =~= order);
}

pub proof fn lemma_remove(order: Seq<Name>, i: int)
    requires
        order.no_duplicates(),
        0 <= i < order.len(),
    ensures
        order.remove(i).no_duplicates(),
        forall|x: Name| #[trigger]
            order.remove(i).contains(x) == (order.contains(x) && x != order[i]),
        order.remove(i).insert(i, order[i]) == order,
{
    let t = order.remove(i);
    assert forall|a: int, b: int| 0 <= a < b < t.len() implies t[a] != t[b] by {
        let x = if a < i {
            a
        } else {
            a + 1
        };
        let y = if b < i {
            b
        } else {
            b + 1
        };
        assert(t[a] == order[x] && t[b] == order[y]);
    }
    assert forall|x: Name| #[trigger] t.contains(x) == (order.contains(x) && x != order[i]) by {
        if t.contains(x) {
            let j = choose|j: int| 0 <= j < t.len() && t[j] == x;
            if j < i {
                assert(order[j] == x);
            } else {
                assert(order[j + 1] == x);
            }
        }
        if order.contains(x) && x != order[i] {
            let j = choose|j: int| 0 <= j < order.len() && order[j] == x;
            if j < i {
                assert(t[j] == x);
            } else {
                assert(t[j - 1] == x);
            }
        }
    }
    assert(t.insert(i, order[i]) =~= order);
}

/// A cell's type, source and outputs.
pub open spec fn same_cell(a: CellV, b: CellV) -> bool {
    &&& raw_kind(a.raw) == raw_kind(b.raw)
    &&& source_of(a) == source_of(b)
    &&& held_outputs(a.raw, a.stash) == held_outputs(b.raw, b.stash)
}

proof fn lemma_sourced(c: CellV, source: Seq<char>)
    ensures
        source_of(sourced(c, source)) == source,
        raw_kind(sourced(c, source).raw) == raw_kind(c.raw),
        held_outputs(sourced(c, source).raw, sourced(c, source).stash) == held_outputs(
            c.raw,
            c.stash,
        ),
        cell_wf(c.raw, c.stash) ==> cell_wf(sourced(c, source).raw, sourced(c, source).stash),
{
    source_round_trip(c.raw, source);
    source_keeps_cell(c.raw, c.stash, source);
}

proof fn lemma_kinded(c: CellV, kind: CellKind)
    requires
        cell_wf(c.raw, c.stash),
    ensures
        source_of(kinded(c, kind)) == source_of(c),
        raw_kind(kinded(c, kind).raw) == kind,
        held_outputs(kinded(c, kind).raw, kinded(c, kind).stash) == held_outputs(c.raw, c.stash),
        cell_wf(kinded(c, kind).raw, kinded(c, kind).stash),
{
    kind_is_set(c.raw, c.stash, kind);
    kind_keeps_cell(c.raw, c.stash, kind);
}

/// A change keeps the document's invariant, loses no cell, and leaves the outputs of every
/// cell, live or tombstoned, as they are.
pub proof fn change_keeps_document(d: DocV, c: ChangeV)
    requires
        valid(d),
        applied(d, c) is Some,
    ensures
        valid(after(d, c)),
        forall|k: Name| #[trigger] cell_at(d, k) is Some == cell_at(after(d, c), k) is Some,
        forall|k: Name| #[trigger]
            cell_at(d, k) is Some ==> outputs_at(after(d, c), k) == outputs_at(d, k),
{
    let e = after(d, c);
    let n = d.order.len() as int;
    match c {
        ChangeV::Show { key, index } => {
            assert(!d.live.dom().contains(key));
            lemma_insert(d.order, at_most(index, n), key);
        },
        ChangeV::Hide { key } => {
            lemma_pos(d.order, key);
            assert(d.live.dom().contains(key));
            lemma_remove(d.order, pos(d.order, key));
        },
        ChangeV::Move { key, index } => {
            lemma_pos(d.order, key);
            assert(d.live.dom().contains(key));
            lemma_remove(d.order, pos(d.order, key));
            let rest = d.order.remove(pos(d.order, key));
            lemma_insert(rest, at_most(index, n - 1), key);
        },
        ChangeV::Kind { key, kind } => {
            lemma_pos(d.order, key);
            assert(d.live.dom().contains(key));
            lemma_kinded(d.live[key], kind);
        },
        ChangeV::Split { key, line, fresh } => {
            lemma_pos(d.order, key);
            assert(d.live.dom().contains(key));
            assert(!d.live.dom().contains(fresh));
            lemma_insert(d.order, pos(d.order, key) + 1, fresh);
            let lines = lines_of(source_of(d.live[key]));
            lemma_sourced(d.live[key], joined(lines.take(line)));
            lemma_sourced(d.tombs[fresh], joined(lines.skip(line)));
        },
        ChangeV::Unmerge { key, line, next, index } => {
            lemma_pos(d.order, key);
            assert(d.live.dom().contains(key));
            assert(!d.live.dom().contains(next));
            lemma_insert(d.order, at_most(index, n), next);
            let lines = lines_of(source_of(d.live[key]));
            lemma_sourced(d.live[key], joined(lines.take(line)));
            lemma_sourced(d.tombs[next], joined(lines.skip(line)));
        },
        ChangeV::Merge { key, next } => {
            lemma_pos(d.order, key);
            assert(d.live.dom().contains(key));
            lemma_pos(d.order, next);
            assert(d.live.dom().contains(next));
            lemma_remove(d.order, pos(d.order, next));
            let head = source_of(d.live[key]);
            let tail = source_of(d.live[next]);
            lemma_sourced(d.live[key], head + one('\n') + tail);
        },
    }
}

/// A live or tombstoned cell.
pub open spec fn cell_at(d: DocV, k: Name) -> Option<CellV> {
    if d.live.dom().contains(k) {
        Some(d.live[k])
    } else if d.tombs.dom().contains(k) {
        Some(d.tombs[k])
    } else {
        None
    }
}

/// What is recorded of the outputs of a live or tombstoned cell.
pub open spec fn outputs_at(d: DocV, k: Name) -> JsonV {
    let c = cell_at(d, k)->0;
    held_outputs(c.raw, c.stash)
}

/// A group of changes keeps the document's invariant, loses no cell, and leaves every cell's
/// outputs as they are.
pub proof fn group_keeps_document(d: DocV, g: Seq<ChangeV>)
    requires
        valid(d),
    ensures
        valid(run(d, g).0),
        forall|k: Name| #[trigger] cell_at(d, k) is Some == cell_at(run(d, g).0, k) is Some,
        forall|k: Name| #[trigger]
            cell_at(d, k) is Some ==> outputs_at(run(d, g).0, k) == outputs_at(d, k),
    decreases g.len(),
{
    if g.len() > 0 {
        group_keeps_document(d, g.drop_last());
        let r = run(d, g.drop_last());
        if applied(r.0, g.last()) is Some {
            change_keeps_document(r.0, g.last());
            let e = run(d, g).0;
            assert forall|k: Name| #[trigger] cell_at(d, k) is Some == cell_at(e, k) is Some && (
            cell_at(d, k) is Some ==> outputs_at(e, k) == outputs_at(d, k)) by {
                assert(cell_at(r.0, k) is Some == cell_at(e, k) is Some);
            }
        }
    }
}

/// Whether a change names the key.
pub open spec fn mentions(c: ChangeV, k: Name) -> bool {
    match c {
        ChangeV::Show { key, .. } => k == key,
        ChangeV::Hide { key } => k == key,
        ChangeV::Move { key, .. } => k == key,
        ChangeV::Kind { key, .. } => k == key,
        ChangeV::Split { key, fresh, .. } => k == key || k == fresh,
        ChangeV::Merge { key, next } => k == key || k == next,
        ChangeV::Unmerge { key, next, .. } => k == key || k == next,
    }
}

/// Whether any change of a group names the key.
pub open spec fn group_mentions(g: Seq<ChangeV>, k: Name) -> bool {
    exists|i: int| 0 <= i < g.len() && mentions(#[trigger] g[i], k)
}

/// The same live cells in the same order.
pub open spec fn alike(d: DocV, e: DocV) -> bool {
    &&& d.order == e.order
    &&& d.live.dom() == e.live.dom()
    &&& forall|k: Name| #[trigger] d.live.dom().contains(k) ==> same_cell(d.live[k], e.live[k])
}

/// The same live cells in the same order, and the same tombstones but for those in `but`.
pub open spec fn agree(d: DocV, e: DocV, but: Set<Name>) -> bool {
    &&& alike(d, e)
    &&& forall|k: Name|
        !but.contains(k) ==> #[trigger] d.tombs.dom().contains(k) == e.tombs.dom().contains(k)
    &&& forall|k: Name|
        !but.contains(k) && #[trigger] d.tombs.dom().contains(k) ==> same_cell(
            d.tombs[k],
            e.tombs[k],
        )
}

proof fn lemma_agree_trans(d: DocV, e: DocV, f: DocV, a: Set<Name>, b: Set<Name>)
    requires
        agree(d, e, a),
        agree(e, f, b),
    ensures
        agree(d, f, a.union(b)),
{
    assert forall|k: Name| #[trigger] d.live.dom().contains(k) implies same_cell(
        d.live[k],
        f.live[k],
    ) by {
        assert(e.live.dom().contains(k));
    }
    assert forall|k: Name| !a.union(b).contains(k) implies #[trigger] d.tombs.dom().contains(k)
        == f.tombs.dom().contains(k) by {
        assert(e.tombs.dom().contains(k) == f.tombs.dom().contains(k));
    }
    assert forall|k: Name|
        !a.union(b).contains(k) && #[trigger] d.tombs.dom().contains(k) implies same_cell(
        d.tombs[k],
        f.tombs[k],
    ) by {
        assert(e.tombs.dom().contains(k));
    }
}

/// The same kind and outputs.
pub open spec fn same_but_source(a: CellV, b: CellV) -> bool {
    &&& raw_kind(a.raw) == raw_kind(b.raw)
    &&& held_outputs(a.raw, a.stash) == held_outputs(b.raw, b.stash)
}

/// The same cells, live and tombstoned, in the same order, but for the sources of those in
/// `but`.
pub open spec fn near(d: DocV, e: DocV, but: Set<Name>) -> bool {
    &&& d.order == e.order
    &&& d.live.dom() == e.live.dom()
    &&& d.tombs.dom() == e.tombs.dom()
    &&& forall|k: Name|
        #![trigger d.live[k]]
        #![trigger e.live[k]]
        d.live.dom().contains(k) ==> same_but_source(d.live[k], e.live[k]) && (!but.contains(k)
            ==> source_of(d.live[k]) == source_of(e.live[k]))
    &&& forall|k: Name|
        #![trigger d.tombs[k]]
        #![trigger e.tombs[k]]
        d.tombs.dom().contains(k) ==> same_but_source(d.tombs[k], e.tombs[k]) && (!but.contains(k)
            ==> source_of(d.tombs[k]) == source_of(e.tombs[k]))
}

proof fn lemma_near_trans(d: DocV, e: DocV, f: DocV, a: Set<Name>, b: Set<Name>)
    requires
        near(d, e, a),
        near(e, f, b),
    ensures
        near(d, f, a.union(b)),
{
}

/// Documents that differ in the sources of tombstones only agree but for those.
proof fn lemma_near_agree(d: DocV, e: DocV, but: Set<Name>)
    requires
        near(d, e, but),
        forall|k: Name| #[trigger] but.contains(k) ==> !d.live.dom().contains(k),
    ensures
        agree(d, e, but),
{
    assert forall|k: Name| #[trigger] d.live.dom().contains(k) implies same_cell(
        d.live[k],
        e.live[k],
    ) by {}
}

/// Whether a change depends on the lines of a cell.
pub open spec fn reads(c: ChangeV, k: Name) -> bool {
    match c {
        ChangeV::Split { key, .. } => k == key,
        ChangeV::Unmerge { key, .. } => k == key,
        _ => false,
    }
}

/// The cells whose sources differ after a change, where those in `but` differ before it.
pub open spec fn passed_on(c: ChangeV, but: Set<Name>) -> Set<Name> {
    match c {
        ChangeV::Split { fresh, .. } => but.remove(fresh),
        ChangeV::Unmerge { next, .. } => but.remove(next),
        ChangeV::Merge { key, next } => if but.contains(next) {
            but.insert(key)
        } else {
            but
        },
        _ => but,
    }
}

/// A change does the same to documents that differ in sources on which it does not depend.
proof fn lemma_near_frame(d: DocV, e: DocV, c: ChangeV, but: Set<Name>)
    requires
        valid(d),
        valid(e),
        near(d, e, but),
        forall|k: Name| #[trigger] but.contains(k) ==> !reads(c, k),
    ensures
        applied(d, c) is Some == applied(e, c) is Some,
        applied(d, c) is Some ==> near(after(d, c), after(e, c), passed_on(c, but)),
{
    let x = after(d, c);
    let y = after(e, c);
    match c {
        ChangeV::Show { key, .. } => {
            if applied(d, c) is Some {
                assert(x.live.dom() =~= y.live.dom());
                assert(x.tombs.dom() =~= y.tombs.dom());
            }
        },
        ChangeV::Hide { key } => {
            lemma_pos(d.order, key);
            assert(d.live.dom().contains(key) == d.order.contains(key));
            if applied(d, c) is Some {
                assert(x.live.dom() =~= y.live.dom());
                assert(x.tombs.dom() =~= y.tombs.dom());
            }
        },
        ChangeV::Move { key, .. } => {
            lemma_pos(d.order, key);
        },
        ChangeV::Kind { key, kind } => {
            lemma_pos(d.order, key);
            assert(d.live.dom().contains(key) == d.order.contains(key));
            if d.order.contains(key) {
                assert(same_but_source(d.live[key], e.live[key]));
            }
            if applied(d, c) is Some {
                lemma_kinded(d.live[key], kind);
                lemma_kinded(e.live[key], kind);
                assert(x.live.dom() =~= y.live.dom());
            }
        },
        ChangeV::Split { key, line, fresh } => {
            lemma_near_divided(d, e, key, line, fresh, pos(d.order, key) + 1, but);
        },
        ChangeV::Unmerge { key, line, next, index } => {
            lemma_near_divided(d, e, key, line, next, at_most(index, d.order.len() as int), but);
        },
        ChangeV::Merge { key, next } => {
            lemma_pos(d.order, key);
            lemma_pos(d.order, next);
            assert(d.live.dom().contains(key) == d.order.contains(key));
            assert(d.live.dom().contains(next) == d.order.contains(next));
            if applied(d, c) is Some {
                let a = source_of(d.live[key]) + one('\n') + source_of(d.live[next]);
                let b = source_of(e.live[key]) + one('\n') + source_of(e.live[next]);
                lemma_sourced(d.live[key], a);
                lemma_sourced(e.live[key], b);
                assert(x.live.dom() =~= y.live.dom());
                assert(x.tombs.dom() =~= y.tombs.dom());
            }
        },
    }
}

proof fn lemma_near_divided(
    d: DocV,
    e: DocV,
    key: Name,
    line: int,
    fresh: Name,
    at: int,
    but: Set<Name>,
)
    requires
        valid(d),
        valid(e),
        near(d, e, but),
        !but.contains(key),
    ensures
        divides(d, key, line, fresh) == divides(e, key, line, fresh),
        divides(d, key, line, fresh) ==> near(
            divided(d, key, line, fresh, at),
            divided(e, key, line, fresh, at),
            but.remove(fresh),
        ),
{
    lemma_pos(d.order, key);
    assert(d.live.dom().contains(key) == d.order.contains(key));
    if pos(d.order, key) < d.order.len() {
        assert(source_of(d.live[key]) == source_of(e.live[key]));
    }
    if divides(d, key, line, fresh) {
        let x = divided(d, key, line, fresh, at);
        let y = divided(e, key, line, fresh, at);
        let lines = lines_of(source_of(d.live[key]));
        lemma_sourced(d.live[key], joined(lines.take(line)));
        lemma_sourced(e.live[key], joined(lines.take(line)));
        lemma_sourced(d.tombs[fresh], joined(lines.skip(line)));
        lemma_sourced(e.tombs[fresh], joined(lines.skip(line)));
        assert(same_but_source(d.tombs[fresh], e.tombs[fresh]));
        assert(x.live.dom() =~= y.live.dom());
        assert(x.tombs.dom() =~= y.tombs.dom());
    }
}

/// A change does the same to documents that agree on what it names.
proof fn lemma_frame(d: DocV, e: DocV, c: ChangeV, but: Set<Name>)
    requires
        valid(d),
        valid(e),
        agree(d, e, but),
        forall|k: Name| mentions(c, k) ==> !but.contains(k),
    ensures
        applied(d, c) is Some == applied(e, c) is Some,
        applied(d, c) is Some ==> {
            &&& agree(after(d, c), after(e, c), but)
            &&& inverse(d, c) == inverse(e, c)
            &&& applied(d, c)->Some_0.2 == applied(e, c)->Some_0.2
        },
{
    match c {
        ChangeV::Show { key, .. } => {
            assert(mentions(c, key));
            assert(d.tombs.dom().contains(key) == e.tombs.dom().contains(key));
            if applied(d, c) is Some {
                assert(after(d, c).live.dom() =~= after(e, c).live.dom());
            }
        },
        ChangeV::Hide { key } => {
            lemma_pos(d.order, key);
            assert(d.live.dom().contains(key) == d.order.contains(key));
            if applied(d, c) is Some {
                assert(after(d, c).live.dom() =~= after(e, c).live.dom());
            }
        },
        ChangeV::Move { key, .. } => {
            lemma_pos(d.order, key);
        },
        ChangeV::Kind { key, kind } => {
            lemma_pos(d.order, key);
            assert(d.live.dom().contains(key) == d.order.contains(key));
            if applied(d, c) is Some {
                assert(e.live.dom().contains(key));
                lemma_kinded(d.live[key], kind);
                lemma_kinded(e.live[key], kind);
                assert(after(d, c).live.dom() =~= after(e, c).live.dom());
            }
        },
        ChangeV::Split { key, line, fresh } => {
            lemma_pos(d.order, key);
            assert(d.live.dom().contains(key) == d.order.contains(key));
            assert(mentions(c, fresh));
            assert(d.tombs.dom().contains(fresh) == e.tombs.dom().contains(fresh));
            if applied(d, c) is Some {
                let lines = lines_of(source_of(d.live[key]));
                lemma_sourced(d.live[key], joined(lines.take(line)));
                lemma_sourced(e.live[key], joined(lines.take(line)));
                lemma_sourced(d.tombs[fresh], joined(lines.skip(line)));
                lemma_sourced(e.tombs[fresh], joined(lines.skip(line)));
                assert(after(d, c).live.dom() =~= after(e, c).live.dom());
            }
        },
        ChangeV::Unmerge { key, line, next: fresh, .. } => {
            lemma_pos(d.order, key);
            assert(d.live.dom().contains(key) == d.order.contains(key));
            assert(mentions(c, fresh));
            assert(d.tombs.dom().contains(fresh) == e.tombs.dom().contains(fresh));
            if applied(d, c) is Some {
                let lines = lines_of(source_of(d.live[key]));
                lemma_sourced(d.live[key], joined(lines.take(line)));
                lemma_sourced(e.live[key], joined(lines.take(line)));
                lemma_sourced(d.tombs[fresh], joined(lines.skip(line)));
                lemma_sourced(e.tombs[fresh], joined(lines.skip(line)));
                assert(after(d, c).live.dom() =~= after(e, c).live.dom());
            }
        },
        ChangeV::Merge { key, next } => {
            lemma_pos(d.order, key);
            lemma_pos(d.order, next);
            assert(d.live.dom().contains(key) == d.order.contains(key));
            assert(d.live.dom().contains(next) == d.order.contains(next));
            if applied(d, c) is Some {
                let whole = source_of(d.live[key]) + one('\n') + source_of(d.live[next]);
                lemma_sourced(d.live[key], whole);
                lemma_sourced(e.live[key], whole);
                assert(after(d, c).live.dom() =~= after(e, c).live.dom());
            }
        },
    }
}

/// A change moves into its target only lines that the target has: undoing and redoing it
/// changes nothing.
pub open spec fn exact(d: DocV, c: ChangeV) -> bool {
    match c {
        ChangeV::Split { key, line, fresh } => source_of(d.tombs[fresh]) == joined(
            lines_of(source_of(d.live[key])).skip(line),
        ),
        ChangeV::Unmerge { key, line, next, .. } => source_of(d.tombs[next]) == joined(
            lines_of(source_of(d.live[key])).skip(line),
        ),
        _ => true,
    }
}

/// The tombstoned cell that a change moves lines into.
pub open spec fn target(c: ChangeV) -> Option<Name> {
    match c {
        ChangeV::Split { fresh, .. } => Some(fresh),
        ChangeV::Unmerge { next, .. } => Some(next),
        _ => None,
    }
}

/// The tombstone whose source a change overwrites.
pub open spec fn overwritten(d: DocV, c: ChangeV) -> Set<Name> {
    if exact(d, c) {
        Set::empty()
    } else {
        set![target(c)->0]
    }
}

/// Two texts joined by a line break have the lines of both.
proof fn lemma_lines_joined(head: Seq<char>, tail: Seq<char>)
    ensures
        lines_of(head + one('\n') + tail) == lines_of(head) + lines_of(tail),
        lines_of(head).len() >= 1,
        lines_of(tail).len() >= 1,
        joined(lines_of(head)) == head,
        joined(lines_of(tail)) == tail,
{
    let a = lines_of(head);
    let b = lines_of(tail);
    lemma_split_nonempty(head, '\n');
    lemma_split_nonempty(tail, '\n');
    lemma_join_split(head, '\n');
    lemma_join_split(tail, '\n');
    lemma_split_free(head, '\n');
    lemma_split_free(tail, '\n');
    lemma_joined_append(a, b);
    let c = a + b;
    assert forall|i: int| 0 <= i < c.len() implies !(#[trigger] c[i]).contains('\n') by {
        if i < a.len() {
            assert(c[i] == a[i]);
        } else {
            assert(c[i] == b[i - a.len()]);
        }
    }
    lemma_split_join(c, '\n');
}

proof fn lemma_joined_append(a: Seq<Seq<char>>, b: Seq<Seq<char>>)
    requires
        a.len() >= 1,
        b.len() >= 1,
    ensures
        joined(a + b) == joined(a) + one('\n') + joined(b),
    decreases b.len(),
{
    let c = a + b;
    assert(c.last() == b.last());
    if b.len() == 1 {
        assert(c.drop_last() =~= a);
        assert(joined(b) =~= b[0]);
    } else {
        assert(c.drop_last() =~= a + b.drop_last());
        lemma_joined_append(a, b.drop_last());
        assert(joined(c) =~= joined(a) + one('\n') + joined(b));
    }
}

/// Taking back a division restores the document, but for the source of the cell divided into.
proof fn lemma_divided_back(d: DocV, key: Name, line: int, fresh: Name, at: int)
    requires
        valid(d),
        divides(d, key, line, fresh),
        0 <= at <= d.order.len(),
    ensures
        ({
            let e = divided(d, key, line, fresh, at);
            let back = ChangeV::Merge { key, next: fresh };
            let same = source_of(d.tombs[fresh]) == joined(
                lines_of(source_of(d.live[key])).skip(line),
            );
            &&& applied(e, back) is Some
            &&& near(d, after(e, back), if same {
                Set::empty()
            } else {
                set![fresh]
            })
        }),
{
    let e = divided(d, key, line, fresh, at);
    let f = after(e, ChangeV::Merge { key, next: fresh });
    lemma_pos(d.order, key);
    assert(d.live.dom().contains(key));
    assert(!d.live.dom().contains(fresh));
    lemma_insert(d.order, at, fresh);
    lemma_pos_is(e.order, fresh, at);
    lemma_pos(e.order, key);
    assert(e.order.contains(key)) by {
        let i = pos(d.order, key);
        assert(e.order[if i < at {
            i
        } else {
            i + 1
        }] == key);
    }
    assert(e.order.remove(at) =~= d.order);
    let source = source_of(d.live[key]);
    let lines = lines_of(source);
    let head = joined(lines.take(line));
    let tail = joined(lines.skip(line));
    lemma_sourced(d.live[key], head);
    lemma_sourced(d.tombs[fresh], tail);
    lemma_joined_append(lines.take(line), lines.skip(line));
    assert(lines.take(line) + lines.skip(line) =~= lines);
    lemma_join_split(source, '\n');
    lemma_sourced(e.live[key], source);
    assert(f.live.dom() =~= d.live.dom());
    assert(f.tombs.dom() =~= d.tombs.dom());
}

/// Every change has an inverse that restores the document: all cells where they were, with all
/// that they hold, but for the source of a tombstone that the change moved lines into.
pub proof fn inverse_restores(d: DocV, c: ChangeV)
    requires
        valid(d),
        applied(d, c) is Some,
    ensures
        ({
            let e = after(d, c);
            let back = inverse(d, c);
            &&& applied(e, back) is Some
            &&& near(d, after(e, back), overwritten(d, c))
            &&& exact(e, back)
        }),
{
    let e = after(d, c);
    let back = inverse(d, c);
    let f = after(e, back);
    let n = d.order.len() as int;
    change_keeps_document(d, c);
    match c {
        ChangeV::Show { key, index } => {
            assert(!d.live.dom().contains(key));
            lemma_insert(d.order, at_most(index, n), key);
            assert(f.live =~= d.live);
            assert(f.tombs =~= d.tombs);
        },
        ChangeV::Hide { key } => {
            lemma_pos(d.order, key);
            lemma_remove(d.order, pos(d.order, key));
            assert(d.live.dom().contains(key));
            assert(!d.tombs.dom().contains(key));
            assert(f.live =~= d.live);
            assert(f.tombs =~= d.tombs);
        },
        ChangeV::Move { key, index } => {
            lemma_pos(d.order, key);
            let from = pos(d.order, key);
            lemma_remove(d.order, from);
            let rest = d.order.remove(from);
            let at = at_most(index, n - 1);
            lemma_insert(rest, at, key);
        },
        ChangeV::Kind { key, kind } => {
            lemma_pos(d.order, key);
            assert(d.live.dom().contains(key));
            let old = raw_kind(d.live[key].raw);
            lemma_kinded(d.live[key], kind);
            lemma_kinded(e.live[key], old);
            assert(f.live.dom() =~= d.live.dom());
        },
        ChangeV::Split { key, line, fresh } => {
            lemma_pos(d.order, key);
            lemma_divided_back(d, key, line, fresh, pos(d.order, key) + 1);
        },
        ChangeV::Unmerge { key, line, next, index } => {
            lemma_divided_back(d, key, line, next, at_most(index, n));
        },
        ChangeV::Merge { key, next } => {
            lemma_pos(d.order, key);
            lemma_pos(d.order, next);
            let below = pos(d.order, next);
            assert(d.live.dom().contains(key));
            assert(d.live.dom().contains(next));
            assert(!d.tombs.dom().contains(next));
            lemma_remove(d.order, below);
            lemma_pos(e.order, key);
            assert(e.live.dom().contains(key));
            assert(e.order.insert(below, next) =~= d.order);
            let head = source_of(d.live[key]);
            let tail = source_of(d.live[next]);
            let whole = head + one('\n') + tail;
            lemma_sourced(d.live[key], whole);
            lemma_lines_joined(head, tail);
            let lines = lines_of(whole);
            let line = lines_of(head).len() as int;
            assert(lines.take(line) =~= lines_of(head));
            assert(lines.skip(line) =~= lines_of(tail));
            lemma_sourced(e.live[key], head);
            lemma_sourced(e.tombs[next], tail);
            assert(f.live.dom() =~= d.live.dom());
            assert(f.tombs.dom() =~= d.tombs.dom());
        },
    }
}

/// The tombstones whose source a group overwrites.
pub open spec fn run_overwrites(d: DocV, g: Seq<ChangeV>) -> Set<Name>
    decreases g.len(),
{
    if g.len() == 0 {
        Set::empty()
    } else {
        let e = run(d, g.drop_last()).0;
        let before = run_overwrites(d, g.drop_last());
        if applied(e, g.last()) is Some {
            before.union(overwritten(e, g.last()))
        } else {
            before
        }
    }
}

/// Whatever a group overwrites is named by no earlier change of the group that applied.
pub open spec fn fresh_run(d: DocV, g: Seq<ChangeV>) -> bool
    decreases g.len(),
{
    g.len() > 0 ==> {
        let r = run(d, g.drop_last());
        &&& fresh_run(d, g.drop_last())
        &&& applied(r.0, g.last()) is Some ==> forall|k: Name|
            overwritten(r.0, g.last()).contains(k) ==> !group_mentions(r.1, k)
    }
}

/// A group that moves into its targets only lines that they have.
pub open spec fn exact_run(d: DocV, g: Seq<ChangeV>) -> bool {
    run_overwrites(d, g) == Set::<Name>::empty()
}

/// The cells whose sources differ from those in `d` once a group has been taken back, change by
/// change, where those in `but` differ before. None where a change to be taken back would
/// depend on lines that differ.
pub open spec fn way_back(d: DocV, g: Seq<ChangeV>, but: Set<Name>) -> Option<Set<Name>>
    decreases g.len(),
{
    if g.len() == 0 {
        Some(but)
    } else {
        let m = run(d, g.drop_last()).0;
        if applied(m, g.last()) is None {
            way_back(d, g.drop_last(), but)
        } else {
            let inv = inverse(m, g.last());
            if exists|k: Name| #[trigger] but.contains(k) && reads(inv, k) {
                None
            } else {
                way_back(d, g.drop_last(), passed_on(inv, but).union(overwritten(m, g.last())))
            }
        }
    }
}

/// Whether taking a group back restores every live cell: no live cell was hidden, overwritten
/// by a split, and needed again.
pub open spec fn comes_back(d: DocV, g: Seq<ChangeV>) -> bool {
    way_back(d, g, Set::empty()) matches Some(but) && forall|k: Name| #[trigger]
        but.contains(k) ==> !d.live.dom().contains(k)
}

proof fn lemma_exact_returns(d: DocV, g: Seq<ChangeV>)
    requires
        exact_run(d, g),
    ensures
        way_back(d, g, Set::empty()) == Some(Set::<Name>::empty()),
        g.len() > 0 ==> exact_run(d, g.drop_last()),
        g.len() > 0 && applied(run(d, g.drop_last()).0, g.last()) is Some ==> overwritten(
            run(d, g.drop_last()).0,
            g.last(),
        ) == Set::<Name>::empty(),
    decreases g.len(),
{
    if g.len() > 0 {
        let m = run(d, g.drop_last()).0;
        let before = run_overwrites(d, g.drop_last());
        assert forall|k: Name| !(#[trigger] before.contains(k)) by {
            assert(!run_overwrites(d, g).contains(k));
        }
        assert(before =~= Set::<Name>::empty());
        lemma_exact_returns(d, g.drop_last());
        if applied(m, g.last()) is Some {
            let over = overwritten(m, g.last());
            assert forall|k: Name| !(#[trigger] over.contains(k)) by {
                assert(!run_overwrites(d, g).contains(k));
            }
            assert(over =~= Set::<Name>::empty());
            let inv = inverse(m, g.last());
            let none = Set::<Name>::empty();
            assert(passed_on(inv, none).union(over) =~= none);
        }
    }
}

/// The inverses of a group name only cells that the document has.
pub proof fn inverses_name_cells(d: DocV, g: Seq<ChangeV>, k: Name)
    requires
        valid(d),
        group_mentions(run(d, g).1, k),
    ensures
        cell_at(d, k) is Some,
    decreases g.len(),
{
    let front = g.drop_last();
    let r = run(d, front);
    let inv = run(d, g).1;
    let i = choose|i: int| 0 <= i < inv.len() && mentions(#[trigger] inv[i], k);
    group_keeps_document(d, front);
    assert(cell_at(d, k) is Some == cell_at(r.0, k) is Some);
    if applied(r.0, g.last()) is Some {
        if i == 0 {
            match g.last() {
                ChangeV::Split { key, .. } => {
                    lemma_pos(r.0.order, key);
                    assert(r.0.live.dom().contains(key));
                },
                ChangeV::Unmerge { key, .. } => {
                    lemma_pos(r.0.order, key);
                    assert(r.0.live.dom().contains(key));
                },
                ChangeV::Merge { key, next } => {
                    lemma_pos(r.0.order, key);
                    lemma_pos(r.0.order, next);
                    assert(r.0.live.dom().contains(key));
                    assert(r.0.live.dom().contains(next));
                },
                ChangeV::Hide { key } => {
                    lemma_pos(r.0.order, key);
                    assert(r.0.live.dom().contains(key));
                },
                ChangeV::Move { key, .. } => {
                    lemma_pos(r.0.order, key);
                    assert(r.0.live.dom().contains(key));
                },
                ChangeV::Kind { key, .. } => {
                    lemma_pos(r.0.order, key);
                    assert(r.0.live.dom().contains(key));
                },
                ChangeV::Show { .. } => {},
            }
        } else {
            assert(r.1[i - 1] == inv[i]);
            assert(group_mentions(r.1, k));
            inverses_name_cells(d, front, k);
        }
    } else {
        inverses_name_cells(d, front, k);
    }
}

/// A group does the same to documents that agree on what it names.
proof fn lemma_run_frame(d: DocV, e: DocV, g: Seq<ChangeV>, but: Set<Name>)
    requires
        valid(d),
        valid(e),
        agree(d, e, but),
        forall|k: Name| #[trigger] group_mentions(g, k) ==> !but.contains(k),
    ensures
        agree(run(d, g).0, run(e, g).0, but),
        run(d, g).1 == run(e, g).1,
        run(d, g).2 == run(e, g).2,
        run_overwrites(d, g) == run_overwrites(e, g),
    decreases g.len(),
{
    if g.len() > 0 {
        let front = g.drop_last();
        assert forall|k: Name| #[trigger] group_mentions(front, k) implies !but.contains(k) by {
            let j = choose|j: int| 0 <= j < front.len() && mentions(#[trigger] front[j], k);
            assert(mentions(g[j], k));
            assert(group_mentions(g, k));
        }
        lemma_run_frame(d, e, front, but);
        group_keeps_document(d, front);
        group_keeps_document(e, front);
        let x = run(d, front).0;
        let y = run(e, front).0;
        let c = g.last();
        assert forall|k: Name| mentions(c, k) implies !but.contains(k) by {
            assert(mentions(g[g.len() - 1], k));
            assert(group_mentions(g, k));
        }
        lemma_frame(x, y, c, but);
        if applied(x, c) is Some {
            match c {
                ChangeV::Split { key, fresh, .. } => {
                    assert(mentions(c, fresh));
                    lemma_pos(x.order, key);
                    assert(x.live.dom().contains(key));
                    assert(x.tombs.dom().contains(fresh));
                    assert(exact(x, c) == exact(y, c));
                },
                ChangeV::Unmerge { key, next, .. } => {
                    assert(mentions(c, next));
                    lemma_pos(x.order, key);
                    assert(x.live.dom().contains(key));
                    assert(x.tombs.dom().contains(next));
                    assert(exact(x, c) == exact(y, c));
                },
                _ => {},
            }
        }
    }
}

proof fn lemma_run_cons(d: DocV, c: ChangeV, g: Seq<ChangeV>)
    requires
        applied(d, c) is Some,
    ensures
        ({
            let r = run(d, seq![c] + g);
            let t = run(after(d, c), g);
            &&& r.0 == t.0
            &&& r.1 == t.1.push(inverse(d, c))
            &&& r.2 is Some
            &&& run_overwrites(d, seq![c] + g) == overwritten(d, c).union(
                run_overwrites(after(d, c), g),
            )
        }),
    decreases g.len(),
{
    let all = seq![c] + g;
    assert(all.last() == if g.len() > 0 {
        g.last()
    } else {
        c
    });
    if g.len() == 0 {
        let none = Seq::<ChangeV>::empty();
        assert(all.drop_last() =~= none);
        assert(run(d, none).0 == d);
        assert(run(d, all).1 =~= seq![inverse(d, c)]);
        assert(run(after(d, c), g).1.push(inverse(d, c)) =~= seq![inverse(d, c)]);
        assert(run_overwrites(d, none) == Set::<Name>::empty());
        assert(run_overwrites(after(d, c), g) == Set::<Name>::empty());
        assert(run_overwrites(d, all) =~= overwritten(d, c).union(
            run_overwrites(after(d, c), g),
        ));
    } else {
        let front = g.drop_last();
        assert(all.drop_last() =~= seq![c] + front);
        lemma_run_cons(d, c, front);
        let t = run(after(d, c), front);
        let r = run(d, seq![c] + front);
        if applied(t.0, g.last()) is Some {
            let inv = inverse(t.0, g.last());
            assert(seq![inv] + r.1 =~= (seq![inv] + t.1).push(inverse(d, c)));
        }
        assert(run_overwrites(d, all) =~= overwritten(d, c).union(
            run_overwrites(after(d, c), g),
        ));
    }
}

proof fn lemma_walk_back(d: DocV, g: Seq<ChangeV>, w: DocV, but: Set<Name>)
    requires
        valid(d),
        valid(w),
        near(run(d, g).0, w, but),
        way_back(d, g, but) is Some,
    ensures
        near(d, run(w, run(d, g).1).0, way_back(d, g, but)->0),
    decreases g.len(),
{
    if g.len() > 0 {
        let front = g.drop_last();
        let c = g.last();
        let m = run(d, front).0;
        let undo = run(d, front).1;
        group_keeps_document(d, front);
        if applied(m, c) is Some {
            let e = after(m, c);
            let inv = inverse(m, c);
            change_keeps_document(m, c);
            inverse_restores(m, c);
            change_keeps_document(e, inv);
            lemma_near_frame(e, w, inv, but);
            change_keeps_document(w, inv);
            let next = passed_on(inv, but);
            let over = overwritten(m, c);
            lemma_near_trans(m, after(e, inv), after(w, inv), over, next);
            assert(over.union(next) =~= next.union(over));
            lemma_walk_back(d, front, after(w, inv), next.union(over));
            lemma_run_cons(w, inv, undo);
        } else {
            lemma_walk_back(d, front, w, but);
        }
    }
}

/// The inverses of a group, applied in their order, restore the document.
pub proof fn group_restores(d: DocV, g: Seq<ChangeV>)
    requires
        valid(d),
        comes_back(d, g),
    ensures
        ({
            let f = run(run(d, g).0, run(d, g).1).0;
            &&& near(d, f, way_back(d, g, Set::empty())->0)
            &&& agree(d, f, way_back(d, g, Set::empty())->0)
            &&& alike(f, d)
        }),
{
    let e = run(d, g).0;
    let f = run(e, run(d, g).1).0;
    group_keeps_document(d, g);
    assert(near(e, e, Set::empty()));
    lemma_walk_back(d, g, e, Set::empty());
    lemma_near_agree(d, f, way_back(d, g, Set::empty())->0);
    assert forall|k: Name| #[trigger] f.live.dom().contains(k) implies same_cell(
        f.live[k],
        d.live[k],
    ) by {
        assert(d.live.dom().contains(k));
    }
}

/// What is exact one way is exact the other way.
proof fn lemma_exact_back(d: DocV, g: Seq<ChangeV>)
    requires
        valid(d),
        fresh_run(d, g),
    ensures
        ({
            let e = run(d, g).0;
            let back = run(d, g).1;
            &&& agree(d, run(e, back).0, run_overwrites(d, g))
            &&& exact_run(e, back)
            &&& run(e, back).1.len() == back.len()
        }),
    decreases g.len(),
{
    let e = run(d, g).0;
    let back = run(d, g).1;
    if g.len() == 0 {
        assert(agree(d, d, Set::empty()));
    } else {
        let front = g.drop_last();
        let c = g.last();
        lemma_exact_back(d, front);
        group_keeps_document(d, front);
        let m = run(d, front).0;
        let undo = run(d, front).1;
        if applied(m, c) is Some {
            change_keeps_document(m, c);
            inverse_restores(m, c);
            let inv = inverse(m, c);
            let w = after(e, inv);
            change_keeps_document(e, inv);
            let but = overwritten(m, c);
            assert forall|k: Name| #[trigger] but.contains(k) implies !m.live.dom().contains(k) by {
                assert(m.tombs.dom().contains(k));
            }
            lemma_near_agree(m, w, but);
            lemma_run_frame(m, w, undo, but);
            lemma_run_cons(e, inv, undo);
            let f = run(m, undo).0;
            lemma_agree_trans(d, f, run(w, undo).0, run_overwrites(d, front), but);
            assert(run_overwrites(e, back) =~= Set::<Name>::empty());
        }
    }
}

proof fn lemma_exact_is_fresh(d: DocV, g: Seq<ChangeV>)
    requires
        exact_run(d, g),
    ensures
        fresh_run(d, g),
    decreases g.len(),
{
    if g.len() > 0 {
        lemma_exact_returns(d, g);
        lemma_exact_is_fresh(d, g.drop_last());
    }
}

/// A cell that no change that applied names stays as it is.
proof fn lemma_unnamed_stays(d: DocV, g: Seq<ChangeV>, k: Name)
    requires
        !group_mentions(run(d, g).1, k),
    ensures
        d.live.dom().contains(k) == run(d, g).0.live.dom().contains(k),
    decreases g.len(),
{
    if g.len() > 0 {
        let front = g.drop_last();
        let r = run(d, front);
        let inv = run(d, g).1;
        if applied(r.0, g.last()) is Some {
            assert(!mentions(inv[0], k));
            assert forall|i: int| 0 <= i < r.1.len() implies !mentions(#[trigger] r.1[i], k) by {
                assert(inv[i + 1] == r.1[i]);
            }
        }
        lemma_unnamed_stays(d, front, k);
    }
}

proof fn lemma_fresh_way(d: DocV, g: Seq<ChangeV>, but: Set<Name>)
    requires
        fresh_run(d, g),
        forall|k: Name| #[trigger] but.contains(k) ==> !group_mentions(run(d, g).1, k),
    ensures
        way_back(d, g, but) == Some(but.union(run_overwrites(d, g))),
    decreases g.len(),
{
    if g.len() == 0 {
        assert(but.union(run_overwrites(d, g)) =~= but);
    } else {
        let front = g.drop_last();
        let c = g.last();
        let r = run(d, front);
        if applied(r.0, c) is Some {
            let all = run(d, g).1;
            let inv = inverse(r.0, c);
            assert(all[0] == inv);
            assert forall|k: Name| #[trigger] but.contains(k) implies !mentions(inv, k)
                && !group_mentions(r.1, k) by {
                assert(!mentions(all[0], k));
                assert forall|i: int| 0 <= i < r.1.len() implies !mentions(
                    #[trigger] r.1[i],
                    k,
                ) by {
                    assert(all[i + 1] == r.1[i]);
                }
            }
            assert(passed_on(inv, but) =~= but);
            let next = but.union(overwritten(r.0, c));
            lemma_fresh_way(d, front, next);
            assert(next.union(run_overwrites(d, front)) =~= but.union(run_overwrites(d, g)));
        } else {
            lemma_fresh_way(d, front, but);
        }
    }
}

proof fn lemma_overwrites_tombs(d: DocV, g: Seq<ChangeV>, k: Name)
    requires
        valid(d),
        fresh_run(d, g),
        run_overwrites(d, g).contains(k),
    ensures
        !d.live.dom().contains(k),
    decreases g.len(),
{
    if g.len() > 0 {
        let front = g.drop_last();
        let r = run(d, front);
        group_keeps_document(d, front);
        if run_overwrites(d, front).contains(k) {
            lemma_overwrites_tombs(d, front, k);
        } else {
            assert(overwritten(r.0, g.last()).contains(k));
            assert(r.0.tombs.dom().contains(k));
            assert(!r.0.live.dom().contains(k));
            lemma_unnamed_stays(d, front, k);
        }
    }
}

/// A group whose splits go into cells that no earlier change of the group touched can be taken
/// back, and what takes it back can be taken back.
pub proof fn fresh_targets_return(d: DocV, g: Seq<ChangeV>)
    requires
        valid(d),
        fresh_run(d, g),
    ensures
        comes_back(d, g),
        way_back(d, g, Set::empty())->0 == run_overwrites(d, g),
        exact_run(run(d, g).0, run(d, g).1),
        comes_back(run(d, g).0, run(d, g).1),
{
    lemma_fresh_way(d, g, Set::empty());
    assert(Set::<Name>::empty().union(run_overwrites(d, g)) =~= run_overwrites(d, g));
    assert forall|k: Name| #[trigger] run_overwrites(d, g).contains(k) implies
        !d.live.dom().contains(k) by {
        lemma_overwrites_tombs(d, g, k);
    }
    lemma_exact_back(d, g);
    lemma_exact_returns(run(d, g).0, run(d, g).1);
}

/// A single change can always be taken back, and that too.
pub proof fn one_change_returns(d: DocV, c: ChangeV)
    requires
        valid(d),
        applied(d, c) is Some,
    ensures
        run(d, seq![c]).0 == after(d, c),
        run(d, seq![c]).1 == seq![inverse(d, c)],
        fresh_run(d, seq![c]),
        comes_back(d, seq![c]),
        comes_back(after(d, c), seq![inverse(d, c)]),
{
    let g = seq![c];
    let none = Seq::<ChangeV>::empty();
    assert(g.drop_last() =~= none);
    assert(run(d, none) == (d, none, None::<int>));
    assert(run(d, g).1 =~= seq![inverse(d, c)]);
    assert(fresh_run(d, none));
    assert forall|k: Name| !group_mentions(none, k) by {}
    fresh_targets_return(d, g);
}

/// Undoing the groups from the last to the first, each exactly, goes back through the
/// documents of `past`.
pub open spec fn rewinds(d: DocV, groups: Seq<Seq<ChangeV>>, past: Seq<DocV>) -> bool
    decreases groups.len(),
{
    &&& groups.len() == past.len()
    &&& groups.len() > 0 ==> {
        let e = run(d, groups.last()).0;
        &&& exact_run(d, groups.last())
        &&& alike(e, past.last())
        &&& rewinds(e, groups.drop_last(), past.drop_last())
    }
}

pub open spec fn stack_mentions(groups: Seq<Seq<ChangeV>>, k: Name) -> bool {
    exists|i: int| 0 <= i < groups.len() && group_mentions(#[trigger] groups[i], k)
}

proof fn lemma_stack_front(groups: Seq<Seq<ChangeV>>, k: Name)
    requires
        groups.len() > 0,
    ensures
        stack_mentions(groups.drop_last(), k) ==> stack_mentions(groups, k),
        group_mentions(groups.last(), k) ==> stack_mentions(groups, k),
{
    if stack_mentions(groups.drop_last(), k) {
        let i = choose|i: int|
            0 <= i < groups.drop_last().len() && group_mentions(
                #[trigger] groups.drop_last()[i],
                k,
            );
        assert(group_mentions(groups[i], k));
    }
    if group_mentions(groups.last(), k) {
        assert(group_mentions(groups[groups.len() - 1], k));
    }
}

/// Whether groups rewind depends on no tombstone that they do not name.
pub proof fn rewinds_frame(
    d: DocV,
    e: DocV,
    groups: Seq<Seq<ChangeV>>,
    past: Seq<DocV>,
    but: Set<Name>,
)
    requires
        valid(d),
        valid(e),
        agree(d, e, but),
        rewinds(d, groups, past),
        forall|k: Name| #[trigger] stack_mentions(groups, k) ==> !but.contains(k),
    ensures
        rewinds(e, groups, past),
    decreases groups.len(),
{
    if groups.len() > 0 {
        let g = groups.last();
        assert forall|k: Name| #[trigger] group_mentions(g, k) implies !but.contains(k) by {
            lemma_stack_front(groups, k);
        }
        lemma_run_frame(d, e, g, but);
        let x = run(d, g).0;
        let y = run(e, g).0;
        group_keeps_document(d, g);
        group_keeps_document(e, g);
        assert(alike(y, past.last())) by {
            assert forall|k: Name| #[trigger] y.live.dom().contains(k) implies same_cell(
                y.live[k],
                past.last().live[k],
            ) by {
                assert(x.live.dom().contains(k));
            }
        }
        assert forall|k: Name| #[trigger] stack_mentions(groups.drop_last(), k) implies
            !but.contains(k) by {
            lemma_stack_front(groups, k);
        }
        rewinds_frame(x, y, groups.drop_last(), past.drop_last(), but);
    }
}

pub proof fn lemma_alike_trans(d: DocV, e: DocV, f: DocV)
    requires
        alike(d, e),
        alike(e, f),
    ensures
        alike(d, f),
{
    assert forall|k: Name| #[trigger] d.live.dom().contains(k) implies same_cell(
        d.live[k],
        f.live[k],
    ) by {
        assert(same_cell(d.live[k], e.live[k]));
        assert(e.live.dom().contains(k));
    }
}

/// A document with its undo and redo groups, the most recent last.
pub struct HistoryV {
    pub doc: DocV,
    pub undo: Seq<Seq<ChangeV>>,
    pub redo: Seq<Seq<ChangeV>>,
}

/// The undo groups lead back through `past`, and the redo groups on through `future`.
pub open spec fn history_wf(h: HistoryV, past: Seq<DocV>, future: Seq<DocV>) -> bool {
    valid(h.doc) && rewinds(h.doc, h.undo, past) && rewinds(h.doc, h.redo, future)
}

/// A group of changes as one undo step. A group of which nothing applies leaves the history.
pub open spec fn edited(h: HistoryV, g: Seq<ChangeV>) -> HistoryV {
    let r = run(h.doc, g);
    if r.1.len() > 0 {
        HistoryV { doc: r.0, undo: h.undo.push(r.1), redo: Seq::empty() }
    } else {
        HistoryV { doc: r.0, ..h }
    }
}

pub open spec fn undone(h: HistoryV) -> HistoryV {
    if h.undo.len() > 0 {
        let r = run(h.doc, h.undo.last());
        HistoryV { doc: r.0, undo: h.undo.drop_last(), redo: h.redo.push(r.1) }
    } else {
        h
    }
}

pub open spec fn redone(h: HistoryV) -> HistoryV {
    if h.redo.len() > 0 {
        let r = run(h.doc, h.redo.last());
        HistoryV { doc: r.0, undo: h.undo.push(r.1), redo: h.redo.drop_last() }
    } else {
        h
    }
}

/// A group of which nothing applies changes nothing.
pub proof fn idle_group_changes_nothing(d: DocV, g: Seq<ChangeV>)
    ensures
        run(d, g).1.len() == 0 ==> run(d, g).0 == d,
    decreases g.len(),
{
    if g.len() > 0 {
        idle_group_changes_nothing(d, g.drop_last());
    }
}

/// Undo gives back the document before an edit of which anything applied.
pub proof fn undo_restores(h: HistoryV, g: Seq<ChangeV>)
    requires
        valid(h.doc),
        run(h.doc, g).1.len() > 0,
        comes_back(h.doc, g),
    ensures
        alike(undone(edited(h, g)).doc, h.doc),
{
    group_restores(h.doc, g);
}

/// Redo after undo gives back the document after the edit, where the way back comes back in
/// turn. It does not where a group merges a cell away, shows and splits it, hides it and splits
/// another cell into it: undoing joins other lines than were split, so that redo may find no
/// such line to split at.
pub proof fn redo_restores(h: HistoryV, g: Seq<ChangeV>)
    requires
        valid(h.doc),
        run(h.doc, g).1.len() > 0,
        comes_back(run(h.doc, g).0, run(h.doc, g).1),
    ensures
        alike(redone(undone(edited(h, g))).doc, edited(h, g).doc),
{
    group_keeps_document(h.doc, g);
    group_restores(run(h.doc, g).0, run(h.doc, g).1);
}

/// Undo and redo after an edit of one change give back the document before and after it,
/// whatever the change.
pub proof fn one_change_is_undone_and_redone(h: HistoryV, c: ChangeV)
    requires
        valid(h.doc),
        applied(h.doc, c) is Some,
    ensures
        alike(undone(edited(h, seq![c])).doc, h.doc),
        alike(redone(undone(edited(h, seq![c]))).doc, edited(h, seq![c]).doc),
{
    one_change_returns(h.doc, c);
    undo_restores(h, seq![c]);
    redo_restores(h, seq![c]);
}

/// Undo and redo after an edit give back the document before and after it, where lines go only
/// into cells that no earlier change of the group names.
pub proof fn fresh_group_is_undone_and_redone(h: HistoryV, g: Seq<ChangeV>)
    requires
        valid(h.doc),
        run(h.doc, g).1.len() > 0,
        fresh_run(h.doc, g),
    ensures
        alike(undone(edited(h, g)).doc, h.doc),
        alike(redone(undone(edited(h, g))).doc, edited(h, g).doc),
{
    fresh_targets_return(h.doc, g);
    undo_restores(h, g);
    redo_restores(h, g);
}

/// A group that divides no cell puts lines into none.
pub proof fn undivided_group_is_fresh(d: DocV, g: Seq<ChangeV>)
    requires
        forall|i: int| 0 <= i < g.len() ==> target(#[trigger] g[i]) is None,
    ensures
        fresh_run(d, g),
        run_overwrites(d, g) == Set::<Name>::empty(),
    decreases g.len(),
{
    if g.len() > 0 {
        let front = g.drop_last();
        assert forall|i: int| 0 <= i < front.len() implies target(#[trigger] front[i]) is None by {
            assert(target(g[i]) is None);
        }
        undivided_group_is_fresh(d, front);
        assert(target(g[g.len() - 1]) is None);
        assert(Set::<Name>::empty().union(Set::<Name>::empty()) =~= Set::<Name>::empty());
    }
}

/// After an edit of which anything applied, there is nothing to redo.
pub proof fn edit_forgets_redo(h: HistoryV, g: Seq<ChangeV>)
    requires
        run(h.doc, g).1.len() > 0,
    ensures
        edited(h, g).redo.len() == 0,
        redone(edited(h, g)) == edited(h, g),
{
}

/// An edit can be undone, redone and undone again along with all before it: the document before
/// it joins the past. The way back must be exact, and no earlier edit may name a cell whose
/// source it leaves changed. Both hold where splits go into new cells.
pub proof fn edit_is_undoable(h: HistoryV, past: Seq<DocV>, future: Seq<DocV>, g: Seq<ChangeV>)
    requires
        history_wf(h, past, future),
        comes_back(h.doc, g),
        exact_run(run(h.doc, g).0, run(h.doc, g).1),
        forall|k: Name|
            #[trigger] way_back(h.doc, g, Set::empty())->0.contains(k) ==> !stack_mentions(
                h.undo,
                k,
            ),
        run(h.doc, g).1.len() > 0,
    ensures
        history_wf(edited(h, g), past.push(h.doc), Seq::empty()),
{
    let d = h.doc;
    let e = run(d, g).0;
    let back = run(d, g).1;
    let f = run(e, back).0;
    group_keeps_document(d, g);
    group_keeps_document(e, back);
    group_restores(d, g);
    let but = way_back(d, g, Set::empty())->0;
    assert forall|k: Name| #[trigger] stack_mentions(h.undo, k) implies !but.contains(k) by {}
    rewinds_frame(d, f, h.undo, past, but);
    let undo = h.undo.push(back);
    let before = past.push(d);
    assert(undo.drop_last() =~= h.undo);
    assert(before.drop_last() =~= past);
}

/// One step along a stack of groups puts the way back on the other stack.
proof fn lemma_step(
    d: DocV,
    from: Seq<Seq<ChangeV>>,
    ahead: Seq<DocV>,
    onto: Seq<Seq<ChangeV>>,
    behind: Seq<DocV>,
)
    requires
        valid(d),
        from.len() > 0,
        rewinds(d, from, ahead),
        rewinds(d, onto, behind),
    ensures
        ({
            let r = run(d, from.last());
            &&& valid(r.0)
            &&& alike(r.0, ahead.last())
            &&& rewinds(r.0, from.drop_last(), ahead.drop_last())
            &&& rewinds(r.0, onto.push(r.1), behind.push(d))
        }),
{
    let g = from.last();
    let e = run(d, g).0;
    let back = run(d, g).1;
    lemma_exact_is_fresh(d, g);
    group_keeps_document(d, g);
    lemma_exact_back(d, g);
    group_keeps_document(e, back);
    let f = run(e, back).0;
    rewinds_frame(d, f, onto, behind, Set::empty());
    assert(onto.push(back).drop_last() =~= onto);
    assert(behind.push(d).drop_last() =~= behind);
    assert(alike(f, d)) by {
        assert forall|k: Name| #[trigger] f.live.dom().contains(k) implies same_cell(
            f.live[k],
            d.live[k],
        ) by {
            assert(d.live.dom().contains(k));
        }
    }
}

/// Undo returns to the document before the last group, and the document it leaves can be
/// returned to by redo.
pub proof fn undo_steps_back(h: HistoryV, past: Seq<DocV>, future: Seq<DocV>)
    requires
        history_wf(h, past, future),
        h.undo.len() > 0,
    ensures
        alike(undone(h).doc, past.last()),
        history_wf(undone(h), past.drop_last(), future.push(h.doc)),
{
    lemma_step(h.doc, h.undo, past, h.redo, future);
}

/// Redo returns to the document before the last undo.
pub proof fn redo_steps_on(h: HistoryV, past: Seq<DocV>, future: Seq<DocV>)
    requires
        history_wf(h, past, future),
        h.redo.len() > 0,
    ensures
        alike(redone(h).doc, future.last()),
        history_wf(redone(h), past.push(h.doc), future.drop_last()),
{
    lemma_step(h.doc, h.redo, future, h.undo, past);
}

/// A cell created under a key that no group names leaves the history as it is.
pub proof fn new_cell_keeps_history(
    h: HistoryV,
    past: Seq<DocV>,
    future: Seq<DocV>,
    key: Name,
    cell: CellV,
)
    requires
        history_wf(h, past, future),
        cell_at(h.doc, key) is None,
        cell_wf(cell.raw, cell.stash),
        !stack_mentions(h.undo, key),
        !stack_mentions(h.redo, key),
    ensures
        history_wf(
            HistoryV { doc: DocV { tombs: h.doc.tombs.insert(key, cell), ..h.doc }, ..h },
            past,
            future,
        ),
{
    let e = DocV { tombs: h.doc.tombs.insert(key, cell), ..h.doc };
    assert(!h.doc.live.dom().contains(key));
    assert(valid(e));
    rewinds_frame(h.doc, e, h.undo, past, set![key]);
    rewinds_frame(h.doc, e, h.redo, future, set![key]);
}

/// Undo until there is nothing to undo.
pub open spec fn undone_all(h: HistoryV) -> HistoryV
    decreases h.undo.len(),
{
    if h.undo.len() > 0 {
        undone_all(undone(h))
    } else {
        h
    }
}

/// Redo until there is nothing to redo.
pub open spec fn redone_all(h: HistoryV) -> HistoryV
    decreases h.redo.len(),
{
    if h.redo.len() > 0 {
        redone_all(redone(h))
    } else {
        h
    }
}

pub proof fn lemma_undone_all(h: HistoryV, past: Seq<DocV>, future: Seq<DocV>) -> (r: Seq<DocV>)
    requires
        history_wf(h, past, future),
    ensures
        history_wf(undone_all(h), Seq::empty(), r),
        undone_all(h).undo.len() == 0,
        past.len() > 0 ==> alike(undone_all(h).doc, past[0]),
        past.len() == 0 ==> undone_all(h).doc == h.doc,
        future.len() > 0 ==> r.len() > 0 && r[0] == future[0],
        future.len() == 0 && past.len() > 0 ==> r.len() > 0 && r[0] == h.doc,
        future.len() == 0 && past.len() == 0 ==> r.len() == 0,
    decreases h.undo.len(),
{
    if h.undo.len() > 0 {
        undo_steps_back(h, past, future);
        let on = future.push(h.doc);
        let r = lemma_undone_all(undone(h), past.drop_last(), on);
        assert(past.drop_last().len() > 0 ==> past.drop_last()[0] == past[0]);
        r
    } else {
        assert(past =~= Seq::empty());
        future
    }
}

proof fn lemma_redone_all(h: HistoryV, past: Seq<DocV>, future: Seq<DocV>)
    requires
        history_wf(h, past, future),
    ensures
        future.len() > 0 ==> alike(redone_all(h).doc, future[0]),
        future.len() == 0 ==> redone_all(h).doc == h.doc,
    decreases h.redo.len(),
{
    if h.redo.len() > 0 {
        redo_steps_on(h, past, future);
        lemma_redone_all(redone(h), past.push(h.doc), future.drop_last());
    }
}

/// Undoing everything returns to the oldest document, and redoing everything after that
/// returns to the document it started from.
pub proof fn undo_all_then_redo_all(h: HistoryV, past: Seq<DocV>)
    requires
        history_wf(h, past, Seq::empty()),
        h.redo.len() == 0,
    ensures
        past.len() > 0 ==> alike(undone_all(h).doc, past[0]),
        alike(redone_all(undone_all(h)).doc, h.doc),
{
    let r = lemma_undone_all(h, past, Seq::empty());
    lemma_redone_all(undone_all(h), Seq::empty(), r);
}

/// Every key of a cell or of the history is among `used`.
pub open spec fn history_known(h: HistoryV, used: Set<Name>) -> bool {
    &&& forall|k: Name| #[trigger] cell_at(h.doc, k) is Some ==> used.contains(k)
    &&& forall|k: Name| #[trigger] stack_mentions(h.undo, k) ==> used.contains(k)
    &&& forall|k: Name| #[trigger] stack_mentions(h.redo, k) ==> used.contains(k)
}

proof fn lemma_stack_push(stack: Seq<Seq<ChangeV>>, g: Seq<ChangeV>, k: Name)
    requires
        stack_mentions(stack.push(g), k),
    ensures
        stack_mentions(stack, k) || group_mentions(g, k),
{
    let all = stack.push(g);
    let i = choose|i: int| 0 <= i < all.len() && group_mentions(#[trigger] all[i], k);
    if i < stack.len() {
        assert(group_mentions(stack[i], k));
    }
}

/// Editing, undoing and redoing name no key that is not among `used`: a key never used is
/// named nowhere in the history.
pub proof fn history_stays_known(h: HistoryV, g: Seq<ChangeV>, used: Set<Name>)
    requires
        valid(h.doc),
        history_known(h, used),
    ensures
        history_known(edited(h, g), used),
        history_known(undone(h), used),
        history_known(redone(h), used),
{
    lemma_known_step(h, g, used);
    if h.undo.len() > 0 {
        lemma_known_step(h, h.undo.last(), used);
        assert forall|k: Name| #[trigger] stack_mentions(undone(h).undo, k) implies
            used.contains(k) by {
            lemma_stack_front(h.undo, k);
        }
        assert forall|k: Name| #[trigger] stack_mentions(undone(h).redo, k) implies
            used.contains(k) by {
            lemma_stack_push(h.redo, run(h.doc, h.undo.last()).1, k);
        }
    }
    if h.redo.len() > 0 {
        lemma_known_step(h, h.redo.last(), used);
        assert forall|k: Name| #[trigger] stack_mentions(redone(h).redo, k) implies
            used.contains(k) by {
            lemma_stack_front(h.redo, k);
        }
        assert forall|k: Name| #[trigger] stack_mentions(redone(h).undo, k) implies
            used.contains(k) by {
            lemma_stack_push(h.undo, run(h.doc, h.redo.last()).1, k);
        }
    }
    assert forall|k: Name| #[trigger] stack_mentions(edited(h, g).undo, k) implies used.contains(
        k,
    ) by {
        if run(h.doc, g).1.len() > 0 {
            lemma_stack_push(h.undo, run(h.doc, g).1, k);
        }
    }
}

proof fn lemma_known_step(h: HistoryV, g: Seq<ChangeV>, used: Set<Name>)
    requires
        valid(h.doc),
        history_known(h, used),
    ensures
        forall|k: Name| #[trigger] cell_at(run(h.doc, g).0, k) is Some ==> used.contains(k),
        forall|k: Name| #[trigger] group_mentions(run(h.doc, g).1, k) ==> used.contains(k),
{
    group_keeps_document(h.doc, g);
    assert forall|k: Name| #[trigger] cell_at(run(h.doc, g).0, k) is Some implies used.contains(
        k,
    ) by {
        assert(cell_at(h.doc, k) is Some);
    }
    assert forall|k: Name| #[trigger] group_mentions(run(h.doc, g).1, k) implies used.contains(
        k,
    ) by {
        inverses_name_cells(h.doc, g, k);
    }
}

} // verus!
