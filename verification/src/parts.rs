//! A text as the parts that stand for its cells, and what structural commands do to them.

use crate::adapter::{
    buffer_holds_no_marker, buffer_round_trip, py_lines, py_marker, py_parsed, py_source, CellKind,
    MarkerV,
};
use crate::document::raw_kind;
use crate::history::{cell_at, source_of, DocV, Name};
use crate::notebook::Notebook;
use crate::projection::{
    claimed, claims, edited_text, had_keys, has_text, is_blank, kept_keys, keyed, keys_before,
    lemma_full_claims, lemma_scan_body, lemma_scan_prefix, lemma_scanned, no_keys, reconciled,
    region_kinds, region_source, region_sources, regions, said_keys, same_keys, says_keys, scanned,
    span_names, spans_of, Buffer, EditV, Reconciled, RegionV, SpanV, Text,
};
use crate::structure::{
    added, deleted, lemma_begins, merged, retyped, span_of, splits, start_of, swapped, Direction,
};
use vstd::prelude::*;

verus! {

/// What a part of a text says of its cell.
pub struct CellText {
    pub kind: CellKind,
    pub key: Option<Name>,
    pub source: Seq<char>,
}

/// The cells that a text shows.
pub open spec fn cells_shown(text: Text) -> Seq<CellText> {
    Seq::new(
        regions(text).len(),
        |i: int|
            CellText {
                kind: regions(text)[i].kind,
                key: regions(text)[i].key,
                source: region_source(text, regions(text)[i]),
            },
    )
}

/// Whether lines are a marker and a body without one.
pub open spec fn is_part(part: Text) -> bool {
    &&& part.len() > 0
    &&& py_parsed(part[0]) is Some
    &&& forall|j: int| 0 < j < part.len() ==> py_parsed(#[trigger] part[j]) is None
}

/// What a part says of its cell.
pub open spec fn part_says(part: Text) -> CellText {
    let m = py_parsed(part[0])->0;
    CellText { kind: m.kind, key: m.key, source: py_source(m.kind, part.skip(1)) }
}

/// The first `n` parts, one after another, behind a head.
pub open spec fn glued(head: Text, parts: Seq<Text>, n: int) -> Text
    decreases n,
{
    if n <= 0 {
        head
    } else {
        glued(head, parts, n - 1) + parts[n - 1]
    }
}

pub open spec fn all_parts(parts: Seq<Text>) -> bool {
    forall|i: int| 0 <= i < parts.len() ==> is_part(#[trigger] parts[i])
}

/// Whether lines are blank, and so no part of a cell.
pub open spec fn is_head(head: Text) -> bool {
    forall|i: int| 0 <= i < head.len() ==> is_blank(#[trigger] head[i]) && py_parsed(head[i]) is None
}

proof fn lemma_glued_grows(head: Text, parts: Seq<Text>, i: int, n: int)
    requires
        0 <= i <= n <= parts.len(),
    ensures
        glued(head, parts, i).len() <= glued(head, parts, n).len(),
        glued(head, parts, n).take(glued(head, parts, i).len() as int) == glued(head, parts, i),
    decreases n,
{
    let at = glued(head, parts, i).len() as int;
    if i < n {
        lemma_glued_grows(head, parts, i, n - 1);
        assert(glued(head, parts, n).take(at) =~= glued(head, parts, n - 1).take(at));
    } else {
        assert(glued(head, parts, n).take(at) =~= glued(head, parts, i));
    }
}

/// The region that part `i` becomes.
pub open spec fn part_region(head: Text, parts: Seq<Text>, i: int) -> RegionV {
    let at = glued(head, parts, i).len() as int;
    let m = py_parsed(parts[i][0])->0;
    RegionV {
        marker: Some(at),
        kind: m.kind,
        key: m.key,
        body: at + 1,
        end: glued(head, parts, i + 1).len() as int,
    }
}

proof fn lemma_scan_head(head: Text, n: int)
    requires
        is_head(head),
        0 <= n <= head.len(),
    ensures
        scanned(head, n) == (n, Seq::<RegionV>::empty()),
    decreases n,
{
    if n > 0 {
        lemma_scan_head(head, n - 1);
    }
}

proof fn lemma_scan_parts(head: Text, parts: Seq<Text>, n: int)
    requires
        is_head(head),
        all_parts(parts),
        0 <= n <= parts.len(),
    ensures
        scanned(glued(head, parts, n), glued(head, parts, n).len() as int) == (
            head.len() as int,
            Seq::new(n as nat, |i: int| part_region(head, parts, i)),
        ),
    decreases n,
{
    let text = glued(head, parts, n);
    if n <= 0 {
        lemma_scan_head(head, head.len() as int);
        assert(Seq::new(0, |i: int| part_region(head, parts, i)) =~= Seq::empty());
    } else {
        lemma_scan_parts(head, parts, n - 1);
        let front = glued(head, parts, n - 1);
        let part = parts[n - 1];
        let at = front.len() as int;
        assert(is_part(part));
        assert forall|j: int| 0 <= j < at implies front[j] == #[trigger] text[j] by {}
        lemma_scan_prefix(front, text, at);
        assert(text[at] == part[0]);
        let begun = scanned(text, at + 1);
        assert(begun.1.len() == n);
        assert(begun.1.last() == (RegionV { end: at + 1, ..part_region(head, parts, n - 1) }));
        assert forall|j: int| at < j < text.len() implies py_parsed(#[trigger] text[j]) is None by {
            assert(text[j] == part[j - at]);
        }
        if text.len() > at + 1 {
            lemma_scan_body(text, at, text.len() as int);
        }
        let all = scanned(text, text.len() as int).1;
        assert(all.last() == part_region(head, parts, n - 1));
        assert(all =~= all.drop_last().push(all.last()));
        assert(all =~= Seq::new(n as nat, |i: int| part_region(head, parts, i)));
    }
}

/// A text of parts shows a cell for each.
pub proof fn parts_show_cells(head: Text, parts: Seq<Text>)
    requires
        is_head(head),
        all_parts(parts),
    ensures
        ({
            let text = glued(head, parts, parts.len() as int);
            &&& regions(text) == Seq::new(parts.len(), |i: int| part_region(head, parts, i))
            &&& cells_shown(text) == Seq::new(parts.len(), |i: int| part_says(parts[i]))
        }),
{
    let n = parts.len() as int;
    let text = glued(head, parts, n);
    lemma_scan_parts(head, parts, n);
    lemma_glued_grows(head, parts, 0, n);
    assert(!has_text(text, head.len() as int)) by {
        assert forall|i: int| 0 <= i < head.len() implies is_blank(#[trigger] text[i]) by {
            assert(text[i] == text.take(head.len() as int)[i]);
            assert(is_blank(head[i]));
        }
    }
    let r = Seq::new(parts.len(), |i: int| part_region(head, parts, i));
    assert(regions(text) == r);
    assert forall|i: int| 0 <= i < n implies #[trigger] cells_shown(text)[i] == part_says(parts[i]) by {
        lemma_glued_grows(head, parts, i + 1, n);
        let upto = glued(head, parts, i + 1);
        let at = glued(head, parts, i).len() as int;
        let body = text.subrange(at + 1, upto.len() as int);
        assert(is_part(parts[i]));
        assert(body =~= parts[i].skip(1)) by {
            assert forall|j: int| 0 <= j < body.len() implies body[j] == parts[i].skip(1)[j] by {
                assert(text.take(upto.len() as int)[at + 1 + j] == upto[at + 1 + j]);
            }
        }
    }
    assert(cells_shown(text) =~= Seq::new(parts.len(), |i: int| part_says(parts[i])));
}

/// What a scan finds among the first `n` lines.
spec fn scan_shape(text: Text, n: int) -> bool {
    let s = scanned(text, n);
    &&& forall|j: int| 0 <= j < s.0 ==> py_parsed(#[trigger] text[j]) is None
    &&& s.1.len() > 0 ==> s.1[0].body == s.0 + 1
    &&& forall|i: int|
        0 <= i < s.1.len() ==> py_parsed(text[(#[trigger] s.1[i]).body - 1]) == Some(
            MarkerV { kind: s.1[i].kind, key: s.1[i].key },
        )
    &&& forall|i: int, j: int|
        #![trigger s.1[i], text[j]]
        0 <= i < s.1.len() && s.1[i].body <= j < s.1[i].end ==> py_parsed(text[j]) is None
    &&& forall|i: int, j: int|
        0 <= i && j == i + 1 && j < s.1.len() ==> (#[trigger] s.1[i]).end == (
        #[trigger] s.1[j]).body - 1
}

proof fn lemma_scan_shape(text: Text, n: int)
    requires
        0 <= n <= text.len(),
    ensures
        scan_shape(text, n),
    decreases n,
{
    if n > 0 {
        lemma_scan_shape(text, n - 1);
        lemma_scanned(text, n - 1);
        let f = scanned(text, n - 1);
        let s = scanned(text, n);
        assert forall|i: int, j: int|
            0 <= i && j == i + 1 && j < s.1.len() implies (#[trigger] s.1[i]).end == (
        #[trigger] s.1[j]).body - 1 by {
            if j < f.1.len() {
                assert(f.1[i].end == f.1[j].body - 1);
            }
        }
        assert forall|i: int, j: int|
            #![trigger s.1[i], text[j]]
            0 <= i < s.1.len() && s.1[i].body <= j < s.1[i].end implies py_parsed(
            text[j],
        ) is None by {
            if i < f.1.len() {
                assert(f.1[i].body == s.1[i].body);
            }
        }
        assert forall|i: int| 0 <= i < s.1.len() implies py_parsed(
            text[(#[trigger] s.1[i]).body - 1],
        ) == Some(MarkerV { kind: s.1[i].kind, key: s.1[i].key }) by {
            if i < f.1.len() {
                assert(f.1[i].body == s.1[i].body);
            }
        }
        if f.1.len() > 0 {
            assert(f.1[0].body == s.1[0].body);
        }
    }
}

/// What precedes the first marker.
pub open spec fn head_of(text: Text) -> Text {
    text.take(scanned(text, text.len() as int).0)
}

/// The parts that a text is made of.
pub open spec fn parts_of(text: Text) -> Seq<Text> {
    let r = scanned(text, text.len() as int).1;
    Seq::new(r.len(), |i: int| text.subrange(r[i].body - 1, r[i].end))
}

/// Where part `i` begins; past the last one, the end.
pub open spec fn part_at(text: Text, i: int) -> int {
    let s = scanned(text, text.len() as int);
    if i < s.1.len() {
        s.1[i].body - 1
    } else {
        text.len() as int
    }
}

/// Whether every cell has a marker: what precedes the first is blank.
pub open spec fn all_marked(text: Text) -> bool {
    !has_text(text, scanned(text, text.len() as int).0)
}

/// A text is its head and its parts.
pub proof fn text_is_its_parts(text: Text)
    requires
        all_marked(text),
    ensures
        is_head(head_of(text)),
        all_parts(parts_of(text)),
        parts_of(text).len() == regions(text).len(),
        text == glued(head_of(text), parts_of(text), parts_of(text).len() as int),
        forall|i: int|
            0 <= i <= parts_of(text).len() ==> #[trigger] glued(head_of(text), parts_of(text), i)
                == text.take(part_at(text, i)),
{
    let n = text.len() as int;
    let s = scanned(text, n);
    let head = head_of(text);
    let parts = parts_of(text);
    lemma_scan_shape(text, n);
    lemma_scanned(text, n);
    assert forall|i: int| 0 <= i < head.len() implies is_blank(#[trigger] head[i]) && py_parsed(
        head[i],
    ) is None by {
        assert(head[i] == text[i]);
    }
    assert forall|i: int| 0 <= i < parts.len() implies is_part(#[trigger] parts[i]) by {
        let r = s.1[i];
        assert(parts[i][0] == text[r.body - 1]);
        assert forall|j: int| 0 < j < parts[i].len() implies py_parsed(
            #[trigger] parts[i][j],
        ) is None by {
            assert(parts[i][j] == text[r.body - 1 + j]);
        }
    }
    assert forall|i: int| 0 <= i <= parts.len() implies #[trigger] glued(head, parts, i)
        == text.take(part_at(text, i)) by {
        lemma_glued_text(text, i);
    }
    assert(text.take(part_at(text, parts.len() as int)) =~= text);
}

proof fn lemma_glued_text(text: Text, i: int)
    requires
        0 <= i <= parts_of(text).len(),
    ensures
        glued(head_of(text), parts_of(text), i) == text.take(part_at(text, i)),
        0 <= part_at(text, i) <= text.len(),
    decreases i,
{
    let n = text.len() as int;
    let s = scanned(text, n);
    lemma_scan_shape(text, n);
    lemma_scanned(text, n);
    if i > 0 {
        lemma_glued_text(text, i - 1);
        let r = s.1[i - 1];
        assert(part_at(text, i) == r.end) by {
            if i < s.1.len() {
                assert(s.1[i].body - 1 == r.end);
            }
        }
        assert(text.take(r.body - 1) + text.subrange(r.body - 1, r.end) =~= text.take(r.end));
    } else {
        assert(head_of(text) =~= text.take(part_at(text, 0)));
    }
}

/// Parts that follow in the same way make the same text.
proof fn lemma_glued_after(p: Text, a: Seq<Text>, k: int, q: Text, b: Seq<Text>, m: int, n: int)
    requires
        0 <= k,
        0 <= m,
        0 <= n,
        k + n <= a.len(),
        m + n <= b.len(),
        forall|i: int| 0 <= i < n ==> a[k + i] == #[trigger] b[m + i],
    ensures
        glued(q, b, m).len() <= glued(q, b, m + n).len(),
        glued(p, a, k + n) == glued(p, a, k) + glued(q, b, m + n).skip(glued(q, b, m).len() as int),
    decreases n,
{
    let at = glued(q, b, m).len() as int;
    if n > 0 {
        lemma_glued_after(p, a, k, q, b, m, n - 1);
        assert(a[k + (n - 1)] == b[m + (n - 1)]);
        let whole = glued(q, b, m + n);
        let front = glued(q, b, m + n - 1);
        assert(whole.skip(at) =~= front.skip(at) + b[m + n - 1]);
        assert(glued(p, a, k + n) =~= glued(p, a, k) + whole.skip(at));
    } else {
        assert(glued(q, b, m).skip(at) =~= Seq::empty());
        assert(glued(p, a, k) =~= glued(p, a, k) + Seq::<Seq<char>>::empty());
    }
}

/// Some parts replaced by others.
pub open spec fn replaced(parts: Seq<Text>, i: int, j: int, mid: Seq<Text>) -> Seq<Text> {
    parts.take(i) + mid + parts.skip(j)
}

proof fn lemma_glued_replaced(head: Text, parts: Seq<Text>, i: int, j: int, mid: Seq<Text>)
    requires
        0 <= i <= j <= parts.len(),
    ensures
        ({
            let new = replaced(parts, i, j, mid);
            let whole = glued(head, parts, parts.len() as int);
            glued(head, new, new.len() as int) == glued(head, parts, i) + glued(
                Seq::empty(),
                mid,
                mid.len() as int,
            ) + whole.skip(glued(head, parts, j).len() as int)
        }),
{
    let new = replaced(parts, i, j, mid);
    let n = parts.len() as int;
    let c = mid.len() as int;
    let t = n - j;
    let none = Seq::<Seq<char>>::empty();
    assert(glued(head, new, i) == glued(head, parts, i)) by {
        assert forall|x: int| 0 <= x < i implies new[0 + x] == #[trigger] parts[0 + x] by {}
        lemma_glued_after(head, new, 0, head, parts, 0, i);
        lemma_glued_grows(head, parts, 0, i);
        let g = glued(head, parts, i);
        assert(g.take(head.len() as int) + g.skip(head.len() as int) =~= g);
    }
    assert(glued(head, new, i + c) == glued(head, new, i) + glued(none, mid, c)) by {
        assert forall|x: int| 0 <= x < c implies new[i + x] == #[trigger] mid[0 + x] by {}
        lemma_glued_after(head, new, i, none, mid, 0, c);
        assert(glued(none, mid, c).skip(0) =~= glued(none, mid, c));
    }
    assert forall|x: int| 0 <= x < t implies new[i + c + x] == #[trigger] parts[j + x] by {}
    lemma_glued_after(head, new, i + c, head, parts, j, t);
}

proof fn lemma_replaced_parts(parts: Seq<Text>, i: int, j: int, mid: Seq<Text>)
    requires
        0 <= i <= j <= parts.len(),
        all_parts(parts),
        all_parts(mid),
    ensures
        all_parts(replaced(parts, i, j, mid)),
{
    let new = replaced(parts, i, j, mid);
    assert forall|x: int| 0 <= x < new.len() implies is_part(#[trigger] new[x]) by {
        if x < i {
            assert(new[x] == parts[x]);
        } else if x < i + mid.len() {
            assert(new[x] == mid[x - i]);
        } else {
            assert(new[x] == parts[x - i - mid.len() + j]);
        }
    }
}

proof fn lemma_marked(head: Text, parts: Seq<Text>)
    requires
        is_head(head),
        all_parts(parts),
    ensures
        all_marked(glued(head, parts, parts.len() as int)),
{
    let text = glued(head, parts, parts.len() as int);
    lemma_scan_parts(head, parts, parts.len() as int);
    lemma_glued_grows(head, parts, 0, parts.len() as int);
    assert forall|x: int| 0 <= x < head.len() implies is_blank(#[trigger] text[x]) by {
        assert(text[x] == text.take(head.len() as int)[x]);
        assert(is_blank(head[x]));
    }
}

/// Replacing some parts by others replaces the cells that they show, and no other.
#[verifier::spinoff_prover]
pub proof fn replaced_parts_show(text: Text, i: int, j: int, mid: Seq<Text>, e: EditV)
    requires
        all_marked(text),
        0 <= i <= j <= parts_of(text).len(),
        all_parts(mid),
        e.first == part_at(text, i),
        e.last == part_at(text, j),
        e.lines == glued(Seq::empty(), mid, mid.len() as int),
    ensures
        all_marked(edited_text(text, e)),
        cells_shown(edited_text(text, e)) == cells_shown(text).take(i) + Seq::new(
            mid.len(),
            |x: int| part_says(mid[x]),
        ) + cells_shown(text).skip(j),
{
    let head = head_of(text);
    let parts = parts_of(text);
    let new = replaced(parts, i, j, mid);
    text_is_its_parts(text);
    lemma_glued_text(text, i);
    lemma_glued_text(text, j);
    lemma_glued_replaced(head, parts, i, j, mid);
    lemma_replaced_parts(parts, i, j, mid);
    assert(glued(head, parts, j).len() == e.last);
    assert(edited_text(text, e) == glued(head, new, new.len() as int));
    lemma_marked(head, new);
    parts_show_cells(head, parts);
    parts_show_cells(head, new);
    let shown = cells_shown(text).take(i) + Seq::new(mid.len(), |x: int| part_says(mid[x]))
        + cells_shown(text).skip(j);
    let all = cells_shown(edited_text(text, e));
    assert(all.len() == shown.len());
    assert forall|x: int| 0 <= x < all.len() implies all[x] == shown[x] by {
        assert(all[x] == part_says(new[x]));
        if x < i {
            assert(new[x] == parts[x]);
        } else if x < i + mid.len() {
            assert(new[x] == mid[x - i]);
        } else {
            assert(new[x] == parts[x - i - mid.len() + j]);
        }
    }
    assert(all =~= shown);
}

/// Whether a buffer has been read: its layout is that of its text, under these keys, and every
/// cell has a marker.
pub open spec fn is_read(b: &Buffer, order: Seq<Name>) -> bool {
    &&& all_marked(b.text())
    &&& order.len() == regions(b.text()).len()
    &&& b.spans() == spans_of(regions(b.text()), order)
}

proof fn lemma_span(b: &Buffer, order: Seq<Name>, i: int)
    requires
        is_read(b, order),
        0 <= i < order.len(),
    ensures
        ({
            let text = b.text();
            let s = b.spans()[i];
            &&& parts_of(text).len() == order.len()
            &&& cells_shown(text).len() == order.len()
            &&& start_of(s) == part_at(text, i)
            &&& s.marker == Some(start_of(s))
            &&& s.body == part_at(text, i) + 1
            &&& s.end == part_at(text, i + 1)
            &&& 0 <= start_of(s) < s.body <= s.end <= text.len()
            &&& parts_of(text)[i] == text.subrange(start_of(s), s.end)
            &&& cells_shown(text)[i] == part_says(parts_of(text)[i])
            &&& cells_shown(text)[i].kind == s.kind
            &&& is_part(parts_of(text)[i])
        }),
{
    let text = b.text();
    let n = text.len() as int;
    lemma_scan_shape(text, n);
    lemma_scanned(text, n);
    text_is_its_parts(text);
    parts_show_cells(head_of(text), parts_of(text));
    let r = scanned(text, n).1;
    assert(regions(text) == r);
    assert(b.spans()[i].body == r[i].body);
    if i + 1 < r.len() {
        assert(r[i].end == r[i + 1].body - 1);
    }
}

proof fn lemma_counts(b: &Buffer, order: Seq<Name>)
    requires
        is_read(b, order),
    ensures
        parts_of(b.text()).len() == order.len(),
        cells_shown(b.text()).len() == order.len(),
        b.spans().len() == order.len(),
        part_at(b.text(), order.len() as int) == b.text().len(),
{
}

/// The index of the upper of the two cells that a swap exchanges.
pub open spec fn upper(i: int, dir: Direction) -> int {
    match dir {
        Direction::Up => i - 1,
        Direction::Down => i,
    }
}

/// Swapping exchanges two neighbouring cells: each keeps its kind, its key and its source.
#[verifier::spinoff_prover]
pub proof fn swapping_exchanges_cells(
    b: &Buffer,
    order: Seq<Name>,
    line: int,
    dir: Direction,
    i: int,
)
    requires
        is_read(b, order),
        span_of(b.spans(), line) == Some(i),
        0 <= upper(i, dir),
        upper(i, dir) + 1 < order.len(),
    ensures
        ({
            let p = swapped(b, line, dir);
            let x = upper(i, dir);
            let cells = cells_shown(b.text());
            let new = edited_text(b.text(), p.edits[0]);
            &&& p.edits.len() == 1
            &&& all_marked(new)
            &&& cells_shown(new) == cells.update(x, cells[x + 1]).update(x + 1, cells[x])
        }),
{
    let text = b.text();
    let parts = parts_of(text);
    let x = upper(i, dir);
    lemma_span(b, order, x);
    lemma_span(b, order, x + 1);
    let mid = seq![parts[x + 1], parts[x]];
    lemma_two(mid);
    let e = swapped(b, line, dir).edits[0];
    assert(e.first == part_at(text, x) && e.last == part_at(text, x + 2));
    assert(e.lines == mid[0] + mid[1]);
    replaced_parts_show(text, x, x + 2, mid, e);
    let cells = cells_shown(text);
    assert(cells_shown(edited_text(text, e)) =~= cells.update(x, cells[x + 1]).update(
        x + 1,
        cells[x],
    ));
}

proof fn lemma_two(mid: Seq<Text>)
    requires
        mid.len() == 2,
    ensures
        glued(Seq::empty(), mid, 2) == mid[0] + mid[1],
{
    reveal_with_fuel(glued, 3);
    assert(Seq::<Seq<char>>::empty() + mid[0] =~= mid[0]);
}

proof fn lemma_one(mid: Seq<Text>)
    requires
        mid.len() == 1,
    ensures
        glued(Seq::empty(), mid, 1) == mid[0],
{
    reveal_with_fuel(glued, 2);
    assert(Seq::<Seq<char>>::empty() + mid[0] =~= mid[0]);
}

/// Deleting takes one cell out, and changes no other.
pub proof fn deleting_takes_one_cell(b: &Buffer, order: Seq<Name>, line: int, i: int)
    requires
        is_read(b, order),
        span_of(b.spans(), line) == Some(i),
        0 <= i < order.len(),
    ensures
        ({
            let p = deleted(b, line);
            let new = edited_text(b.text(), p.edits[0]);
            &&& p.edits.len() == 1
            &&& all_marked(new)
            &&& cells_shown(new) == cells_shown(b.text()).remove(i)
        }),
{
    let text = b.text();
    lemma_span(b, order, i);
    let mid = Seq::<Text>::empty();
    let e = deleted(b, line).edits[0];
    replaced_parts_show(text, i, i + 1, mid, e);
    assert(cells_shown(edited_text(text, e)) =~= cells_shown(text).remove(i));
}

/// Whether a marker reads back as what it was written for.
pub open spec fn reads_back(kind: CellKind, key: Name) -> bool {
    py_parsed(py_marker(kind, key)) == Some(MarkerV { kind, key: Some(key) })
}

proof fn lemma_written_part(kind: CellKind, key: Name, source: Seq<char>)
    requires
        reads_back(kind, key),
    ensures
        ({
            let part = seq![py_marker(kind, key)] + py_lines(kind, source);
            is_part(part) && part_says(part) == (CellText { kind, key: Some(key), source })
        }),
{
    let lines = py_lines(kind, source);
    let part = seq![py_marker(kind, key)] + lines;
    assert(part.skip(1) =~= lines);
    assert forall|j: int| 0 < j < part.len() implies py_parsed(#[trigger] part[j]) is None by {
        buffer_holds_no_marker(kind, source, j - 1);
        assert(part[j] == lines[j - 1]);
    }
    buffer_round_trip(kind, source);
}

/// A change of type keeps the cell's key and its source, and changes no other cell.
#[verifier::spinoff_prover]
pub proof fn retyping_keeps_key_and_source(
    b: &Buffer,
    order: Seq<Name>,
    line: int,
    kind: CellKind,
    i: int,
)
    requires
        is_read(b, order),
        span_of(b.spans(), line) == Some(i),
        0 <= i < order.len(),
        b.spans()[i].kind != kind,
        reads_back(kind, order[i]),
    ensures
        ({
            let p = retyped(b, line, kind);
            let cells = cells_shown(b.text());
            let new = edited_text(b.text(), p.edits[0]);
            &&& p.edits.len() == 1
            &&& all_marked(new)
            &&& cells_shown(new) == cells.update(
                i,
                CellText { kind, key: Some(order[i]), source: cells[i].source },
            )
        }),
{
    let text = b.text();
    let s = b.spans()[i];
    let cells = cells_shown(text);
    lemma_span(b, order, i);
    let source = py_source(s.kind, text.subrange(s.body, s.end));
    assert(parts_of(text)[i].skip(1) =~= text.subrange(s.body, s.end));
    assert(cells[i].source == source);
    let part = seq![py_marker(kind, s.key)] + py_lines(kind, source);
    lemma_written_part(kind, s.key, source);
    let mid = seq![part];
    lemma_one(mid);
    let e = retyped(b, line, kind).edits[0];
    replaced_parts_show(text, i, i + 1, mid, e);
    assert(cells_shown(edited_text(text, e)) =~= cells.update(
        i,
        CellText { kind, key: Some(order[i]), source: cells[i].source },
    ));
}

/// Where an added cell goes among the cells.
pub open spec fn place_added(b: &Buffer, line: int, above: bool) -> int {
    match span_of(b.spans(), line) {
        Some(i) => if above {
            i
        } else {
            i + 1
        },
        None => b.spans().len() as int,
    }
}

/// Adding puts one empty code cell beside the one at the line, or at the end, and changes no
/// other.
#[verifier::spinoff_prover]
pub proof fn adding_puts_one_empty_cell(
    b: &Buffer,
    order: Seq<Name>,
    line: int,
    above: bool,
    key: Name,
)
    requires
        is_read(b, order),
        reads_back(CellKind::Code, key),
    ensures
        ({
            let p = added(b, line, above, key);
            let new = edited_text(b.text(), p.edits[0]);
            &&& p.edits.len() == 1
            &&& all_marked(new)
            &&& cells_shown(new) == cells_shown(b.text()).insert(
                place_added(b, line, above),
                CellText { kind: CellKind::Code, key: Some(key), source: Seq::empty() },
            )
        }),
{
    let text = b.text();
    let at = place_added(b, line, above);
    lemma_counts(b, order);
    if let Some(i) = span_of(b.spans(), line) {
        lemma_begins(b.spans(), line, b.spans().len() as int, i);
        lemma_span(b, order, i);
    }
    let none = Seq::<char>::empty();
    let part = seq![py_marker(CellKind::Code, key), none];
    lemma_empty_body();
    assert(part.skip(1) =~= seq![none]);
    assert(is_part(part));
    let mid = seq![part];
    lemma_one(mid);
    let e = added(b, line, above, key).edits[0];
    assert(e.first == part_at(text, at));
    replaced_parts_show(text, at, at, mid, e);
    assert(cells_shown(edited_text(text, e)) =~= cells_shown(text).insert(at, part_says(part)));
}

/// An empty line is the body of an empty cell.
proof fn lemma_empty_body()
    ensures
        py_parsed(Seq::<char>::empty()) is None,
        py_source(CellKind::Code, seq![Seq::<char>::empty()]) == Seq::<char>::empty(),
{
    let none = Seq::<char>::empty();
    let lines = py_lines(CellKind::Code, none);
    buffer_round_trip(CellKind::Code, none);
    assert(lines =~= seq![none]);
    buffer_holds_no_marker(CellKind::Code, none, 0);
}

/// The lines of a cell's body.
pub open spec fn body_of(b: &Buffer, i: int) -> Text {
    b.text().subrange(b.spans()[i].body, b.spans()[i].end)
}

/// Merging joins the bodies of two cells under the kind and key of the first, and changes no
/// other.
#[verifier::spinoff_prover]
pub proof fn merging_joins_bodies(b: &Buffer, order: Seq<Name>, line: int, i: int)
    requires
        is_read(b, order),
        span_of(b.spans(), line) == Some(i),
        0 <= i,
        i + 1 < order.len(),
    ensures
        ({
            let p = merged(b, line);
            let cells = cells_shown(b.text());
            let new = edited_text(b.text(), p.edits[0]);
            let source = py_source(cells[i].kind, body_of(b, i) + body_of(b, i + 1));
            &&& p.edits.len() == 1
            &&& all_marked(new)
            &&& cells_shown(new) == cells.remove(i + 1).update(
                i,
                CellText { source, ..cells[i] },
            )
        }),
{
    let text = b.text();
    let parts = parts_of(text);
    let cells = cells_shown(text);
    lemma_span(b, order, i);
    lemma_span(b, order, i + 1);
    let s = b.spans()[i];
    let t = b.spans()[i + 1];
    let part = parts[i] + parts[i + 1].skip(1);
    assert(part.skip(1) =~= body_of(b, i) + body_of(b, i + 1));
    assert(is_part(part)) by {
        assert forall|j: int| 0 < j < part.len() implies py_parsed(#[trigger] part[j]) is None by {
            if j < parts[i].len() {
                assert(part[j] == parts[i][j]);
            } else {
                assert(part[j] == parts[i + 1][j - parts[i].len() + 1]);
            }
        }
    }
    let mid = seq![part];
    lemma_one(mid);
    let e = merged(b, line).edits[0];
    let whole = EditV { first: start_of(s), last: t.end, lines: part };
    assert(edited_text(text, e) =~= edited_text(text, whole));
    replaced_parts_show(text, i, i + 2, mid, whole);
    assert(part[0] == parts[i][0]);
    let source = py_source(cells[i].kind, body_of(b, i) + body_of(b, i + 1));
    assert(part_says(part) == (CellText { source, ..cells[i] }));
    assert(cells_shown(edited_text(text, whole)) =~= cells.remove(i + 1).update(
        i,
        CellText { source, ..cells[i] },
    ));
}

/// Splitting leaves the lines before the given one to the cell, which keeps its kind and key,
/// and gives those from there on to a new cell of the same kind directly below.
#[verifier::spinoff_prover]
pub proof fn splitting_keeps_the_first_half(
    b: &Buffer,
    order: Seq<Name>,
    line: int,
    key: Name,
    i: int,
)
    requires
        is_read(b, order),
        0 <= i < order.len(),
        span_of(b.spans(), line) == Some(i),
        splits(b.spans()[i], line),
        reads_back(b.spans()[i].kind, key),
    ensures
        ({
            let s = b.spans()[i];
            let cells = cells_shown(b.text());
            let e = EditV { first: line, last: line, lines: seq![py_marker(s.kind, key)] };
            let new = edited_text(b.text(), e);
            &&& all_marked(new)
            &&& cells_shown(new) == cells.update(
                i,
                CellText {
                    source: py_source(s.kind, b.text().subrange(s.body, line)),
                    ..cells[i]
                },
            ).insert(
                i + 1,
                CellText {
                    kind: s.kind,
                    key: Some(key),
                    source: py_source(s.kind, b.text().subrange(line, s.end)),
                },
            )
        }),
{
    let text = b.text();
    let parts = parts_of(text);
    let cells = cells_shown(text);
    lemma_span(b, order, i);
    let s = b.spans()[i];
    let upper = text.subrange(start_of(s), line);
    let lower = seq![py_marker(s.kind, key)] + text.subrange(line, s.end);
    assert(upper.skip(1) =~= text.subrange(s.body, line));
    assert(lower.skip(1) =~= text.subrange(line, s.end));
    assert(upper[0] == parts[i][0]);
    assert(is_part(upper)) by {
        assert forall|j: int| 0 < j < upper.len() implies py_parsed(#[trigger] upper[j]) is None by {
            assert(upper[j] == parts[i][j]);
        }
    }
    assert(is_part(lower)) by {
        assert forall|j: int| 0 < j < lower.len() implies py_parsed(#[trigger] lower[j]) is None by {
            assert(lower[j] == parts[i][line - start_of(s) + j - 1]);
        }
    }
    let mid = seq![upper, lower];
    lemma_two(mid);
    let e = EditV { first: line, last: line, lines: seq![py_marker(s.kind, key)] };
    let whole = EditV { first: start_of(s), last: s.end, lines: upper + lower };
    assert(edited_text(text, e) =~= edited_text(text, whole));
    replaced_parts_show(text, i, i + 1, mid, whole);
    assert(cells_shown(edited_text(text, whole)) =~= cells.update(i, part_says(upper)).insert(
        i + 1,
        part_says(lower),
    ));
}

/// Where nobody wants or has a key but its own, nobody is given another's.
proof fn lemma_own_claims(
    a: Seq<Option<Name>>,
    want: Seq<Option<Name>>,
    order: Seq<Name>,
    n: int,
)
    requires
        a.len() == order.len(),
        want.len() == order.len(),
        order.no_duplicates(),
        0 <= n <= order.len(),
        forall|i: int| 0 <= i < order.len() ==> (#[trigger] a[i]) is None || a[i] == Some(order[i]),
        forall|i: int|
            0 <= i < order.len() ==> (#[trigger] want[i]) is None || want[i] == Some(order[i]),
    ensures
        claims(a, want, n).len() == order.len(),
        forall|i: int|
            0 <= i < order.len() ==> #[trigger] claims(a, want, n)[i] == if a[i] is None && i < n {
                want[i]
            } else {
                a[i]
            },
    decreases n,
{
    if n > 0 {
        lemma_own_claims(a, want, order, n - 1);
        let front = claims(a, want, n - 1);
        if let Some(k) = want[n - 1] {
            if front[n - 1] is None {
                assert forall|i: int| 0 <= i < front.len() implies #[trigger] front[i] != Some(
                    k,
                ) by {
                    if i != n - 1 {
                        assert(order[i] != order[n - 1]);
                    }
                }
                assert(!claimed(front, k));
            }
        }
    }
}

/// Cells go by what their markers say: where all markers say different keys that have been
/// seen, each cell gets the key that its marker says, whatever the buffer held before.
pub proof fn markers_name_their_cells(
    text: Text,
    layout: Seq<SpanV>,
    e: EditV,
    used: Set<Name>,
    order: Seq<Name>,
    after: Seq<Name>,
)
    requires
        says_keys(text, order),
        order.no_duplicates(),
        order.to_set().subset_of(used),
        keyed(
            kept_keys(used, regions(text), keys_before(layout, e, regions(text))),
            used,
            after,
        ),
    ensures
        after == order,
{
    let r = regions(text);
    let n = r.len() as int;
    let before = keys_before(layout, e, r);
    let same = same_keys(used, r, before);
    let said = said_keys(used, r);
    assert forall|i: int| 0 <= i < n implies #[trigger] said[i] == Some(order[i]) by {
        assert(order.to_set().contains(order[i]));
    }
    assert forall|i: int| 0 <= i < n implies (#[trigger] same[i]) is None || same[i] == Some(
        order[i],
    ) by {
        assert(r[i].key == Some(order[i]));
    }
    lemma_own_claims(no_keys(r.len()), same, order, n);
    let first = claims(no_keys(r.len()), same, n);
    lemma_own_claims(first, said, order, n);
    let second = claims(first, said, n);
    assert forall|i: int| 0 <= i < n implies #[trigger] second[i] == Some(order[i]) by {}
    lemma_full_claims(second, had_keys(used, before), n);
    assert forall|i: int| 0 <= i < n implies #[trigger] after[i] == order[i] by {
        assert(second[i] == Some(order[i]));
    }
    assert(after =~= order);
}

/// Whether a text's cells are a document's, under the keys that the markers say.
pub open spec fn shows_cells_of(text: Text, d: DocV, order: Seq<Name>) -> bool {
    &&& all_marked(text)
    &&& cells_shown(text).len() == order.len()
    &&& forall|i: int|
        0 <= i < order.len() ==> {
            let c = #[trigger] cells_shown(text)[i];
            &&& d.live.dom().contains(order[i])
            &&& c.key == Some(order[i])
            &&& c.kind == raw_kind(d.live[order[i]].raw)
            &&& c.source == source_of(d.live[order[i]])
        }
}

/// Reading a text that shows cells of the document gives just these cells, in the order of the
/// text, with everything that they hold.
pub proof fn shown_cells_are_kept(
    d: DocV,
    used: Set<Name>,
    layout: Seq<SpanV>,
    e: EditV,
    text: Text,
    nb: &Notebook,
    spans: Seq<SpanV>,
    r: &Reconciled,
    order: Seq<Name>,
)
    requires
        shows_cells_of(text, d, order),
        order.no_duplicates(),
        order.to_set().subset_of(used),
        reconciled(d, used, layout, e, text, nb, spans, r),
    ensures
        nb.doc().order == order,
        forall|i: int|
            0 <= i < order.len() ==> nb.doc().live[#[trigger] order[i]] == d.live[order[i]],
{
    let found = regions(text);
    assert(says_keys(text, order)) by {
        assert forall|i: int| 0 <= i < order.len() implies found[i].key == Some(
            #[trigger] order[i],
        ) by {
            assert(cells_shown(text)[i].key == found[i].key);
        }
    }
    markers_name_their_cells(text, layout, e, used, order, span_names(spans));
    assert forall|i: int| 0 <= i < order.len() implies nb.doc().live[#[trigger] order[i]]
        == d.live[order[i]] by {
        let c = cells_shown(text)[i];
        assert(region_kinds(found)[i] == c.kind);
        assert(region_sources(text, found)[i] == c.source);
        assert(cell_at(d, order[i]) == Some(d.live[order[i]]));
    }
}

/// Two neighbours exchanged.
pub open spec fn exchanged(order: Seq<Name>, x: int) -> Seq<Name> {
    order.update(x, order[x + 1]).update(x + 1, order[x])
}

/// Moving a cell keeps its identity, its outputs and all else that it holds, and those of the
/// cell that it changes places with.
#[verifier::spinoff_prover]
pub proof fn moving_keeps_cells(
    b: &Buffer,
    d: DocV,
    used: Set<Name>,
    line: int,
    dir: Direction,
    i: int,
    nb: &Notebook,
    spans: Seq<SpanV>,
    r: &Reconciled,
)
    requires
        is_read(b, d.order),
        shows_cells_of(b.text(), d, d.order),
        d.order.no_duplicates(),
        d.order.to_set().subset_of(used),
        span_of(b.spans(), line) == Some(i),
        0 <= upper(i, dir),
        upper(i, dir) + 1 < d.order.len(),
        ({
            let e = swapped(b, line, dir).edits[0];
            reconciled(d, used, b.spans(), e, edited_text(b.text(), e), nb, spans, r)
        }),
    ensures
        nb.doc().order == exchanged(d.order, upper(i, dir)),
        forall|j: int|
            0 <= j < d.order.len() ==> nb.doc().live[#[trigger] d.order[j]] == d.live[d.order[j]],
{
    let x = upper(i, dir);
    let order = exchanged(d.order, x);
    let e = swapped(b, line, dir).edits[0];
    let text = edited_text(b.text(), e);
    swapping_exchanges_cells(b, d.order, line, dir, i);
    assert forall|j: int| 0 <= j < order.len() implies {
        let c = #[trigger] cells_shown(text)[j];
        &&& d.live.dom().contains(order[j])
        &&& c.key == Some(order[j])
        &&& c.kind == raw_kind(d.live[order[j]].raw)
        &&& c.source == source_of(d.live[order[j]])
    } by {
        let from = if j == x {
            x + 1
        } else if j == x + 1 {
            x
        } else {
            j
        };
        assert(cells_shown(text)[j] == cells_shown(b.text())[from]);
        assert(order[j] == d.order[from]);
    }
    assert forall|j: int| 0 <= j < order.len() implies used.contains(#[trigger] order[j]) by {
        let from = if j == x {
            x + 1
        } else if j == x + 1 {
            x
        } else {
            j
        };
        assert(order[j] == d.order[from]);
        assert(d.order.to_set().contains(d.order[from]));
    }
    assert(order.to_set().subset_of(used));
    assert(order.no_duplicates()) by {
        assert forall|p: int, q: int| 0 <= p < order.len() && 0 <= q < order.len() && p != q implies
            order[p] != order[q] by {
            let a = if p == x { x + 1 } else if p == x + 1 { x } else { p };
            let c = if q == x { x + 1 } else if q == x + 1 { x } else { q };
            assert(order[p] == d.order[a] && order[q] == d.order[c]);
            assert(d.order[a] != d.order[c]);
        }
    }
    shown_cells_are_kept(d, used, b.spans(), e, text, nb, spans, r, order);
    assert forall|j: int| 0 <= j < d.order.len() implies nb.doc().live[#[trigger] d.order[j]]
        == d.live[d.order[j]] by {
        let to = if j == x {
            x + 1
        } else if j == x + 1 {
            x
        } else {
            j
        };
        assert(order[to] == d.order[j]);
    }
}

/// Deleting a cell tombstones it with its outputs and all else that it holds, and leaves every
/// other as it is.
#[verifier::spinoff_prover]
pub proof fn deleting_tombstones_the_cell(
    b: &Buffer,
    d: DocV,
    used: Set<Name>,
    line: int,
    i: int,
    nb: &Notebook,
    spans: Seq<SpanV>,
    r: &Reconciled,
)
    requires
        is_read(b, d.order),
        shows_cells_of(b.text(), d, d.order),
        d.order.no_duplicates(),
        d.order.to_set().subset_of(used),
        span_of(b.spans(), line) == Some(i),
        0 <= i < d.order.len(),
        ({
            let e = deleted(b, line).edits[0];
            reconciled(d, used, b.spans(), e, edited_text(b.text(), e), nb, spans, r)
        }),
    ensures
        nb.doc().order == d.order.remove(i),
        nb.doc().tombs.dom().contains(d.order[i]),
        nb.doc().tombs[d.order[i]] == d.live[d.order[i]],
        forall|j: int|
            0 <= j < d.order.len() && j != i ==> nb.doc().live[#[trigger] d.order[j]]
                == d.live[d.order[j]],
{
    let order = d.order.remove(i);
    let e = deleted(b, line).edits[0];
    let text = edited_text(b.text(), e);
    deleting_takes_one_cell(b, d.order, line, i);
    assert forall|j: int| 0 <= j < order.len() implies {
        let c = #[trigger] cells_shown(text)[j];
        &&& d.live.dom().contains(order[j])
        &&& c.key == Some(order[j])
        &&& c.kind == raw_kind(d.live[order[j]].raw)
        &&& c.source == source_of(d.live[order[j]])
    } by {
        let from = if j < i {
            j
        } else {
            j + 1
        };
        assert(cells_shown(text)[j] == cells_shown(b.text())[from]);
        assert(order[j] == d.order[from]);
    }
    assert forall|j: int| 0 <= j < order.len() implies used.contains(#[trigger] order[j]) by {
        let from = if j < i {
            j
        } else {
            j + 1
        };
        assert(order[j] == d.order[from]);
        assert(d.order.to_set().contains(d.order[from]));
    }
    assert(order.to_set().subset_of(used));
    assert(order.no_duplicates()) by {
        assert forall|p: int, q: int| 0 <= p < order.len() && 0 <= q < order.len() && p != q implies
            order[p] != order[q] by {
            let a = if p < i { p } else { p + 1 };
            let c = if q < i { q } else { q + 1 };
            assert(d.order[a] != d.order[c]);
        }
    }
    shown_cells_are_kept(d, used, b.spans(), e, text, nb, spans, r, order);
    assert(!order.contains(d.order[i])) by {
        assert forall|j: int| 0 <= j < order.len() implies order[j] != d.order[i] by {
            let from = if j < i { j } else { j + 1 };
            assert(d.order[from] != d.order[i]);
        }
    }
    assert(cells_shown(b.text())[i].key == Some(d.order[i]));
    assert(cell_at(d, d.order[i]) == Some(d.live[d.order[i]]));
    assert forall|j: int| 0 <= j < d.order.len() && j != i implies nb.doc().live[
        #[trigger] d.order[j]] == d.live[d.order[j]] by {
        let to = if j < i {
            j
        } else {
            j - 1
        };
        assert(order[to] == d.order[j]);
    }
}

} // verus!
