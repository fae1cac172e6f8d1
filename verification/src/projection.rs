//! The notebook as one buffer of text, and the notebook that an edited buffer stands for.
//!
//! Each cell is a marker line and the lines of its source. After an edit the text is read
//! again: every marker begins a cell, and the cells keep their identity as far as the text
//! tells.

use crate::adapter::{
    buffer_holds_no_marker, buffer_round_trip, py_lines, py_marker, py_parsed, py_source, CellKind,
    LanguageProjection, MarkerV, PythonProjection,
};
use crate::document::{
    cell_wf, fresh, fresh_cell, held_outputs, kind_keeps_cell, raw_kind, source_keeps_cell, Cell,
    CellV,
};
use crate::history::{
    cell_at, doc_wf, kinded, outputs_at, source_of, sourced, valid, DocV, Name,
};
use crate::key::{keys, CellKey, KeyMinter};
use crate::notebook::{hash_view, known, Notebook};
use crate::table::{lemma_last_entry, lemma_no_entries, CellTable};
use crate::session::{steps, StepV};
use crate::text::{chars_of, is_white, str_eq, texts, white};
use vstd::prelude::*;

verus! {

/// Lines `[first, last)` replaced by others.
#[derive(Debug, PartialEq, Eq)]
pub struct LineEdit {
    pub first: usize,
    pub last: usize,
    pub lines: Vec<String>,
}

/// What a [`LineEdit`] holds.
pub struct EditV {
    pub first: int,
    pub last: int,
    pub lines: Seq<Seq<char>>,
}

impl View for LineEdit {
    type V = EditV;

    open spec fn view(&self) -> EditV {
        EditV { first: self.first as int, last: self.last as int, lines: texts(self.lines@) }
    }
}

pub open spec fn edits_view(v: Seq<LineEdit>) -> Seq<EditV> {
    Seq::new(v.len(), |i: int| v[i]@)
}

/// Where a cell stands in the buffer: its marker, if it has one, and the lines of its body.
#[derive(Debug, PartialEq, Eq)]
pub struct CellSpan {
    pub key: CellKey,
    pub kind: CellKind,
    /// The line of the marker; none for what precedes the first marker.
    pub marker: Option<usize>,
    pub body: usize,
    pub end: usize,
}

/// What a [`CellSpan`] holds.
pub struct SpanV {
    pub key: Name,
    pub kind: CellKind,
    pub marker: Option<int>,
    pub body: int,
    pub end: int,
}

pub open spec fn opt_line(m: Option<usize>) -> Option<int> {
    match m {
        Some(i) => Some(i as int),
        None => None,
    }
}

impl View for CellSpan {
    type V = SpanV;

    open spec fn view(&self) -> SpanV {
        SpanV {
            key: self.key@,
            kind: self.kind,
            marker: opt_line(self.marker),
            body: self.body as int,
            end: self.end as int,
        }
    }
}

impl Clone for CellSpan {
    fn clone(&self) -> (r: Self)
        ensures
            r@ == self@,
    {
        CellSpan {
            key: self.key.clone(),
            kind: self.kind,
            marker: self.marker,
            body: self.body,
            end: self.end,
        }
    }
}

pub open spec fn layout_view(v: Seq<CellSpan>) -> Seq<SpanV> {
    Seq::new(v.len(), |i: int| v[i]@)
}

/// A text.
pub type Text = Seq<Seq<char>>;

/// A part of a text that stands for a cell: the marker's line and what it says, and the body.
pub struct RegionV {
    pub marker: Option<int>,
    pub kind: CellKind,
    pub key: Option<Name>,
    pub body: int,
    pub end: int,
}

/// The end of what precedes the first marker among the first `n` lines, and the regions of
/// the markers among them.
pub open spec fn scanned(text: Text, n: int) -> (int, Seq<RegionV>)
    decreases n,
{
    if n <= 0 {
        (0, Seq::empty())
    } else {
        let front = scanned(text, n - 1);
        match py_parsed(text[n - 1]) {
            Some(m) => (
                front.0,
                front.1.push(
                    RegionV { marker: Some(n - 1), kind: m.kind, key: m.key, body: n, end: n },
                ),
            ),
            None => if front.1.len() == 0 {
                (n, front.1)
            } else {
                let last = front.1.last();
                (front.0, front.1.drop_last().push(RegionV { end: n, ..last }))
            },
        }
    }
}

pub open spec fn is_blank(line: Seq<char>) -> bool {
    forall|i: int| 0 <= i < line.len() ==> white(#[trigger] line[i])
}

/// Whether any of the first `n` lines is not blank.
pub open spec fn has_text(text: Text, n: int) -> bool {
    exists|i: int| 0 <= i < n && !is_blank(#[trigger] text[i])
}

/// The regions of a text: each marker begins one; what precedes the first is a code cell unless
/// it is blank.
pub open spec fn regions(text: Text) -> Seq<RegionV> {
    let s = scanned(text, text.len() as int);
    if has_text(text, s.0) {
        seq![
            RegionV { marker: None, kind: CellKind::Code, key: None, body: 0, end: s.0 },
        ] + s.1
    } else {
        s.1
    }
}

/// The source that a region shows.
pub open spec fn region_source(text: Text, r: RegionV) -> Seq<char> {
    py_source(r.kind, text.subrange(r.body, r.end))
}

/// The text after an edit.
pub open spec fn edited_text(text: Text, e: EditV) -> Text {
    text.take(e.first) + e.lines + text.skip(e.last)
}

/// The line that stood before an edit where a line stands after it; none for a new line.
pub open spec fn line_before(e: EditV, m: int) -> Option<int> {
    if m < e.first {
        Some(m)
    } else if m >= e.first + e.lines.len() {
        Some(m - e.lines.len() - e.first + e.last)
    } else {
        None
    }
}

/// The key of the span whose marker stands at a line, among the first `n`.
pub open spec fn key_at(layout: Seq<SpanV>, m: Option<int>, n: int) -> Option<Name>
    decreases n,
{
    if n <= 0 {
        None
    } else if layout[n - 1].marker == m {
        Some(layout[n - 1].key)
    } else {
        key_at(layout, m, n - 1)
    }
}

/// The key that a region had before an edit, if its marker was there.
pub open spec fn key_before(layout: Seq<SpanV>, e: EditV, r: RegionV) -> Option<Name> {
    match r.marker {
        None => key_at(layout, None, layout.len() as int),
        Some(m) => match line_before(e, m) {
            Some(l) => key_at(layout, Some(l), layout.len() as int),
            None => None,
        },
    }
}

/// Whether a key is given to any region.
pub open spec fn claimed(a: Seq<Option<Name>>, k: Name) -> bool {
    exists|i: int| 0 <= i < a.len() && #[trigger] a[i] == Some(k)
}

/// Keys given after each of the first `n` regions without one took the key it wants, if no
/// other has it.
pub open spec fn claims(a: Seq<Option<Name>>, want: Seq<Option<Name>>, n: int) -> Seq<Option<Name>>
    decreases n,
{
    if n <= 0 {
        a
    } else {
        let front = claims(a, want, n - 1);
        match want[n - 1] {
            Some(k) => if front[n - 1] is None && !claimed(front, k) {
                front.update(n - 1, Some(k))
            } else {
                front
            },
            None => front,
        }
    }
}

/// A key, if it is one of those seen.
pub open spec fn seen(used: Set<Name>, k: Option<Name>) -> Option<Name> {
    match k {
        Some(n) => if used.contains(n) {
            k
        } else {
            None
        },
        None => None,
    }
}

/// The keys that markers say and had before.
pub open spec fn same_keys(
    used: Set<Name>,
    r: Seq<RegionV>,
    before: Seq<Option<Name>>,
) -> Seq<Option<Name>> {
    Seq::new(
        r.len(),
        |i: int|
            if r[i].key == before[i] {
                seen(used, before[i])
            } else {
                None
            },
    )
}

/// The keys that markers say.
pub open spec fn said_keys(used: Set<Name>, r: Seq<RegionV>) -> Seq<Option<Name>> {
    Seq::new(r.len(), |i: int| seen(used, r[i].key))
}

/// The keys that markers had before.
pub open spec fn had_keys(used: Set<Name>, before: Seq<Option<Name>>) -> Seq<Option<Name>> {
    Seq::new(before.len(), |i: int| seen(used, before[i]))
}

pub open spec fn no_keys(n: nat) -> Seq<Option<Name>> {
    Seq::new(n, |i: int| None::<Name>)
}

/// The keys that regions keep, among those seen. First, a marker that was there and says the
/// key it had. Then, in order, a marker that says a key that no other has. Last, a marker that
/// was there but does not say its key yet.
pub open spec fn kept_keys(
    used: Set<Name>,
    r: Seq<RegionV>,
    before: Seq<Option<Name>>,
) -> Seq<Option<Name>> {
    let n = r.len() as int;
    let first = claims(no_keys(r.len()), same_keys(used, r, before), n);
    let second = claims(first, said_keys(used, r), n);
    claims(second, had_keys(used, before), n)
}

/// The keys that regions had before an edit.
pub open spec fn keys_before(layout: Seq<SpanV>, e: EditV, r: Seq<RegionV>) -> Seq<Option<Name>> {
    Seq::new(r.len(), |i: int| key_before(layout, e, r[i]))
}

/// A cell with a kind and a source; as it is if it has them.
pub open spec fn updated(c: CellV, kind: CellKind, source: Seq<char>) -> CellV {
    let k = kinded(c, kind);
    if source_of(k) == source {
        k
    } else {
        sourced(k, source)
    }
}

/// The cell under a key, or a new one.
pub open spec fn cell_for(d: DocV, k: Name, kind: CellKind, source: Seq<char>) -> CellV {
    match cell_at(d, k) {
        Some(c) => updated(c, kind, source),
        None => fresh(kind, source),
    }
}

/// The document with these cells live, in this order, and all its others tombstoned.
pub open spec fn rebuilt(
    d: DocV,
    order: Seq<Name>,
    kinds: Seq<CellKind>,
    sources: Seq<Seq<char>>,
    e: DocV,
) -> bool {
    &&& e.order == order
    &&& forall|k: Name| #[trigger] e.live.dom().contains(k) == order.contains(k)
    &&& forall|i: int|
        0 <= i < order.len() ==> e.live[#[trigger] order[i]] == cell_for(
            d,
            order[i],
            kinds[i],
            sources[i],
        )
    &&& forall|k: Name| #[trigger]
        e.tombs.dom().contains(k) == (cell_at(d, k) is Some && !order.contains(k))
    &&& forall|k: Name| #[trigger] e.tombs.dom().contains(k) ==> e.tombs[k] == cell_at(d, k)->0
}

/// Whether the document has just these cells live, in this order, with these kinds and sources.
pub open spec fn shows(
    d: DocV,
    order: Seq<Name>,
    kinds: Seq<CellKind>,
    sources: Seq<Seq<char>>,
) -> bool {
    &&& d.order == order
    &&& forall|i: int|
        0 <= i < order.len() ==> raw_kind(d.live[#[trigger] order[i]].raw) == kinds[i]
            && source_of(d.live[order[i]]) == sources[i]
}

pub open spec fn region_kinds(r: Seq<RegionV>) -> Seq<CellKind> {
    Seq::new(r.len(), |i: int| r[i].kind)
}

pub open spec fn region_sources(text: Text, r: Seq<RegionV>) -> Seq<Seq<char>> {
    Seq::new(r.len(), |i: int| region_source(text, r[i]))
}

/// The layout of regions under their keys.
pub open spec fn spans_of(r: Seq<RegionV>, order: Seq<Name>) -> Seq<SpanV> {
    Seq::new(
        r.len(),
        |i: int|
            SpanV {
                key: order[i],
                kind: r[i].kind,
                marker: r[i].marker,
                body: r[i].body,
                end: r[i].end,
            },
    )
}

/// The edit that makes a span's marker say its kind and key, if it does not.
pub open spec fn marker_edit(text: Text, s: SpanV) -> Option<EditV> {
    let line = py_marker(s.kind, s.key);
    match s.marker {
        None => Some(EditV { first: 0, last: 0, lines: seq![line] }),
        Some(m) => if text[m] == line {
            None
        } else {
            Some(EditV { first: m, last: m + 1, lines: seq![line] })
        },
    }
}

/// The edits that make every marker say its cell's kind and key, from the bottom up.
pub open spec fn marker_edits(text: Text, layout: Seq<SpanV>, n: int) -> Seq<EditV>
    decreases n,
{
    if n <= 0 {
        Seq::empty()
    } else {
        let above = marker_edits(text, layout, n - 1);
        match marker_edit(text, layout[n - 1]) {
            Some(e) => seq![e] + above,
            None => above,
        }
    }
}

/// The lines of the cells of a document, one after another.
pub open spec fn projected(d: DocV, n: int) -> Text
    decreases n,
{
    if n <= 0 {
        Seq::empty()
    } else {
        let c = d.live[d.order[n - 1]];
        let kind = raw_kind(c.raw);
        projected(d, n - 1).push(py_marker(kind, d.order[n - 1])) + py_lines(kind, source_of(c))
    }
}

/// The layout of the projected document.
pub open spec fn projected_layout(d: DocV, n: int) -> Seq<SpanV>
    decreases n,
{
    if n <= 0 {
        Seq::empty()
    } else {
        let c = d.live[d.order[n - 1]];
        let m = projected(d, n - 1).len() as int;
        projected_layout(d, n - 1).push(
            SpanV {
                key: d.order[n - 1],
                kind: raw_kind(c.raw),
                marker: Some(m),
                body: m + 1,
                end: projected(d, n).len() as int,
            },
        )
    }
}

/// Every cell's marker reads back as the cell's kind and key.
pub open spec fn markers_read_back(d: DocV) -> bool {
    forall|i: int|
        0 <= i < d.order.len() ==> {
            let kind = raw_kind(d.live[#[trigger] d.order[i]].raw);
            py_parsed(py_marker(kind, d.order[i])) == Some(MarkerV { kind, key: Some(d.order[i]) })
        }
}

/// A buffer that shows a notebook: its text, and where the cells stand in it.
pub struct Buffer {
    pub mirror: Vec<String>,
    pub layout: Vec<CellSpan>,
}

impl Buffer {
    pub open spec fn text(&self) -> Text {
        texts(self.mirror@)
    }

    pub open spec fn spans(&self) -> Seq<SpanV> {
        layout_view(self.layout@)
    }

    /// Each span's lines are lines of the text, and spans follow one another; only the first
    /// may lack a marker.
    pub open spec fn wf(&self) -> bool {
        &&& forall|i: int|
            0 <= i < self.layout@.len() ==> {
                let s = #[trigger] self.layout@[i];
                &&& s.body <= s.end <= self.mirror@.len()
                &&& s.marker matches Some(m) ==> m + 1 == s.body
                &&& s.marker is None ==> i == 0 && s.body == 0
            }
        &&& forall|i: int, j: int|
            0 <= i < j < self.layout@.len() ==> (#[trigger] self.layout@[i]).end <= (
            #[trigger] self.layout@[j]).body - 1
    }
}

/// What reading an edited buffer came to.
#[derive(Debug)]
pub struct Reconciled {
    /// Whether the document changed.
    pub changed: bool,
    /// The edits that make every marker say its cell's kind and key, from the bottom up.
    pub normalise: Vec<LineEdit>,
}

/// A region of the text.
struct Region {
    marker: Option<usize>,
    kind: CellKind,
    key: Option<CellKey>,
    body: usize,
    end: usize,
}

pub open spec fn opt_key(k: Option<CellKey>) -> Option<Name> {
    match k {
        Some(k) => Some(k@),
        None => None,
    }
}

pub open spec fn opt_keys(v: Seq<Option<CellKey>>) -> Seq<Option<Name>> {
    Seq::new(v.len(), |i: int| opt_key(v[i]))
}

impl View for Region {
    type V = RegionV;

    closed spec fn view(&self) -> RegionV {
        RegionV {
            marker: opt_line(self.marker),
            kind: self.kind,
            key: opt_key(self.key),
            body: self.body as int,
            end: self.end as int,
        }
    }
}

spec fn regions_view(v: Seq<Region>) -> Seq<RegionV> {
    Seq::new(v.len(), |i: int| v[i]@)
}

/// What holds of the regions of `n` lines: their lines are in order.
pub open spec fn region_lines(s: (int, Seq<RegionV>), n: int) -> bool {
    &&& 0 <= s.0 <= n
    &&& s.1.len() == 0 ==> s.0 == n
    &&& forall|i: int|
        0 <= i < s.1.len() ==> {
            let r = #[trigger] s.1[i];
            &&& s.0 < r.body <= r.end <= n
            &&& r.marker == Some(r.body - 1)
        }
    &&& forall|i: int, j: int|
        0 <= i < j < s.1.len() ==> (#[trigger] s.1[i]).end < (#[trigger] s.1[j]).body
    &&& s.1.len() > 0 ==> s.1.last().end == n
}

pub proof fn lemma_scanned(text: Text, n: int)
    requires
        0 <= n <= text.len(),
    ensures
        region_lines(scanned(text, n), n),
    decreases n,
{
    if n > 0 {
        lemma_scanned(text, n - 1);
        let front = scanned(text, n - 1);
        let all = scanned(text, n);
        assert forall|i: int, j: int| 0 <= i < j < all.1.len() implies (#[trigger] all.1[i]).end < (
        #[trigger] all.1[j]).body by {
            if i < front.1.len() && j < front.1.len() {
                assert(front.1[i].end < front.1[j].body);
            }
        }
    }
}

fn blank(line: &str) -> (r: bool)
    ensures
        r == is_blank(line@),
{
    let v = chars_of(line);
    let mut i: usize = 0;
    while i < v.len()
        invariant
            i <= v@.len(),
            v@ == line@,
            forall|j: int| 0 <= j < i ==> white(#[trigger] line@[j]),
        decreases v@.len() - i,
    {
        if !is_white(v[i]) {
            assert(!white(line@[i as int]));
            return false;
        }
        i += 1;
    }
    true
}

/// The regions of a text.
fn regions_of(text: &Vec<String>) -> (r: Vec<Region>)
    ensures
        regions_view(r@) == regions(texts(text@)),
{
    let ghost t = texts(text@);
    let mut found: Vec<Region> = Vec::new();
    let mut lead: usize = 0;
    let mut written = false;
    let mut n: usize = 0;
    assert(regions_view(found@) =~= scanned(t, 0).1);
    while n < text.len()
        invariant
            n <= text@.len(),
            t == texts(text@),
            lead == scanned(t, n as int).0,
            regions_view(found@) == scanned(t, n as int).1,
            written == has_text(t, lead as int),
        decreases text@.len() - n,
    {
        let ghost before = found@;
        assert(t[n as int] == text@[n as int]@);
        proof {
            lemma_scanned(t, n as int);
        }
        match PythonProjection.parse_marker(text[n].as_str()) {
            Some(m) => {
                let region = Region {
                    marker: Some(n),
                    kind: m.kind,
                    key: m.key,
                    body: n + 1,
                    end: n + 1,
                };
                found.push(region);
                assert(regions_view(found@) =~= regions_view(before).push(region@));
            },
            None => {
                if found.len() == 0 {
                    if !written && !blank(text[n].as_str()) {
                        assert(!is_blank(t[n as int]));
                        written = true;
                    }
                    assert(has_text(t, n + 1) == (has_text(t, n as int) || !is_blank(t[n as int])));
                    lead = n + 1;
                } else {
                    let last = found.len() - 1;
                    found[last].end = n + 1;
                    assert(regions_view(found@) =~= scanned(t, n + 1).1);
                }
            },
        }
        n += 1;
    }
    if written {
        let region = Region { marker: None, kind: CellKind::Code, key: None, body: 0, end: lead };
        let ghost before = found@;
        found.insert(0, region);
        assert(regions_view(found@) =~= seq![region@] + regions_view(before));
    }
    found
}

fn key_at_line(layout: &Vec<CellSpan>, m: Option<usize>) -> (r: Option<CellKey>)
    ensures
        opt_key(r) == key_at(layout_view(layout@), opt_line(m), layout@.len() as int),
{
    let mut n: usize = layout.len();
    while n > 0
        invariant
            n <= layout@.len(),
            key_at(layout_view(layout@), opt_line(m), layout@.len() as int) == key_at(
                layout_view(layout@),
                opt_line(m),
                n as int,
            ),
        decreases n,
    {
        let same = match (layout[n - 1].marker, m) {
            (Some(a), Some(b)) => a == b,
            (None, None) => true,
            _ => false,
        };
        assert(layout_view(layout@)[n - 1] == layout@[n - 1]@);
        assert(same == (opt_line(layout@[n - 1].marker) == opt_line(m)));
        if same {
            return Some(layout[n - 1].key.clone());
        }
        n -= 1;
    }
    None
}

/// The keys that regions had before `[first, last)` became `count` lines.
fn keys_before_edit(
    layout: &Vec<CellSpan>,
    first: usize,
    last: usize,
    count: usize,
    found: &Vec<Region>,
    Ghost(e): Ghost<EditV>,
    Ghost(total): Ghost<int>,
) -> (r: Vec<Option<CellKey>>)
    requires
        e.first == first,
        e.last == last,
        e.lines.len() == count,
        first <= last,
        first + count <= usize::MAX,
        total <= usize::MAX,
        forall|i: int|
            0 <= i < found@.len() ==> ((#[trigger] found@[i]).marker matches Some(m) ==> m - count
                - first + last <= total),
    ensures
        opt_keys(r@) == keys_before(layout_view(layout@), e, regions_view(found@)),
{
    let mut out: Vec<Option<CellKey>> = Vec::new();
    let mut i: usize = 0;
    while i < found.len()
        invariant
            i <= found@.len(),
            out@.len() == i,
            e.first == first,
            e.last == last,
            e.lines.len() == count,
            first <= last,
            first + count <= usize::MAX,
            total <= usize::MAX,
            forall|i: int|
                0 <= i < found@.len() ==> ((#[trigger] found@[i]).marker matches Some(m) ==> m
                    - count - first + last <= total),
            forall|j: int|
                0 <= j < i ==> opt_key(#[trigger] out@[j]) == key_before(
                    layout_view(layout@),
                    e,
                    found@[j]@,
                ),
        decreases found@.len() - i,
    {
        let key = match found[i].marker {
            None => key_at_line(layout, None),
            Some(m) => if m < first {
                key_at_line(layout, Some(m))
            } else if m >= first + count {
                key_at_line(layout, Some(m - count - first + last))
            } else {
                None
            },
        };
        out.push(key);
        i += 1;
    }
    assert(opt_keys(out@) =~= keys_before(layout_view(layout@), e, regions_view(found@)));
    out
}

/// No key is given twice.
pub open spec fn given_once(a: Seq<Option<Name>>) -> bool {
    forall|i: int, j: int|
        0 <= i < j < a.len() && (#[trigger] a[i]) is Some ==> a[i] != #[trigger] a[j]
}

/// Only keys seen are given.
pub open spec fn given_seen(a: Seq<Option<Name>>, used: Set<Name>) -> bool {
    forall|i: int| 0 <= i < a.len() ==> ((#[trigger] a[i]) matches Some(k) ==> used.contains(k))
}

fn is_claimed(a: &Vec<Option<CellKey>>, key: &CellKey) -> (r: bool)
    ensures
        r == claimed(opt_keys(a@), key@),
{
    let mut i: usize = 0;
    while i < a.len()
        invariant
            i <= a@.len(),
            forall|j: int| 0 <= j < i ==> #[trigger] opt_keys(a@)[j] != Some(key@),
        decreases a@.len() - i,
    {
        if let Some(k) = &a[i] {
            if k.same(key) {
                assert(opt_keys(a@)[i as int] == Some(key@));
                return true;
            }
        }
        i += 1;
    }
    false
}

/// Gives each region without a key the one it wants, if no other has it.
fn claim_all(a: &mut Vec<Option<CellKey>>, want: &Vec<Option<CellKey>>, used: &KeyMinter)
    requires
        old(a)@.len() == want@.len(),
    ensures
        final(a)@.len() == want@.len(),
        opt_keys(final(a)@) == claims(
            opt_keys(old(a)@),
            Seq::new(want@.len(), |i: int| seen(used@, opt_key(want@[i]))),
            want@.len() as int,
        ),
        given_once(opt_keys(old(a)@)) ==> given_once(opt_keys(final(a)@)),
        given_seen(opt_keys(old(a)@), used@) ==> given_seen(opt_keys(final(a)@), used@),
{
    let ghost begun = opt_keys(a@);
    let ghost wanted = Seq::new(want@.len(), |i: int| seen(used@, opt_key(want@[i])));
    let mut i: usize = 0;
    while i < want.len()
        invariant
            i <= want@.len(),
            a@.len() == want@.len(),
            begun == opt_keys(old(a)@),
            wanted == Seq::new(want@.len(), |i: int| seen(used@, opt_key(want@[i]))),
            opt_keys(a@) == claims(begun, wanted, i as int),
            given_once(begun) ==> given_once(opt_keys(a@)),
            given_seen(begun, used@) ==> given_seen(opt_keys(a@), used@),
        decreases want@.len() - i,
    {
        let ghost front = opt_keys(a@);
        if let Some(k) = &want[i] {
            if used.is_used(k) && a[i].is_none() && !is_claimed(a, k) {
                assert(wanted[i as int] == Some(k@));
                a.set(i, Some(k.clone()));
                assert(opt_keys(a@) =~= front.update(i as int, Some(k@)));
                assert(given_once(front) ==> given_once(opt_keys(a@)));
            }
        }
        assert(opt_keys(a@) == claims(begun, wanted, i + 1));
        i += 1;
    }
}

/// The keys that regions keep.
fn keep_keys(used: &KeyMinter, found: &Vec<Region>, before: &Vec<Option<CellKey>>) -> (r: Vec<
    Option<CellKey>,
>)
    requires
        before@.len() == found@.len(),
    ensures
        r@.len() == found@.len(),
        opt_keys(r@) == kept_keys(used@, regions_view(found@), opt_keys(before@)),
        given_once(opt_keys(r@)),
        given_seen(opt_keys(r@), used@),
{
    let ghost rv = regions_view(found@);
    let ghost bv = opt_keys(before@);
    let mut a: Vec<Option<CellKey>> = Vec::new();
    let mut same: Vec<Option<CellKey>> = Vec::new();
    let mut said: Vec<Option<CellKey>> = Vec::new();
    let mut i: usize = 0;
    while i < found.len()
        invariant
            i <= found@.len(),
            before@.len() == found@.len(),
            rv == regions_view(found@),
            bv == opt_keys(before@),
            a@.len() == i,
            same@.len() == i,
            said@.len() == i,
            forall|j: int| 0 <= j < i ==> (#[trigger] a@[j]) is None,
            forall|j: int|
                0 <= j < i ==> seen(used@, opt_key(#[trigger] same@[j])) == same_keys(
                    used@,
                    rv,
                    bv,
                )[j],
            forall|j: int| 0 <= j < i ==> opt_key(#[trigger] said@[j]) == rv[j].key,
        decreases found@.len() - i,
    {
        a.push(None);
        let held = match (&found[i].key, &before[i]) {
            (Some(x), Some(y)) => if x.same(y) {
                Some(x.clone())
            } else {
                None
            },
            _ => None,
        };
        same.push(held);
        said.push(found[i].key.clone());
        i += 1;
    }
    proof {
        assert(opt_keys(a@) =~= no_keys(rv.len()));
        assert(Seq::new(same@.len(), |i: int| seen(used@, opt_key(same@[i]))) =~= same_keys(
            used@,
            rv,
            bv,
        ));
        assert(Seq::new(said@.len(), |i: int| seen(used@, opt_key(said@[i]))) =~= said_keys(
            used@,
            rv,
        ));
        assert(Seq::new(before@.len(), |i: int| seen(used@, opt_key(before@[i]))) =~= had_keys(
            used@,
            bv,
        ));
    }
    claim_all(&mut a, &same, used);
    claim_all(&mut a, &said, used);
    claim_all(&mut a, before, used);
    a
}

/// What the keys of the regions are: those kept, and for the others keys never seen.
pub open spec fn keyed(kept: Seq<Option<Name>>, used: Set<Name>, order: Seq<Name>) -> bool {
    &&& order.len() == kept.len()
    &&& order.no_duplicates()
    &&& forall|i: int|
        0 <= i < order.len() ==> match kept[i] {
            Some(k) => #[trigger] order[i] == k,
            None => !used.contains(order[i]),
        }
}

fn mint_missing(minter: &mut KeyMinter, kept: Vec<Option<CellKey>>) -> (r: Vec<CellKey>)
    requires
        old(minter).wf(),
        given_once(opt_keys(kept@)),
        given_seen(opt_keys(kept@), old(minter)@),
    ensures
        final(minter).wf(),
        final(minter)@ == old(minter)@.union(keys(r@).to_set()),
        keyed(opt_keys(kept@), old(minter)@, keys(r@)),
{
    let ghost kv = opt_keys(kept@);
    let ghost used = minter@;
    let mut out: Vec<CellKey> = Vec::new();
    let mut i: usize = 0;
    assert(minter@ =~= used.union(keys(out@).to_set()));
    while i < kept.len()
        invariant
            i <= kept@.len(),
            kv == opt_keys(kept@),
            used == old(minter)@,
            given_once(kv),
            given_seen(kv, used),
            minter.wf(),
            out@.len() == i,
            minter@ == used.union(keys(out@).to_set()),
            keys(out@).no_duplicates(),
            forall|j: int|
                0 <= j < i ==> match kv[j] {
                    Some(k) => #[trigger] keys(out@)[j] == k,
                    None => !used.contains(keys(out@)[j]),
                },
        decreases kept@.len() - i,
    {
        let ghost front = keys(out@);
        assert(kv[i as int] == opt_key(kept@[i as int]));
        let key = match &kept[i] {
            Some(k) => k.clone(),
            None => minter.mint(),
        };
        out.push(key);
        proof {
            assert(keys(out@) =~= front.push(key@));
            crate::key::lemma_push_set(front, key@);
            assert(!front.contains(key@)) by {
                if front.contains(key@) {
                    let j = choose|j: int| 0 <= j < front.len() && front[j] == key@;
                    if kv[i as int] is Some {
                        assert(used.contains(key@));
                        assert(kv[j] is Some);
                        assert(kv[j] != kv[i as int]);
                    } else {
                        assert(front.to_set().contains(front[j]));
                    }
                }
            }
            assert(minter@ =~= used.union(keys(out@).to_set()));
        }
        i += 1;
    }
    out
}

/// Every cell of two tables, the first one's where both have it.
fn pour(from: CellTable, into: CellTable) -> (r: CellTable)
    requires
        from.wf(),
        into.wf(),
    ensures
        r.wf(),
        r@ == into@.union_prefer_right(from@),
{
    let mut from = from;
    let mut into = into;
    let ghost all = into@.union_prefer_right(from@);
    while from.entries.len() > 0
        invariant
            from.wf(),
            into.wf(),
            into@.union_prefer_right(from@) == all,
        decreases from.entries@.len(),
    {
        let n = from.entries.len();
        let key = from.entries[n - 1].0.clone();
        proof {
            lemma_last_entry(from.entries@);
        }
        if let Some(c) = from.remove(&key) {
            into.insert(key, c);
        }
        assert(into@.union_prefer_right(from@) =~= all);
    }
    proof {
        lemma_no_entries(from.entries@);
        assert(into@ =~= all);
    }
    into
}

/// Gives a cell a kind and a source.
fn update_cell(cell: &mut Cell, kind: CellKind, source: &str)
    ensures
        final(cell)@ == updated(old(cell)@, kind, source@),
{
    cell.set_kind(kind);
    assert(cell@ == kinded(old(cell)@, kind));
    if !str_eq(cell.source().as_str(), source) {
        let _ = cell.set_source(source);
    }
}

impl Notebook {
    /// Makes these the live cells, in this order; all others are tombstoned.
    fn rebuild(&mut self, order: Vec<CellKey>, kinds: &Vec<CellKind>, sources: &Vec<String>)
        requires
            old(self).wf(),
            keys(order@).no_duplicates(),
            keys(order@).to_set().subset_of(old(self).minter@),
            kinds@.len() == order@.len(),
            sources@.len() == order@.len(),
        ensures
            final(self).wf(),
            rebuilt(old(self).doc(), keys(order@), kinds@, texts(sources@), final(self).doc()),
            final(self).same_but_cells(old(self)),
    {
        let ghost d = self.doc();
        let ghost names = keys(order@);
        let mut live = CellTable::new();
        let mut tombs = CellTable::new();
        std::mem::swap(&mut self.live, &mut live);
        std::mem::swap(&mut self.tombstones, &mut tombs);
        let mut pool = pour(live, tombs);
        let mut shown = CellTable::new();
        let mut i: usize = 0;
        assert forall|k: Name| #[trigger] pool@.dom().contains(k) == (cell_at(d, k) is Some) by {}
        while i < order.len()
            invariant
                i <= order@.len(),
                names == keys(order@),
                names.no_duplicates(),
                kinds@.len() == order@.len(),
                sources@.len() == order@.len(),
                pool.wf(),
                shown.wf(),
                forall|k: Name| #[trigger]
                    pool@.dom().contains(k) == (cell_at(d, k) is Some && !names.take(
                        i as int,
                    ).contains(k)),
                forall|k: Name| #[trigger]
                    pool@.dom().contains(k) ==> pool@[k] == cell_at(d, k)->0,
                forall|k: Name| #[trigger]
                    shown@.dom().contains(k) == names.take(i as int).contains(k),
                forall|j: int|
                    0 <= j < i ==> shown@[#[trigger] names[j]] == cell_for(
                        d,
                        names[j],
                        kinds@[j],
                        sources@[j]@,
                    ),
            decreases order@.len() - i,
        {
            let ghost front = names.take(i as int);
            assert(!front.contains(names[i as int]));
            assert(names.take(i + 1) =~= front.push(names[i as int]));
            assert forall|k: Name| #[trigger] names.take(i + 1).contains(k) == (front.contains(k)
                || k == names[i as int]) by {
                let n = names[i as int];
                if front.contains(k) {
                    let j = choose|j: int| 0 <= j < front.len() && front[j] == k;
                    assert(front.push(n)[j] == k);
                }
                assert(front.push(n)[i as int] == n);
            }
            let cell = match pool.remove(&order[i]) {
                Some(c) => {
                    let mut c = c;
                    update_cell(&mut c, kinds[i], sources[i].as_str());
                    c
                },
                None => Cell::new(kinds[i], sources[i].as_str()),
            };
            shown.insert(order[i].clone(), cell);
            i += 1;
        }
        assert(names.take(i as int) =~= names);
        self.live = shown;
        self.tombstones = pool;
        self.order = order;
        proof {
            let e = self.doc();
            assert(rebuilt(d, names, kinds@, texts(sources@), e));
            assert forall|k: Seq<char>| #[trigger] cell_at(e, k) is Some implies
                self.minter@.contains(k) by {
                if names.contains(k) {
                    assert(names.to_set().contains(k));
                } else {
                    assert(cell_at(d, k) is Some);
                }
            }
        }
    }
}

/// The keys of a layout.
pub open spec fn span_names(layout: Seq<SpanV>) -> Seq<Name> {
    Seq::new(layout.len(), |i: int| layout[i].key)
}

/// What an edit of a buffer makes of the notebook and the buffer: `text` is the text after
/// edit `e`, and `before` and `used` are the document and the keys seen before it.
pub open spec fn reconciled(
    before: DocV,
    used: Set<Name>,
    layout: Seq<SpanV>,
    e: EditV,
    text: Text,
    nb: &Notebook,
    spans: Seq<SpanV>,
    r: &Reconciled,
) -> bool {
    let found = regions(text);
    let order = span_names(spans);
    let kinds = region_kinds(found);
    let sources = region_sources(text, found);
    &&& keyed(kept_keys(used, found, keys_before(layout, e, found)), used, order)
    &&& nb.minter@ == used.union(order.to_set())
    &&& spans == spans_of(found, order)
    &&& rebuilt(before, order, kinds, sources, nb.doc())
    &&& r.changed == !shows(before, order, kinds, sources)
    &&& edits_view(r.normalise@) == marker_edits(text, spans, spans.len() as int)
}

/// The part of the notebook that reading a buffer leaves alone.
pub open spec fn same_record(nb: &Notebook, before: &Notebook) -> bool {
    &&& nb.path@ == before.path@
    &&& nb.top@ == before.top@
    &&& nb.trailing_newline == before.trailing_newline
    &&& nb.undo@ == before.undo@
    &&& nb.redo@ == before.redo@
    &&& hash_view(nb.disk_hash) == hash_view(before.disk_hash)
}

/// The lines from `a` up to `b`.
pub(crate) fn lines_between(text: &Vec<String>, a: usize, b: usize) -> (r: Vec<String>)
    requires
        a <= b <= text@.len(),
    ensures
        texts(r@) == texts(text@).subrange(a as int, b as int),
{
    let mut out: Vec<String> = Vec::new();
    let mut i: usize = a;
    while i < b
        invariant
            a <= i <= b <= text@.len(),
            texts(out@) =~= texts(text@).subrange(a as int, i as int),
        decreases b - i,
    {
        let ghost front = out@;
        out.push(text[i].clone());
        assert(texts(out@) =~= texts(front).push(text@[i as int]@));
        i += 1;
    }
    out
}

fn shows_cells(nb: &Notebook, order: &Vec<CellKey>, kinds: &Vec<CellKind>, sources: &Vec<String>) -> (r:
    bool)
    requires
        nb.wf(),
        kinds@.len() == order@.len(),
        sources@.len() == order@.len(),
    ensures
        r == shows(nb.doc(), keys(order@), kinds@, texts(sources@)),
{
    let ghost d = nb.doc();
    let ghost names = keys(order@);
    if order.len() != nb.order.len() {
        assert(d.order.len() != names.len());
        return false;
    }
    let mut i: usize = 0;
    while i < order.len()
        invariant
            i <= order@.len(),
            order@.len() == nb.order@.len(),
            kinds@.len() == order@.len(),
            sources@.len() == order@.len(),
            nb.wf(),
            d == nb.doc(),
            names == keys(order@),
            forall|j: int| 0 <= j < i ==> d.order[j] == #[trigger] names[j],
            forall|j: int|
                0 <= j < i ==> raw_kind(d.live[#[trigger] names[j]].raw) == kinds@[j] && source_of(
                    d.live[names[j]],
                ) == texts(sources@)[j],
        decreases order@.len() - i,
    {
        assert(names[i as int] == order@[i as int]@);
        assert(d.order[i as int] == nb.order@[i as int]@);
        if !order[i].same(&nb.order[i]) {
            return false;
        }
        assert(d.order.contains(d.order[i as int]));
        match nb.live.get(&order[i]) {
            Some(c) => {
                let source = c.source();
                if c.kind() != kinds[i] || !str_eq(source.as_str(), sources[i].as_str()) {
                    assert(texts(sources@)[i as int] == sources@[i as int]@);
                    return false;
                }
            },
            None => {
                return false;
            },
        }
        i += 1;
    }
    assert(d.order =~= names);
    true
}

/// The edits that make every marker say its cell's kind and key, from the bottom up.
fn normalising(text: &Vec<String>, layout: &Vec<CellSpan>) -> (r: Vec<LineEdit>)
    requires
        forall|i: int|
            0 <= i < layout@.len() ==> ((#[trigger] layout@[i]).marker matches Some(m) ==> m
                < text.len()),
    ensures
        edits_view(r@) == marker_edits(texts(text@), layout_view(layout@), layout@.len() as int),
{
    let ghost t = texts(text@);
    let ghost spans = layout_view(layout@);
    let mut out: Vec<LineEdit> = Vec::new();
    let mut n: usize = layout.len();
    assert(edits_view(out@) + marker_edits(t, spans, n as int) =~= marker_edits(
        t,
        spans,
        n as int,
    ));
    while n > 0
        invariant
            n <= layout@.len(),
            t == texts(text@),
            spans == layout_view(layout@),
            forall|i: int|
                0 <= i < layout@.len() ==> ((#[trigger] layout@[i]).marker matches Some(m) ==> m
                    < text.len()),
            edits_view(out@) + marker_edits(t, spans, n as int) == marker_edits(
                t,
                spans,
                layout@.len() as int,
            ),
        decreases n,
    {
        let span = &layout[n - 1];
        assert(spans[n - 1] == span@);
        let line = PythonProjection.format_marker(span.kind, &span.key);
        let ghost front = out@;
        let ghost rest = marker_edits(t, spans, n - 1);
        let edit = match span.marker {
            None => {
                let lines = vec![line];
                assert(texts(lines@) =~= seq![line@]);
                Some(LineEdit { first: 0, last: 0, lines })
            },
            Some(m) => {
                assert(t[m as int] == text@[m as int]@);
                if str_eq(text[m].as_str(), line.as_str()) {
                    None
                } else {
                    let lines = vec![line];
                    assert(texts(lines@) =~= seq![line@]);
                    Some(LineEdit { first: m, last: m + 1, lines })
                }
            },
        };
        match edit {
            Some(e) => {
                assert(marker_edit(t, spans[n - 1]) == Some(e@));
                out.push(e);
                assert(edits_view(out@) =~= edits_view(front).push(e@));
                assert(edits_view(front) + (seq![e@] + rest) =~= edits_view(out@) + rest);
            },
            None => {
                assert(marker_edit(t, spans[n - 1]) is None);
            },
        }
        n -= 1;
    }
    assert(edits_view(out@) + marker_edits(t, spans, 0) =~= edits_view(out@));
    out
}

impl Buffer {
    /// Reads the text, which an edit of lines `[first, last)` to `count` lines has made.
    fn reconcile(
        &mut self,
        nb: &mut Notebook,
        first: usize,
        last: usize,
        count: usize,
        Ghost(e): Ghost<EditV>,
    ) -> (r: Reconciled)
        requires
            old(nb).wf(),
            e.first == first,
            e.last == last,
            e.lines.len() == count,
            first <= last,
            first + count <= old(self).mirror.len(),
            old(self).mirror@.len() - count - first + last <= usize::MAX,
        ensures
            final(self).wf(),
            final(self).mirror == old(self).mirror,
            final(nb).wf(),
            same_record(final(nb), old(nb)),
            final(nb).mutated == (old(nb).mutated || r.changed),
            reconciled(
                old(nb).doc(),
                old(nb).minter@,
                old(self).spans(),
                e,
                old(self).text(),
                final(nb),
                final(self).spans(),
                &r,
            ),
    {
        let ghost d = nb.doc();
        let ghost used = nb.minter@;
        let ghost text = texts(self.mirror@);
        let found = regions_of(&self.mirror);
        let ghost rv = regions_view(found@);
        proof {
            lemma_regions(text);
            assert forall|i: int| 0 <= i < found@.len() implies found@[i]@ == #[trigger] rv[i] by {}
        }
        assert forall|i: int| 0 <= i < found@.len() implies ((#[trigger] found@[i]).marker matches Some(
            m,
        ) ==> m < text.len()) by {
            assert(rv[i] == found@[i]@);
        }
        let before = keys_before_edit(
            &self.layout,
            first,
            last,
            count,
            &found,
            Ghost(e),
            Ghost(text.len() - count - first + last),
        );
        assert(opt_keys(before@).len() == rv.len());
        let kept = keep_keys(&nb.minter, &found, &before);
        let order = mint_missing(&mut nb.minter, kept);
        let ghost names = keys(order@);
        assert(nb.wf()) by {
            assert forall|k: Seq<char>| #[trigger] cell_at(nb.doc(), k) is Some implies
                nb.minter@.contains(k) by {
                assert(cell_at(d, k) is Some);
            }
        }
        let mut kinds: Vec<CellKind> = Vec::new();
        let mut sources: Vec<String> = Vec::new();
        let mut layout: Vec<CellSpan> = Vec::new();
        let mut i: usize = 0;
        while i < found.len()
            invariant
                i <= found@.len(),
                found@.len() == order@.len(),
                text == texts(self.mirror@),
                self.mirror == old(self).mirror,
                rv == regions_view(found@),
                rv == regions(text),
                regions_in(rv, text.len() as int),
                names == keys(order@),
                kinds@.len() == i,
                sources@.len() == i,
                layout@.len() == i,
                forall|j: int| 0 <= j < i ==> #[trigger] kinds@[j] == rv[j].kind,
                forall|j: int|
                    0 <= j < i ==> (#[trigger] sources@[j])@ == region_source(text, rv[j]),
                forall|j: int|
                    0 <= j < i ==> (#[trigger] layout@[j])@ == spans_of(rv, names)[j],
            decreases found@.len() - i,
        {
            let region = &found[i];
            assert(rv[i as int] == region@);
            kinds.push(region.kind);
            let body = lines_between(&self.mirror, region.body, region.end);
            sources.push(PythonProjection.from_buffer(region.kind, body.as_slice()));
            layout.push(
                CellSpan {
                    key: order[i].clone(),
                    kind: region.kind,
                    marker: region.marker,
                    body: region.body,
                    end: region.end,
                },
            );
            i += 1;
        }
        proof {
            assert(kinds@ =~= region_kinds(rv));
            assert(texts(sources@) =~= region_sources(text, rv));
            assert(layout_view(layout@) =~= spans_of(rv, names));
            assert(span_names(layout_view(layout@)) =~= names);
            assert forall|i: int| 0 <= i < layout@.len() implies {
                let s = #[trigger] layout@[i];
                &&& s.body <= s.end <= self.mirror@.len()
                &&& s.marker matches Some(m) ==> m + 1 == s.body
                &&& s.marker is None ==> i == 0 && s.body == 0
            } by {
                assert(layout@[i]@ == spans_of(rv, names)[i]);
                assert(rv[i].body <= rv[i].end);
            }
            assert forall|i: int, j: int| 0 <= i < j < layout@.len() implies (#[trigger] layout@[i]).end <= (
            #[trigger] layout@[j]).body - 1 by {
                assert(layout@[i]@ == spans_of(rv, names)[i]);
                assert(layout@[j]@ == spans_of(rv, names)[j]);
                assert(rv[i].end < rv[j].body);
            }
        }
        let changed = !shows_cells(nb, &order, &kinds, &sources);
        nb.rebuild(order, &kinds, &sources);
        if changed {
            nb.mutated = true;
        }
        let normalise = normalising(&self.mirror, &layout);
        self.layout = layout;
        Reconciled { changed, normalise }
    }
}

/// The lines of regions are in order and among `n`; only the first may lack a marker.
pub open spec fn regions_in(r: Seq<RegionV>, n: int) -> bool {
    &&& forall|i: int|
        0 <= i < r.len() ==> {
            let s = #[trigger] r[i];
            &&& 0 <= s.body <= s.end <= n
            &&& s.marker matches Some(m) ==> m == s.body - 1 && m >= 0
            &&& s.marker is None ==> i == 0 && s.body == 0
        }
    &&& forall|i: int, j: int|
        0 <= i < j < r.len() ==> (#[trigger] r[i]).end < (#[trigger] r[j]).body
}

pub proof fn lemma_regions(text: Text)
    ensures
        regions_in(regions(text), text.len() as int),
{
    lemma_scanned(text, text.len() as int);
    let s = scanned(text, text.len() as int);
    let r = regions(text);
    if has_text(text, s.0) {
        assert forall|i: int| 0 < i < r.len() implies #[trigger] r[i] == s.1[i - 1] by {}
    }
}

/// An edit of lines that the buffer does not have.
#[derive(Debug, PartialEq, Eq)]
pub struct OutOfRange;

impl Buffer {
    /// The text.
    pub fn mirror(&self) -> (r: &[String])
        ensures
            r@ == self.mirror@,
    {
        self.mirror.as_slice()
    }

    /// Where the cells stand.
    pub fn layout(&self) -> (r: &[CellSpan])
        ensures
            r@ == self.layout@,
    {
        self.layout.as_slice()
    }

    /// The edits that make every marker say its cell's kind and key, from the bottom up.
    pub fn pending_normalisation(&self) -> (r: Vec<LineEdit>)
        requires
            self.wf(),
        ensures
            edits_view(r@) == marker_edits(
                self.text(),
                self.spans(),
                self.spans().len() as int,
            ),
    {
        normalising(&self.mirror, &self.layout)
    }

    /// The notebook's buffer: each cell's marker, and the lines of its source.
    pub fn project(nb: &Notebook) -> (r: Buffer)
        requires
            nb.wf(),
        ensures
            r.wf(),
            r.text() == projected(nb.doc(), nb.doc().order.len() as int),
            r.spans() == projected_layout(nb.doc(), nb.doc().order.len() as int),
            markers_read_back(nb.doc()),
    {
        let ghost d = nb.doc();
        let mut mirror: Vec<String> = Vec::new();
        let mut layout: Vec<CellSpan> = Vec::new();
        let mut i: usize = 0;
        assert(texts(mirror@) =~= projected(d, 0));
        assert(layout_view(layout@) =~= projected_layout(d, 0));
        while i < nb.order.len()
            invariant
                i <= nb.order@.len(),
                nb.wf(),
                d == nb.doc(),
                texts(mirror@) == projected(d, i as int),
                layout_view(layout@) == projected_layout(d, i as int),
                layout@.len() == i,
                forall|j: int|
                    0 <= j < layout@.len() ==> {
                        let s = #[trigger] layout@[j];
                        &&& s.marker matches Some(m) && m + 1 == s.body
                        &&& s.body <= s.end <= mirror@.len()
                    },
                forall|a: int, b: int|
                    0 <= a < b < layout@.len() ==> (#[trigger] layout@[a]).end <= (
                    #[trigger] layout@[b]).body - 1,
                forall|j: int|
                    0 <= j < i ==> {
                        let kind = raw_kind(d.live[#[trigger] d.order[j]].raw);
                        py_parsed(py_marker(kind, d.order[j])) == Some(
                            MarkerV { kind, key: Some(d.order[j]) },
                        )
                    },
            decreases nb.order@.len() - i,
        {
            let key = &nb.order[i];
            assert(d.order[i as int] == key@);
            assert(d.order.contains(key@));
            if let Some(cell) = nb.live.get(key) {
                let kind = cell.kind();
                let source = cell.source();
                let line = PythonProjection.format_marker(kind, key);
                let mut lines = PythonProjection.to_buffer(kind, source.as_str());
                let ghost front = mirror@;
                let ghost spans = layout@;
                let ghost body = lines@;
                let marker = mirror.len();
                mirror.push(line);
                assert(texts(mirror@) =~= texts(front).push(line@));
                let ghost headed = mirror@;
                let start = mirror.len();
                mirror.append(&mut lines);
                assert(texts(mirror@) =~= texts(headed) + texts(body));
                let span = CellSpan {
                    key: key.clone(),
                    kind,
                    marker: Some(marker),
                    body: start,
                    end: mirror.len(),
                };
                layout.push(span);
                assert(layout_view(layout@) =~= layout_view(spans).push(span@));
            }
            i += 1;
        }
        Buffer { mirror, layout }
    }

    /// Replaces lines, and reads the notebook from the text that results.
    pub fn apply_edit(&mut self, nb: &mut Notebook, edit: LineEdit) -> (r: Result<
        Reconciled,
        OutOfRange,
    >)
        requires
            old(nb).wf(),
            old(self).wf(),
            old(self).mirror@.len() + edit.lines@.len() <= usize::MAX,
        ensures
            final(self).wf(),
            final(nb).wf(),
            same_record(final(nb), old(nb)),
            match r {
                Ok(done) => {
                    &&& edit.first <= edit.last <= old(self).mirror@.len()
                    &&& final(self).text() == edited_text(old(self).text(), edit@)
                    &&& final(nb).mutated == (old(nb).mutated || done.changed)
                    &&& reconciled(
                        old(nb).doc(),
                        old(nb).minter@,
                        old(self).spans(),
                        edit@,
                        final(self).text(),
                        final(nb),
                        final(self).spans(),
                        &done,
                    )
                    &&& steps(
                        old(nb),
                        StepV::ReadBuffer {
                            layout: old(self).spans(),
                            edit: edit@,
                            text: final(self).text(),
                            spans: final(self).spans(),
                            done,
                        },
                        final(nb),
                    )
                },
                Err(_) => {
                    &&& !(edit.first <= edit.last <= old(self).mirror@.len())
                    &&& *final(self) == *old(self)
                    &&& *final(nb) == *old(nb)
                },
            },
    {
        proof {
            reveal(steps);
        }
        if edit.first > edit.last || edit.last > self.mirror.len() {
            return Err(OutOfRange);
        }
        let ghost e = edit@;
        let ghost before = self.mirror@;
        let first = edit.first;
        let last = edit.last;
        let mut lines = edit.lines;
        let count = lines.len();
        let ghost new = lines@;
        let mut tail = self.mirror.split_off(last);
        let _ = self.mirror.split_off(first);
        self.mirror.append(&mut lines);
        self.mirror.append(&mut tail);
        assert(self.mirror@ =~= before.take(first as int) + new + before.skip(last as int));
        assert(self.text() =~= edited_text(texts(before), e));
        let r = self.reconcile(nb, first, last, count, Ghost(e));
        Ok(r)
    }

    /// Replaces the whole text, and reads the notebook from it.
    pub fn resync(&mut self, nb: &mut Notebook, lines: Vec<String>) -> (r: Reconciled)
        requires
            old(nb).wf(),
            old(self).wf(),
        ensures
            final(self).wf(),
            final(nb).wf(),
            same_record(final(nb), old(nb)),
            final(nb).mutated == (old(nb).mutated || r.changed),
            final(self).mirror@ == lines@,
            reconciled(
                old(nb).doc(),
                old(nb).minter@,
                old(self).spans(),
                (EditV { first: 0, last: old(self).mirror@.len() as int, lines: texts(lines@) }),
                texts(lines@),
                final(nb),
                final(self).spans(),
                &r,
            ),
            steps(
                old(nb),
                StepV::ReadBuffer {
                    layout: old(self).spans(),
                    edit: (EditV {
                        first: 0,
                        last: old(self).mirror@.len() as int,
                        lines: texts(lines@),
                    }),
                    text: texts(lines@),
                    spans: final(self).spans(),
                    done: r,
                },
                final(nb),
            ),
    {
        proof {
            reveal(steps);
        }
        let last = self.mirror.len();
        let count = lines.len();
        let ghost e = EditV { first: 0, last: last as int, lines: texts(lines@) };
        self.mirror = lines;
        self.reconcile(nb, 0, last, count, Ghost(e))
    }
}

/// Where the cells before `n` end in the projected text.
spec fn place(d: DocV, n: int) -> int {
    projected(d, n).len() as int
}

/// The region that a cell of the projected document makes.
spec fn cell_region(d: DocV, i: int) -> RegionV {
    RegionV {
        marker: Some(place(d, i)),
        kind: raw_kind(d.live[d.order[i]].raw),
        key: Some(d.order[i]),
        body: place(d, i) + 1,
        end: place(d, i + 1),
    }
}

/// The projection of the first cells begins that of all.
proof fn lemma_projected_prefix(d: DocV, m: int, n: int)
    requires
        0 <= m <= n,
    ensures
        projected(d, m).len() <= projected(d, n).len(),
        projected(d, n).take(projected(d, m).len() as int) == projected(d, m),
    decreases n - m,
{
    if m < n {
        lemma_projected_prefix(d, m, n - 1);
        assert(projected(d, n).take(projected(d, m).len() as int) =~= projected(d, n - 1).take(
            projected(d, m).len() as int,
        ));
    } else {
        assert(projected(d, n).take(projected(d, m).len() as int) =~= projected(d, m));
    }
}

/// The lines of cell `i` in the projected text.
proof fn lemma_projected_lines(d: DocV, i: int)
    requires
        0 <= i < d.order.len(),
    ensures
        ({
            let text = projected(d, d.order.len() as int);
            let c = d.live[d.order[i]];
            let kind = raw_kind(c.raw);
            &&& place(d, i) < place(d, i + 1) <= text.len()
            &&& text[place(d, i)] == py_marker(kind, d.order[i])
            &&& text.subrange(place(d, i) + 1, place(d, i + 1)) == py_lines(kind, source_of(c))
        }),
{
    let n = d.order.len() as int;
    let text = projected(d, n);
    let part = projected(d, i + 1);
    let c = d.live[d.order[i]];
    let kind = raw_kind(c.raw);
    lemma_projected_prefix(d, i + 1, n);
    let m = place(d, i);
    assert(part == projected(d, i).push(py_marker(kind, d.order[i])) + py_lines(
        kind,
        source_of(c),
    ));
    assert(text.take(part.len() as int)[m] == part[m]);
    assert(text.subrange(m + 1, part.len() as int) =~= text.take(part.len() as int).subrange(
        m + 1,
        part.len() as int,
    ));
    assert(part.subrange(m + 1, part.len() as int) =~= py_lines(kind, source_of(c)));
}

/// Lines without a marker lengthen the last region.
pub proof fn lemma_scan_body(text: Text, m: int, n: int)
    requires
        0 <= m < n <= text.len(),
        scanned(text, m + 1).1.len() > 0,
        forall|j: int| m < j < n ==> py_parsed(#[trigger] text[j]) is None,
    ensures
        scanned(text, n).0 == scanned(text, m + 1).0,
        scanned(text, n).1.len() == scanned(text, m + 1).1.len(),
        scanned(text, n).1.drop_last() == scanned(text, m + 1).1.drop_last(),
        n > m + 1 ==> scanned(text, n).1.last() == (RegionV {
            end: n,
            ..scanned(text, m + 1).1.last()
        }),
    decreases n,
{
    if n > m + 1 {
        lemma_scan_body(text, m, n - 1);
        let front = scanned(text, n - 1);
        assert(py_parsed(text[n - 1]) is None);
        assert(scanned(text, n).1.drop_last() =~= front.1.drop_last());
    }
}

proof fn lemma_projected_regions(d: DocV, i: int)
    requires
        0 <= i <= d.order.len(),
        markers_read_back(d),
    ensures
        ({
            let text = projected(d, d.order.len() as int);
            let s = scanned(text, place(d, i));
            &&& place(d, i) <= text.len()
            &&& s.0 == 0
            &&& s.1 == Seq::new(i as nat, |j: int| cell_region(d, j))
        }),
    decreases i,
{
    let text = projected(d, d.order.len() as int);
    lemma_projected_prefix(d, i, d.order.len() as int);
    if i > 0 {
        lemma_projected_regions(d, i - 1);
        lemma_projected_lines(d, i - 1);
        let m = place(d, i - 1);
        let n = place(d, i);
        let c = d.live[d.order[i - 1]];
        let kind = raw_kind(c.raw);
        let lines = py_lines(kind, source_of(c));
        assert(py_parsed(text[m]) is Some) by {
            assert(d.order[i - 1] == d.order[i - 1]);
        }
        assert forall|j: int| m < j < n implies py_parsed(#[trigger] text[j]) is None by {
            assert(text.subrange(m + 1, n)[j - m - 1] == text[j]);
            assert(lines == PythonProjection.lines_of(kind, source_of(c)));
            buffer_holds_no_marker(kind, source_of(c), j - m - 1);
            assert(PythonProjection.marker_of(text[j]) == py_parsed(text[j]));
        }
        let front = scanned(text, m);
        let begun = scanned(text, m + 1);
        let region = RegionV {
            marker: Some(m),
            kind,
            key: Some(d.order[i - 1]),
            body: m + 1,
            end: m + 1,
        };
        assert(begun.1 == front.1.push(region));
        assert(begun.1.drop_last() =~= front.1);
        lemma_scan_body(text, m, n);
        let s = scanned(text, n);
        assert(s.1.last() == cell_region(d, i - 1));
        assert(s.1 =~= s.1.drop_last().push(s.1.last()));
        assert(s.1 =~= Seq::new(i as nat, |j: int| cell_region(d, j)));
    } else {
        assert(scanned(text, 0).1 =~= Seq::new(0, |j: int| cell_region(d, j)));
    }
}

/// Where nobody wants a key, none is given.
proof fn lemma_no_claims(a: Seq<Option<Name>>, want: Seq<Option<Name>>, n: int)
    requires
        0 <= n <= want.len(),
        forall|i: int| 0 <= i < n ==> (#[trigger] want[i]) is None,
    ensures
        claims(a, want, n) == a,
    decreases n,
{
    if n > 0 {
        lemma_no_claims(a, want, n - 1);
    }
}

/// Where all want different keys, and none has one, each gets what it wants.
proof fn lemma_all_claims(want: Seq<Option<Name>>, n: int)
    requires
        0 <= n <= want.len(),
        given_once(want),
    ensures
        claims(no_keys(want.len()), want, n).len() == want.len(),
        forall|i: int|
            0 <= i < want.len() ==> #[trigger] claims(no_keys(want.len()), want, n)[i] == if i < n {
                want[i]
            } else {
                None
            },
    decreases n,
{
    if n > 0 {
        lemma_all_claims(want, n - 1);
        let front = claims(no_keys(want.len()), want, n - 1);
        if let Some(k) = want[n - 1] {
            assert(!claimed(front, k)) by {
                assert forall|i: int| 0 <= i < front.len() implies #[trigger] front[i] != Some(
                    k,
                ) by {
                    if i < n - 1 && want[i] is Some {
                        assert(want[i] != want[n - 1]);
                    }
                }
            }
        }
    }
}

/// Reading a notebook's own projection changes nothing: every cell keeps its key, its kind and
/// its source, whatever the buffer held before, and no marker needs to be rewritten.
pub proof fn projection_reads_back(
    d: DocV,
    used: Set<Name>,
    layout: Seq<SpanV>,
    last: int,
    order: Seq<Name>,
)
    requires
        doc_wf(d),
        known(d, used),
        markers_read_back(d),
        ({
            let text = projected(d, d.order.len() as int);
            let e = EditV { first: 0, last, lines: text };
            let r = regions(text);
            keyed(kept_keys(used, r, keys_before(layout, e, r)), used, order)
        }),
    ensures
        ({
            let text = projected(d, d.order.len() as int);
            let r = regions(text);
            &&& order == d.order
            &&& shows(d, order, region_kinds(r), region_sources(text, r))
            &&& spans_of(r, order) == projected_layout(d, d.order.len() as int)
            &&& marker_edits(text, spans_of(r, order), r.len() as int) == Seq::<EditV>::empty()
        }),
{
    let n = d.order.len() as int;
    let text = projected(d, n);
    let e = EditV { first: 0, last, lines: text };
    let r = regions(text);
    lemma_projected_regions(d, n);
    assert(!has_text(text, 0));
    assert(r == Seq::new(n as nat, |j: int| cell_region(d, j)));
    let before = keys_before(layout, e, r);
    assert forall|i: int| 0 <= i < n implies (#[trigger] before[i]) is None by {
        lemma_projected_lines(d, i);
    }
    let same = same_keys(used, r, before);
    let said = said_keys(used, r);
    assert forall|i: int| 0 <= i < n implies #[trigger] said[i] == Some(d.order[i]) by {
        assert(d.order.contains(d.order[i]));
        assert(cell_at(d, d.order[i]) is Some);
    }
    lemma_no_claims(no_keys(r.len()), same, n);
    assert(given_once(said)) by {
        assert forall|i: int, j: int|
            0 <= i < j < said.len() && (#[trigger] said[i]) is Some implies said[i] != #[trigger] said[j] by {
            assert(d.order[i] != d.order[j]);
        }
    }
    lemma_all_claims(said, n);
    let second = claims(no_keys(r.len()), said, n);
    lemma_no_claims(second, had_keys(used, before), n);
    let kept = kept_keys(used, r, before);
    assert forall|i: int| 0 <= i < n implies #[trigger] order[i] == d.order[i] by {
        assert(kept[i] == said[i]);
    }
    assert(order =~= d.order);
    assert forall|i: int| 0 <= i < order.len() implies raw_kind(d.live[#[trigger] order[i]].raw)
        == region_kinds(r)[i] && source_of(d.live[order[i]]) == region_sources(text, r)[i] by {
        lemma_projected_lines(d, i);
        let c = d.live[d.order[i]];
        buffer_round_trip(raw_kind(c.raw), source_of(c));
    }
    lemma_projected_spans(d, n);
    assert(spans_of(r, order) =~= projected_layout(d, n));
    lemma_nothing_to_write(d, n);
}

proof fn lemma_projected_spans(d: DocV, n: int)
    requires
        0 <= n <= d.order.len(),
    ensures
        projected_layout(d, n).len() == n,
        forall|i: int|
            0 <= i < n ==> #[trigger] projected_layout(d, n)[i] == (SpanV {
                key: d.order[i],
                kind: raw_kind(d.live[d.order[i]].raw),
                marker: Some(place(d, i)),
                body: place(d, i) + 1,
                end: place(d, i + 1),
            }),
    decreases n,
{
    if n > 0 {
        lemma_projected_spans(d, n - 1);
    }
}

proof fn lemma_nothing_to_write(d: DocV, n: int)
    requires
        0 <= n <= d.order.len(),
    ensures
        marker_edits(
            projected(d, d.order.len() as int),
            projected_layout(d, d.order.len() as int),
            n,
        ) == Seq::<EditV>::empty(),
    decreases n,
{
    if n > 0 {
        lemma_nothing_to_write(d, n - 1);
        lemma_projected_spans(d, d.order.len() as int);
        lemma_projected_lines(d, n - 1);
    }
}

/// Reading a buffer loses no cell, and leaves the outputs of every cell, live or tombstoned, as
/// they are.
pub proof fn reading_keeps_cells(
    d: DocV,
    order: Seq<Name>,
    kinds: Seq<CellKind>,
    sources: Seq<Seq<char>>,
    e: DocV,
    k: Name,
)
    requires
        valid(d),
        order.no_duplicates(),
        order.len() == kinds.len() == sources.len(),
        rebuilt(d, order, kinds, sources, e),
    ensures
        valid(e),
        cell_at(d, k) is Some ==> cell_at(e, k) is Some && outputs_at(e, k) == outputs_at(d, k),
{
    assert forall|i: int| 0 <= i < order.len() implies ({
        let c = e.live[#[trigger] order[i]];
        &&& cell_wf(c.raw, c.stash)
        &&& cell_at(d, order[i]) is Some ==> held_outputs(c.raw, c.stash) == outputs_at(
            d,
            order[i],
        )
    }) by {
        match cell_at(d, order[i]) {
            Some(c) => {
                kind_keeps_cell(c.raw, c.stash, kinds[i]);
                let m = kinded(c, kinds[i]);
                source_keeps_cell(m.raw, m.stash, sources[i]);
            },
            None => {
                fresh_cell(kinds[i], sources[i]);
            },
        }
    }
    assert forall|k: Name| #[trigger] e.live.dom().contains(k) implies cell_wf(
        e.live[k].raw,
        e.live[k].stash,
    ) by {
        let i = choose|i: int| 0 <= i < order.len() && order[i] == k;
        assert(order[i] == k);
    }
    assert forall|k: Name| #[trigger] e.tombs.dom().contains(k) implies cell_wf(
        e.tombs[k].raw,
        e.tombs[k].stash,
    ) by {
        assert(cell_at(d, k) is Some);
    }
    if order.contains(k) {
        let i = choose|i: int| 0 <= i < order.len() && order[i] == k;
        assert(e.live.dom().contains(order[i]));
    }
    if cell_at(d, k) is Some && !order.contains(k) {
        assert(e.tombs.dom().contains(k));
        assert(!e.live.dom().contains(k));
    }
}

/// Every marker says its cell's key, and nothing but blank lines precedes the first.
pub open spec fn says_keys(text: Text, order: Seq<Name>) -> bool {
    &&& !has_text(text, scanned(text, text.len() as int).0)
    &&& order.len() == regions(text).len()
    &&& forall|i: int| 0 <= i < order.len() ==> regions(text)[i].key == Some(#[trigger] order[i])
}

/// An edit below the first marker that neither touches nor adds a marker.
pub open spec fn within_bodies(text: Text, e: EditV) -> bool {
    &&& 0 <= e.first <= e.last <= text.len()
    &&& scanned(text, e.first).1.len() > 0
    &&& forall|j: int| e.first <= j < e.last ==> py_parsed(#[trigger] text[j]) is None
    &&& forall|j: int| 0 <= j < e.lines.len() ==> py_parsed(#[trigger] e.lines[j]) is None
}

/// Two regions of the text before and after an edit have the same marker.
spec fn same_marker(e: EditV, a: RegionV, b: RegionV) -> bool {
    &&& a.key == b.key
    &&& a.kind == b.kind
    &&& a.marker matches Some(m) && b.marker matches Some(n) && line_before(e, n) == Some(m)
}

pub proof fn lemma_scan_prefix(a: Text, b: Text, n: int)
    requires
        0 <= n <= a.len(),
        n <= b.len(),
        forall|j: int| 0 <= j < n ==> a[j] == #[trigger] b[j],
    ensures
        scanned(a, n) == scanned(b, n),
    decreases n,
{
    if n > 0 {
        lemma_scan_prefix(a, b, n - 1);
    }
}

/// Past an edit between markers the regions are those of before, moved.
proof fn lemma_scan_moved(text: Text, e: EditV, j: int)
    requires
        within_bodies(text, e),
        0 <= j <= text.len() - e.last,
    ensures
        ({
            let a = scanned(text, e.last + j);
            let b = scanned(edited_text(text, e), e.first + e.lines.len() + j);
            &&& a.0 == b.0
            &&& a.0 < e.first
            &&& a.1.len() == b.1.len()
            &&& a.1.len() > 0
            &&& forall|i: int| 0 <= i < a.1.len() ==> same_marker(e, #[trigger] a.1[i], b.1[i])
        }),
    decreases j,
{
    let new = edited_text(text, e);
    let cnt = e.lines.len() as int;
    let a = scanned(text, e.last + j);
    let b = scanned(new, e.first + cnt + j);
    if j == 0 {
        assert forall|i: int| 0 <= i < e.first implies text[i] == #[trigger] new[i] by {}
        lemma_scan_prefix(text, new, e.first);
        lemma_scanned(text, e.first);
        let s = scanned(text, e.first);
        if e.last > e.first {
            lemma_scan_body(text, e.first - 1, e.last);
        }
        assert forall|i: int| e.first <= i < e.first + cnt implies py_parsed(
            #[trigger] new[i],
        ) is None by {
            assert(new[i] == e.lines[i - e.first]);
        }
        if cnt > 0 {
            lemma_scan_body(new, e.first - 1, e.first + cnt);
        }
        assert forall|i: int| 0 <= i < s.1.len() implies same_marker(
            e,
            #[trigger] a.1[i],
            b.1[i],
        ) by {
            assert(s.1[i].marker == Some(s.1[i].body - 1));
            if i < s.1.len() - 1 {
                assert(a.1.drop_last()[i] == a.1[i]);
                assert(b.1.drop_last()[i] == b.1[i]);
                assert(s.1.drop_last()[i] == s.1[i]);
            }
        }
    } else {
        lemma_scan_moved(text, e, j - 1);
        let fa = scanned(text, e.last + j - 1);
        let fb = scanned(new, e.first + cnt + j - 1);
        assert(new[e.first + cnt + j - 1] == text[e.last + j - 1]);
        assert forall|i: int| 0 <= i < a.1.len() implies same_marker(
            e,
            #[trigger] a.1[i],
            b.1[i],
        ) by {
            if i < fa.1.len() {
                assert(same_marker(e, fa.1[i], fb.1[i]));
            }
        }
    }
}

/// A span's key stands at its marker's line.
proof fn lemma_key_at(layout: Seq<SpanV>, i: int, n: int)
    requires
        0 <= i < n <= layout.len(),
        forall|a: int, b: int|
            0 <= a < b < layout.len() ==> (#[trigger] layout[a]).marker != (
            #[trigger] layout[b]).marker,
    ensures
        key_at(layout, layout[i].marker, n) == Some(layout[i].key),
    decreases n,
{
    if i < n - 1 {
        assert(layout[i].marker != layout[n - 1].marker);
        lemma_key_at(layout, i, n - 1);
    }
}

/// Where all have a key, no more are given.
pub proof fn lemma_full_claims(a: Seq<Option<Name>>, want: Seq<Option<Name>>, n: int)
    requires
        0 <= n <= a.len(),
        forall|i: int| 0 <= i < a.len() ==> (#[trigger] a[i]) is Some,
    ensures
        claims(a, want, n) == a,
    decreases n,
{
    if n > 0 {
        lemma_full_claims(a, want, n - 1);
    }
}

/// Typing between markers keeps every cell: once every marker says its cell's key, an edit that
/// neither touches nor adds a marker leaves the same keys and kinds in the same order.
pub proof fn typing_keeps_cells(
    text: Text,
    order: Seq<Name>,
    used: Set<Name>,
    e: EditV,
    after: Seq<Name>,
)
    requires
        says_keys(text, order),
        order.no_duplicates(),
        order.to_set().subset_of(used),
        within_bodies(text, e),
        ({
            let r = regions(edited_text(text, e));
            let layout = spans_of(regions(text), order);
            keyed(kept_keys(used, r, keys_before(layout, e, r)), used, after)
        }),
    ensures
        after == order,
        region_kinds(regions(edited_text(text, e))) == region_kinds(regions(text)),
{
    let new = edited_text(text, e);
    let old_r = regions(text);
    let r = regions(new);
    let layout = spans_of(old_r, order);
    lemma_scan_moved(text, e, text.len() - e.last);
    lemma_scanned(text, text.len() as int);
    lemma_regions(text);
    let a = scanned(text, text.len() as int);
    let b = scanned(new, new.len() as int);
    assert(!has_text(new, b.0)) by {
        assert forall|i: int| 0 <= i < b.0 implies is_blank(#[trigger] new[i]) by {
            assert(new[i] == text[i]);
        }
    }
    let n = r.len() as int;
    let before = keys_before(layout, e, r);
    assert forall|i: int| 0 <= i < n implies #[trigger] before[i] == Some(order[i]) by {
        assert(same_marker(e, a.1[i], b.1[i]));
        assert forall|x: int, y: int| 0 <= x < y < layout.len() implies (
        #[trigger] layout[x]).marker != (#[trigger] layout[y]).marker by {
            assert(a.1[x].end < a.1[y].body);
            assert(a.1[x].marker == Some(a.1[x].body - 1));
            assert(a.1[y].marker == Some(a.1[y].body - 1));
        }
        lemma_key_at(layout, i, layout.len() as int);
    }
    let same = same_keys(used, r, before);
    assert forall|i: int| 0 <= i < n implies #[trigger] same[i] == Some(order[i]) by {
        assert(same_marker(e, a.1[i], b.1[i]));
        assert(order.to_set().contains(order[i]));
        assert(before[i] == Some(order[i]));
    }
    assert(given_once(same)) by {
        assert forall|i: int, j: int|
            0 <= i < j < same.len() && (#[trigger] same[i]) is Some implies same[i] != #[trigger] same[j] by {
            assert(order[i] != order[j]);
        }
    }
    lemma_all_claims(same, n);
    let first = claims(no_keys(r.len()), same, n);
    lemma_full_claims(first, said_keys(used, r), n);
    lemma_full_claims(first, had_keys(used, before), n);
    assert forall|i: int| 0 <= i < n implies #[trigger] after[i] == order[i] by {
        assert(kept_keys(used, r, before)[i] == same[i]);
    }
    assert(after =~= order);
    assert forall|i: int| 0 <= i < n implies region_kinds(r)[i] == region_kinds(old_r)[i] by {
        assert(same_marker(e, a.1[i], b.1[i]));
    }
    assert(region_kinds(r) =~= region_kinds(old_r));
}
proof fn lemma_projected_grows(d: DocV, n: int, m: int)
    requires
        0 <= n <= m,
    ensures
        projected(d, n).len() <= projected(d, m).len(),
        projected(d, m).take(projected(d, n).len() as int) == projected(d, n),
        projected_layout(d, m).len() == m,
    decreases m,
{
    if m > 0 {
        lemma_projected_grows(d, if n < m { n } else { m - 1 }, m - 1);
        let c = d.live[d.order[m - 1]];
        let kind = raw_kind(c.raw);
        assert(projected(d, m) =~= projected(d, m - 1) + seq![py_marker(kind, d.order[m - 1])]
            + py_lines(kind, source_of(c)));
        if n < m {
            assert(projected(d, m).take(projected(d, n).len() as int) =~= projected(d, m - 1).take(
                projected(d, n).len() as int,
            ));
        } else {
            assert(projected(d, m).take(projected(d, m).len() as int) =~= projected(d, m));
        }
    } else {
        assert(projected(d, m).take(0) =~= projected(d, n));
    }
}

/// The text of a notebook shows its cells in order: each has its marker, and below it the lines
/// of its source. The next cell follows, or the end.
pub proof fn text_shows_every_cell(d: DocV, n: int, i: int)
    requires
        0 <= i < n <= d.order.len(),
    ensures
        ({
            let text = projected(d, n);
            let s = projected_layout(d, n);
            let c = d.live[d.order[i]];
            let kind = raw_kind(c.raw);
            &&& s.len() == n
            &&& s[i].key == d.order[i]
            &&& s[i].kind == kind
            &&& s[i].marker is Some
            &&& i == 0 ==> s[i].marker == Some(0int)
            &&& s[i].body == s[i].marker->0 + 1
            &&& 0 <= s[i].marker->0 < s[i].body <= s[i].end <= text.len()
            &&& text[s[i].marker->0] == py_marker(kind, d.order[i])
            &&& text.subrange(s[i].body, s[i].end) == py_lines(kind, source_of(c))
            &&& i + 1 < n ==> s[i + 1].marker == Some(s[i].end)
            &&& i + 1 == n ==> s[i].end == text.len()
        }),
    decreases n,
{
    let text = projected(d, n);
    let front = projected(d, n - 1);
    lemma_projected_grows(d, n - 1, n);
    lemma_projected_grows(d, i, n);
    lemma_projected_grows(d, i + 1, n);
    if i < n - 1 {
        text_shows_every_cell(d, n - 1, i);
        let s = projected_layout(d, n - 1);
        assert(text[s[i].marker->0] == text.take(front.len() as int)[s[i].marker->0]);
        assert(text.subrange(s[i].body, s[i].end) =~= front.subrange(s[i].body, s[i].end)) by {
            assert(text.take(front.len() as int) == front);
        }
    } else {
        let c = d.live[d.order[i]];
        let kind = raw_kind(c.raw);
        let m = front.len() as int;
        assert(text[m] == py_marker(kind, d.order[i]));
        assert(text.subrange(m + 1, text.len() as int) =~= py_lines(kind, source_of(c)));
    }
}

/// Every cell that a text shows has the type and the source that the text gives it. One that was
/// there before keeps all else that is known of its runs, and one that is shown no more is kept
/// aside as it was.
pub proof fn read_cells_have_their_source(
    d: DocV,
    order: Seq<Name>,
    kinds: Seq<CellKind>,
    sources: Seq<Seq<char>>,
    e: DocV,
    i: int,
    gone: Name,
)
    requires
        valid(d),
        order.len() == kinds.len() == sources.len(),
        rebuilt(d, order, kinds, sources, e),
        0 <= i < order.len(),
    ensures
        e.order == order,
        raw_kind(e.live[order[i]].raw) == kinds[i],
        source_of(e.live[order[i]]) == sources[i],
        cell_at(d, order[i]) is Some ==> e.live[order[i]].runtime == cell_at(d, order[i])->0.runtime,
        cell_at(d, gone) is Some && !order.contains(gone) ==> e.tombs.dom().contains(gone)
            && e.tombs[gone] == cell_at(d, gone)->0,
{
    assert(e.tombs.dom().contains(gone) == (cell_at(d, gone) is Some && !order.contains(gone)));
    match cell_at(d, order[i]) {
        Some(c) => {
            crate::document::kind_is_set(c.raw, c.stash, kinds[i]);
            kind_keeps_cell(c.raw, c.stash, kinds[i]);
            let m = kinded(c, kinds[i]);
            crate::document::source_round_trip(m.raw, sources[i]);
            source_keeps_cell(m.raw, m.stash, sources[i]);
        },
        None => {
            fresh_cell(kinds[i], sources[i]);
        },
    }
}

} // verus!
