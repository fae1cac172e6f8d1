//! Structural commands as edits of the buffer. Each returns edits against the current text,
//! from the bottom up, and where the cursor should go; the frontend applies them to its editor,
//! and they come back through [`Buffer::apply_edit`] like any other edit.

use crate::adapter::{py_lines, py_marker, py_source, CellKind, LanguageProjection, PythonProjection};
use crate::history::Name;
use crate::notebook::Notebook;
use crate::parts::reads_back;
use crate::projection::{
    edited_text, edits_view, lines_between, opt_line, Buffer, CellSpan, EditV, LineEdit, SpanV, Text,
};
use crate::text::texts;
use vstd::prelude::*;

verus! {

/// Edits, and where the cursor goes.
#[derive(Debug, PartialEq, Eq)]
pub struct Plan {
    pub edits: Vec<LineEdit>,
    /// The cursor's line once the edits have been applied.
    pub cursor: Option<usize>,
}

/// What a [`Plan`] holds.
pub struct PlanV {
    pub edits: Seq<EditV>,
    pub cursor: Option<int>,
}

impl View for Plan {
    type V = PlanV;

    open spec fn view(&self) -> PlanV {
        PlanV { edits: edits_view(self.edits@), cursor: opt_line(self.cursor) }
    }
}

#[derive(Clone, Copy, Debug, PartialEq, Eq, Structural)]
pub enum Direction {
    Up,
    Down,
}

/// The last of the first `n` spans that begins at or before a line.
pub open spec fn span_at(layout: Seq<SpanV>, line: int, n: int) -> Option<int>
    decreases n,
{
    if n <= 0 {
        None
    } else if (match layout[n - 1].marker {
        Some(m) => m,
        None => 0,
    }) <= line {
        Some(n - 1)
    } else {
        span_at(layout, line, n - 1)
    }
}

/// The span that a line belongs to.
pub open spec fn span_of(layout: Seq<SpanV>, line: int) -> Option<int> {
    span_at(layout, line, layout.len() as int)
}

/// A span's first line: its marker, or its body where it has none.
pub open spec fn start_of(s: SpanV) -> int {
    match s.marker {
        Some(m) => m,
        None => s.body,
    }
}

/// One edit.
pub open spec fn one_edit(first: int, last: int, lines: Text, cursor: Option<int>) -> PlanV {
    PlanV { edits: seq![EditV { first, last, lines }], cursor }
}

/// Nothing to do.
pub open spec fn idle() -> PlanV {
    PlanV { edits: Seq::empty(), cursor: None }
}

/// The edits replace lines that a text of `n` lines has.
pub open spec fn fits(p: PlanV, n: int) -> bool {
    forall|i: int| 0 <= i < p.edits.len() ==> 0 <= (#[trigger] p.edits[i]).first <= p.edits[i].last <= n
}

pub open spec fn added(b: &Buffer, line: int, above: bool, key: Name) -> PlanV {
    let at = match span_of(b.spans(), line) {
        Some(i) => if above {
            start_of(b.spans()[i])
        } else {
            b.spans()[i].end
        },
        None => b.text().len() as int,
    };
    one_edit(at, at, seq![py_marker(CellKind::Code, key), Seq::empty()], Some(at + 1))
}

pub open spec fn deleted(b: &Buffer, line: int) -> PlanV {
    match span_of(b.spans(), line) {
        None => idle(),
        Some(i) => {
            let s = b.spans()[i];
            let at = start_of(s);
            let remaining = b.text().len() - (s.end - at);
            one_edit(
                at,
                s.end,
                Seq::empty(),
                if remaining == 0 {
                    None
                } else if at < remaining {
                    Some(at)
                } else {
                    Some(remaining - 1)
                },
            )
        },
    }
}

/// Whether a cell can be split at a line: the line is one of its body, or the body is empty and
/// the line is where it would be.
pub open spec fn splits(s: SpanV, line: int) -> bool {
    s.body <= line && (line < s.end || line == s.body)
}

pub open spec fn split_in(b: &Buffer, line: int) -> Option<SpanV> {
    match span_of(b.spans(), line) {
        Some(i) => if splits(b.spans()[i], line) {
            Some(b.spans()[i])
        } else {
            None
        },
        None => None,
    }
}

pub open spec fn merged(b: &Buffer, line: int) -> PlanV {
    match span_of(b.spans(), line) {
        Some(i) if i + 1 < b.spans().len() => {
            let m = start_of(b.spans()[i + 1]);
            one_edit(m, m + 1, Seq::empty(), Some(line))
        },
        _ => idle(),
    }
}

pub open spec fn swapped(b: &Buffer, line: int, dir: Direction) -> PlanV {
    match span_of(b.spans(), line) {
        None => idle(),
        Some(i) => {
            let j = match dir {
                Direction::Up => i - 1,
                Direction::Down => i + 1,
            };
            let (x, y) = if i < j {
                (i, j)
            } else {
                (j, i)
            };
            if x < 0 || y >= b.spans().len() || b.spans()[x].marker is None {
                idle()
            } else {
                let first = start_of(b.spans()[x]);
                let mid = start_of(b.spans()[y]);
                let last = b.spans()[y].end;
                let offset = line - start_of(b.spans()[i]);
                one_edit(
                    first,
                    last,
                    b.text().subrange(mid, last) + b.text().subrange(first, mid),
                    Some(
                        match dir {
                            Direction::Up => first + offset,
                            Direction::Down => first + (last - mid) + offset,
                        },
                    ),
                )
            }
        },
    }
}

pub open spec fn retyped(b: &Buffer, line: int, kind: CellKind) -> PlanV {
    match span_of(b.spans(), line) {
        None => idle(),
        Some(i) => {
            let s = b.spans()[i];
            if s.kind == kind {
                idle()
            } else {
                let source = py_source(s.kind, b.text().subrange(s.body, s.end));
                one_edit(
                    start_of(s),
                    s.end,
                    seq![py_marker(kind, s.key)] + py_lines(kind, source),
                    Some(line),
                )
            }
        },
    }
}

fn no_plan() -> (r: Plan)
    ensures
        r@ == idle(),
{
    let r = Plan { edits: Vec::new(), cursor: None };
    assert(r@.edits =~= idle().edits);
    r
}

fn plan(first: usize, last: usize, lines: Vec<String>, cursor: Option<usize>) -> (r: Plan)
    ensures
        r@ == one_edit(first as int, last as int, texts(lines@), opt_line(cursor)),
{
    let edit = LineEdit { first, last, lines };
    let edits = vec![edit];
    assert(edits_view(edits@) =~= seq![edit@]);
    Plan { edits, cursor }
}

fn span_index(b: &Buffer, line: usize) -> (r: Option<usize>)
    ensures
        opt_line(r) == span_of(b.spans(), line as int),
        match r {
            Some(i) => i < b.layout.len(),
            None => true,
        },
{
    let mut n: usize = b.layout.len();
    while n > 0
        invariant
            n <= b.layout@.len(),
            span_of(b.spans(), line as int) == span_at(b.spans(), line as int, n as int),
        decreases n,
    {
        assert(b.spans()[n - 1] == b.layout@[n - 1]@);
        let begins = match b.layout[n - 1].marker {
            Some(m) => m,
            None => 0,
        };
        if begins <= line {
            return Some(n - 1);
        }
        n -= 1;
    }
    None
}

fn start(s: &CellSpan) -> (r: usize)
    ensures
        r == start_of(s@),
{
    match s.marker {
        Some(m) => m,
        None => s.body,
    }
}

/// A new, empty cell below, or above, the cell at `line`.
pub fn add(nb: &mut Notebook, b: &Buffer, line: usize, above: bool) -> (r: Plan)
    requires
        old(nb).wf(),
        b.wf(),
        b.mirror.len() < usize::MAX,
    ensures
        final(nb).wf(),
        exists|key: Name|
            {
                &&& final(nb).minted(old(nb), key)
                &&& reads_back(CellKind::Code, key)
                &&& r@ == #[trigger] added(b, line as int, above, key)
            },
        fits(r@, b.text().len() as int),
{
    let key = nb.mint_key();
    let marker = PythonProjection.format_marker(CellKind::Code, &key);
    let at = match span_index(b, line) {
        Some(i) => {
            let s = &b.layout[i];
            assert(b.spans()[i as int] == s@);
            if above {
                start(s)
            } else {
                s.end
            }
        },
        None => b.mirror.len(),
    };
    let lines = vec![marker, "".to_string()];
    proof {
        reveal_strlit("");
        assert(lines@[1]@ =~= Seq::<char>::empty());
        assert(texts(lines@) =~= seq![marker@, Seq::empty()]);
    }
    let r = plan(at, at, lines, Some(at + 1));
    assert(r@ == added(b, line as int, above, key@));
    r
}

/// Removes the cell at `line`.
pub fn delete(b: &Buffer, line: usize) -> (r: Plan)
    requires
        b.wf(),
    ensures
        r@ == deleted(b, line as int),
        fits(r@, b.text().len() as int),
{
    match span_index(b, line) {
        None => no_plan(),
        Some(i) => {
            let s = &b.layout[i];
            assert(b.spans()[i as int] == s@);
            let at = start(s);
            let remaining = b.mirror.len() - (s.end - at);
            let cursor = if remaining == 0 {
                None
            } else if at < remaining {
                Some(at)
            } else {
                Some(remaining - 1)
            };
            let lines: Vec<String> = Vec::new();
            assert(texts(lines@) =~= Seq::empty());
            plan(at, s.end, lines, cursor)
        },
    }
}

/// Splits the cell at `line`: the lines from `line` on become a new cell of the same kind. The
/// first half keeps the key and outputs.
pub fn split(nb: &mut Notebook, b: &Buffer, line: usize) -> (r: Plan)
    requires
        old(nb).wf(),
        b.wf(),
        b.mirror.len() < usize::MAX,
    ensures
        final(nb).wf(),
        match split_in(b, line as int) {
            Some(s) => exists|key: Name|
                {
                    &&& #[trigger] final(nb).minted(old(nb), key)
                    &&& reads_back(s.kind, key)
                    &&& r@ == one_edit(
                        line as int,
                        line as int,
                        seq![py_marker(s.kind, key)],
                        Some(line + 1),
                    )
                },
            None => *final(nb) == *old(nb) && r@ == idle(),
        },
        fits(r@, b.text().len() as int),
{
    match span_index(b, line) {
        None => no_plan(),
        Some(i) => {
            let s = &b.layout[i];
            assert(b.spans()[i as int] == s@);
            if line < s.body || (line >= s.end && line > s.body) {
                return no_plan();
            }
            let key = nb.mint_key();
            let marker = PythonProjection.format_marker(s.kind, &key);
            let lines = vec![marker];
            assert(texts(lines@) =~= seq![marker@]);
            plan(line, line, lines, Some(line + 1))
        },
    }
}

/// Merges the next cell into the cell at `line` by removing the next marker. The next cell is
/// tombstoned with its outputs.
pub fn merge(b: &Buffer, line: usize) -> (r: Plan)
    requires
        b.wf(),
    ensures
        r@ == merged(b, line as int),
        fits(r@, b.text().len() as int),
{
    match span_index(b, line) {
        None => no_plan(),
        Some(i) => {
            if i + 1 >= b.layout.len() {
                return no_plan();
            }
            let s = &b.layout[i + 1];
            assert(b.spans()[i + 1] == s@);
            assert(s.marker is Some);
            let m = start(s);
            let lines: Vec<String> = Vec::new();
            assert(texts(lines@) =~= Seq::empty());
            plan(m, m + 1, lines, Some(line))
        },
    }
}

pub proof fn lemma_before_next(layout: Seq<SpanV>, line: int, n: int, i: int)
    requires
        0 <= n <= layout.len(),
        span_at(layout, line, n) == Some(i),
        i + 1 < n,
        layout[i + 1].marker is Some,
    ensures
        line < layout[i + 1].marker->0,
    decreases n,
{
    if i + 1 < n - 1 {
        lemma_before_next(layout, line, n - 1, i);
    }
}

pub proof fn lemma_begins(layout: Seq<SpanV>, line: int, n: int, i: int)
    requires
        0 <= n <= layout.len(),
        span_at(layout, line, n) == Some(i),
    ensures
        0 <= i < n,
        (match layout[i].marker {
            Some(m) => m,
            None => 0,
        }) <= line,
    decreases n,
{
    if span_at(layout, line, n - 1) == Some(i) {
        lemma_begins(layout, line, n - 1, i);
    }
}

/// Swaps the cell at `line` with its neighbour, as one edit, so that both keep their identity.
pub fn swap(b: &Buffer, line: usize, dir: Direction) -> (r: Plan)
    requires
        b.wf(),
    ensures
        r@ == swapped(b, line as int, dir),
        fits(r@, b.text().len() as int),
{
    let i = match span_index(b, line) {
        None => {
            return no_plan();
        },
        Some(i) => i,
    };
    let x = match dir {
        Direction::Up => {
            if i == 0 {
                return no_plan();
            }
            i - 1
        },
        Direction::Down => i,
    };
    let y = x + 1;
    if y >= b.layout.len() {
        return no_plan();
    }
    let above = &b.layout[x];
    let below = &b.layout[y];
    proof {
        assert(b.spans()[x as int] == above@);
        assert(b.spans()[y as int] == below@);
        assert(b.spans()[i as int] == b.layout@[i as int]@);
        assert(below.marker is Some);
        assert(above.end <= below.body - 1);
        lemma_begins(b.spans(), line as int, b.spans().len() as int, i as int);
        if dir == Direction::Down {
            lemma_before_next(b.spans(), line as int, b.spans().len() as int, i as int);
        }
    }
    if above.marker.is_none() {
        return no_plan();
    }
    let first = start(above);
    let mid = start(below);
    let last = below.end;
    let mut lines = lines_between(&b.mirror, mid, last);
    let mut front = lines_between(&b.mirror, first, mid);
    let ghost moved = lines@;
    let ghost kept = front@;
    lines.append(&mut front);
    assert(texts(lines@) =~= texts(moved) + texts(kept));
    let offset = line - start(&b.layout[i]);
    let cursor = match dir {
        Direction::Up => first + offset,
        Direction::Down => first + (last - mid) + offset,
    };
    plan(first, last, lines, Some(cursor))
}

/// Changes the cell at `line` to `kind`, with its body shown as the new kind shows it.
pub fn set_type(b: &Buffer, line: usize, kind: CellKind) -> (r: Plan)
    requires
        b.wf(),
    ensures
        r@ == retyped(b, line as int, kind),
        r@.edits.len() > 0 ==> reads_back(
            kind,
            b.spans()[span_of(b.spans(), line as int)->0].key,
        ),
        fits(r@, b.text().len() as int),
{
    match span_index(b, line) {
        None => no_plan(),
        Some(i) => {
            let s = &b.layout[i];
            assert(b.spans()[i as int] == s@);
            if s.kind == kind {
                return no_plan();
            }
            let body = lines_between(&b.mirror, s.body, s.end);
            let source = PythonProjection.from_buffer(s.kind, body.as_slice());
            let marker = PythonProjection.format_marker(kind, &s.key);
            let mut lines = vec![marker];
            let mut shown = PythonProjection.to_buffer(kind, source.as_str());
            let ghost rest = shown@;
            lines.append(&mut shown);
            assert(texts(lines@) =~= seq![marker@] + texts(rest));
            plan(start(s), s.end, lines, Some(line))
        },
    }
}

/// The first body line of the cell after the one at `line`, if any.
pub fn next_cell_line(b: &Buffer, line: usize) -> (r: Option<usize>)
    ensures
        opt_line(r) == ({
            let i = match span_of(b.spans(), line as int) {
                Some(i) => i + 1,
                None => 0,
            };
            if i < b.spans().len() {
                Some(b.spans()[i].body)
            } else {
                None
            }
        }),
{
    let i: usize = match span_index(b, line) {
        Some(i) => i + 1,
        None => 0,
    };
    if i < b.layout.len() {
        assert(b.spans()[i as int] == b.layout@[i as int]@);
        Some(b.layout[i].body)
    } else {
        None
    }
}

/// A line belongs to the cell that begins at it or above it, and before whose end or next
/// neighbour it stands.
pub proof fn line_belongs_to_the_cell_around_it(layout: Seq<SpanV>, line: int, n: int, i: int)
    requires
        0 <= i < n <= layout.len(),
        forall|j: int| 0 <= j < layout.len() ==> (#[trigger] layout[j]).marker is Some,
        layout[i].marker->0 <= line,
        forall|j: int| i < j < n ==> line < (#[trigger] layout[j]).marker->0,
    ensures
        span_at(layout, line, n) == Some(i),
    decreases n,
{
    assert(layout[n - 1].marker is Some);
    if i < n - 1 {
        line_belongs_to_the_cell_around_it(layout, line, n - 1, i);
    }
}

/// Moving a cell takes the cursor along: it stands on the same line of the same cell as before.
pub proof fn cursor_moves_with_its_cell(b: &Buffer, line: int, dir: Direction, i: int)
    requires
        span_of(b.spans(), line) == Some(i),
        0 <= i < b.spans().len(),
        swapped(b, line, dir) != idle(),
        start_of(b.spans()[i]) <= line < b.spans()[i].end,
        forall|j: int|
            0 <= j < b.spans().len() - 1 ==> (#[trigger] b.spans()[j]).end == start_of(
                b.spans()[j + 1],
            ),
        forall|j: int|
            0 <= j < b.spans().len() ==> 0 <= start_of(#[trigger] b.spans()[j]) <= b.spans()[j].end
                <= b.text().len(),
    ensures
        ({
            let p = swapped(b, line, dir);
            let new = edited_text(b.text(), p.edits[0]);
            &&& p.edits.len() == 1
            &&& p.cursor is Some
            &&& new.len() == b.text().len()
            &&& 0 <= p.cursor->0 < new.len()
            &&& new[p.cursor->0] == b.text()[line]
        }),
{
    let s = b.spans();
    let text = b.text();
    let j = match dir {
        Direction::Up => i - 1,
        Direction::Down => i + 1,
    };
    let (x, y) = if i < j {
        (i, j)
    } else {
        (j, i)
    };
    assert(0 <= x && y < s.len());
    assert(s[x].end == start_of(s[x + 1]));
    let first = start_of(s[x]);
    let mid = start_of(s[y]);
    let last = s[y].end;
    let p = swapped(b, line, dir);
    let new = edited_text(text, p.edits[0]);
    let c = p.cursor->0;
    assert(new =~= text.take(first) + (text.subrange(mid, last) + text.subrange(first, mid))
        + text.skip(last));
    match dir {
        Direction::Up => {
            assert(new[c] == text.subrange(mid, last)[line - mid]);
        },
        Direction::Down => {
            assert(new[c] == text.subrange(first, mid)[line - first]);
        },
    }
}

/// After a cell is added the cursor stands on its empty line, right below its marker; after a
/// join or a new type it stands on the line where it was.
pub proof fn cursor_is_left_in_the_cell(b: &Buffer, line: int, above: bool, key: Name, kind: CellKind)
    requires
        fits(added(b, line, above, key), b.text().len() as int),
    ensures
        ({
            let p = added(b, line, above, key);
            let new = edited_text(b.text(), p.edits[0]);
            &&& p.edits.len() == 1
            &&& new.len() == b.text().len() + 2
            &&& p.cursor is Some && 0 < p.cursor->0 < new.len()
            &&& new[p.cursor->0].len() == 0
            &&& new[p.cursor->0 - 1] == py_marker(CellKind::Code, key)
        }),
        merged(b, line).edits.len() > 0 ==> merged(b, line).cursor == Some(line),
        retyped(b, line, kind).edits.len() > 0 ==> retyped(b, line, kind).cursor == Some(line),
{
    let p = added(b, line, above, key);
    let e = p.edits[0];
    assert(0 <= e.first <= e.last <= b.text().len());
    let new = edited_text(b.text(), e);
    let c = p.cursor->0;
    assert(new[c] == e.lines[1]);
    assert(new[c - 1] == e.lines[0]);
}

} // verus!
