//! Where outputs go in the buffer: the rows kept free for each cell's outputs.

use crate::adapter::CellKind;
use crate::call::{entry, list_arg, table_arg, table_view, Arg, ArgV};
use crate::history::Name;
use crate::key::CellKey;
use crate::projection::{opt_key, opt_keys, Buffer, SpanV};
use vstd::prelude::*;

verus! {

/// How many highlight groups mark the rows of outputs.
pub const SLOTS: usize = 64;

#[derive(Debug, PartialEq, Eq)]
pub struct Placement {
    pub key: CellKey,
    /// Anchor line: the next cell's marker, with the output above it, or the last line of the
    /// buffer for the final cell, with the output below it.
    pub line: usize,
    pub above: bool,
    pub height: usize,
    pub slot: u16,
}

/// What a [`Placement`] holds.
pub struct PlacementV {
    pub key: Name,
    pub line: int,
    pub above: bool,
    pub height: int,
    pub slot: int,
}

impl View for Placement {
    type V = PlacementV;

    open spec fn view(&self) -> PlacementV {
        PlacementV {
            key: self.key@,
            line: self.line as int,
            above: self.above,
            height: self.height as int,
            slot: self.slot as int,
        }
    }
}

pub open spec fn placements_view(v: Seq<Placement>) -> Seq<PlacementV> {
    Seq::new(v.len(), |i: int| v[i]@)
}

/// Whether a cell's output takes a place: a code cell under a marker, with rows to show.
pub open spec fn is_placed(s: SpanV, height: int) -> bool {
    s.kind == CellKind::Code && s.marker is Some && height > 0
}

/// The places of the outputs of the first `n` cells, where each cell's output has so many rows.
/// Slots are given in turn.
pub open spec fn placed(layout: Seq<SpanV>, lines: int, heights: Seq<usize>, n: int) -> Seq<
    PlacementV,
>
    decreases n,
{
    if n <= 0 {
        Seq::empty()
    } else {
        let front = placed(layout, lines, heights, n - 1);
        let s = layout[n - 1];
        if !is_placed(s, heights[n - 1] as int) {
            front
        } else {
            let next = if n < layout.len() {
                layout[n].marker
            } else {
                None
            };
            front.push(
                PlacementV {
                    key: s.key,
                    line: match next {
                        Some(m) => m,
                        None => if lines > 0 {
                            lines - 1
                        } else {
                            0
                        },
                    },
                    above: next is Some,
                    height: heights[n - 1] as int,
                    slot: front.len() as int % SLOTS as int,
                },
            )
        }
    }
}

/// Places for every code cell whose output is non-empty. Slots are given in the buffer's order,
/// in turn: two outputs that share one are [`SLOTS`] outputs apart, and cannot be on screen
/// together, since each takes at least a marker line, a body line and an output row.
pub fn placements(b: &Buffer, heights: &[usize]) -> (r: Vec<Placement>)
    requires
        heights@.len() == b.layout@.len(),
    ensures
        placements_view(r@) == placed(
            b.spans(),
            b.text().len() as int,
            heights@,
            b.spans().len() as int,
        ),
        forall|i: int| 0 <= i < r@.len() ==> (#[trigger] r@[i]).slot == i % SLOTS as int,
{
    let ghost spans = b.spans();
    let ghost lines = b.text().len() as int;
    let last_line: usize = if b.mirror.len() > 0 {
        b.mirror.len() - 1
    } else {
        0
    };
    let mut out: Vec<Placement> = Vec::new();
    let mut i: usize = 0;
    assert(placements_view(out@) =~= placed(spans, lines, heights@, 0));
    while i < b.layout.len()
        invariant
            i <= b.layout@.len(),
            heights@.len() == b.layout@.len(),
            spans == b.spans(),
            lines == b.text().len(),
            last_line == (if lines > 0 {
                lines - 1
            } else {
                0
            }),
            placements_view(out@) == placed(spans, lines, heights@, i as int),
            out@.len() <= i,
            forall|j: int| 0 <= j < out@.len() ==> (#[trigger] out@[j]).slot == j % SLOTS as int,
        decreases b.layout@.len() - i,
    {
        let span = &b.layout[i];
        assert(spans[i as int] == span@);
        if span.kind == CellKind::Code && span.marker.is_some() && heights[i] > 0 {
            // Anchored above the next marker, so lines appended to the cell push the output down.
            let next = if i + 1 < b.layout.len() {
                assert(spans[i + 1] == b.layout@[i + 1]@);
                b.layout[i + 1].marker
            } else {
                None
            };
            let (line, above) = match next {
                Some(m) => (m, true),
                None => (last_line, false),
            };
            let ghost front = out@;
            let p = Placement {
                key: span.key.clone(),
                line,
                above,
                height: heights[i],
                slot: (out.len() % SLOTS) as u16,
            };
            out.push(p);
            assert(placements_view(out@) =~= placements_view(front).push(p@));
        }
        i += 1;
    }
    out
}

/// The key under a slot: that of the last of the first `n` placements in it.
pub open spec fn slot_key(p: Seq<PlacementV>, slot: int, n: int) -> Option<Name>
    decreases n,
{
    if n <= 0 {
        None
    } else if p[n - 1].slot == slot {
        Some(p[n - 1].key)
    } else {
        slot_key(p, slot, n - 1)
    }
}

/// The cell under each slot.
pub fn slot_map(placements: &[Placement]) -> (r: Vec<Option<CellKey>>)
    requires
        forall|i: int| 0 <= i < placements@.len() ==> (#[trigger] placements@[i]).slot < SLOTS,
    ensures
        opt_keys(r@) == Seq::new(
            SLOTS as nat,
            |s: int|
                slot_key(placements_view(placements@), s, placements@.len() as int),
        ),
{
    let ghost p = placements_view(placements@);
    let mut slots: Vec<Option<CellKey>> = Vec::new();
    let mut s: usize = 0;
    while s < SLOTS
        invariant
            s <= SLOTS,
            slots@.len() == s,
            forall|j: int| 0 <= j < s ==> (#[trigger] slots@[j]) is None,
        decreases SLOTS - s,
    {
        slots.push(None);
        s += 1;
    }
    let mut i: usize = 0;
    while i < placements.len()
        invariant
            i <= placements@.len(),
            p == placements_view(placements@),
            slots@.len() == SLOTS,
            forall|i: int| 0 <= i < placements@.len() ==> (#[trigger] placements@[i]).slot < SLOTS,
            forall|j: int|
                0 <= j < SLOTS ==> opt_key(#[trigger] slots@[j]) == slot_key(p, j, i as int),
        decreases placements@.len() - i,
    {
        assert(p[i as int] == placements@[i as int]@);
        slots.set(placements[i].slot as usize, Some(placements[i].key.clone()));
        i += 1;
    }
    assert(opt_keys(slots@) =~= Seq::new(
        SLOTS as nat,
        |s: int| slot_key(p, s, placements@.len() as int),
    ));
    slots
}

/// A placement as it is sent.
pub open spec fn placement_arg(p: PlacementV) -> ArgV {
    ArgV::Table(
        seq![
            ("line"@, ArgV::Count(p.line as nat)),
            ("above"@, ArgV::Bool(p.above)),
            ("height"@, ArgV::Count(p.height as nat)),
            ("slot"@, ArgV::Count(p.slot as nat)),
        ],
    )
}

/// Placements as they are sent.
pub fn to_value(placements: &[Placement]) -> (r: Arg)
    ensures
        r@ == ArgV::List(
            Seq::new(placements@.len(), |i: int| placement_arg(placements@[i]@)),
        ),
{
    let mut out: Vec<Arg> = Vec::new();
    let mut i: usize = 0;
    while i < placements.len()
        invariant
            i <= placements@.len(),
            out@.len() == i,
            forall|j: int|
                0 <= j < i ==> (#[trigger] out@[j])@ == placement_arg(placements@[j]@),
        decreases placements@.len() - i,
    {
        let p = &placements[i];
        let fields = vec![
            entry("line", Arg::Count(p.line as u64)),
            entry("above", Arg::Bool(p.above)),
            entry("height", Arg::Count(p.height as u64)),
            entry("slot", Arg::Count(p.slot as u64)),
        ];
        assert(table_view(fields@) =~= placement_arg(p@)->Table_0);
        out.push(table_arg(fields));
        i += 1;
    }
    let r = list_arg(out);
    assert(r@->List_0 =~= Seq::new(placements@.len(), |i: int| placement_arg(placements@[i]@)));
    r
}

/// The outputs of a code cell that has any are placed under that cell and no other: above the
/// marker that follows it, or below the last line of the text where none does, with as many
/// rows as they need.
pub proof fn outputs_are_placed_under_their_cell(
    layout: Seq<SpanV>,
    lines: int,
    heights: Seq<usize>,
    n: int,
    i: int,
)
    requires
        0 <= i < n <= layout.len(),
        heights.len() == layout.len(),
        layout[i].kind == CellKind::Code,
        layout[i].marker is Some,
        heights[i] > 0,
        lines > 0,
    ensures
        ({
            let next = if i + 1 < layout.len() {
                layout[i + 1].marker
            } else {
                None
            };
            exists|p: int|
                0 <= p < placed(layout, lines, heights, n).len() && is_place_of(
                    #[trigger] placed(layout, lines, heights, n)[p],
                    layout[i].key,
                    match next {
                        Some(m) => m,
                        None => lines - 1,
                    },
                    next is Some,
                    heights[i] as int,
                )
        }),
    decreases n,
{
    let all = placed(layout, lines, heights, n);
    let front = placed(layout, lines, heights, n - 1);
    let next = if i + 1 < layout.len() {
        layout[i + 1].marker
    } else {
        None
    };
    let line = match next {
        Some(m) => m,
        None => lines - 1,
    };
    if i < n - 1 {
        outputs_are_placed_under_their_cell(layout, lines, heights, n - 1, i);
        let p = choose|p: int|
            0 <= p < front.len() && is_place_of(
                #[trigger] front[p],
                layout[i].key,
                line,
                next is Some,
                heights[i] as int,
            );
        assert(all[p] == front[p]);
    } else {
        let p = all.len() - 1;
        assert(is_place_of(all[p], layout[i].key, line, next is Some, heights[i] as int));
    }
}

/// Whether a place is of a cell, at a line, with so many rows.
pub open spec fn is_place_of(p: PlacementV, key: Name, line: int, above: bool, height: int) -> bool {
    p.key == key && p.line == line && p.above == above && p.height == height
}

/// Nothing but the outputs of code cells is placed, and outputs that share a slot are as far
/// apart as there are slots.
pub proof fn only_outputs_are_placed(
    layout: Seq<SpanV>,
    lines: int,
    heights: Seq<usize>,
    n: int,
    p: int,
)
    requires
        0 <= n <= layout.len(),
        heights.len() == layout.len(),
        0 <= p < placed(layout, lines, heights, n).len(),
    ensures
        placed(layout, lines, heights, n)[p].slot == p % (SLOTS as int),
        placed(layout, lines, heights, n)[p].height > 0,
        exists|i: int|
            0 <= i < n && (#[trigger] layout[i]).key == placed(layout, lines, heights, n)[p].key
                && layout[i].kind == CellKind::Code && heights[i] == placed(
                layout,
                lines,
                heights,
                n,
            )[p].height,
    decreases n,
{
    let all = placed(layout, lines, heights, n);
    let front = placed(layout, lines, heights, n - 1);
    if p < front.len() {
        only_outputs_are_placed(layout, lines, heights, n - 1, p);
        assert(all[p] == front[p]);
    } else {
        assert(layout[n - 1].key == all[p].key);
    }
}

/// A slot names the cell whose outputs it holds, where no two hold the same slot.
pub proof fn slots_name_their_cells(p: Seq<PlacementV>, n: int, i: int)
    requires
        0 <= i < n <= p.len(),
        forall|a: int, b: int|
            0 <= a < b < p.len() ==> (#[trigger] p[a]).slot != (#[trigger] p[b]).slot,
    ensures
        slot_key(p, p[i].slot, n) == Some(p[i].key),
    decreases n,
{
    if i < n - 1 {
        assert(p[i].slot != p[n - 1].slot);
        slots_name_their_cells(p, n - 1, i);
    }
}

/// A slot that nothing is placed in names no cell.
pub proof fn empty_slots_name_nothing(p: Seq<PlacementV>, slot: int, n: int)
    requires
        0 <= n <= p.len(),
        forall|a: int| 0 <= a < p.len() ==> (#[trigger] p[a]).slot != slot,
    ensures
        slot_key(p, slot, n) is None,
    decreases n,
{
    if n > 0 {
        assert(p[n - 1].slot != slot);
        empty_slots_name_nothing(p, slot, n - 1);
    }
}

/// A placement is sent with its line, whether it stands above it, its rows and its slot, each
/// under its name.
pub proof fn placements_say_their_numbers(p: PlacementV)
    requires
        p.line >= 0,
        p.height >= 0,
        p.slot >= 0,
    ensures
        placement_arg(p) is Table,
        placement_arg(p)->Table_0.len() == 4,
        placement_arg(p)->Table_0.contains(("line"@, ArgV::Count(p.line as nat))),
        placement_arg(p)->Table_0.contains(("above"@, ArgV::Bool(p.above))),
        placement_arg(p)->Table_0.contains(("height"@, ArgV::Count(p.height as nat))),
        placement_arg(p)->Table_0.contains(("slot"@, ArgV::Count(p.slot as nat))),
{
    let t = placement_arg(p)->Table_0;
    assert(t[0] == ("line"@, ArgV::Count(p.line as nat)));
    assert(t[1] == ("above"@, ArgV::Bool(p.above)));
    assert(t[2] == ("height"@, ArgV::Count(p.height as nat)));
    assert(t[3] == ("slot"@, ArgV::Count(p.slot as nat)));
}

} // verus!
