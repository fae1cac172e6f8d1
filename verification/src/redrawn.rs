//! What Neovim says it draws is what the grid holds.

use crate::compose::decimal_round_trip;
use crate::grid::{
    applied_to, blank, last_hl, scrolled, slot_named, slot_of, spread, Grid, GridCellV,
};
use crate::msg::{entry_from, m_bool, m_get, m_i64, m_items, m_str, m_u64, MsgV};
use crate::redraw::{
    batch_events, batch_upto, call_event, events_of, line_cells, mode_of, CursorShape, LineCellV,
    RedrawEvent, RedrawV,
};
use crate::text::{decimal, starts_with};
use vstd::prelude::*;

verus! {

/// Where the cell at `j` of a line begins among the cells written out.
pub open spec fn start_of(cells: Seq<LineCellV>, j: int) -> int
    decreases j,
{
    if j <= 0 {
        0
    } else {
        start_of(cells, j - 1) + cells[j - 1].repeat
    }
}

proof fn lemma_spread(cells: Seq<LineCellV>, n: int)
    requires
        0 <= n <= cells.len(),
    ensures
        spread(cells.take(n)).len() == start_of(cells, n),
        forall|j: int, p: int|
            #![trigger cells[j], spread(cells.take(n))[start_of(cells, j) + p]]
            0 <= j < n && 0 <= p < cells[j].repeat ==> spread(cells.take(n))[start_of(cells, j) + p]
                == (GridCellV { text: cells[j].text, hl: last_hl(cells.take(j + 1)) }),
        forall|j: int| 0 <= j <= n ==> 0 <= #[trigger] start_of(cells, j) <= start_of(cells, n),
    decreases n,
{
    if n > 0 {
        lemma_spread(cells, n - 1);
        let now = cells.take(n);
        let front = cells.take(n - 1);
        assert(now.drop_last() =~= front);
        assert(now.last() == cells[n - 1]);
        let s = spread(front);
        let all = spread(now);
        assert forall|j: int| 0 <= j <= n implies 0 <= #[trigger] start_of(cells, j) <= start_of(
            cells,
            n,
        ) by {
            if j < n {
                assert(start_of(cells, j) <= start_of(cells, n - 1));
            }
        }
        assert forall|j: int, p: int|
            #![trigger cells[j], all[start_of(cells, j) + p]]
            0 <= j < n && 0 <= p < cells[j].repeat implies all[start_of(cells, j) + p] == (GridCellV {
            text: cells[j].text,
            hl: last_hl(cells.take(j + 1)),
        }) by {
            if j < n - 1 {
                assert(start_of(cells, j + 1) <= start_of(cells, n - 1));
                assert(all[start_of(cells, j) + p] == s[start_of(cells, j) + p]);
            }
        }
    }
}

/// A line that Neovim draws is on the grid: each of its cells stands after those before it, as
/// often as it is repeated, in its own highlight or, where it has none, in that of the cell
/// before. Every other place is as it was.
pub proof fn drawn_line_is_on_the_grid(
    before: &Grid,
    after: &Grid,
    ev: RedrawEvent,
    j: int,
    p: int,
    row: int,
    col: int,
)
    requires
        ev is GridLine,
        applied_to(before, after, ev),
        0 <= j < ev->GridLine_cells@.len(),
        0 <= p < ev->GridLine_cells@[j].repeat,
        0 <= row < before.height,
        0 <= col < before.width,
    ensures
        ({
            let cells = line_cells(ev->GridLine_cells@);
            let from = ev->GridLine_col as int;
            let at = from + start_of(cells, j) + p;
            let end = from + start_of(cells, cells.len() as int);
            &&& ev->GridLine_row < before.height && at < before.width ==> {
                &&& after.at(ev->GridLine_row as int, at).text == cells[j].text
                &&& cells[j].hl is Some ==> after.at(ev->GridLine_row as int, at).hl == cells[j].hl->0
                &&& cells[j].hl is None && j > 0 && cells[j - 1].repeat > 0 ==> after.at(
                    ev->GridLine_row as int,
                    at,
                ).hl == after.at(
                    ev->GridLine_row as int,
                    from + start_of(cells, j - 1),
                ).hl
            }
            &&& row != ev->GridLine_row || col < from || col >= end ==> after.at(row, col) == before.at(
                row,
                col,
            )
            &&& after.width == before.width && after.height == before.height
            &&& after.cursor == before.cursor
        }),
{
    let cells = line_cells(ev->GridLine_cells@);
    let n = cells.len() as int;
    let from = ev->GridLine_col as int;
    let r = ev->GridLine_row as int;
    assert(cells[j] == ev->GridLine_cells@[j]@);
    lemma_spread(cells, n);
    assert(cells.take(n) =~= cells);
    let out = spread(cells);
    let x = start_of(cells, j) + p;
    assert(out[x] == (GridCellV { text: cells[j].text, hl: last_hl(cells.take(j + 1)) }));
    assert(start_of(cells, j + 1) <= start_of(cells, n));
    assert(cells.take(j + 1).last() == cells[j]);
    if r < before.height && from + x < before.width {
        assert(after.at(r, from + x) == out[from + x - from]);
        if cells[j].hl is None && j > 0 && cells[j - 1].repeat > 0 {
            let y = start_of(cells, j - 1);
            let q: int = 0;
            assert(cells[j - 1].repeat > q);
            assert(out[start_of(cells, j - 1) + q] == (GridCellV {
                text: cells[j - 1].text,
                hl: last_hl(cells.take(j - 1 + 1)),
            }));
            assert(cells.take(j + 1).drop_last() =~= cells.take(j));
            assert(start_of(cells, j) == y + cells[j - 1].repeat);
            assert(start_of(cells, j) <= start_of(cells, n));
            assert(from + y < before.width);
            assert(after.at(r, from + y) == out[from + y - from]);
        }
    }
    assert(after.at(row, col) == if row == r && from <= col < from + out.len() {
        out[col - from]
    } else {
        before.at(row, col)
    });
}

/// Scrolling moves the rows of its region, and nothing else: by a positive number up, by a
/// negative one down.
pub proof fn scrolling_moves_rows(before: &Grid, after: &Grid, ev: RedrawEvent, row: int, col: int)
    requires
        ev is GridScroll,
        applied_to(before, after, ev),
        0 <= row < before.height,
        0 <= col < before.width,
    ensures
        ({
            let top = ev->GridScroll_top as int;
            let bot = ev->GridScroll_bot as int;
            let inside = ev->GridScroll_left <= col < ev->GridScroll_right && top <= row < bot;
            let from = row + ev->GridScroll_rows;
            &&& inside && top <= from < bot && from < before.height && ev->GridScroll_rows != 0
                ==> after.at(row, col) == before.at(from, col)
            &&& !inside ==> after.at(row, col) == before.at(row, col)
            &&& after.width == before.width && after.height == before.height
            &&& after.cursor == before.cursor
        }),
{
    assert(after.at(row, col) == scrolled(
        before,
        ev->GridScroll_top as int,
        ev->GridScroll_bot as int,
        ev->GridScroll_left as int,
        ev->GridScroll_right as int,
        ev->GridScroll_rows as int,
        row,
        col,
    ));
}

/// A grid that is cleared or resized is blank all over, and of the size it is given.
pub proof fn cleared_grid_is_blank(before: &Grid, after: &Grid, ev: RedrawEvent, row: int, col: int)
    requires
        ev is GridClear || ev is GridResize,
        applied_to(before, after, ev),
        0 <= row < after.height,
        0 <= col < after.width,
    ensures
        after.at(row, col).text == " "@,
        after.at(row, col).hl == 0,
        ev is GridResize ==> after.width == ev->GridResize_width && after.height
            == ev->GridResize_height,
        ev is GridClear ==> after.width == before.width && after.height == before.height,
{
    assert(after.at(row, col) == blank());
}

/// The cursor, the default colours, the mode, the title and whether Neovim is busy are as it
/// said last; a highlight is the one defined last under its number; none of these touches what
/// is drawn.
pub proof fn grid_remembers_what_is_said(before: &Grid, after: &Grid, ev: RedrawEvent)
    requires
        applied_to(before, after, ev),
    ensures
        match ev {
            RedrawEvent::GridCursorGoto { row, col, .. } => after.cursor == (row, col)
                && after.cells == before.cells,
            RedrawEvent::DefaultColors { fg, bg, .. } => after.default_fg == fg && after.default_bg
                == bg && after.cells == before.cells && after.cursor == before.cursor,
            RedrawEvent::ModeChange { mode, index } => after.mode_name@ == mode@ && after.mode
                == index && after.cells == before.cells && after.cursor == before.cursor,
            RedrawEvent::ModeInfoSet { modes } => after.modes@ == modes@ && after.cells
                == before.cells,
            RedrawEvent::SetTitle(t) => after.title == Some(t) && after.cells == before.cells,
            RedrawEvent::BusyStart => after.busy && after.cells == before.cells,
            RedrawEvent::BusyStop => !after.busy && after.cells == before.cells,
            RedrawEvent::HlAttrDefine { id, attr } => {
                &&& after.hl@.dom().contains(id)
                &&& after.hl@[id]@ == attr@
                &&& after.cells == before.cells
                &&& forall|other: u32|
                    other != id ==> (#[trigger] after.hl@.dom().contains(other)
                        == before.hl@.dom().contains(other)) && (before.hl@.dom().contains(other)
                        ==> after.hl@[other] == before.hl@[other])
                &&& forall|other: u32|
                    other != id ==> (#[trigger] after.slots@.dom().contains(other)
                        == before.slots@.dom().contains(other)) && (before.slots@.dom().contains(
                        other,
                    ) ==> after.slots@[other] == before.slots@[other])
            },
            RedrawEvent::Flush => *after == *before,
            _ => true,
        },
{
}

/// A highlight under the name of an output's slot marks the placeholders of that slot, and a
/// highlight under no such name marks none.
pub proof fn slot_highlights_mark_placeholders(
    before: &Grid,
    after: &Grid,
    ev: RedrawEvent,
    n: u16,
)
    requires
        ev is HlAttrDefine,
        applied_to(before, after, ev),
    ensures
        ({
            let names = ev->HlAttrDefine_attr@.names;
            let id = ev->HlAttrDefine_id;
            &&& names.len() > 0 && names[0] == "NbvOutputSlot"@ + decimal(n as nat)
                ==> after.slots@.dom().contains(id) && after.slots@[id] == n
            &&& (forall|i: int|
                0 <= i < names.len() ==> !starts_with(#[trigger] names[i], "NbvOutputSlot"@))
                ==> !after.slots@.dom().contains(id)
        }),
{
    let names = ev->HlAttrDefine_attr@.names;
    if names.len() > 0 && names[0] == "NbvOutputSlot"@ + decimal(n as nat) {
        slot_name_round_trip(n);
    }
    if forall|i: int| 0 <= i < names.len() ==> !starts_with(#[trigger] names[i], "NbvOutputSlot"@) {
        lemma_no_slot(names, 0);
    }
}

/// The name of a slot's highlight names the slot.
pub proof fn slot_name_round_trip(n: u16)
    ensures
        slot_named("NbvOutputSlot"@ + decimal(n as nat)) == Some(n),
{
    reveal_strlit("NbvOutputSlot");
    let d = decimal(n as nat);
    decimal_round_trip(n as nat);
    let name = "NbvOutputSlot"@ + d;
    assert(name.take("NbvOutputSlot"@.len() as int) =~= "NbvOutputSlot"@);
    assert(name.skip("NbvOutputSlot"@.len() as int) =~= d);
    assert(d[0] != '+');
}

proof fn lemma_no_slot(names: Seq<Seq<char>>, i: int)
    requires
        0 <= i,
        forall|j: int|
            0 <= j < names.len() ==> !starts_with(#[trigger] names[j], "NbvOutputSlot"@),
    ensures
        slot_of(names, i) is None,
    decreases names.len() - i,
{
    if i < names.len() {
        assert(!starts_with(names[i], "NbvOutputSlot"@));
        lemma_no_slot(names, i + 1);
    }
}

/// Whether a message is a number that is not negative.
pub open spec fn is_count(v: MsgV, n: u64) -> bool {
    m_u64(v) == Some(n)
}

/// Whether the first messages of a call are these numbers.
pub open spec fn has_counts(a: Seq<MsgV>, n: Seq<u64>) -> bool {
    a.len() >= n.len() && forall|i: int| 0 <= i < n.len() ==> is_count(#[trigger] a[i], n[i])
}

proof fn lemma_event_names()
    ensures
        "grid_resize"@.len() == 11,
        "grid_line"@.len() == 9,
        "grid_scroll"@.len() == 11,
        "grid_clear"@.len() == 10,
        "grid_cursor_goto"@.len() == 16,
        "hl_attr_define"@.len() == 14,
        "default_colors_set"@.len() == 18,
        "mode_info_set"@.len() == 13,
        "mode_change"@.len() == 11,
        "busy_start"@.len() == 10,
        "busy_stop"@.len() == 9,
        "set_title"@.len() == 9,
        "flush"@.len() == 5,
        "grid_resize"@[5] == 'r',
        "grid_scroll"@[5] == 's',
        "mode_change"@[5] == 'c',
        "grid_clear"@[0] == 'g',
        "busy_start"@[0] == 'b',
        "grid_line"@[0] == 'g',
        "busy_stop"@[0] == 'b',
        "set_title"@[0] == 's',
{
    reveal_strlit("grid_resize");
    reveal_strlit("grid_line");
    reveal_strlit("grid_scroll");
    reveal_strlit("grid_clear");
    reveal_strlit("grid_cursor_goto");
    reveal_strlit("hl_attr_define");
    reveal_strlit("default_colors_set");
    reveal_strlit("mode_info_set");
    reveal_strlit("mode_change");
    reveal_strlit("busy_start");
    reveal_strlit("busy_stop");
    reveal_strlit("set_title");
    reveal_strlit("flush");
}

/// Where and how large: the events of the grid say the numbers that they are sent with, in
/// their order.
pub proof fn grid_events_say_their_numbers(
    a: Seq<MsgV>,
    grid: u64,
    one: u64,
    two: u64,
    three: u64,
    four: u64,
    rows: i64,
)
    requires
        one <= usize::MAX && two <= usize::MAX && three <= usize::MAX && four <= usize::MAX,
        has_counts(a, seq![grid, one, two]),
    ensures
        call_event("grid_resize"@, MsgV::Array(a)) == Some(
            RedrawV::GridResize { grid, width: one as usize, height: two as usize },
        ),
        call_event("grid_cursor_goto"@, MsgV::Array(a)) == Some(
            RedrawV::GridCursorGoto { grid, row: one as usize, col: two as usize },
        ),
        call_event("grid_clear"@, MsgV::Array(a)) == Some(RedrawV::GridClear { grid }),
        a.len() >= 6 && is_count(a[3], three) && is_count(a[4], four) && m_i64(a[5]) == Some(rows)
            ==> call_event("grid_scroll"@, MsgV::Array(a)) == Some(
            RedrawV::GridScroll {
                grid,
                top: one as usize,
                bot: two as usize,
                left: three as usize,
                right: four as usize,
                rows,
            },
        ),
{
    lemma_event_names();
    let n = seq![grid, one, two];
    assert(is_count(a[0], n[0]));
    assert(is_count(a[1], n[1]));
    assert(is_count(a[2], n[2]));
}

/// A line says where it begins, and its cells one by one: the text of each, its highlight if it
/// gives one, and how often it is repeated, once where it does not say.
pub proof fn grid_line_says_its_cells(
    a: Seq<MsgV>,
    grid: u64,
    row: u64,
    col: u64,
    cells: Seq<MsgV>,
    i: int,
    text: Seq<char>,
    hl: u64,
    repeat: u64,
)
    requires
        row <= usize::MAX && col <= usize::MAX && repeat <= usize::MAX && hl <= u32::MAX,
        has_counts(a, seq![grid, row, col]),
        a.len() >= 4,
        a[3] == MsgV::Array(cells),
        0 <= i < cells.len(),
    ensures
        ({
            let e = call_event("grid_line"@, MsgV::Array(a));
            let parts = m_items(cells[i]);
            let cell = e->Some_0->GridLine_cells[i];
            &&& e is Some && e->0 is GridLine
            &&& e->0->GridLine_row == row && e->0->GridLine_col == col
            &&& e->0->GridLine_cells.len() == cells.len()
            &&& parts.len() >= 1 && m_str(parts[0]) == Some(text) ==> cell.text == text
            &&& parts.len() == 1 ==> cell.hl is None && cell.repeat == 1
            &&& parts.len() >= 2 && is_count(parts[1], hl) ==> cell.hl == Some(hl as u32)
            &&& parts.len() == 2 ==> cell.repeat == 1
            &&& parts.len() >= 3 && is_count(parts[2], repeat) ==> cell.repeat == repeat
        }),
{
    lemma_event_names();
    let n = seq![grid, row, col];
    assert(is_count(a[0], n[0]));
    assert(is_count(a[1], n[1]));
    assert(is_count(a[2], n[2]));
}

/// The remaining events say what they are sent with.
pub proof fn other_events_say_their_parts(a: Seq<MsgV>, text: Seq<char>, n: u64)
    requires
        n <= usize::MAX,
    ensures
        a.len() >= 2 && m_str(a[0]) == Some(text) && is_count(a[1], n) ==> call_event(
            "mode_change"@,
            MsgV::Array(a),
        ) == Some(RedrawV::ModeChange { mode: text, index: n as usize }),
        a.len() >= 1 && m_str(a[0]) == Some(text) ==> call_event("set_title"@, MsgV::Array(a))
            == Some(RedrawV::SetTitle(text)),
        call_event("busy_start"@, MsgV::Array(a)) == Some(RedrawV::BusyStart),
        call_event("busy_stop"@, MsgV::Array(a)) == Some(RedrawV::BusyStop),
        call_event("flush"@, MsgV::Array(a)) == Some(RedrawV::Flush),
{
    lemma_event_names();
}

/// A colour that is sent is the colour meant, and a negative number means none.
pub proof fn default_colors_are_said(a: Seq<MsgV>, fg: i64, bg: i64)
    requires
        a.len() >= 3,
        m_i64(a[0]) == Some(fg),
        m_i64(a[1]) == Some(bg),
        fg <= u32::MAX,
        bg <= u32::MAX,
    ensures
        ({
            let e = call_event("default_colors_set"@, MsgV::Array(a));
            &&& e is Some && e->0 is DefaultColors
            &&& fg >= 0 ==> e->0->DefaultColors_fg == Some(fg as u32)
            &&& fg < 0 ==> e->0->DefaultColors_fg is None
            &&& bg >= 0 ==> e->0->DefaultColors_bg == Some(bg as u32)
            &&& bg < 0 ==> e->0->DefaultColors_bg is None
        }),
{
    lemma_event_names();
}

/// Whether a table has a flag set.
pub open spec fn is_set(v: MsgV, key: Seq<char>) -> bool {
    m_get(v, key) matches Some(b) && m_bool(b) == Some(true)
}

/// The number under a name in a table.
pub open spec fn number_at(v: MsgV, key: Seq<char>) -> Option<i64> {
    match m_get(v, key) {
        Some(n) => m_i64(n),
        None => None,
    }
}

/// A highlight is defined by its table: the colours under their names, where they are numbers
/// of colours, and each emphasis just where its flag is set.
pub proof fn highlight_says_its_table(a: Seq<MsgV>, id: u64)
    requires
        a.len() >= 4,
        is_count(a[0], id),
        id <= u32::MAX,
    ensures
        ({
            let e = call_event("hl_attr_define"@, MsgV::Array(a));
            let t = a[1];
            let h = e->0->HlAttrDefine_attr;
            &&& e is Some && e->0 is HlAttrDefine
            &&& e->0->HlAttrDefine_id == id
            &&& number_at(t, "foreground"@) is Some && 0 <= number_at(t, "foreground"@)->0
                <= u32::MAX ==> h.fg == Some(number_at(t, "foreground"@)->0 as u32)
            &&& number_at(t, "foreground"@) is None ==> h.fg is None
            &&& number_at(t, "background"@) is Some && 0 <= number_at(t, "background"@)->0
                <= u32::MAX ==> h.bg == Some(number_at(t, "background"@)->0 as u32)
            &&& number_at(t, "background"@) is None ==> h.bg is None
            &&& number_at(t, "special"@) is Some && 0 <= number_at(t, "special"@)->0 <= u32::MAX
                ==> h.sp == Some(number_at(t, "special"@)->0 as u32)
            &&& h.bold <==> is_set(t, "bold"@)
            &&& h.italic <==> is_set(t, "italic"@)
            &&& h.reverse <==> is_set(t, "reverse"@)
            &&& h.undercurl <==> is_set(t, "undercurl"@)
            &&& h.strikethrough <==> is_set(t, "strikethrough"@)
            &&& is_set(t, "underline"@) ==> h.underline
            &&& h.underline ==> is_set(t, "underline"@) || is_set(t, "underdouble"@) || is_set(
                t,
                "underdotted"@,
            ) || is_set(t, "underdashed"@)
        }),
{
    lemma_event_names();
}

/// The cursor of a mode has the shape that is said, a block where none is said.
pub proof fn mode_says_its_cursor(m: MsgV, shape: Seq<char>)
    requires
        m_get(m, "cursor_shape"@) matches Some(s) && m_str(s) == Some(shape),
    ensures
        shape == "horizontal"@ <==> mode_of(m).shape == CursorShape::Horizontal,
        shape == "vertical"@ <==> mode_of(m).shape == CursorShape::Vertical,
{
    reveal_strlit("horizontal");
    reveal_strlit("vertical");
    assert("horizontal"@.len() != "vertical"@.len());
}

proof fn lemma_batch(items: Seq<MsgV>, name: Seq<char>, n: int)
    requires
        1 <= n <= items.len(),
        forall|i: int| 1 <= i < n ==> call_event(name, #[trigger] items[i]) is Some,
    ensures
        batch_upto(items, name, n).len() == n - 1,
        forall|i: int|
            1 <= i < n ==> #[trigger] batch_upto(items, name, n)[i - 1] == call_event(
                name,
                items[i],
            )->0,
    decreases n,
{
    if n > 1 {
        lemma_batch(items, name, n - 1);
        assert(call_event(name, items[n - 1]) is Some);
        let front = batch_upto(items, name, n - 1);
        let all = batch_upto(items, name, n);
        assert forall|i: int| 1 <= i < n implies #[trigger] all[i - 1] == call_event(
            name,
            items[i],
        )->0 by {
            if i < n - 1 {
                assert(all[i - 1] == front[i - 1]);
            }
        }
    }
}

/// A batch is the calls of its event one after the other, none left out.
pub proof fn batch_is_its_calls(items: Seq<MsgV>, name: Seq<char>, i: int)
    requires
        1 <= i < items.len(),
        m_str(items[0]) == Some(name),
        forall|j: int| 1 <= j < items.len() ==> call_event(name, #[trigger] items[j]) is Some,
    ensures
        batch_events(MsgV::Array(items)).len() == items.len() - 1,
        Some(batch_events(MsgV::Array(items))[i - 1]) == call_event(name, items[i]),
{
    lemma_batch(items, name, items.len() as int);
    let all = batch_upto(items, name, items.len() as int);
    assert(all[i - 1] == call_event(name, items[i])->0);
}

/// Batches are read in the order they come.
pub proof fn batches_are_read_in_order(a: Seq<MsgV>, b: Seq<MsgV>)
    ensures
        events_of(a + b) == events_of(a) + events_of(b),
        b.len() == 1 ==> events_of(b) == batch_events(b[0]),
    decreases b.len(),
{
    if b.len() == 0 {
        assert(a + b =~= a);
        assert(events_of(a) + events_of(b) =~= events_of(a));
    } else {
        let t = b.drop_last();
        batches_are_read_in_order(a, t);
        assert((a + b).drop_last() =~= a + t);
        assert((a + b).last() == b.last());
        assert(events_of(a) + events_of(t) + batch_events(b.last()) =~= events_of(a) + (events_of(t)
            + batch_events(b.last())));
        if b.len() == 1 {
            assert(t =~= Seq::empty());
            assert(events_of(t) =~= Seq::empty());
            assert(Seq::<RedrawV>::empty() + batch_events(b[0]) =~= batch_events(b[0]));
        }
    }
}

/// A table has under a name the first value that stands there.
pub proof fn table_gives_what_it_has(t: Seq<(MsgV, MsgV)>, key: Seq<char>, i: int)
    requires
        0 <= i < t.len(),
        m_str(t[i].0) == Some(key),
        forall|j: int| 0 <= j < i ==> m_str((#[trigger] t[j]).0) != Some(key),
    ensures
        m_get(MsgV::Table(t), key) == Some(t[i].1),
{
    lemma_entry_from(t, key, 0, i);
}

proof fn lemma_entry_from(t: Seq<(MsgV, MsgV)>, key: Seq<char>, from: int, i: int)
    requires
        0 <= from <= i < t.len(),
        m_str(t[i].0) == Some(key),
        forall|j: int| 0 <= j < i ==> m_str((#[trigger] t[j]).0) != Some(key),
    ensures
        entry_from(t, key, from) == Some(t[i].1),
    decreases i - from,
{
    if from < i {
        assert(m_str(t[from].0) != Some(key));
        lemma_entry_from(t, key, from + 1, i);
    }
}

} // verus!
