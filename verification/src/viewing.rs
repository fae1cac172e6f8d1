//! Where the cells of a notebook stand on screen, and what scrolling and the mouse do there.

use crate::app::{keyed_in, App};
use crate::call::{ArgV, CallV};
use crate::history::Name;
use crate::keys::{MouseButton, MouseEvent, MouseEventKind};
use crate::layout::{stack_rows, Geometry, Item, Layout, RectV};
use crate::ui::{
    box_visible, cell_at_row, cover_from, drawn_layouts, first_visible, focused, laid_out,
    last_visible, mouse_call, moused, scrolled_by, stacked, EffectV, ModeV, UiV,
};
use vstd::prelude::*;

verus! {

/// Blocks stand one under the other: the first at the top, each other one below the box of the
/// one before it, with its outputs and a blank row if it has any. A box has a border above and
/// below its lines, and one line at least.
pub proof fn blocks_stand_under_each_other(items: Seq<Item>, l: Layout, i: int)
    requires
        stacked(items, l),
        0 <= i < items.len(),
    ensures
        ({
            let b = l.blocks@[i];
            let below = b.top + 1 + b.lines + 1 + if b.outputs > 0 {
                b.outputs + 1
            } else {
                0
            };
            &&& i == 0 ==> b.top == 0
            &&& i + 1 < items.len() ==> l.blocks@[i + 1].top == below
            &&& i + 1 == items.len() ==> l.total == below
            &&& b.key@ == items[i].key@
            &&& items[i].lines >= 1 ==> b.lines == items[i].lines
            &&& items[i].lines == 0 ==> b.lines == 1
            &&& b.outputs == items[i].outputs
        }),
{
    assert(items.take(0) =~= Seq::empty());
    let b = l.blocks@[i];
    assert(items.take(i + 1).drop_last() =~= items.take(i));
    assert(items.take(i + 1).last() == items[i]);
    assert(stack_rows(items.take(i + 1)) == stack_rows(items.take(i)) + crate::layout::rows_of(
        crate::layout::larger(items[i].lines as int, 1),
        items[i].outputs as int,
    ));
    if i + 1 < items.len() {
        assert(l.blocks@[i + 1].top == stack_rows(items.take(i + 1)));
    } else {
        assert(items.take(i + 1) =~= items);
    }
}

/// Whether a window shows a line of a cell on a screen row.
pub open spec fn shows_line(r: RectV, key: Name, row: int, line: int) -> bool {
    &&& r.key == key
    &&& r.row <= row < r.row + r.height
    &&& r.topline - 1 + (row - r.row) == line
}

/// Every line of a cell that is in view stands in the cell's editor window, on its row of the
/// screen: the line's row in the notebook, less the rows scrolled away, below the header row.
pub proof fn lines_in_view_are_on_their_rows(
    l: Layout,
    g: Geometry,
    scroll: int,
    active: Option<Seq<char>>,
    i: int,
    line: int,
    n: int,
)
    requires
        l.wf(),
        0 <= i < n <= l.blocks@.len(),
        active != Some(l.blocks@[i].key@),
        0 <= line < l.blocks@[i].lines,
        scroll <= l.blocks@[i].top + 1 + line < scroll + g.rows(),
    ensures
        ({
            let rects = l.editors_upto(g, scroll, active, n);
            let row = g.viewport.row + 1 + (l.blocks@[i].top + 1 + line - scroll);
            exists|w: int|
                0 <= w < rects.len() && shows_line(
                    #[trigger] rects[w],
                    l.blocks@[i].key@,
                    row,
                    line,
                )
        }),
    decreases n,
{
    let rects = l.editors_upto(g, scroll, active, n);
    let front = l.editors_upto(g, scroll, active, n - 1);
    let row = g.viewport.row + 1 + (l.blocks@[i].top + 1 + line - scroll);
    if i < n - 1 {
        lines_in_view_are_on_their_rows(l, g, scroll, active, i, line, n - 1);
        let w = choose|w: int|
            0 <= w < front.len() && shows_line(#[trigger] front[w], l.blocks@[i].key@, row, line);
        assert(rects[w] == front[w]);
    } else {
        let w = rects.len() - 1;
        assert(shows_line(rects[w], l.blocks@[i].key@, row, line));
    }
}

/// The window of the cell being edited stands on the rows of its lines in view too. Where all
/// of them are, it shows them from the first.
pub proof fn edited_cell_has_its_rows(l: Layout, g: Geometry, scroll: int, i: int)
    requires
        l.wf(),
        0 <= i < l.blocks@.len(),
        scroll <= l.blocks@[i].top + 1,
        l.blocks@[i].top + 1 + l.blocks@[i].lines <= scroll + g.rows(),
    ensures
        ({
            let b = l.blocks@[i];
            let r = l.editor_of(g, scroll, Some(b.key@), i);
            &&& r is Some
            &&& r->0.key == b.key@
            &&& r->0.row == g.viewport.row + 1 + (b.top + 1 - scroll)
            &&& r->0.height == b.lines
            &&& r->0.topline == 1
        }),
{
}

/// Windows stand inside the boxes: a border's column in from each side.
pub proof fn windows_stand_inside_boxes(
    l: Layout,
    g: Geometry,
    scroll: int,
    active: Option<Seq<char>>,
    n: int,
    w: int,
)
    requires
        0 <= n <= l.blocks@.len(),
        0 <= w < l.editors_upto(g, scroll, active, n).len(),
    ensures
        ({
            let r = l.editors_upto(g, scroll, active, n)[w];
            &&& r.col == g.box_at().0 + 1
            &&& r.col + r.width + 1 == g.box_at().0 + g.box_at().1
            &&& exists|i: int| 0 <= i < n && (#[trigger] l.blocks@[i]).key@ == r.key
        }),
    decreases n,
{
    let all = l.editors_upto(g, scroll, active, n);
    let front = l.editors_upto(g, scroll, active, n - 1);
    if w < front.len() {
        windows_stand_inside_boxes(l, g, scroll, active, n - 1, w);
        assert(all[w] == front[w]);
    } else {
        assert(l.blocks@[n - 1].key@ == all[w].key);
    }
}

/// A box leaves a gutter at its left and a column at its right, wherever the viewport has room
/// for both.
pub proof fn boxes_leave_a_gutter(g: Geometry)
    requires
        g.viewport.width >= 40,
    ensures
        g.viewport.col < g.box_at().0,
        g.box_at().0 + g.box_at().1 + 1 == g.viewport.col + g.viewport.width,
{
}

/// A row of the screen belongs to the cell whose block stands there, outputs included, and to no
/// cell below the last block or outside the area.
pub proof fn rows_belong_to_their_cells(l: Layout, g: Geometry, scroll: int, row: int, i: int)
    requires
        l.wf(),
        0 <= i < l.blocks@.len(),
        scroll >= 0,
    ensures
        g.viewport.row < row < g.viewport.row + g.viewport.height && l.covers(
            i,
            row - (g.viewport.row + 1) + scroll,
        ) ==> cell_at_row(l, g, scroll, row) == Some(l.blocks@[i].key@),
        row <= g.viewport.row ==> cell_at_row(l, g, scroll, row) is None,
        row >= g.viewport.row + g.viewport.height && row > g.viewport.row ==> cell_at_row(
            l,
            g,
            scroll,
            row,
        ) is None,
{
    let at = row - g.top_row() + scroll;
    if l.covers(i, at) {
        lemma_covered(l, at, 0, i);
    }
}

proof fn lemma_covered(l: Layout, at: int, from: int, i: int)
    requires
        l.wf(),
        0 <= from <= i < l.blocks@.len(),
        l.covers(i, at),
    ensures
        cover_from(l, at, from) == Some(i),
    decreases i - from,
{
    if from < i {
        if l.covers(from, at) {
            l.blocks_do_not_overlap(from, i, at);
        }
        lemma_covered(l, at, from + 1, i);
    }
}

proof fn lemma_first_visible(l: Layout, scroll: int, area: int, i: int)
    requires
        0 <= i <= l.blocks@.len(),
    ensures
        match first_visible(l, scroll, area, i) {
            Some(j) => i <= j < l.blocks@.len() && box_visible(l.blocks@[j], scroll, area)
                && forall|m: int|
                i <= m < j ==> !box_visible(#[trigger] l.blocks@[m], scroll, area),
            None => forall|m: int|
                i <= m < l.blocks@.len() ==> !box_visible(#[trigger] l.blocks@[m], scroll, area),
        },
    decreases l.blocks@.len() - i,
{
    if i < l.blocks@.len() && !box_visible(l.blocks@[i], scroll, area) {
        lemma_first_visible(l, scroll, area, i + 1);
    }
}

proof fn lemma_last_visible(l: Layout, scroll: int, area: int, n: int)
    requires
        0 <= n <= l.blocks@.len(),
    ensures
        match last_visible(l, scroll, area, n) {
            Some(j) => 0 <= j < n && box_visible(l.blocks@[j], scroll, area) && forall|m: int|
                j < m < n ==> !box_visible(#[trigger] l.blocks@[m], scroll, area),
            None => forall|m: int|
                0 <= m < n ==> !box_visible(#[trigger] l.blocks@[m], scroll, area),
        },
    decreases n,
{
    if n > 0 && !box_visible(l.blocks@[n - 1], scroll, area) {
        lemma_last_visible(l, scroll, area, n - 1);
    }
}

/// Scrolling moves the view by so many rows, as far as the notebook goes. The selection stays
/// where its box is in view; else it goes to the nearest that is, the first one downwards and
/// the last one upwards.
pub proof fn scrolling_keeps_the_selection_in_view(u: UiV, l: Layout, g: Geometry, rows: int, m: int)
    requires
        u.geometry == Some(g),
        u.scroll >= 0,
        0 <= u.selected,
        0 <= m < l.blocks@.len(),
    ensures
        ({
            let v = scrolled_by(u, l, rows);
            let area = g.rows();
            let most = l.total - area;
            &&& 0 <= u.scroll + rows <= most ==> v.scroll == u.scroll + rows
            &&& u.scroll + rows < 0 ==> v.scroll == 0
            &&& u.scroll + rows > most && most >= 0 ==> v.scroll == most
            &&& most < 0 ==> v.scroll == 0
            &&& u.selected < l.blocks@.len() && box_visible(l.blocks@[u.selected], v.scroll, area)
                ==> v.selected == u.selected
            &&& box_visible(l.blocks@[m], v.scroll, area) ==> {
                &&& v.selected < l.blocks@.len() && box_visible(
                    l.blocks@[v.selected],
                    v.scroll,
                    area,
                )
                &&& v.selected == u.selected || (rows > 0 && v.selected <= m) || (rows <= 0
                    && v.selected >= m)
            }
        }),
{
    let v = scrolled_by(u, l, rows);
    let area = g.rows();
    lemma_first_visible(l, v.scroll, area, 0);
    lemma_last_visible(l, v.scroll, area, l.blocks@.len() as int);
}

/// A layout that Neovim has drawn is on screen, and only later ones are still to come.
pub proof fn drawn_layout_is_shown(
    sent: Seq<(u64, Layout, usize)>,
    shown: Option<(Layout, usize)>,
    i: int,
)
    requires
        0 <= i < sent.len(),
        forall|a: int, b: int|
            0 <= a < b < sent.len() ==> (#[trigger] sent[a]).0 < (#[trigger] sent[b]).0,
    ensures
        drawn_layouts(sent, shown, sent[i].0) == (
            sent.skip(i + 1),
            Some((sent[i].1, sent[i].2)),
        ),
    decreases sent.len(),
{
    let rest = sent.skip(1);
    let next = if sent[0].0 == sent[i].0 {
        Some((sent[0].1, sent[0].2))
    } else {
        shown
    };
    assert(i > 0 ==> sent[0].0 < sent[i].0);
    assert forall|a: int, b: int| 0 <= a < b < rest.len() implies (#[trigger] rest[a]).0 < (
    #[trigger] rest[b]).0 by {
        assert(sent[a + 1].0 < sent[b + 1].0);
    }
    if i > 0 {
        drawn_layout_is_shown(rest, next, i - 1);
        assert(rest[i - 1] == sent[i]);
        assert(rest.skip(i) =~= sent.skip(i + 1));
    } else {
        assert(rest =~= sent.skip(1));
        if rest.len() > 0 {
            assert(sent[0].0 < sent[1].0);
            assert(rest[0] == sent[1]);
        }
        assert(drawn_layouts(rest, next, sent[i].0) == (rest, next));
    }
}

/// A layout asks for the editor windows of its blocks, under a number of its own, unless they
/// stand where they were last asked to be.
pub proof fn layout_places_its_windows(u: UiV, l: Layout, g: Geometry)
    requires
        u.geometry == Some(g),
        0 <= u.layout_seq < u64::MAX,
    ensures
        ({
            let v = laid_out(u, l);
            let active = match u.mode {
                ModeV::Edit(k) => Some(k),
                _ => None,
            };
            let rects = l.editors_upto(g, v.scroll, active, l.blocks@.len() as int);
            &&& u.last_sent == Some((active, rects)) ==> v.effects == u.effects
            &&& u.last_sent != Some((active, rects)) ==> {
                &&& v.effects == u.effects.push(
                    EffectV::Place { seq: (u.layout_seq + 1) as u64, active, rects },
                )
                &&& v.layout_seq == u.layout_seq + 1
                &&& v.last_sent == Some((active, rects))
                &&& v.sent.len() == u.sent.len() + 1
                &&& v.sent.last().0 == u.layout_seq + 1
                &&& v.sent.last().1 == l
            }
            &&& !v.relayout
            &&& v.mode == u.mode
        }),
{
}

/// Neovim's focus is the session's mode, unless another was asked for since.
pub proof fn focus_is_the_mode(u: UiV, seq: int, mode: ModeV, at: Option<int>)
    ensures
        seq >= u.focus_seq ==> focused(u, seq, mode, at).mode == mode,
        seq >= u.focus_seq && mode is Edit && at is Some ==> focused(u, seq, mode, at).selected
            == at->0,
        seq >= u.focus_seq && mode != u.mode ==> focused(u, seq, mode, at).relayout,
        seq < u.focus_seq ==> focused(u, seq, mode, at) == u,
{
}

/// In navigation mode the wheel scrolls three rows, wherever it is turned.
pub proof fn wheel_scrolls(u: UiV, m: MouseEvent, order: Seq<Name>)
    requires
        u.mode is Nav,
        u.geometry is Some,
        u.shown is Some,
    ensures
        m.kind == MouseEventKind::ScrollDown ==> moused(u, m, order).effects == u.effects.push(
            EffectV::ScrollBy(3),
        ),
        m.kind == MouseEventKind::ScrollUp ==> moused(u, m, order).effects == u.effects.push(
            EffectV::ScrollBy(-3),
        ),
{
}

/// A click on a line of a cell edits that cell, with the cursor where the click was.
pub proof fn click_in_a_window_edits_its_cell(
    u: UiV,
    m: MouseEvent,
    order: Seq<Name>,
    l: Layout,
    scroll: usize,
    g: Geometry,
    i: int,
    line: int,
)
    requires
        l.wf(),
        u.geometry == Some(g),
        u.shown == Some((l, scroll)),
        m.kind == MouseEventKind::Down(MouseButton::Left),
        0 <= i < l.blocks@.len(),
        0 <= line < l.blocks@[i].lines,
        scroll <= l.blocks@[i].top + 1 + line < scroll + g.rows(),
        m.row == g.viewport.row + 1 + (l.blocks@[i].top + 1 + line - scroll),
        g.box_at().0 + 1 <= m.column < g.box_at().0 + g.box_at().1 - 1,
    ensures
        ({
            let v = moused(u, m, order);
            let k = l.blocks@[i].key@;
            &&& v.mode == ModeV::Edit(k)
            &&& v.effects.last() == EffectV::Call(mouse_call(m))
            &&& u.mode != ModeV::Edit(k) ==> v.effects.len() == u.effects.len() + 3 && {
                let e = v.effects[v.effects.len() - 2];
                e is Enter && e->Enter_key == k
            }
        }),
{
    let k = l.blocks@[i].key@;
    let n = l.blocks@.len() as int;
    let rects = l.editors_upto(g, scroll as int, None, n);
    lines_in_view_are_on_their_rows(l, g, scroll as int, None, i, line, n);
    let w = choose|w: int|
        0 <= w < rects.len() && shows_line(#[trigger] rects[w], k, m.row as int, line);
    windows_stand_inside_boxes(l, g, scroll as int, None, n, w);
    assert(crate::ui::in_window(rects[w], k, m.row as int, m.column as int));
    rows_belong_to_their_cells(l, g, scroll as int, m.row as int, i);
}

/// While a cell is edited, every key goes to Neovim as it is.
pub proof fn edited_cells_get_every_key(
    before: &App,
    after: &App,
    keys: Seq<char>,
    mode_name: Seq<char>,
    changes: u64,
)
    requires
        before@.ui.mode is Edit,
        keyed_in(before, after, keys, mode_name, changes),
    ensures
        after@.ui.effects == before@.ui.effects.push(
            EffectV::Call(CallV { method: "nvim_input"@, args: seq![ArgV::Text(keys)] }),
        ),
        after.nb.doc() == before.nb.doc(),
        after@.ui.mode == before@.ui.mode,
{
    assert(after@.nb.doc == after.nb.doc());
}

/// In navigation mode, keys are the session's own while Neovim is in Normal mode, and Neovim's
/// while it is in another, such as its command line.
pub proof fn navigation_keys_stay_out_of_neovim(
    before: &App,
    after: &App,
    keys: Seq<char>,
    mode_name: Seq<char>,
    changes: u64,
)
    requires
        before@.ui.mode is Nav,
        keyed_in(before, after, keys, mode_name, changes),
    ensures
        mode_name != "normal"@ ==> after@.ui.effects == before@.ui.effects.push(
            EffectV::Call(CallV { method: "nvim_input"@, args: seq![ArgV::Text(keys)] }),
        ) && after.nb.doc() == before.nb.doc() && after@.ui.nav == before@.ui.nav,
        mode_name == "normal"@ && before.ui.forward_since is None && crate::nav::fed(
            before@.ui.nav,
            keys,
        ).1 is None ==> after@.ui.effects == before@.ui.effects && after@.ui.nav
            == crate::nav::fed(before@.ui.nav, keys).0,
{
    assert(after@.nb.doc == after.nb.doc());
}

proof fn lemma_lines_counted(s: Seq<char>)
    ensures
        crate::text::split(s, '\n').len() == crate::stream::line_breaks(s) + 1,
    decreases s.len(),
{
    if s.len() > 0 {
        lemma_lines_counted(s.drop_last());
    }
}

/// A cell takes the rows that Neovim measured, or one more than its source has line breaks. Only
/// a code cell has rows of outputs.
pub proof fn cells_take_their_rows(
    d: crate::history::DocV,
    i: int,
    rows: Option<usize>,
    outputs: usize,
    item: Item,
)
    requires
        0 <= i < d.order.len(),
        crate::app::laid_item(d, i, rows, outputs, item),
    ensures
        ({
            let c = d.live[d.order[i]];
            let kind = crate::document::raw_kind(c.raw);
            &&& item.key@ == d.order[i]
            &&& item.kind == kind
            &&& rows is Some ==> item.lines == rows->0
            &&& rows is None ==> item.lines == crate::stream::line_breaks(
                crate::document::raw_source(c.raw),
            ) + 1
            &&& kind == crate::adapter::CellKind::Code ==> item.outputs == outputs
            &&& kind != crate::adapter::CellKind::Code ==> item.outputs == 0
        }),
{
    lemma_lines_counted(crate::document::raw_source(d.live[d.order[i]].raw));
}

/// The cells whose outputs are wanted are those with outputs that have any row in view.
pub proof fn outputs_in_view_are_wanted(l: Layout, scroll: int, area: int, n: int, k: Name)
    requires
        0 <= n <= l.blocks@.len(),
    ensures
        crate::app::outputs_in_view(l, scroll, area, n).contains(k) <==> exists|i: int|
            0 <= i < n && (#[trigger] l.blocks@[i]).key@ == k && l.blocks@[i].outputs > 0
                && l.blocks@[i].top < scroll + area && scroll < l.blocks@[i].top
                + l.blocks@[i].rows(),
    decreases n,
{
    let all = crate::app::outputs_in_view(l, scroll, area, n);
    if n > 0 {
        outputs_in_view_are_wanted(l, scroll, area, n - 1, k);
        let front = crate::app::outputs_in_view(l, scroll, area, n - 1);
        let b = l.blocks@[n - 1];
        if all.contains(k) {
            let j = choose|j: int| 0 <= j < all.len() && all[j] == k;
            if j < front.len() {
                assert(front[j] == k);
                assert(front.contains(k));
            } else {
                assert(l.blocks@[n - 1].key@ == k);
            }
        }
        if front.contains(k) {
            let j = choose|j: int| 0 <= j < front.len() && front[j] == k;
            assert(all[j] == k);
        }
        if b.key@ == k && b.outputs > 0 && b.top < scroll + area && scroll < b.top + b.rows() {
            assert(all[all.len() - 1] == k);
        }
    }
}

} // verus!
