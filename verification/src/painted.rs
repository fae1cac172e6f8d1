//! What the screen says of a session: the header, and the boxes around the cells.

use crate::adapter::CellKind;
use crate::app::{selected_name, App};
use crate::compose::rgb_of;
use crate::document::{raw_kind, raw_source, CellV, ExecState};
use crate::executor::KernelStatus;
use crate::history::{cell_at, Name};
use crate::json::{obj_get, v_u64};
use crate::layout::{Block, Geometry};
use crate::paint::{
    block_paints, blocks_paints, border_style, box_puts, color_named, color_upto, decorated,
    header_places, header_shown, hint_shown, kernel_shown, notebook_paints, outputs_run, partial_shown, rule,
    screen_row, side_puts, sides_upto, spans_columns, state_shown, status_shown, top_puts, Colors, DecorationV,
    PaintV, PutV,
};
use crate::path::last_part;
use crate::style::Style;
use crate::terminal::occurs;
use crate::text::decimal;
use crate::ui::{HeaderItem, ModeV};
use vstd::prelude::*;

verus! {

proof fn lemma_occurs(a: Seq<char>, p: Seq<char>, b: Seq<char>)
    ensures
        occurs(a + p + b, p),
{
    let s = a + p + b;
    let i = a.len() as int;
    assert(s.subrange(i, i + p.len()) =~= p);
}

/// The header says the notebook's file name, the mode, and the last message.
pub proof fn header_says_file_mode_and_message(a: &App, t: Colors)
    ensures
        ({
            let h = header_shown(a, t);
            &&& h.len() >= 3
            &&& occurs(h[0].content, last_part(a.nb.path@))
            &&& a.ui.mode@ is Nav ==> occurs(h[1].content, "NAV"@)
            &&& a.ui.mode@ is Edit ==> occurs(h[1].content, "EDIT"@)
            &&& occurs(h[1].content, partial_shown(a))
            &&& a.ui.message is Some ==> h.len() == 4 && occurs(h[3].content, a.ui.message->0@)
            &&& a.ui.message is None ==> h.len() == 3
        }),
{
    let h = header_shown(a, t);
    lemma_occurs(" "@, last_part(a.nb.path@), " "@);
    let word = crate::paint::mode_shown(a.ui.mode@);
    let rest = " "@ + partial_shown(a) + " "@;
    assert(h[1].content =~= " "@ + word + rest);
    lemma_occurs(" "@, word, rest);
    let front = " "@ + (word + " "@);
    assert(h[1].content =~= front + partial_shown(a) + " "@);
    lemma_occurs(front, partial_shown(a), " "@);
    if a.ui.message is Some {
        let m = a.ui.message->0@;
        assert(h[3].content =~= " "@ + m + Seq::<char>::empty());
        lemma_occurs(" "@, m, Seq::empty());
    }
}

/// The header says which kernel is in use and how it does; where there is none, or it failed,
/// it says that.
pub proof fn header_says_the_kernel(a: &App, t: Colors)
    ensures
        ({
            let said = header_shown(a, t)[2].content;
            &&& a.kernel_cmd is None ==> occurs(said, "no kernel"@)
            &&& a.kernel_cmd is Some ==> occurs(said, a.kernel_cmd->0.display_name@)
            &&& a.kernel_cmd is Some && a.kernel_error is Some ==> occurs(said, "failed"@)
            &&& a.kernel_cmd is Some && a.kernel_error is None ==> occurs(
                said,
                match a.executor.status {
                    KernelStatus::Starting => "starting"@,
                    KernelStatus::Idle => "idle"@,
                    KernelStatus::Busy => "busy"@,
                    KernelStatus::Restarting => "restarting"@,
                    KernelStatus::Dead => "dead"@,
                },
            )
        }),
{
    let said = header_shown(a, t)[2].content;
    assert(said == kernel_shown(a, t).content);
    if a.kernel_cmd is None {
        reveal_strlit(" no kernel ");
        reveal_strlit("no kernel");
        assert(said =~= seq![' '] + "no kernel"@ + seq![' ']);
        lemma_occurs(seq![' '], "no kernel"@, seq![' ']);
    } else {
        let name = a.kernel_cmd->0.display_name@;
        if a.kernel_error is Some {
            assert(said =~= " "@ + name + (" ✗ failed"@ + " "@));
            lemma_occurs(" "@, name, " ✗ failed"@ + " "@);
            reveal_strlit(" ✗ failed");
            reveal_strlit("failed");
            let front = " "@ + name + seq![' ', '✗', ' '];
            assert(said =~= front + "failed"@ + " "@);
            lemma_occurs(front, "failed"@, " "@);
        } else {
            let s = state_shown(a.executor.status);
            let rest = " "@ + s.1 + " "@ + s.0 + " "@;
            assert(said =~= " "@ + name + rest);
            lemma_occurs(" "@, name, rest);
            let front = " "@ + name + " "@ + s.1 + " "@;
            assert(said =~= front + s.0 + " "@);
            lemma_occurs(front, s.0, " "@);
        }
    }
}

/// The part of the header that is selected stands out, and no other does.
pub proof fn selected_header_item_stands_out(a: &App, t: Colors)
    ensures
        ({
            let h = header_shown(a, t);
            &&& h[0].style.added.reversed == (a.ui.header == Some(HeaderItem::Name))
            &&& h[2].style.added.reversed == (a.ui.header == Some(HeaderItem::Kernel))
        }),
{
}

/// A theme's colour is the one last given under its name.
pub proof fn last_color_of_a_name_counts(t: Colors, name: Seq<char>, i: int)
    requires
        0 <= i < t.len(),
        t[i].0 == name,
        forall|j: int| i < j < t.len() ==> (#[trigger] t[j]).0 != name,
    ensures
        t[i].1 is Some ==> color_named(t, name) == Some(rgb_of(t[i].1->0)),
        t[i].1 is None ==> color_named(t, name) is None,
{
    lemma_color(t, name, i, t.len() as int);
}

proof fn lemma_color(t: Colors, name: Seq<char>, i: int, n: int)
    requires
        0 <= i < n <= t.len(),
        t[i].0 == name,
        forall|j: int| i < j < t.len() ==> (#[trigger] t[j]).0 != name,
    ensures
        color_upto(t, name, n) == color_upto(t, name, i + 1),
    decreases n,
{
    if n > i + 1 {
        assert(t[n - 1].0 != name);
        lemma_color(t, name, i, n - 1);
    }
}

/// Beside a code cell stands its execution count, or a star while it waits or runs. Its status
/// says whether it waits, runs, went well and in what time, or failed.
pub proof fn status_says_how_the_run_went(c: CellV, t: Colors, time: Seq<char>)
    ensures
        ({
            let s = status_shown(c, t, time);
            let n = v_u64(obj_get(c.raw, "execution_count"@));
            let waits = c.runtime.state is Queued || c.runtime.state is Running;
            &&& waits ==> s.0 == "[*]"@
            &&& !waits && n is Some ==> s.0 == "["@ + decimal(n->0 as nat) + "]"@
            &&& !waits && n is None ==> occurs(s.0, " "@)
            &&& c.runtime.state is Queued ==> s.1 is Some && occurs((s.1->0).0, "queued"@)
            &&& c.runtime.state is Running ==> s.1 is Some && occurs((s.1->0).0, "running"@)
            &&& c.runtime.state is Done ==> s.1 is Some && occurs((s.1->0).0, "✓"@) && occurs(
                (s.1->0).0,
                time,
            )
            &&& c.runtime.state is Error ==> s.1 is Some && occurs((s.1->0).0, "✗"@)
        }),
{
    let s = status_shown(c, t, time);
    let n = v_u64(obj_get(c.raw, "execution_count"@));
    let e = Seq::<char>::empty();
    let stale = raw_kind(c.raw) == CellKind::Code && raw_source(c.raw) != c.runtime.baseline
        && n is Some;
    let edited = if stale {
        " · edited"@
    } else {
        e
    };
    if n is None {
        lemma_occurs("["@, " "@, "]"@);
    }
    match c.runtime.state {
        ExecState::Queued => {
            assert((s.1->0).0 =~= e + "queued"@ + edited);
            lemma_occurs(e, "queued"@, edited);
        },
        ExecState::Running => {
            assert((s.1->0).0 =~= e + "running"@ + edited);
            lemma_occurs(e, "running"@, edited);
        },
        ExecState::Done => {
            assert((s.1->0).0 =~= e + "✓"@ + (time + edited));
            lemma_occurs(e, "✓"@, time + edited);
            lemma_occurs("✓"@, time, edited);
        },
        ExecState::Error => {
            assert((s.1->0).0 =~= e + "✗"@ + edited);
            lemma_occurs(e, "✗"@, edited);
        },
        ExecState::Idle => {},
    }
}

/// A code cell that ran and was edited since says so, and no other does.
pub proof fn edited_cells_say_so(c: CellV, t: Colors, time: Seq<char>)
    requires
        raw_kind(c.raw) == CellKind::Code,
    ensures
        ({
            let s = status_shown(c, t, time);
            let ran = v_u64(obj_get(c.raw, "execution_count"@)) is Some;
            let now = raw_source(c.raw);
            &&& ran && now != c.runtime.baseline ==> s.1 is Some && occurs((s.1->0).0, "edited"@)
            &&& (!ran || now == c.runtime.baseline) && c.runtime.state is Idle ==> s.1 is None
            &&& (!ran || now == c.runtime.baseline) && c.runtime.state is Done ==> (s.1->0).0
                == "✓"@ + time
            &&& (!ran || now == c.runtime.baseline) && c.runtime.state is Error ==> (s.1->0).0
                == "✗"@
        }),
{
    let s = status_shown(c, t, time);
    let e = Seq::<char>::empty();
    reveal_strlit(" · edited");
    reveal_strlit("edited");
    let ran = v_u64(obj_get(c.raw, "execution_count"@)) is Some;
    if ran && raw_source(c.raw) != c.runtime.baseline {
        let mark = seq![' ', '·', ' '];
        assert(" · edited"@ =~= mark + "edited"@);
        let front = match c.runtime.state {
            ExecState::Queued => "queued"@,
            ExecState::Running => "running"@,
            ExecState::Done => "✓"@ + time,
            ExecState::Error => "✗"@,
            ExecState::Idle => e,
        };
        if c.runtime.state is Idle {
            assert((s.1->0).0 =~= e + "edited"@ + e);
            lemma_occurs(e, "edited"@, e);
        } else {
            assert((s.1->0).0 =~= front + mark + "edited"@ + e);
            lemma_occurs(front + mark, "edited"@, e);
        }
    } else {
        assert("✓"@ + time + e =~= "✓"@ + time);
        assert("✗"@ + e =~= "✗"@);
    }
}

/// A box's border has the colour for editing around the edited cell, the colour for the
/// selection around the selected one, and a plain one else. A cell that is not code says what
/// it is, and has neither a count nor a status.
pub proof fn borders_say_what_is_selected(a: &App, key: Name, kind: CellKind, t: Colors, time: Seq<char>)
    ensures
        ({
            let d = decorated(a, key, kind, t, time);
            let edited = a.ui.mode@ == ModeV::Edit(key);
            let selected = a.ui.mode@ is Nav && a.ui.header is None && selected_name(a) == Some(key);
            &&& edited ==> d.border == color_named(t, "edit"@) && d.bold
            &&& selected ==> d.border == color_named(t, "nav"@) && d.bold
            &&& !edited && !selected ==> d.border == color_named(t, "border"@) && !d.bold
            &&& kind == CellKind::Markdown ==> d.label == Some("markdown"@)
            &&& kind == CellKind::Raw ==> d.label == Some("raw"@)
            &&& kind == CellKind::Code ==> d.label is None
            &&& kind != CellKind::Code ==> d.gutter.len() == 0 && d.status is None
            &&& kind == CellKind::Code && cell_at(a.nb.doc(), key) is Some ==> d.gutter.len() > 0
        }),
{
    reveal_strlit("[*]");
    reveal_strlit("[");
}

/// Whether something is put at a place.
pub open spec fn puts_at(v: Seq<PutV>, x: int, y: int, text: Seq<char>, style: Style) -> bool {
    v.contains(PutV { x, y, text, style })
}

proof fn lemma_sides(g: Geometry, top: int, scroll: int, d: DecorationV, base: Style, n: int, line: int)
    requires
        0 <= line < n,
        scroll <= top + 1 + line < scroll + g.rows(),
    ensures
        ({
            let v = sides_upto(g, top, scroll, d, base, n);
            let y = g.viewport.row + 1 + (top + 1 + line - scroll);
            let x = g.box_at().0;
            &&& puts_at(v, x, y, "│"@, border_style(d, base))
            &&& puts_at(v, x + g.box_at().1 - 1, y, "│"@, border_style(d, base))
            &&& line == 0 && d.gutter.len() > 0 && x - (d.gutter.len() + 1) >= g.viewport.col
                ==> puts_at(
                v,
                x - (d.gutter.len() + 1),
                y,
                d.gutter,
                crate::paint::colored(d.dim, base),
            )
        }),
    decreases n,
{
    let v = sides_upto(g, top, scroll, d, base, n);
    let front = sides_upto(g, top, scroll, d, base, n - 1);
    let y = g.viewport.row + 1 + (top + 1 + line - scroll);
    let x = g.box_at().0;
    let style = border_style(d, base);
    let left = PutV { x, y, text: "│"@, style };
    let right = PutV { x: x + g.box_at().1 - 1, y, text: "│"@, style };
    let gutter = PutV {
        x: x - (d.gutter.len() + 1),
        y,
        text: d.gutter,
        style: crate::paint::colored(d.dim, base),
    };
    if line < n - 1 {
        lemma_sides(g, top, scroll, d, base, n - 1, line);
        lemma_kept(front, v, left);
        lemma_kept(front, v, right);
        if line == 0 && d.gutter.len() > 0 && x - (d.gutter.len() + 1) >= g.viewport.col {
            lemma_kept(front, v, gutter);
        }
    } else {
        assert(screen_row(g, scroll, top + n) == Some(y));
        let now = side_puts(g, y, n - 1, d, base);
        let at = front.len() as int;
        assert(v == front + now);
        assert(v[at] == left && v[at + 1] == right);
        if line == 0 && d.gutter.len() > 0 && x - (d.gutter.len() + 1) >= g.viewport.col {
            assert(v[at + 2] == gutter);
        }
    }
}

proof fn lemma_kept<T>(front: Seq<T>, v: Seq<T>, p: T)
    requires
        front.contains(p),
        front.len() <= v.len(),
        forall|i: int| 0 <= i < front.len() ==> #[trigger] v[i] == front[i],
    ensures
        v.contains(p),
{
    let i = choose|i: int| 0 <= i < front.len() && front[i] == p;
    assert(v[i] == p);
}

/// A cell's lines stand in a box: a border above them and below them, and one on each side of
/// every line in view, all in the border's style. Beside the first line stands what the gutter
/// says, a column away from the box.
pub proof fn lines_stand_in_a_box(g: Geometry, b: Block, scroll: int, d: DecorationV, base: Style, line: int)
    requires
        0 <= line < b.lines,
    ensures
        ({
            let v = box_puts(g, b, scroll, d, base);
            let x = g.box_at().0;
            let w = g.box_at().1;
            let style = border_style(d, base);
            let y = |row: int| g.viewport.row + 1 + (row - scroll);
            let seen = |row: int| scroll <= row < scroll + g.rows();
            &&& seen(b.top as int) ==> puts_at(v, x, y(b.top as int), rule("╭"@, "╮"@, w), style)
            &&& seen(b.top + 1 + line) ==> puts_at(v, x, y(b.top + 1 + line), "│"@, style)
                && puts_at(v, x + w - 1, y(b.top + 1 + line), "│"@, style)
            &&& seen(b.top + b.lines + 1) ==> puts_at(
                v,
                x,
                y(b.top + b.lines + 1),
                rule("╰"@, "╯"@, w),
                style,
            )
            &&& seen(b.top + 1) && d.gutter.len() > 0 && x - (d.gutter.len() + 1) >= g.viewport.col
                ==> puts_at(
                v,
                x - (d.gutter.len() + 1),
                y(b.top + 1),
                d.gutter,
                crate::paint::colored(d.dim, base),
            )
        }),
{
    let v = box_puts(g, b, scroll, d, base);
    let x = g.box_at().0;
    let w = g.box_at().1;
    let style = border_style(d, base);
    let top = b.top as int;
    let above = match screen_row(g, scroll, top) {
        Some(y) => top_puts(g, y, d, base),
        None => Seq::empty(),
    };
    let sides = sides_upto(g, top, scroll, d, base, b.lines as int);
    let at = above.len() as int;
    if scroll <= top < scroll + g.rows() {
        let p = PutV { x, y: g.top_row() + top - scroll, text: rule("╭"@, "╮"@, w), style };
        assert(above[0] == p);
        assert(v[0] == p);
    }
    if scroll <= top + 1 + line < scroll + g.rows() {
        lemma_sides(g, top, scroll, d, base, b.lines as int, line);
        let y = g.top_row() + (top + 1 + line - scroll);
        lemma_inside(above, sides, v, PutV { x, y, text: "│"@, style });
        lemma_inside(above, sides, v, PutV { x: x + w - 1, y, text: "│"@, style });
    }
    if scroll <= top + 1 < scroll + g.rows() && d.gutter.len() > 0 && x - (d.gutter.len() + 1)
        >= g.viewport.col {
        lemma_sides(g, top, scroll, d, base, b.lines as int, 0);
        let y = g.top_row() + (top + 1 - scroll);
        let p = PutV {
            x: x - (d.gutter.len() + 1),
            y,
            text: d.gutter,
            style: crate::paint::colored(d.dim, base),
        };
        lemma_inside(above, sides, v, p);
    }
    if scroll <= top + b.lines + 1 < scroll + g.rows() {
        let p = PutV {
            x,
            y: g.top_row() + (top + b.lines + 1 - scroll),
            text: rule("╰"@, "╯"@, w),
            style,
        };
        assert(v[v.len() - 1] == p);
    }
}

proof fn lemma_inside<T>(a: Seq<T>, b: Seq<T>, v: Seq<T>, p: T)
    requires
        b.contains(p),
        a.len() + b.len() <= v.len(),
        forall|i: int| 0 <= i < b.len() ==> #[trigger] b[i] == v[a.len() + i],
    ensures
        v.contains(p),
{
    let i = choose|i: int| 0 <= i < b.len() && b[i] == p;
    assert(v[a.len() + i] == p);
}

/// A box's top border says the cell's label at its left end and its status at its right end.
pub proof fn top_border_says_label_and_status(g: Geometry, y: int, d: DecorationV, base: Style)
    ensures
        ({
            let v = top_puts(g, y, d, base);
            let x = g.box_at().0;
            let w = g.box_at().1;
            &&& d.label is Some ==> v.len() > 1 && v[1].x == x + 2 && v[1].y == y && occurs(
                v[1].text,
                d.label->0,
            )
            &&& d.status is Some ==> v.len() > 1 && v.last().y == y && occurs(
                v.last().text,
                (d.status->0).0,
            )
            &&& d.status is Some && (d.status->0).0.len() + 6 <= w ==> v.last().x + v.last().text.len()
                == x + w - 2
            &&& d.status is Some && (d.status->0).1 is Some ==> v.last().style.fg == (d.status->0).1
            &&& d.status is None && d.label is None ==> v.len() == 1
        }),
{
    reveal_strlit(" ");
    if d.label is Some {
        lemma_occurs(" "@, d.label->0, " "@);
    }
    if d.status is Some {
        lemma_occurs(" "@, (d.status->0).0, " "@);
    }
}

/// The outputs of a cell stand below its box, row by row: an output row in view is on its row of
/// the screen, between the columns of the box's sides.
pub proof fn outputs_stand_below_the_box(g: Geometry, b: Block, scroll: int, n: int)
    requires
        g.wf(),
        scroll >= 0,
        0 <= n < b.outputs,
        b.top + b.rows() <= usize::MAX,
        scroll <= b.top + b.lines + 2 + n < scroll + g.rows(),
    ensures
        ({
            let r = outputs_run(g, b, scroll);
            let y = g.viewport.row + 1 + (b.top + b.lines + 2 + n - scroll);
            &&& r is Some
            &&& r->0.top <= y < r->0.top + r->0.len
            &&& r->0.offset + (y - r->0.top) == n
            &&& r->0.x0 == g.box_at().0 + 1
            &&& r->0.x1 == g.box_at().0 + g.box_at().1 - 1
        }),
{
}

/// Every block is drawn, with its own cell's decoration and outputs.
pub proof fn every_block_is_drawn(
    a: &App,
    g: Geometry,
    blocks: Seq<Block>,
    scroll: int,
    t: Colors,
    times: Seq<String>,
    base: Style,
    n: int,
    i: int,
    p: PaintV,
)
    requires
        0 <= i < n <= blocks.len(),
        n <= times.len(),
    ensures
        ({
            let d = decorated(a, blocks[i].key@, blocks[i].kind, t, times[i]@);
            let all = blocks_paints(a, g, blocks, scroll, t, times, base, n);
            &&& p is Text && box_puts(g, blocks[i], scroll, d, base).contains(p->Text_0)
                ==> all.contains(p)
            &&& outputs_run(g, blocks[i], scroll) is Some ==> all.contains(
                PaintV::Outputs(blocks[i].key@, outputs_run(g, blocks[i], scroll)->0),
            )
        }),
    decreases n,
{
    let d = decorated(a, blocks[i].key@, blocks[i].kind, t, times[i]@);
    let all = blocks_paints(a, g, blocks, scroll, t, times, base, n);
    let front = blocks_paints(a, g, blocks, scroll, t, times, base, n - 1);
    let shown = PaintV::Outputs(blocks[i].key@, outputs_run(g, blocks[i], scroll)->0);
    if i < n - 1 {
        every_block_is_drawn(a, g, blocks, scroll, t, times, base, n - 1, i, p);
        if front.contains(p) {
            lemma_kept(front, all, p);
        }
        if front.contains(shown) {
            lemma_kept(front, all, shown);
        }
    } else {
        let now = block_paints(a, g, blocks[i], scroll, t, times[i]@, base);
        let texts = box_puts(g, blocks[i], scroll, d, base);
        if p is Text && texts.contains(p->Text_0) {
            let j = choose|j: int| 0 <= j < texts.len() && texts[j] == p->Text_0;
            assert(now[j] == p);
            assert(all[front.len() + j] == p);
        }
        if outputs_run(g, blocks[i], scroll) is Some {
            assert(now[now.len() - 1] == shown);
            assert(all[all.len() - 1] == shown);
        }
    }
}

/// A border reaches from corner to corner across the box.
pub proof fn border_spans_the_box(left: char, right: char, width: int)
    requires
        width >= 2,
    ensures
        ({
            let r = rule(seq![left], seq![right], width);
            &&& r.len() == width
            &&& r[0] == left
            &&& r.last() == right
            &&& forall|i: int| 0 < i < width - 1 ==> #[trigger] r[i] == '─'
        }),
{
    lemma_repeated(width - 2);
}

proof fn lemma_repeated(n: int)
    requires
        n >= 0,
    ensures
        crate::paint::repeated("─"@, n).len() == n,
        forall|i: int| 0 <= i < n ==> #[trigger] crate::paint::repeated("─"@, n)[i] == '─',
    decreases n,
{
    reveal_strlit("─");
    if n > 0 {
        lemma_repeated(n - 1);
    }
}

/// Beside the header stands how to go on from here: to the help in navigation mode, and out of
/// the cell while one is edited; and a warning where tmux keeps modified keys back.
pub proof fn hint_says_how_to_go_on(a: &App, t: Colors)
    ensures
        ({
            let h = hint_shown(a, t);
            &&& a.ui.mode@ is Other <==> h is None
            &&& h is Some ==> h->0.len() == if a.tmux_keys_missing {
                2int
            } else {
                1
            }
            &&& a.ui.mode@ is Nav ==> occurs(h->0.last().content, "? help"@)
            &&& a.ui.mode@ is Edit ==> occurs(h->0.last().content, "<Esc>"@)
            &&& h is Some && a.tmux_keys_missing ==> occurs(
                h->0[0].content,
                "tmux: Shift/Ctrl+Enter off"@,
            )
        }),
{
    reveal_strlit("? help");
    reveal_strlit(" ? help ");
    reveal_strlit(" h l select · <CR> open · ? help ");
    reveal_strlit(" <Esc><Esc> to cells ");
    reveal_strlit("<Esc>");
    reveal_strlit("tmux: Shift/Ctrl+Enter off");
    reveal_strlit(" ⚠ tmux: Shift/Ctrl+Enter off");
    let help = "? help"@;
    assert(" ? help "@.subrange(1, 1int + help.len()) =~= help);
    let long = " h l select · <CR> open · ? help "@;
    let at = long.len() - 7;
    assert(long.subrange(at, at + help.len()) =~= help);
    let esc = "<Esc>"@;
    assert(" <Esc><Esc> to cells "@.subrange(1, 1int + esc.len()) =~= esc);
    let warns = "tmux: Shift/Ctrl+Enter off"@;
    assert(" ⚠ tmux: Shift/Ctrl+Enter off"@.subrange(3, 3int + warns.len()) =~= warns);
}

/// The header begins at the viewport's left end, and the hint ends at its right end, where there
/// is room for both.
pub proof fn header_and_hint_share_the_row(
    col: u16,
    row: u16,
    width: u16,
    header: Seq<crate::style::SpanV>,
    hint: Seq<crate::style::SpanV>,
)
    requires
        col + width <= u16::MAX,
        spans_columns(header) >= 0,
        spans_columns(hint) >= 0,
        spans_columns(header) + spans_columns(hint) <= width,
        spans_columns(header) < width,
    ensures
        ({
            let p = header_places(col, row, width, header, Some(hint));
            &&& p.0.x == col && p.0.y == row && p.0.width == width
            &&& p.1 is Some
            &&& p.1->0.y == row
            &&& p.1->0.width == spans_columns(hint)
            &&& p.1->0.x + p.1->0.width == col + width
        }),
{
}

/// Everything of the layout on screen is drawn; an empty notebook says how to add a cell.
pub proof fn shown_layout_is_drawn(
    a: &App,
    t: Colors,
    times: Seq<String>,
    base: Style,
    g: Geometry,
    i: int,
    p: PaintV,
)
    requires
        a.ui.geometry == Some(g),
        a.ui.shown is Some,
        0 <= i < (a.ui.shown->0).0.blocks@.len(),
        (a.ui.shown->0).0.blocks@.len() <= times.len(),
    ensures
        ({
            let all = notebook_paints(a, t, times, base);
            let b = (a.ui.shown->0).0.blocks@[i];
            let scroll = (a.ui.shown->0).1 as int;
            let d = decorated(a, b.key@, b.kind, t, times[i]@);
            &&& p is Text && box_puts(g, b, scroll, d, base).contains(p->Text_0) ==> all.contains(p)
            &&& outputs_run(g, b, scroll) is Some ==> all.contains(
                PaintV::Outputs(b.key@, outputs_run(g, b, scroll)->0),
            )
            &&& a.nb.doc().order.len() == 0 ==> all[0] is Text && all[0]->Text_0.y == g.viewport.row
                + 1
            &&& a.nb.doc().order.len() == 0 && g.box_at().1 >= 40 ==> occurs(
                all[0]->Text_0.text,
                "o adds a cell"@,
            )
        }),
{
    let all = notebook_paints(a, t, times, base);
    let l = (a.ui.shown->0).0;
    let scroll = (a.ui.shown->0).1 as int;
    let n = l.blocks@.len() as int;
    every_block_is_drawn(a, g, l.blocks@, scroll, t, times, base, n, i, p);
    let blocks = blocks_paints(a, g, l.blocks@, scroll, t, times, base, n);
    let first = if a.nb.doc().order.len() == 0 {
        seq![crate::paint::empty_paint(g, t)]
    } else {
        Seq::empty()
    };
    assert(all == first + blocks);
    let b = l.blocks@[i];
    if blocks.contains(p) {
        lemma_inside(first, blocks, all, p);
    }
    if outputs_run(g, b, scroll) is Some {
        lemma_inside(
            first,
            blocks,
            all,
            PaintV::Outputs(b.key@, outputs_run(g, b, scroll)->0),
        );
    }
    reveal_strlit("empty notebook: o adds a cell");
    reveal_strlit("o adds a cell");
    let words = "o adds a cell"@;
    assert("empty notebook: o adds a cell"@.subrange(16, 16int + words.len()) =~= words);
}

} // verus!
