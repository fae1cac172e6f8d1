//! What the keys and commands of a session do to its notebook, as the user sees it.

use crate::adapter::CellKind;
use crate::app::{
    acted, acted_on, added_by, changed_by, opened, pasted, ran_all, ran_one, with_tomb, App, RunV,
};
use crate::changed::{
    hiding_takes_the_cell_out, joining_puts_sources_together, moving_down_passes_cells,
    moving_up_passes_cells, retyping_sets_the_type,
};
use crate::document::{fresh_cell, loaded, raw_kind, raw_source, CellV};
use crate::executor::runnable;
use crate::history::{
    alike, applied, cell_at, one_change_is_undone_and_redone, run, source_of, valid, ChangeV, DocV,
    Name,
};
use crate::json::obj_remove;
use crate::nav::Action;
use crate::ui::{EffectV, HeaderItem, ModeV};
use vstd::prelude::*;

verus! {

pub proof fn lemma_one_change(d: DocV, c: ChangeV)
    ensures
        run(d, seq![c]) == match applied(d, c) {
            Some((e, inverse, at)) => (e, seq![inverse], Some(at)),
            None => (d, Seq::<ChangeV>::empty(), None::<int>),
        },
{
    let g = seq![c];
    assert(g.drop_last() =~= Seq::empty());
    assert(run(d, Seq::<ChangeV>::empty()) == (d, Seq::<ChangeV>::empty(), None::<int>));
    match applied(d, c) {
        Some((e, inverse, at)) => {
            assert(seq![inverse] + Seq::<ChangeV>::empty() =~= seq![inverse]);
        },
        None => {},
    }
}

/// What the notebook's file holds beside its cells stays, and the notebook and its buffer count
/// as changed.
pub open spec fn counts_as_changed(before: &App, after: &App) -> bool {
    &&& after.nb.mutated
    &&& after.ui.dirty
    &&& after.nb.path@ == before.nb.path@
    &&& after.nb.top@ == before.nb.top@
    &&& after@.ui.effects.len() > before@.ui.effects.len()
    &&& after@.ui.effects[before@.ui.effects.len() as int] == EffectV::Sync
}

proof fn lemma_changed(before: &App, after: &App, c: ChangeV)
    requires
        changed_by(before, after, c),
        applied(before.nb.doc(), c) is Some,
    ensures
        after.nb.doc() == applied(before.nb.doc(), c)->Some_0.0,
        after.ui.selected == applied(before.nb.doc(), c)->Some_0.2,
        counts_as_changed(before, after),
{
    lemma_one_change(before.nb.doc(), c);
    assert(after.nb.doc() == after.nb.history().doc);
    assert(after@.ui.selected == after.ui.selected);
    assert(after@.ui.dirty == after.ui.dirty);
}

proof fn lemma_added(before: &App, after: &App, key: Name, cell: CellV, index: int)
    requires
        before.wf(),
        index >= 0,
        added_by(before, after, key, cell, ChangeV::Show { key, index }),
    ensures
        !before.nb.doc().order.contains(key),
        ({
            let order = before.nb.doc().order;
            let at = after.ui.selected as int;
            &&& at == if index <= order.len() {
                index
            } else {
                order.len() as int
            }
            &&& after.nb.doc().order == order.take(at) + seq![key] + order.skip(at)
        }),
        after.nb.doc().live.dom().contains(key),
        after.nb.doc().live[key] == cell,
        forall|other: Name|
            other != key ==> #[trigger] after.nb.doc().live.dom().contains(other)
                == before.nb.doc().live.dom().contains(other),
        forall|other: Name|
            before.nb.doc().live.dom().contains(other) ==> #[trigger] after.nb.doc().live[other]
                == before.nb.doc().live[other],
        counts_as_changed(before, after),
{
    let d = before.nb.doc();
    let h = with_tomb(&before.nb, key, cell);
    let c = ChangeV::Show { key, index };
    lemma_one_change(h.doc, c);
    assert(after.nb.doc() == after.nb.history().doc);
    assert(after@.ui.selected == after.ui.selected);
    assert(after@.ui.dirty == after.ui.dirty);
    if d.order.contains(key) {
        assert(d.live.dom().contains(key));
        assert(cell_at(d, key) is Some);
    }
    if d.live.dom().contains(key) {
        assert(d.order.contains(key));
    }
    let at = after.ui.selected as int;
    assert(after.nb.doc().order =~= d.order.take(at) + seq![key] + d.order.skip(at));
}

/// `dd` takes the selected cell out of the notebook, alone, and keeps it for pasting. The cell
/// below is selected, or the last.
pub proof fn delete_takes_the_selected_cell(before: &App, after: &App, changes: u64, other: Name)
    requires
        before.wf(),
        before.ui.header is None,
        before.ui.selected < before.nb.doc().order.len(),
        other != before.nb.doc().order[before.ui.selected as int],
        acted_on(before, after, Action::Delete, changes),
    ensures
        ({
            let i = before.ui.selected as int;
            let d = before.nb.doc();
            let e = after.nb.doc();
            &&& e.order == d.order.take(i) + d.order.skip(i + 1)
            &&& !e.live.dom().contains(d.order[i])
            &&& after@.register == Some(d.live[d.order[i]].raw)
            &&& d.live.dom().contains(other) ==> e.live.dom().contains(other) && e.live[other]
                == d.live[other]
            &&& i + 1 < d.order.len() ==> after.ui.selected == i
            &&& 0 < i && i + 1 == d.order.len() ==> after.ui.selected == i - 1
            &&& counts_as_changed(before, after)
        }),
{
    reveal(acted);
    let d = before.nb.doc();
    let i = before.ui.selected as int;
    let k = d.order[i];
    let c = ChangeV::Hide { key: k };
    let b = App { register: after.register, ..*before };
    hiding_takes_the_cell_out(d, i, other);
    lemma_changed(&b, after, c);
    assert(d.order.contains(k));
    assert(d.live.dom().contains(k));
    assert(b.ui@ == before.ui@);
}

/// `yy` keeps the selected cell for pasting and changes nothing in the notebook.
pub proof fn yank_keeps_the_selected_cell(before: &App, after: &App, changes: u64)
    requires
        before.wf(),
        before.ui.header is None,
        before.ui.selected < before.nb.doc().order.len(),
        acted_on(before, after, Action::Yank, changes),
    ensures
        after@.register == Some(
            before.nb.doc().live[before.nb.doc().order[before.ui.selected as int]].raw,
        ),
        after.nb.doc() == before.nb.doc(),
        after.nb.mutated == before.nb.mutated,
        after.ui.selected == before.ui.selected,
{
    reveal(acted);
    let d = before.nb.doc();
    let k = d.order[before.ui.selected as int];
    assert(d.order.contains(k));
    assert(d.live.dom().contains(k));
    assert(after@.nb.doc == before@.nb.doc);
    assert(after@.nb.mutated == before@.nb.mutated);
    assert(after@.ui.selected == before@.ui.selected);
}

/// Whether one cell more, and else every cell, stands in a notebook.
pub open spec fn has_one_more(d: DocV, e: DocV, at: int, key: Name) -> bool {
    &&& !d.order.contains(key)
    &&& e.order == d.order.take(at) + seq![key] + d.order.skip(at)
    &&& e.live.dom().contains(key)
    &&& forall|other: Name|
        d.live.dom().contains(other) ==> #[trigger] e.live.dom().contains(other)
    &&& forall|other: Name|
        d.live.dom().contains(other) ==> #[trigger] e.live[other] == d.live[other]
}

/// `p` puts a copy of the cell kept below the selected one, and `P` above it: the same fields
/// but for its id, under a key of its own. The copy is selected.
pub proof fn paste_puts_a_copy(before: &App, after: &App, above: bool, changes: u64)
    requires
        before.wf(),
        before.ui.header is None,
        before.ui.selected < before.nb.doc().order.len(),
        before.register is Some,
        acted_on(before, after, Action::Paste { above }, changes),
    ensures
        ({
            let at = if above {
                before.ui.selected as int
            } else {
                before.ui.selected + 1
            };
            let key = after.nb.doc().order[at];
            &&& has_one_more(before.nb.doc(), after.nb.doc(), at, key)
            &&& after.nb.doc().live[key].raw == obj_remove(before@.register->0, "id"@)
            &&& after.ui.selected == at
            &&& counts_as_changed(before, after)
        }),
{
    reveal(acted);
    let d = before.nb.doc();
    let at = if above {
        before.ui.selected as int
    } else {
        before.ui.selected + 1
    };
    let raw = before@.register->0;
    let key = choose|key: Name| #[trigger] pasted(before, after, key, raw, at);
    lemma_added(before, after, key, loaded(obj_remove(raw, "id"@)), at);
    assert(after.nb.doc().order[at] == key);
    assert forall|other: Name| d.live.dom().contains(other) implies #[trigger]
        after.nb.doc().live.dom().contains(other) by {
        if other == key {
        }
    }
}

/// `o` puts an empty code cell below the selected one, and `O` above it. It is selected.
pub proof fn open_puts_an_empty_cell(before: &App, after: &App, above: bool, changes: u64)
    requires
        before.wf(),
        before.ui.header is None,
        before.ui.selected < before.nb.doc().order.len(),
        acted_on(before, after, Action::Open { above }, changes),
    ensures
        ({
            let at = if above {
                before.ui.selected as int
            } else {
                before.ui.selected + 1
            };
            let key = after.nb.doc().order[at];
            &&& has_one_more(before.nb.doc(), after.nb.doc(), at, key)
            &&& raw_kind(after.nb.doc().live[key].raw) == CellKind::Code
            &&& raw_source(after.nb.doc().live[key].raw).len() == 0
            &&& after.ui.selected == at
            &&& after@.ui.mode == before@.ui.mode
            &&& counts_as_changed(before, after)
        }),
{
    reveal(acted);
    let d = before.nb.doc();
    let at = if above {
        before.ui.selected as int
    } else {
        before.ui.selected + 1
    };
    let key = choose|key: Name| #[trigger] opened(before, after, key, at);
    fresh_cell(CellKind::Code, Seq::empty());
    lemma_added(before, after, key, crate::document::fresh(CellKind::Code, Seq::empty()), at);
    assert(after.nb.doc().order[at] == key);
}

/// `]e` exchanges the selected cell with the one below it, and `[e` with the one above; at the
/// end nothing changes. It stays selected.
pub proof fn moving_exchanges_two_cells(before: &App, after: &App, down: bool, changes: u64)
    requires
        before.wf(),
        before.ui.header is None,
        before.ui.selected < before.nb.doc().order.len(),
        acted_on(
            before,
            after,
            if down {
                Action::MoveDown
            } else {
                Action::MoveUp
            },
            changes,
        ),
    ensures
        ({
            let order = before.nb.doc().order;
            let i = before.ui.selected as int;
            let j = if down {
                i + 1
            } else {
                i - 1
            };
            &&& 0 <= j < order.len() ==> {
                &&& after.nb.doc().order == order.update(i, order[j]).update(j, order[i])
                &&& after.ui.selected == j
                &&& counts_as_changed(before, after)
            }
            &&& !(0 <= j < order.len()) ==> {
                &&& after.nb.doc().order == order
                &&& after.ui.selected == i
            }
            &&& after.nb.doc().live == before.nb.doc().live
        }),
{
    reveal(acted);
    let d = before.nb.doc();
    let i = before.ui.selected as int;
    let j = if down {
        i + 1
    } else {
        i - 1
    };
    if 0 <= j < d.order.len() {
        let c = ChangeV::Move { key: d.order[i], index: j };
        if down {
            moving_down_passes_cells(d, i, j);
        } else {
            moving_up_passes_cells(d, i, j);
        }
        lemma_changed(before, after, c);
        assert(after.nb.doc().order =~= d.order.update(i, d.order[j]).update(j, d.order[i]));
    } else {
        assert(after@.nb.doc == before@.nb.doc);
        assert(after@.ui.selected == before@.ui.selected);
    }
}

/// `J` joins the next cell onto the selected one: their sources with a line break between them,
/// in the selected cell, which keeps its type and stays selected. The next cell is gone, and no
/// other changes.
pub proof fn join_puts_the_next_cell_on(before: &App, after: &App, changes: u64, other: Name)
    requires
        before.wf(),
        valid(before.nb.doc()),
        before.ui.header is None,
        before.ui.selected + 1 < before.nb.doc().order.len(),
        other != before.nb.doc().order[before.ui.selected as int],
        other != before.nb.doc().order[before.ui.selected + 1],
        acted_on(before, after, Action::Merge, changes),
    ensures
        ({
            let i = before.ui.selected as int;
            let d = before.nb.doc();
            let e = after.nb.doc();
            let k = d.order[i];
            let next = d.order[i + 1];
            &&& e.order == d.order.take(i + 1) + d.order.skip(i + 2)
            &&& source_of(e.live[k]) == source_of(d.live[k]) + seq!['\n'] + source_of(d.live[next])
            &&& raw_kind(e.live[k].raw) == raw_kind(d.live[k].raw)
            &&& !e.live.dom().contains(next)
            &&& e.live[other] == d.live[other]
            &&& after.ui.selected == i
            &&& counts_as_changed(before, after)
        }),
{
    reveal(acted);
    let i = before.ui.selected as int;
    let d = before.nb.doc();
    joining_puts_sources_together(d, i, i + 1, other);
    lemma_changed(before, after, ChangeV::Merge { key: d.order[i], next: d.order[i + 1] });
}

/// `tc`, `tm` and `tr` give the selected cell its type and leave its source, its place and
/// every other cell.
pub proof fn retyping_changes_the_selected_cell(
    before: &App,
    after: &App,
    kind: CellKind,
    changes: u64,
    other: Name,
)
    requires
        before.wf(),
        valid(before.nb.doc()),
        before.ui.header is None,
        before.ui.selected < before.nb.doc().order.len(),
        other != before.nb.doc().order[before.ui.selected as int],
        acted_on(before, after, Action::Kind(kind), changes),
    ensures
        ({
            let i = before.ui.selected as int;
            let d = before.nb.doc();
            let e = after.nb.doc();
            let k = d.order[i];
            &&& e.order == d.order
            &&& raw_kind(e.live[k].raw) == kind
            &&& source_of(e.live[k]) == source_of(d.live[k])
            &&& e.live[other] == d.live[other]
            &&& after.ui.selected == i
        }),
{
    reveal(acted);
    let i = before.ui.selected as int;
    let d = before.nb.doc();
    let c = ChangeV::Kind { key: d.order[i], kind };
    retyping_sets_the_type(d, i, kind, other);
    if applied(d, c) is Some {
        lemma_changed(before, after, c);
    } else {
        lemma_one_change(d, c);
        assert(after.nb.doc() == after.nb.history().doc);
        assert(after@.ui.selected == after.ui.selected);
    }
}

/// `u` takes a delete, a move, a join or a new type back: the cells are as they were, in type,
/// source, outputs and order. `<C-r>` after it makes the change again.
pub proof fn undo_takes_a_change_back(
    before: &App,
    done: &App,
    undone: &App,
    redone: &App,
    c: ChangeV,
    changes: u64,
)
    requires
        valid(before.nb.doc()),
        changed_by(before, done, c),
        applied(before.nb.doc(), c) is Some,
        done.ui.header is None,
        acted_on(done, undone, Action::Undo, changes),
        undone.ui.header is None,
        acted_on(undone, redone, Action::Redo, changes),
    ensures
        alike(undone.nb.doc(), before.nb.doc()),
        alike(redone.nb.doc(), done.nb.doc()),
{
    reveal(acted);
    lemma_one_change(before.nb.doc(), c);
    one_change_is_undone_and_redone(before.nb.history(), c);
    assert(before.nb.history().doc == before.nb.doc());
    assert(done.nb.history().doc == done.nb.doc());
    assert(undone.nb.history().doc == undone.nb.doc());
    assert(redone.nb.history().doc == redone.nb.doc());
}

/// `j` and `k` go so many cells down and up, as far as there are cells; `gg`, `G` and `{n}G` go
/// to the first, last and nth cell. The notebook stays as it is.
pub proof fn motions_select_cells(before: &App, after: &App, action: Action, n: usize, changes: u64)
    requires
        before.ui.header is None,
        before.ui.selected < before.nb.doc().order.len(),
        acted_on(before, after, action, changes),
    ensures
        ({
            let len = before.nb.doc().order.len() as int;
            let i = before.ui.selected as int;
            let j = after.ui.selected as int;
            &&& action == Action::Down(n) && i + n < len ==> j == i + n
            &&& action == Action::Down(n) && i + n >= len ==> j == len - 1
            &&& action == Action::Up(n) && 0 < i && n <= i ==> j == i - n
            &&& action == Action::Up(n) && 0 < i < n ==> j == 0
            &&& action == Action::First ==> j == 0
            &&& action == Action::Last(None) ==> j == len - 1
            &&& action == Action::Last(Some(n)) && 1 <= n <= len ==> j == n - 1
            &&& action == Action::Last(Some(n)) && n > len ==> j == len - 1
            &&& (action is Down || action is First || action is Last || (action is Up && i > 0))
                ==> after.nb.doc() == before.nb.doc() && after.ui.header is None && after.ui.follow
                && after@.ui.mode == before@.ui.mode
        }),
{
    reveal(acted);
    assert(after@.ui.selected == after.ui.selected);
    assert(after@.ui.header == after.ui.header);
    assert(after@.ui.follow == after.ui.follow);
    assert(after@.nb.doc == after.nb.doc());
}

/// `Enter` edits the selected cell: the windows are laid out, then that cell's is given focus.
pub proof fn enter_edits_the_selected_cell(before: &App, after: &App, changes: u64)
    requires
        before.wf(),
        before.ui.header is None,
        before.ui.selected < before.nb.doc().order.len(),
        before.ui.focus_seq < u64::MAX,
        acted_on(before, after, Action::Edit, changes),
    ensures
        ({
            let key = before.nb.doc().order[before.ui.selected as int];
            let seq = (before.ui.focus_seq + 1) as u64;
            &&& after@.ui.mode == ModeV::Edit(key)
            &&& after@.ui.effects == before@.ui.effects + seq![
                EffectV::LayOut,
                EffectV::Enter { seq, key, insert: false },
            ]
            &&& after.ui.focus_seq == seq
            &&& after.ui.selected == before.ui.selected
            &&& after.nb.doc() == before.nb.doc()
        }),
{
    reveal(acted);
    let order = before.nb.doc().order;
    let key = order[before.ui.selected as int];
    let seq = (before.ui.focus_seq + 1) as u64;
    crate::history::lemma_pos_is(order, key, before.ui.selected as int);
    assert(after@.ui.effects =~= before@.ui.effects + seq![
        EffectV::LayOut,
        EffectV::Enter { seq, key, insert: false },
    ]);
    assert(after@.ui.focus_seq == after.ui.focus_seq);
    assert(after@.ui.selected == after.ui.selected);
    assert(after@.nb.doc == after.nb.doc());
}

/// `ii` interrupts a connected kernel and does nothing to one that is not.
pub proof fn interrupt_reaches_the_kernel(before: &App, after: &App, changes: u64)
    requires
        before.ui.header is None,
        acted_on(before, after, Action::Interrupt, changes),
    ensures
        before.connected ==> after@.ui.effects == before@.ui.effects.push(EffectV::Interrupt),
        !before.connected ==> after@.ui.effects == before@.ui.effects,
        after.nb.doc() == before.nb.doc(),
        after.connected == before.connected,
{
    reveal(acted);
    assert(after@.nb.doc == after.nb.doc());
    assert(after@.connected == after.connected);
}

/// In the header `h` and `l` select the file name and the kernel, and `Enter` asks for a new name
/// or for the kernels there are.
pub proof fn header_items_are_selected(before: &App, after: &App, action: Action, changes: u64)
    requires
        before.ui.header is Some,
        acted_on(before, after, action, changes),
    ensures
        action is Left ==> after.ui.header == Some(HeaderItem::Name),
        action is Right ==> after.ui.header == Some(HeaderItem::Kernel),
        action is Edit && before.ui.header == Some(HeaderItem::Kernel) ==> after@.ui.effects
            == before@.ui.effects.push(EffectV::FindKernels),
        action is Edit && before.ui.header == Some(HeaderItem::Name) ==> after@.ui.effects
            == before@.ui.effects.push(
            EffectV::Call(crate::app::rename_call(before.nb.path@)),
        ),
        action is Delete || action is Paste || action is Merge || action is Kind || action is Open
            || action is Run || action is Undo ==> after.nb.doc() == before.nb.doc(),
{
    assert(after@.ui.header == after.ui.header);
    assert(after@.nb.doc == after.nb.doc());
}

/// `<C-d>` scrolls half the rows of the cells' area down, and `<C-u>` as many up.
pub proof fn half_pages_are_scrolled(before: &App, after: &App, down: bool, changes: u64)
    requires
        before.ui.header is None,
        before.ui.geometry is Some,
        acted_on(
            before,
            after,
            if down {
                Action::HalfPageDown
            } else {
                Action::HalfPageUp
            },
            changes,
        ),
    ensures
        ({
            let rows = before.ui.geometry->0.rows();
            let e = after@.ui.effects.last();
            let n = if down {
                e->ScrollBy_0
            } else {
                -e->ScrollBy_0
            };
            &&& after@.ui.effects.len() == before@.ui.effects.len() + 1
            &&& e is ScrollBy
            &&& n + n == rows || n + n + 1 == rows
            &&& after.nb.doc() == before.nb.doc()
        }),
{
    reveal(acted);
    assert(after@.nb.doc == after.nb.doc());
    assert(before@.ui.geometry == before.ui.geometry);
}

/// `:` opens Neovim's command line, and Neovim gets the keys until it is done; `?` asks for the
/// list of keys. Neither changes the notebook.
pub proof fn colon_and_help_leave_the_notebook(before: &App, after: &App, help: bool, changes: u64)
    requires
        acted_on(
            before,
            after,
            if help {
                Action::Help
            } else {
                Action::Cmdline
            },
            changes,
        ),
    ensures
        after@.ui.effects.len() == before@.ui.effects.len() + 1,
        help ==> after@.ui.effects.last() is Help,
        !help ==> after@.ui.effects.last() is Call && after@.ui.effects.last()->Call_0
            == (crate::call::CallV {
            method: "nvim_input"@,
            args: seq![crate::call::ArgV::Text(":"@)],
        }),
        !help ==> after.ui.forward_since == Some(changes),
        after.nb.doc() == before.nb.doc(),
        after.ui.selected == before.ui.selected,
{
    reveal(acted);
    assert(after@.nb.doc == after.nb.doc());
    assert(after@.ui.forward_since == after.ui.forward_since);
    assert(after@.ui.selected == after.ui.selected);
}

/// `r` runs the selected cell alone, and stays on it; `x` runs it and selects the next.
pub proof fn run_keys_run_the_selected_cell(before: &App, after: &App, advance: bool, changes: u64)
    requires
        before.wf(),
        before.ui.header is None,
        before.ui.selected < before.nb.doc().order.len(),
        before.connected,
        before.kernel_error is None,
        runnable(before.nb.doc(), before.nb.doc().order[before.ui.selected as int]),
        advance ==> before.ui.selected + 1 < before.nb.doc().order.len(),
        acted_on(
            before,
            after,
            if advance {
                Action::RunAdvance
            } else {
                Action::Run
            },
            changes,
        ),
    ensures
        ({
            let k = before.nb.doc().order[before.ui.selected as int];
            let n = before@.ui.effects.len() as int;
            let sent = after@.ui.effects[n + 1];
            &&& after@.ui.effects.len() == n + 2
            &&& sent is Send
            &&& crate::commanding::asks_to_run(
                sent->Send_0,
                source_of(before.nb.doc().live[k]),
            )
            &&& after.nb.doc().order == before.nb.doc().order
            &&& after.nb.doc().live[k].runtime.state == crate::document::ExecState::Queued
            &&& after.ui.selected == if advance {
                before.ui.selected + 1
            } else {
                before.ui.selected as int
            }
        }),
{
    reveal(acted);
    let d = before.nb.doc();
    let i = before.ui.selected as int;
    let k = d.order[i];
    crate::history::lemma_pos_is(d.order, k, i);
    let ks = seq![k];
    let mid = if advance {
        choose|mid: App|
            #![trigger crate::app::advanced(&mid, after, k)]
            crate::app::cells_ran(before@, ks, mid@) && mid.keeps_file(before)
                && crate::app::advanced(&mid, after, k)
    } else {
        *after
    };
    let s = crate::app::run_part(before@);
    let t = choose|t: RunV| #[trigger]
        ran_all(s, ks, before@.kernel_error, before@.connected, t) && mid@ == crate::app::with_run(
            before@,
            RunV { ui: crate::ui::UiV { relayout: true, draw: true, ..t.ui }, ..t },
        );
    assert forall|j: int| 0 <= j < ks.len() implies runnable(s.nb.doc, #[trigger] ks[j]) by {
        assert(ks[j] == k);
    }
    let ms = crate::commanding::cells_are_sent_in_order(s, ks, true, t);
    assert(ks[0] == k);
    assert(crate::commanding::asks_to_run(ms[0], source_of(s.nb.doc.live[ks[0]])));
    lemma_run_keeps_selection(s, k, t);
    assert(mid@.nb.doc == mid.nb.doc());
    assert(after@.nb.doc == after.nb.doc());
    assert(after@.ui.selected == after.ui.selected);
    assert(mid.nb.doc().order == d.order);
}

proof fn lemma_run_keeps_selection(s: RunV, k: Name, t: RunV)
    requires
        ran_all(s, seq![k], None, true, t),
        runnable(s.nb.doc, k),
    ensures
        t.ui.selected == s.ui.selected,
{
    let ks = seq![k];
    assert(ks.drop_last() =~= Seq::empty());
    let mid = choose|mid: RunV|
        ran_all(s, ks.drop_last(), None, true, mid) && #[trigger] ran_one(
            mid,
            ks.last(),
            None,
            true,
            t,
        );
    assert(mid == s);
}

} // verus!
