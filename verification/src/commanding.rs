//! What running cells, and the commands and kernel events of a session, come to.

use crate::app::{
    cells_ran, code_names, commanded_to, count_in, death, evented, flag_in, install_decided,
    install_ended, is_code, kernel_came, kernel_fails, kernel_label, kernel_starts,
    kernels_offered, offered_item, outputs_cleared, picked, picked_and_started, ran_all, ran_one,
    renamed_to, restarts, run_part, sent_off, split_at, split_by, text_in, with_tomb, App,
    AppEvent, AppV, RunV,
};
use crate::changed::splitting_parts_the_source;
use crate::document::{fresh, fresh_cell, raw_kind, raw_outputs, ExecState};
use crate::executor::{message_asks, runnable, EventV, KernelStatus};
use crate::history::{cell_at, doc_wf, lines_of, run, source_of, valid, ChangeV, DocV, Name};
use crate::kernel::CommandV;
use crate::memory::{kernel_of, put_sets, taken_forgets};
use crate::msg::MsgV;
use crate::path::same_path;
use crate::text::one;
use crate::ui::{EffectV, ModeV, UiV};
use vstd::prelude::*;

verus! {

/// The code cells of the first `n` are those of them that are code, in their order.
pub proof fn code_cells_stay_in_order(d: DocV, n: int)
    requires
        0 <= n <= d.order.len(),
    ensures
        code_names(d, n) == d.order.take(n).filter(|k: Name| is_code(d, k)),
    decreases n,
{
    reveal(Seq::filter);
    let p = |k: Name| is_code(d, k);
    if n > 0 {
        code_cells_stay_in_order(d, n - 1);
        assert(d.order.take(n).drop_last() =~= d.order.take(n - 1));
    } else {
        assert(d.order.take(n) =~= Seq::empty());
    }
}

/// Whether a message asks a kernel to run a source as a notebook does: it counts, it may ask for
/// input, and an error stops what follows.
pub open spec fn asks_to_run(m: jupyter_protocol::JupyterMessage, source: Seq<char>) -> bool {
    let a = message_asks(m);
    a.code == source && !a.silent && a.store_history && a.allow_stdin && a.stop_on_error
}

/// Whether messages ask for the sources of cells, in order.
pub open spec fn ask_for(ms: Seq<jupyter_protocol::JupyterMessage>, d: DocV, ks: Seq<Name>) -> bool {
    &&& ms.len() == ks.len()
    &&& forall|i: int| 0 <= i < ks.len() ==> asks_to_run(#[trigger] ms[i], source_of(d.live[ks[i]]))
}

/// Whether two documents hold the same cells with the same fields.
pub open spec fn same_fields(d: DocV, e: DocV) -> bool {
    &&& d.order == e.order
    &&& forall|k: Name| #[trigger] d.live.dom().contains(k) == e.live.dom().contains(k)
    &&& forall|k: Name| d.live.dom().contains(k) ==> (#[trigger] e.live[k]).raw == d.live[k].raw
}

/// What is done to send cells off: each is drawn anew, and sent if the kernel is there.
pub open spec fn sent_in_turn(
    before: Seq<EffectV>,
    after: Seq<EffectV>,
    ks: Seq<Name>,
    ms: Seq<jupyter_protocol::JupyterMessage>,
) -> bool {
    &&& after.len() == before.len() + 2 * ks.len()
    &&& after.take(before.len() as int) == before
    &&& forall|i: int|
        #![trigger ms[i]]
        #![trigger ks[i]]
        0 <= i < ks.len() ==> after[before.len() + 2 * i] == EffectV::ForgetView(ks[i])
            && after[before.len() + 2 * i + 1] == EffectV::Send(ms[i])
}

/// Cells that run on a connected kernel are sent to it one by one in order, each with its own
/// source, and are queued. On one that is not there yet, the same messages wait for it.
pub proof fn cells_are_sent_in_order(s: RunV, ks: Seq<Name>, connected: bool, t: RunV) -> (ms: Seq<
    jupyter_protocol::JupyterMessage,
>)
    requires
        ran_all(s, ks, None, connected, t),
        forall|i: int| 0 <= i < ks.len() ==> runnable(s.nb.doc, #[trigger] ks[i]),
    ensures
        ask_for(ms, s.nb.doc, ks),
        connected ==> t.pending == s.pending && sent_in_turn(s.ui.effects, t.ui.effects, ks, ms),
        !connected ==> t.pending == s.pending + ms,
        same_fields(s.nb.doc, t.nb.doc),
        forall|i: int|
            0 <= i < ks.len() ==> t.nb.doc.live[#[trigger] ks[i]].runtime.state
                == ExecState::Queued,
        ks.len() > 0 ==> t.nb.mutated,
    decreases ks.len(),
{
    if ks.len() == 0 {
        let ms = Seq::<jupyter_protocol::JupyterMessage>::empty();
        assert(s.pending + ms =~= s.pending);
        assert(t.ui.effects.take(s.ui.effects.len() as int) =~= s.ui.effects);
        ms
    } else {
        let front = ks.drop_last();
        let k = ks.last();
        let mid = choose|mid: RunV|
            ran_all(s, front, None, connected, mid) && #[trigger] ran_one(mid, k, None, connected, t);
        assert forall|i: int| 0 <= i < front.len() implies runnable(s.nb.doc, #[trigger] front[i]) by {
            assert(runnable(s.nb.doc, ks[i]));
        }
        let ms0 = cells_are_sent_in_order(s, front, connected, mid);
        assert(runnable(s.nb.doc, ks[ks.len() - 1]));
        assert(mid.nb.doc.live[k].raw == s.nb.doc.live[k].raw);
        assert(runnable(mid.nb.doc, k));
        let m = choose|m: jupyter_protocol::JupyterMessage|
            message_asks(m) == crate::executor::run_of(source_of(mid.nb.doc.live[k])) && t
                == #[trigger] sent_off(mid, k, connected, m);
        let ms = ms0.push(m);
        assert forall|i: int| 0 <= i < ks.len() implies asks_to_run(
            #[trigger] ms[i],
            source_of(s.nb.doc.live[ks[i]]),
        ) by {
            if i < front.len() {
                assert(ms[i] == ms0[i]);
                assert(front[i] == ks[i]);
            }
        }
        assert forall|j: Name| s.nb.doc.live.dom().contains(j) implies (#[trigger]
        t.nb.doc.live[j]).raw == s.nb.doc.live[j].raw by {
            assert(mid.nb.doc.live[j].raw == s.nb.doc.live[j].raw);
        }
        assert forall|i: int| 0 <= i < ks.len() implies t.nb.doc.live[#[trigger] ks[i]].runtime.state
            == ExecState::Queued by {
            if i < front.len() {
                assert(front[i] == ks[i]);
            }
        }
        if connected {
            let b = s.ui.effects;
            let a = t.ui.effects;
            let f = mid.ui.effects;
            assert(a == f.push(EffectV::ForgetView(k)).push(EffectV::Send(m)));
            assert(a.take(b.len() as int) =~= f.take(b.len() as int));
            assert forall|i: int|
                #![trigger ms[i]]
                #![trigger ks[i]]
                0 <= i < ks.len() implies a[b.len() + 2 * i]
                == EffectV::ForgetView(ks[i]) && a[b.len() + 2 * i + 1] == EffectV::Send(ms[i]) by {
                if i < front.len() {
                    assert(ms[i] == ms0[i]);
                    assert(front[i] == ks[i]);
                    assert(f[b.len() + 2 * i] == a[b.len() + 2 * i]);
                    assert(f[b.len() + 2 * i + 1] == a[b.len() + 2 * i + 1]);
                } else {
                    assert(ks[i] == k && ms[i] == m);
                    assert(f.len() == b.len() + 2 * i);
                }
            }
            assert(t.pending == mid.pending);
            assert(a.len() == b.len() + 2 * ks.len());
            assert(sent_in_turn(b, a, ks, ms));
        } else {
            assert((s.pending + ms0).push(m) =~= s.pending + ms);
        }
        ms
    }
}

/// Where no kernel can run anything, cells are not sent: each code cell fails with the reason,
/// and keeps its fields.
pub proof fn cells_fail_without_a_kernel(s: RunV, ks: Seq<Name>, reason: Seq<char>, connected: bool, t: RunV)
    requires
        ran_all(s, ks, Some(reason), connected, t),
    ensures
        t.pending == s.pending,
        t.executor == s.executor,
        same_fields(s.nb.doc, t.nb.doc),
        forall|i: int|
            0 <= i < ks.len() && runnable(s.nb.doc, #[trigger] ks[i]) ==> {
                let c = t.nb.doc.live[ks[i]];
                c.runtime.state == ExecState::Error && c.runtime.error == Some(reason)
            },
    decreases ks.len(),
{
    if ks.len() > 0 {
        let front = ks.drop_last();
        let k = ks.last();
        let mid = choose|mid: RunV|
            ran_all(s, front, Some(reason), connected, mid) && #[trigger] ran_one(
                mid,
                k,
                Some(reason),
                connected,
                t,
            );
        cells_fail_without_a_kernel(s, front, reason, connected, mid);
        assert forall|j: Name| s.nb.doc.live.dom().contains(j) implies (#[trigger]
        t.nb.doc.live[j]).raw == s.nb.doc.live[j].raw by {
            assert(mid.nb.doc.live[j].raw == s.nb.doc.live[j].raw);
        }
        assert forall|i: int|
            0 <= i < ks.len() && runnable(s.nb.doc, #[trigger] ks[i]) implies ({
            let c = t.nb.doc.live[ks[i]];
            c.runtime.state == ExecState::Error && c.runtime.error == Some(reason)
        }) by {
            assert(mid.nb.doc.live[ks[i]].raw == s.nb.doc.live[ks[i]].raw);
            if i < front.len() {
                assert(front[i] == ks[i]);
            }
        }
    }
}

proof fn lemma_command_names()
    ensures
        "run"@.len() == 3,
        "run_advance"@.len() == 11,
        "run_all"@.len() == 7,
        "run_above"@.len() == 9,
        "split"@.len() == 5,
        "split"@[0] == 's',
        "clear_output"@.len() == 12,
        "rename"@.len() == 6,
        "kernel_chosen"@.len() == 13,
        "install_ipykernel"@.len() == 17,
        "input"@.len() == 5,
        "input"@[0] == 'i',
{
    reveal_strlit("run");
    reveal_strlit("run_advance");
    reveal_strlit("run_all");
    reveal_strlit("run_above");
    reveal_strlit("split");
    reveal_strlit("clear_output");
    reveal_strlit("rename");
    reveal_strlit("kernel_chosen");
    reveal_strlit("install_ipykernel");
    reveal_strlit("input");
}

proof fn lemma_code_runs(d: DocV, n: int)
    requires
        doc_wf(d),
        0 <= n <= d.order.len(),
    ensures
        forall|i: int|
            0 <= i < code_names(d, n).len() ==> runnable(d, #[trigger] code_names(d, n)[i]),
    decreases n,
{
    if n > 0 {
        lemma_code_runs(d, n - 1);
        let front = code_names(d, n - 1);
        let k = d.order[n - 1];
        assert(d.order.contains(k));
        assert(d.live.dom().contains(k));
        assert forall|i: int| 0 <= i < code_names(d, n).len() implies runnable(
            d,
            #[trigger] code_names(d, n)[i],
        ) by {
            if i < front.len() {
                assert(code_names(d, n)[i] == front[i]);
            }
        }
    }
}

/// `:NbvRunAll` sends every code cell to the kernel, in the notebook's order, and
/// `:NbvRunAbove` those above the cell it is given from.
pub proof fn run_commands_send_code_cells(before: &App, after: &App, args: MsgV, above: bool, i: int) -> (ms: Seq<
    jupyter_protocol::JupyterMessage,
>)
    requires
        before.wf(),
        before.connected,
        before.kernel_error is None,
        above ==> 0 <= i < before.nb.doc().order.len() && text_in(args, "key"@) == Some(
            before.nb.doc().order[i],
        ),
        !above ==> i == before.nb.doc().order.len(),
        commanded_to(
            before,
            after,
            if above {
                "run_above"@
            } else {
                "run_all"@
            },
            args,
        ),
    ensures
        ({
            let d = before.nb.doc();
            let ks = d.order.take(i).filter(|k: Name| is_code(d, k));
            &&& ask_for(ms, d, ks)
            &&& sent_in_turn(before@.ui.effects, after@.ui.effects, ks, ms)
            &&& same_fields(d, after.nb.doc())
        }),
{
    reveal(commanded_to);
    lemma_command_names();
    let d = before.nb.doc();
    code_cells_stay_in_order(d, i);
    lemma_code_runs(d, i);
    if above {
        let k = d.order[i];
        crate::history::lemma_pos_is(d.order, k, i);
        assert(d.order.contains(k));
        assert(d.live.dom().contains(k));
    }
    let ks = code_names(d, i);
    let t = choose|t: RunV| #[trigger]
        ran_all(run_part(before@), ks, before@.kernel_error, before.connected, t) && after@
            == crate::app::with_run(
            before@,
            RunV { ui: UiV { relayout: true, draw: true, ..t.ui }, ..t },
        );
    assert(after@.nb.doc == after.nb.doc());
    cells_are_sent_in_order(run_part(before@), ks, true, t)
}

/// `:NbvSplit` divides a cell before a line: the lines from there on stand in a new cell of the
/// same type directly below, which is then edited. With a line break between them, the two are
/// the source as it was.
pub proof fn split_command_divides_the_cell(before: &App, after: &App, args: MsgV, i: int, line: int)
    requires
        before.wf(),
        valid(before.nb.doc()),
        before.ui.focus_seq < u64::MAX,
        0 <= i < before.nb.doc().order.len(),
        text_in(args, "key"@) == Some(before.nb.doc().order[i]),
        0 < line < lines_of(source_of(before.nb.doc().live[before.nb.doc().order[i]])).len(),
        line <= usize::MAX,
        count_in(args, "line"@) == Some(line as u64),
        commanded_to(before, after, "split"@, args),
    ensures
        ({
            let d = before.nb.doc();
            let e = after.nb.doc();
            let k = d.order[i];
            let new = e.order[i + 1];
            &&& !d.order.contains(new)
            &&& e.order == d.order.take(i + 1) + seq![new] + d.order.skip(i + 1)
            &&& lines_of(source_of(e.live[k])).len() == line
            &&& source_of(e.live[k]) + seq!['\n'] + source_of(e.live[new]) == source_of(d.live[k])
            &&& raw_kind(e.live[new].raw) == raw_kind(d.live[k].raw)
            &&& raw_kind(e.live[k].raw) == raw_kind(d.live[k].raw)
            &&& after@.ui.mode == ModeV::Edit(new)
            &&& after.ui.selected == i + 1
            &&& after.nb.mutated
        }),
{
    reveal(commanded_to);
    lemma_command_names();
    let d = before.nb.doc();
    let k = d.order[i];
    crate::history::lemma_pos_is(d.order, k, i);
    assert(d.order.contains(k));
    assert(d.live.dom().contains(k));
    assert(split_at(before, after, k, line));
    let new = choose|new: Name| #[trigger] split_by(before, after, k, line, new);
    let kind = raw_kind(d.live[k].raw);
    let cell = fresh(kind, Seq::empty());
    fresh_cell(kind, Seq::empty());
    let h = with_tomb(&before.nb, new, cell);
    let c = ChangeV::Split { key: k, line, fresh: new };
    if d.order.contains(new) {
        assert(d.live.dom().contains(new));
        assert(cell_at(d, new) is Some);
    }
    assert(!d.live.dom().contains(new)) by {
        if d.live.dom().contains(new) {
            assert(d.order.contains(new));
        }
    }
    assert(valid(h.doc)) by {
        assert forall|j: Name| #[trigger] h.doc.tombs.dom().contains(j) implies crate::document::cell_wf(
            h.doc.tombs[j].raw,
            h.doc.tombs[j].stash,
        ) by {
            if j != new {
                assert(d.tombs.dom().contains(j));
            }
        }
        assert forall|j: Name| !(#[trigger] h.doc.live.dom().contains(j) && h.doc.tombs.dom().contains(
            j,
        )) by {
            assert(!(d.live.dom().contains(j) && d.tombs.dom().contains(j)));
        }
    }
    let other = k + new + seq!['x'];
    assert(other.len() > k.len() && other.len() > new.len());
    splitting_parts_the_source(h.doc, i, line, new, other);
    crate::acting::lemma_one_change(h.doc, c);
    assert(after.nb.doc() == after.nb.history().doc);
    assert(one('\n') =~= seq!['\n']);
    let e = after.nb.doc();
    assert(e.order[i + 1] == new);
    assert(e.order.no_duplicates()) by {
        crate::history::lemma_insert(d.order, i + 1, new);
        assert(e.order =~= d.order.insert(i + 1, new));
    }
    crate::history::lemma_pos_is(e.order, new, i + 1);
    assert(after@.ui.selected == after.ui.selected);
}

/// Clearing takes the outputs of the cells it is given, and leaves every other cell as it was.
pub proof fn clearing_empties_its_cells(a: AppV, ks: Seq<Name>, k: Name)
    ensures
        ({
            let b = outputs_cleared(a, ks);
            &&& ks.contains(k) && a.nb.doc.live.dom().contains(k) ==> raw_outputs(
                b.nb.doc.live[k].raw,
            ).len() == 0 && source_of(b.nb.doc.live[k]) == source_of(a.nb.doc.live[k])
            &&& !ks.contains(k) ==> cell_at(b.nb.doc, k) == cell_at(a.nb.doc, k)
            &&& b.nb.doc.order == a.nb.doc.order
            &&& b.nb.doc.live.dom().contains(k) == a.nb.doc.live.dom().contains(k)
            &&& ks.len() > 0 ==> b.nb.mutated
        }),
    decreases ks.len(),
{
    if ks.len() > 0 {
        let front = ks.drop_last();
        clearing_empties_its_cells(a, front, k);
        let m = outputs_cleared(a, front);
        let last = ks.last();
        if ks.contains(k) {
            let i = choose|i: int| 0 <= i < ks.len() && ks[i] == k;
            if i < front.len() {
                assert(front[i] == k);
            }
        }
        if front.contains(k) {
            let i = choose|i: int| 0 <= i < front.len() && front[i] == k;
            assert(ks[i] == k);
        }
        assert(ks[ks.len() - 1] == last);
        if last == k && a.nb.doc.live.dom().contains(k) {
            if !front.contains(k) {
                assert(cell_at(m.nb.doc, k) == cell_at(a.nb.doc, k));
            }
            let c = m.nb.doc.live[k];
            reveal_strlit("outputs");
            reveal_strlit("execution_count");
            reveal_strlit("source");
            assert("outputs"@.len() == 7 && "source"@.len() == 6 && "execution_count"@.len() == 15);
            crate::running::wiped_cell_shows_nothing(c, "source"@);
        }
    }
}

/// When the kernel that was started connects, what waited for it is sent in order, and nothing
/// waits any more. A kernel of an earlier start changes nothing.
pub proof fn waiting_requests_go_to_the_kernel(a: AppV, generation: u64, i: int)
    requires
        0 <= i < a.pending.len(),
    ensures
        ({
            let b = kernel_came(a, generation, None);
            let n = a.ui.effects.len() as int;
            &&& generation == a.generation ==> {
                &&& b.connected && b.pending.len() == 0
                &&& b.executor.status == KernelStatus::Idle
                &&& b.ui.effects.len() == n + a.pending.len()
                &&& b.ui.effects.take(n) == a.ui.effects
                &&& b.ui.effects[n + i] == EffectV::Send(a.pending[i])
                &&& b.nb == a.nb
            }
            &&& generation != a.generation ==> b == a
        }),
{
    let b = kernel_came(a, generation, None);
    let n = a.ui.effects.len() as int;
    if generation == a.generation {
        assert(b.ui.effects.take(n) =~= a.ui.effects);
    }
}

proof fn lemma_heard_all(u: UiV, evs: Seq<EventV>)
    ensures
        crate::app::heard_all(u, evs).message == u.message,
        crate::app::heard_all(u, evs).selected == u.selected,
        crate::app::heard_all(u, evs).effects.len() >= u.effects.len(),
        forall|i: int|
            0 <= i < u.effects.len() ==> #[trigger] crate::app::heard_all(u, evs).effects[i]
                == u.effects[i],
    decreases evs.len(),
{
    if evs.len() > 0 {
        lemma_heard_all(u, evs.drop_last());
        let m = crate::app::heard_all(u, evs.drop_last());
        assert forall|i: int| 0 <= i < u.effects.len() implies #[trigger] crate::app::heard_all(
            u,
            evs,
        ).effects[i] == u.effects[i] by {
            assert(m.effects[i] == u.effects[i]);
        }
    }
}

/// A kernel that fails is not connected, and nothing waits for it. The cells queued or running
/// fail with the reason, which is kept for those that run later.
pub proof fn failing_kernel_fails_its_cells(a: AppV, reason: Seq<char>, i: int)
    requires
        0 <= i < a.executor.requests.len(),
        cell_at(a.nb.doc, a.executor.requests[i].1) is Some,
    ensures
        ({
            let b = kernel_fails(a, reason);
            let k = a.executor.requests[i].1;
            &&& b.kernel_error == Some(reason)
            &&& !b.connected
            &&& b.pending.len() == 0
            &&& b.executor.status == KernelStatus::Dead
            &&& b.executor.requests.len() == 0
            &&& cell_at(b.nb.doc, k) is Some
            &&& cell_at(b.nb.doc, k)->0.runtime.state == ExecState::Error
            &&& cell_at(b.nb.doc, k)->0.runtime.error == Some(reason)
            &&& cell_at(b.nb.doc, k)->0.raw == cell_at(a.nb.doc, k)->0.raw
            &&& b.kernel_cmd == a.kernel_cmd
            &&& b.generation == a.generation
        }),
{
    reveal(kernel_fails);
    let k = a.executor.requests[i].1;
    crate::running::failed_cells_say_why(a.nb, a.executor.requests, reason, i, k);
}

/// A kernel that cannot start says so with its name and the reason, and so does one that dies.
pub proof fn failures_say_why(a: AppV, generation: u64, why: Seq<char>, stderr: Seq<char>)
    ensures
        generation == a.generation ==> {
            let b = kernel_came(a, generation, Some(why));
            &&& b.kernel_error is Some
            &&& b.kernel_error->0.len() >= kernel_label(a).len() + why.len()
            &&& b.kernel_error->0.take(kernel_label(a).len() as int) == kernel_label(a)
            &&& b.kernel_error->0.skip(b.kernel_error->0.len() - why.len()) == why
            &&& !b.connected
        },
        death(stderr).take("the kernel died"@.len() as int) == "the kernel died"@,
        stderr.len() > 0 && !crate::text::white(stderr.last()) ==> death(stderr).len()
            >= stderr.len() && death(stderr).skip(death(stderr).len() - stderr.len()) == stderr,
{
    reveal(kernel_fails);
    if generation == a.generation {
        let e = crate::app::start_failure(a, why);
        assert(e.take(kernel_label(a).len() as int) =~= kernel_label(a));
        assert(e.skip(e.len() - why.len()) =~= why);
    }
    reveal_strlit("the kernel died (00 restarts it)");
    reveal_strlit("the kernel died");
    assert(death(stderr).take("the kernel died"@.len() as int) =~= "the kernel died"@);
    if stderr.len() > 0 && !crate::text::white(stderr.last()) {
        assert(crate::text::trimmed_end(stderr) == stderr);
        assert(death(stderr).skip(death(stderr).len() - stderr.len()) =~= stderr);
    }
}

/// Restarting shuts a connected kernel down and starts the chosen one under the next number.
/// Nothing waits or runs any more, and no cell loses a field.
pub proof fn restart_starts_the_chosen_kernel(a: AppV)
    requires
        a.kernel_cmd is Some,
        0 <= a.generation < u64::MAX,
    ensures
        ({
            let b = restarts(a);
            let n = a.ui.effects.len() as int;
            &&& b.ui.effects.last() == (EffectV::Start {
                generation: (a.generation + 1) as u64,
                cmd: a.kernel_cmd->0,
            })
            &&& b.generation == a.generation + 1
            &&& !b.connected
            &&& b.pending.len() == 0
            &&& b.executor.requests.len() == 0
            &&& b.kernel_error is None
            &&& a.connected ==> b.ui.effects.len() > n && b.ui.effects[n] == EffectV::Shutdown
        }),
{
    reveal(kernel_starts);
    let i = crate::executor::all_idle(a.nb, a.executor.requests);
    let u = if a.connected {
        crate::ui::doing(a.ui, EffectV::Shutdown)
    } else {
        a.ui
    };
    let evs = i.1.push(EventV::Status(KernelStatus::Restarting));
    lemma_heard_all(u, evs);
    let w = crate::app::heard_all(u, evs);
    if a.connected {
        assert(w.effects[a.ui.effects.len() as int] == EffectV::Shutdown);
    }
}

/// The kernel picked is the session's and the one remembered for the notebook, and it is
/// started; the others remembered stay.
pub proof fn picked_kernel_is_remembered_and_started(
    before: &App,
    after: &App,
    args: MsgV,
    i: u64,
    other: Name,
)
    requires
        before.wf(),
        before.generation < u64::MAX,
        count_in(args, "index"@) == Some(i),
        1 <= i <= before.kernel_choices@.len(),
        !same_path(other, before.nb.path@),
        commanded_to(before, after, "kernel_chosen"@, args),
    ensures
        ({
            let cmd = before.kernel_choices@[i - 1]@;
            &&& after@.kernel_cmd == Some(cmd)
            &&& kernel_of(after@.memory, before.nb.path@) == Some(cmd)
            &&& kernel_of(after@.memory, other) == kernel_of(before@.memory, other)
            &&& after@.ui.effects.last() == (EffectV::Start {
                generation: (before.generation + 1) as u64,
                cmd,
            })
            &&& !after.connected
            &&& after.nb.path@ == before.nb.path@
        }),
{
    reveal(commanded_to);
    reveal(kernel_starts);
    lemma_command_names();
    let cmd = before.kernel_choices@[i - 1]@;
    assert(picked_and_started(before, after, cmd));
    let mid = choose|mid: App| #[trigger]
        picked(before, &mid, cmd) && after@ == restarts(mid@) && after.keeps_file(&mid);
    put_sets(before.memory@, before.nb.path@, cmd, other);
    assert(mid@.kernel_cmd == Some(cmd));
    assert(mid@.generation == before.generation);
    restart_starts_the_chosen_kernel(mid@);
    assert(after@.connected == after.connected);
    assert(after@.kernel_cmd == mid@.kernel_cmd);
    assert(after@.memory == mid@.memory);
}

/// An installed kernel that is picked is recorded in the notebook.
pub proof fn picked_kernelspec_is_recorded(before: &App, after: &App, args: MsgV, i: u64, n: Name)
    requires
        before.wf(),
        count_in(args, "index"@) == Some(i),
        1 <= i <= before.kernel_choices@.len(),
        before.kernel_choices@[i - 1]@.spec_name is Some,
        commanded_to(before, after, "kernel_chosen"@, args),
    ensures
        ({
            let cmd = before.kernel_choices@[i - 1]@;
            let now = crate::json::obj_get(after.nb.top@, "metadata"@)->Some_0->Object_0;
            let spec = crate::json::obj_get(now, "kernelspec"@);
            &&& crate::json::v_str(crate::json::v_get(spec, "name"@)) == cmd.spec_name
            &&& crate::json::v_str(crate::json::v_get(spec, "display_name"@)) == Some(
                cmd.display_name,
            )
            &&& crate::json::v_str(crate::json::v_get(spec, "language"@)) == Some(cmd.language)
            &&& n != "metadata"@ ==> crate::json::obj_get(after.nb.top@, n)
                == crate::json::obj_get(before.nb.top@, n)
        }),
{
    reveal(commanded_to);
    lemma_command_names();
    let cmd = before.kernel_choices@[i - 1]@;
    assert(picked_and_started(before, after, cmd));
    let mid = choose|mid: App| #[trigger]
        picked(before, &mid, cmd) && after@ == restarts(mid@) && after.keeps_file(&mid);
    crate::save::recorded_kernel_is_the_notebooks(
        &before.nb,
        &mid.nb,
        cmd.spec_name->0,
        cmd.display_name,
        cmd.language,
        n,
    );
    assert(after.nb.top@ == mid.nb.top@);
}

/// The kernels found are offered by name, in order, an installed one with the name that it is
/// installed under.
pub proof fn found_kernels_are_offered(a: AppV, choices: Seq<CommandV>, i: int)
    requires
        0 <= i < choices.len(),
    ensures
        kernels_offered(a, choices).kernel_choices == choices,
        kernels_offered(a, choices).ui.effects.len() == a.ui.effects.len() + 1,
        kernels_offered(a, choices).ui.effects.last() is Call,
        ({
            let shown = offered_item(choices[i]);
            let name = choices[i].display_name;
            &&& choices[i].spec_name is None ==> shown == name
            &&& choices[i].spec_name is Some ==> shown == name + " ["@ + choices[i].spec_name->0
                + "]"@
        }),
{
    assert(choices[i].display_name + Seq::<char>::empty() =~= choices[i].display_name);
    if choices[i].spec_name is Some {
        assert(offered_item(choices[i]) =~= choices[i].display_name + " ["@
            + choices[i].spec_name->0 + "]"@);
    }
}

/// A renamed notebook is at its new path with the same cells, and the kernel remembered for it
/// goes with it.
pub proof fn rename_takes_the_kernel_along(
    before: &App,
    after: &App,
    name: Seq<char>,
    path: Seq<char>,
    other: Name,
)
    requires
        before.wf(),
        renamed_to(before, after, name, path),
        !same_path(before.nb.path@, path),
        !same_path(path, before.nb.path@),
        !same_path(other, path),
        !same_path(other, before.nb.path@),
    ensures
        after.nb.path@ == path,
        after.nb.doc() == before.nb.doc(),
        after.nb.top@ == before.nb.top@,
        kernel_of(before@.memory, before.nb.path@) is Some ==> kernel_of(after@.memory, path)
            == kernel_of(before@.memory, before.nb.path@) && kernel_of(
            after@.memory,
            before.nb.path@,
        ) is None,
        kernel_of(after@.memory, other) == kernel_of(before@.memory, other),
        after@.ui.message is Some,
        after@.ui.message->0.len() >= name.len(),
        after@.ui.message->0.skip(after@.ui.message->0.len() - name.len()) == name,
{
    let from = before.nb.path@;
    let m = before.memory@;
    if kernel_of(m, from) is Some {
        let cmd = kernel_of(m, from)->0;
        taken_forgets(m, from, path);
        taken_forgets(m, from, other);
        let t = crate::memory::taken(m, from);
        put_sets(t, path, cmd, other);
        put_sets(t, path, cmd, from);
    }
    let said = after@.ui.message->0;
    assert(said.skip(said.len() - name.len()) =~= name);
}

/// What is typed for a kernel that asks for input goes to it as it stands, once.
pub proof fn typed_input_goes_to_the_kernel(before: &App, after: &App, args: MsgV, value: Seq<char>)
    requires
        text_in(args, "value"@) == Some(value),
        commanded_to(before, after, "input"@, args),
    ensures
        before.asked && before.connected ==> after@.ui.effects == before@.ui.effects.push(
            EffectV::AnswerInput(value),
        ),
        !(before.asked && before.connected) ==> after@.ui.effects == before@.ui.effects,
        !after.asked,
        after.nb.doc() == before.nb.doc(),
{
    reveal(commanded_to);
    lemma_command_names();
    assert(after@.asked == after.asked);
    assert(after@.nb.doc == after.nb.doc());
}

/// Agreeing to an install runs the command that was offered; declining it fails the kernel. An
/// answer to an offer that no longer stands changes nothing.
pub proof fn install_is_as_offered(a: AppV, generation: u64, argv: Seq<Seq<char>>)
    requires
        a.install == Some((generation, argv)),
    ensures
        install_decided(a, generation, true).ui.effects == a.ui.effects.push(
            EffectV::Install { generation, argv },
        ),
        install_decided(a, generation, true).install is None,
        install_decided(a, generation, false).install is None,
        install_decided(a, generation, false).kernel_error is Some,
        !install_decided(a, generation, false).connected,
        forall|g: u64, yes: bool| g != generation ==> #[trigger] install_decided(a, g, yes) == a,
{
    reveal(kernel_fails);
}

/// A written notebook is clean, a changed cell makes it dirty, and a new layout from Neovim
/// redraws the screen.
pub proof fn events_mark_the_notebook(before: &App, after: &App, ev: AppEvent)
    requires
        evented(before, after, ev),
    ensures
        ev is Written ==> !after.ui.dirty,
        ev is Reloaded ==> !after.ui.dirty && after@.ui.mode is Nav,
        ev is SourceChanged ==> after.ui.dirty && after.ui.relayout,
        ev is SourceChanged && !before.ui.dirty ==> after@.ui.effects
            == before@.ui.effects.push(EffectV::SetModified),
        ev is Exited ==> after.ui.quit,
        ev is Viewport ==> after.ui.geometry == Some(ev->Viewport_0),
        ev is Ready ==> after.nvim_ready,
        !(ev is Command) ==> after.nb.doc() == before.nb.doc(),
{
    reveal(evented);
    assert(after@.ui.dirty == after.ui.dirty);
    assert(after@.ui.relayout == after.ui.relayout);
    assert(after@.ui.quit == after.ui.quit);
    assert(after@.ui.geometry == after.ui.geometry);
    assert(after@.nvim_ready == after.nvim_ready);
    assert(after@.nb.doc == after.nb.doc());
}

/// What happens to a cell as it runs shows: its view is built anew, the screen is laid out and
/// drawn, and the notebook counts as changed. A kernel that asks for input has Neovim ask for
/// it, with the kernel's prompt.
pub proof fn execution_events_show(u: UiV, k: Name, prompt: Seq<char>, password: bool, ev: EventV)
    requires
        ev is InputRequested,
        ev->prompt == prompt,
        ev->password == password,
    ensures
        ({
            let v = crate::app::heard(u, EventV::Cell(k));
            &&& v.effects.len() > u.effects.len()
            &&& v.effects[u.effects.len() as int] == EffectV::ForgetView(k)
            &&& v.relayout && v.draw && v.dirty
        }),
        ({
            let v = crate::app::heard(u, ev);
            &&& v.effects.len() == u.effects.len() + 1
            &&& v.effects.last() is Call
            &&& v.effects.last()->Call_0.args.len() == 2
            &&& v.effects.last()->Call_0.args[1] == crate::call::ArgV::List(
                seq![crate::call::ArgV::Text(prompt), crate::call::ArgV::Bool(password)],
            )
        }),
{
}

/// An install that went well starts the chosen kernel again; one that did not fails it, with the
/// reason. One for an earlier start changes nothing.
pub proof fn installed_kernel_is_started(a: AppV, generation: u64, why: Seq<char>)
    requires
        a.kernel_cmd is Some,
        0 <= a.generation < u64::MAX,
    ensures
        generation == a.generation ==> {
            let b = install_ended(a, generation, None);
            let f = install_ended(a, generation, Some(why));
            &&& b.ui.effects == a.ui.effects.push(
                EffectV::Start {
                    generation: (a.generation + 1) as u64,
                    cmd: a.kernel_cmd->0,
                },
            )
            &&& b.generation == a.generation + 1
            &&& b.kernel_error is None
            &&& f.kernel_error is Some
            &&& f.kernel_error->0.skip(f.kernel_error->0.len() - why.len()) == why
            &&& !f.connected
        },
        generation != a.generation ==> install_ended(a, generation, None) == a && install_ended(
            a,
            generation,
            Some(why),
        ) == a,
{
    reveal(kernel_starts);
    reveal(kernel_fails);
    if generation == a.generation {
        let e = crate::app::start_failure(a, why);
        assert(e.skip(e.len() - why.len()) =~= why);
    }
}

proof fn lemma_one_ran(s: RunV, k: Name, t: RunV)
    requires
        ran_all(s, seq![k], None, true, t),
        runnable(s.nb.doc, k),
    ensures
        t.ui.selected == s.ui.selected,
        t.ui.mode == s.ui.mode,
        t.ui.focus_seq == s.ui.focus_seq,
{
    let ks = seq![k];
    assert(ks.drop_last() =~= Seq::empty());
    let mid = choose|mid: RunV|
        ran_all(s, ks.drop_last(), None, true, mid) && #[trigger] ran_one(
            mid,
            ks.last(),
            None,
            true,
            t,
        );
    assert(mid == s);
}

/// In a cell being edited, `<C-CR>` runs the cell and keeps it edited; `<S-CR>` runs it, leaves
/// it and selects the next.
pub proof fn edited_cell_is_run(before: &App, after: &App, args: MsgV, i: int, advance: bool)
    requires
        before.wf(),
        before.connected,
        before.kernel_error is None,
        0 <= i < before.nb.doc().order.len(),
        advance ==> i + 1 < before.nb.doc().order.len(),
        text_in(args, "key"@) == Some(before.nb.doc().order[i]),
        runnable(before.nb.doc(), before.nb.doc().order[i]),
        before@.ui.mode == ModeV::Edit(before.nb.doc().order[i]),
        commanded_to(
            before,
            after,
            if advance {
                "run_advance"@
            } else {
                "run"@
            },
            args,
        ),
    ensures
        ({
            let k = before.nb.doc().order[i];
            let n = before@.ui.effects.len() as int;
            &&& after@.ui.effects.len() > n + 1
            &&& after@.ui.effects[n + 1] is Send
            &&& asks_to_run(
                after@.ui.effects[n + 1]->Send_0,
                source_of(before.nb.doc().live[k]),
            )
            &&& after.nb.doc().live[k].runtime.state == ExecState::Queued
            &&& !advance ==> after@.ui.mode == ModeV::Edit(k)
            &&& advance ==> after@.ui.mode is Nav && after.ui.selected == i + 1
                && after@.ui.effects.last() is Leave
        }),
{
    reveal(commanded_to);
    lemma_command_names();
    let d = before.nb.doc();
    let k = d.order[i];
    let ks = seq![k];
    crate::history::lemma_pos_is(d.order, k, i);
    assert(d.order.contains(k));
    assert(d.live.dom().contains(k));
    let (ran, left) = if advance {
        choose|ran: App, left: App|
            #![trigger crate::app::advanced(&left, after, k), cells_ran(before@, ks, ran@)]
            cells_ran(before@, ks, ran@) && ran.keeps_file(before) && crate::app::only_ui(
                &ran,
                &left,
                if ran.ui.mode@ is Edit {
                    crate::ui::leaving(ran.ui@)
                } else {
                    ran.ui@
                },
            ) && crate::app::advanced(&left, after, k)
    } else {
        (*after, *after)
    };
    let s = run_part(before@);
    let t = choose|t: RunV| #[trigger]
        ran_all(s, ks, before@.kernel_error, before@.connected, t) && ran@ == crate::app::with_run(
            before@,
            RunV { ui: UiV { relayout: true, draw: true, ..t.ui }, ..t },
        );
    assert forall|j: int| 0 <= j < ks.len() implies runnable(s.nb.doc, #[trigger] ks[j]) by {
        assert(ks[j] == k);
    }
    let ms = cells_are_sent_in_order(s, ks, true, t);
    assert(ks[0] == k);
    assert(asks_to_run(ms[0], source_of(s.nb.doc.live[ks[0]])));
    lemma_one_ran(s, k, t);
    assert(ran@.nb.doc == ran.nb.doc());
    assert(after@.nb.doc == after.nb.doc());
    assert(after@.ui.selected == after.ui.selected);
    if advance {
        assert(ran.ui@.mode is Edit);
        assert(left@.nb.doc == left.nb.doc());
        assert(left.nb.doc().order == d.order);
    }
}

/// `:NbvClearOutput` clears the outputs of the cell it is given from, and with `!` those of every
/// code cell; no other cell changes, and no source.
pub proof fn clear_command_clears_outputs(before: &App, after: &App, args: MsgV, i: int, j: int)
    requires
        before.wf(),
        0 <= i < before.nb.doc().order.len(),
        0 <= j < before.nb.doc().order.len(),
        text_in(args, "key"@) == Some(before.nb.doc().order[i]),
        commanded_to(before, after, "clear_output"@, args),
    ensures
        ({
            let d = before.nb.doc();
            let e = after.nb.doc();
            let all = flag_in(args, "all"@) == Some(true);
            let k = d.order[j];
            &&& (all && is_code(d, k)) || (!all && j == i) ==> raw_outputs(e.live[k].raw).len() == 0
                && source_of(e.live[k]) == source_of(d.live[k])
            &&& (all && !is_code(d, k)) || (!all && k != d.order[i]) ==> e.live[k] == d.live[k]
            &&& e.order == d.order
            &&& after.ui.dirty
        }),
{
    reveal(commanded_to);
    lemma_command_names();
    let d = before.nb.doc();
    let all = flag_in(args, "all"@) == Some(true);
    let k = d.order[j];
    assert(d.order.contains(d.order[i]) && d.live.dom().contains(d.order[i]));
    assert(d.order.contains(k) && d.live.dom().contains(k));
    let ks = if all {
        code_names(d, d.order.len() as int)
    } else {
        seq![d.order[i]]
    };
    clearing_empties_its_cells(before@, ks, k);
    if all {
        lemma_code_names(d, d.order.len() as int, j);
    } else {
        assert(ks[0] == d.order[i]);
    }
    assert(after@.nb.doc == after.nb.doc());
    assert(after@.ui.dirty == after.ui.dirty);
}

proof fn lemma_code_names(d: DocV, n: int, j: int)
    requires
        0 <= n <= d.order.len(),
        0 <= j < d.order.len(),
        d.order.no_duplicates(),
    ensures
        code_names(d, n).contains(d.order[j]) == (j < n && is_code(d, d.order[j])),
    decreases n,
{
    if n > 0 {
        lemma_code_names(d, n - 1, j);
        let all = code_names(d, n);
        let front = code_names(d, n - 1);
        let k = d.order[j];
        if front.contains(k) {
            let m = choose|m: int| 0 <= m < front.len() && front[m] == k;
            assert(all[m] == k);
        }
        if all.contains(k) {
            let m = choose|m: int| 0 <= m < all.len() && all[m] == k;
            if m < front.len() {
                assert(front[m] == k);
            }
        }
        if j == n - 1 && is_code(d, k) {
            assert(all[all.len() - 1] == k);
        }
    }
}

} // verus!
