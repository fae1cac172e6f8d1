//! What holds of a notebook after any sequence of calls, from the moment it was read. The
//! contract of each call that may change a notebook says which step it is.

use crate::adapter::CellKind;
use crate::document::{
    cell_wf, fresh, fresh_cell, loaded, multiline_text, raw_source, source_keeps_cell,
    source_round_trip, CellV, RuntimeV,
};
use crate::executor::{
    all_failed, all_idle, displays_of, displays_updated, failed, handled, is_bare, nb_rest, nb_view,
    requested, runnable, touched, wiped, ContentV, ExecV, NbV,
};
use crate::history::{
    alike, cell_at, doc_wf, edit_is_undoable, edited, fresh_run, fresh_targets_return,
    group_keeps_document, history_known, history_stays_known, history_wf, idle_group_changes_nothing,
    lemma_alike_trans, lemma_undone_all, new_cell_keeps_history, outputs_at, redo_steps_on, redone,
    redone_all, run, run_overwrites, sourced, stack_mentions, undo_all_then_redo_all,
    undo_steps_back, undone, undone_all, valid, ChangeV, DocV, HistoryV, Name,
};
use crate::json::{
    distinct, json_parsed, json_pretty, lemma_obj_index, lemma_obj_insert, lemma_obj_remove,
    number_from, obj_get, obj_has, obj_insert, obj_remove, v_u64, Entries, JsonV,
};
use crate::load::{read_as, sha256, text_top};
use crate::notebook::{hash_view, with_cell, Notebook};
use crate::projection::{
    cell_for, reading_keeps_cells, rebuilt, reconciled, region_kinds, region_sources, regions,
    same_record, shows, span_names, EditV, Reconciled, SpanV, Text,
};
use crate::save::{
    cells_json, ids_are_written, kernelspec, kernelspec_set, recorded_kernel_is_the_notebooks,
    saving_keeps_cells, saving_keeps_other_entries, top_json, unchanged_is_lossless, written,
};
use vstd::prelude::*;

verus! {

/// A call that may change a notebook, with its arguments and the key that it returned.
pub enum StepV {
    NewCell { kind: CellKind, source: Seq<char>, key: Name },
    CopyCell { raw: Entries, key: Name },
    MintKey { key: Name },
    SetSource { key: Name, source: Seq<char> },
    Edit { group: Seq<ChangeV> },
    Undo,
    Redo,
    /// What is left under a key through [`Notebook::cell_mut`].
    SetCell { key: Name, cell: CellV },
    /// What is left under a key through [`Notebook::runtime_mut`].
    SetRuntime { key: Name, runtime: RuntimeV },
    SetKernelspec { name: Seq<char>, display_name: Seq<char>, language: Seq<char> },
    /// A buffer of the layout and the text was read, after an edit.
    ReadBuffer { layout: Seq<SpanV>, edit: EditV, text: Text, spans: Seq<SpanV>, done: Reconciled },
    /// A cell was sent to the kernel, under the message id.
    Request { runs: ExecV, key: Name, id: Seq<char> },
    /// A message of the kernel was handled.
    Handle { runs: ExecV, parent: Option<Seq<char>>, content: ContentV, now: u64 },
    /// The requests' cells were made idle.
    Reset { requests: Seq<(Seq<char>, Name)> },
    /// The requests' cells failed.
    FailAll { requests: Seq<(Seq<char>, Name)>, reason: Seq<char> },
    /// A cell failed.
    Fail { key: Name, reason: Seq<char> },
    ClearOutputs { key: Name },
    Committed { bytes: Seq<u8> },
}

/// Whether a call that leaves `after` of `before` is the step.
#[verifier::opaque]
pub open spec fn steps(before: &Notebook, step: StepV, after: &Notebook) -> bool {
    let d = before.doc();
    &&& after.wf()
    &&& match step {
        StepV::NewCell { kind, source, key } => after.created(before, key, fresh(kind, source)),
        StepV::CopyCell { raw, key } => after.created(before, key, loaded(obj_remove(raw, "id"@))),
        StepV::MintKey { key } => after.minted(before, key),
        StepV::SetSource { key, source } => {
            &&& after.same_file(before)
            &&& after.undo@ == before.undo@
            &&& after.redo@ == before.redo@
            &&& if d.live.dom().contains(key) {
                let raw = d.live[key].raw;
                &&& after.mutated == (before.mutated || !(obj_has(raw, "source"@) && raw_source(
                    raw,
                ) == source))
                &&& after.doc() == with_cell(d, key, sourced(d.live[key], source))
            } else {
                after.mutated == before.mutated && after.doc() == d
            }
        },
        StepV::Edit { group } => {
            &&& after.same_file(before)
            &&& after.history() == edited(before.history(), group)
            &&& after.mutated == (before.mutated || run(d, group).1.len() > 0)
        },
        StepV::Undo => {
            let undo = before.history().undo;
            &&& after.same_file(before)
            &&& after.history() == undone(before.history())
            &&& after.mutated == (before.mutated || (undo.len() > 0 && run(
                d,
                undo.last(),
            ).1.len() > 0))
        },
        StepV::Redo => {
            let redo = before.history().redo;
            &&& after.same_file(before)
            &&& after.history() == redone(before.history())
            &&& after.mutated == (before.mutated || (redo.len() > 0 && run(
                d,
                redo.last(),
            ).1.len() > 0))
        },
        StepV::SetCell { key, cell } => {
            &&& after.mutated
            &&& after.same_file(before)
            &&& after.undo@ == before.undo@
            &&& after.redo@ == before.redo@
            &&& after.doc() == if cell_at(d, key) is Some {
                with_cell(d, key, cell)
            } else {
                d
            }
        },
        StepV::SetRuntime { key, runtime } => {
            &&& after.same_but_cells(before)
            &&& after.doc() == match cell_at(d, key) {
                Some(c) => with_cell(d, key, CellV { runtime, ..c }),
                None => d,
            }
        },
        StepV::SetKernelspec { name, display_name, language } => kernelspec_set(
            before,
            after,
            name,
            display_name,
            language,
        ),
        StepV::ReadBuffer { layout, edit, text, spans, done } => {
            &&& same_record(after, before)
            &&& after.mutated == (before.mutated || done.changed)
            &&& reconciled(d, before.minter@, layout, edit, text, after, spans, &done)
        },
        StepV::Request { runs, key, id } => {
            &&& nb_rest(after, before)
            &&& nb_view(after) == if runnable(d, key) {
                requested(runs, nb_view(before), key, id).1
            } else {
                nb_view(before)
            }
        },
        StepV::Handle { runs, parent, content, now } => {
            &&& nb_rest(after, before)
            &&& nb_view(after) == handled(runs, nb_view(before), parent, content, now).1
        },
        StepV::Reset { requests } => {
            &&& nb_rest(after, before)
            &&& nb_view(after) == all_idle(nb_view(before), requests).0
        },
        StepV::FailAll { requests, reason } => {
            &&& nb_rest(after, before)
            &&& nb_view(after) == all_failed(nb_view(before), requests, reason).0
        },
        StepV::Fail { key, reason } => {
            &&& nb_rest(after, before)
            &&& nb_view(after) == failed(nb_view(before), key, reason)
        },
        StepV::ClearOutputs { key } => {
            &&& nb_rest(after, before)
            &&& nb_view(after) == match cell_at(d, key) {
                Some(c) => if is_bare(c) {
                    NbV { mutated: true, ..nb_view(before) }
                } else {
                    touched(nb_view(before), key, |c: CellV| wiped(c))
                },
                None => NbV { mutated: true, ..nb_view(before) },
            }
        },
        StepV::Committed { bytes } => {
            &&& hash_view(after.disk_hash) == Some(sha256(bytes))
            &&& *after == (Notebook { disk_hash: after.disk_hash, ..*before })
        },
    }
}

/// Whether the notebooks are what the calls leave, one after the other.
pub open spec fn trace(s: Seq<Notebook>, calls: Seq<StepV>) -> bool {
    &&& s.len() == calls.len() + 1
    &&& s[0].wf()
    &&& forall|i: int|
        #![trigger calls[i]]
        0 <= i < calls.len() ==> steps(&s[i], calls[i], &s[i + 1])
}

proof fn lemma_front(s: Seq<Notebook>, calls: Seq<StepV>)
    requires
        trace(s, calls),
        calls.len() > 0,
    ensures
        trace(s.drop_last(), calls.drop_last()),
        s.drop_last()[0] == s[0],
        s.drop_last().last().wf(),
        steps(&s.drop_last().last(), calls.last(), &s.last()),
        s.last().wf(),
{
    reveal(steps);
    let t = s.drop_last();
    let c = calls.drop_last();
    assert forall|i: int| #![trigger c[i]] 0 <= i < c.len() implies steps(&t[i], c[i], &t[i + 1]) by {
        assert(steps(&s[i], calls[i], &s[i + 1]));
    }
    assert(steps(&s[calls.len() - 1], calls[calls.len() - 1], &s[calls.len() - 1 + 1]));
    if c.len() > 0 {
        assert(steps(&t[c.len() - 1], c[c.len() - 1], &t[c.len() - 1 + 1]));
    }
}

/// Whether two notebooks have the same fields of the file, and the same fields in the same live
/// cells.
pub open spec fn same_text(a: &Notebook, b: &Notebook) -> bool {
    &&& a.top@ == b.top@
    &&& a.trailing_newline == b.trailing_newline
    &&& same_fields(a.doc(), b.doc())
}

/// Whether two documents have the same live cells in the same order, with the same fields.
pub open spec fn same_fields(d: DocV, e: DocV) -> bool {
    &&& d.order == e.order
    &&& forall|k: Name| #[trigger]
        d.live.dom().contains(k) ==> e.live.dom().contains(k) && d.live[k].raw == e.live[k].raw
}

/// A message that does not count as a change leaves the notebook as it is.
pub proof fn silent_message_changes_nothing(
    x: ExecV,
    n: NbV,
    parent: Option<Seq<char>>,
    content: ContentV,
    now: u64,
)
    ensures
        handled(x, n, parent, content, now).1.mutated || handled(x, n, parent, content, now).1 == n,
{
    match content {
        ContentV::UpdateDisplayData { data, metadata, display_id } => {
            if let Some(id) = display_id {
                lemma_displays(n, displays_of(x.displays, id), data, metadata);
            }
        },
        _ => {},
    }
}

proof fn lemma_displays(n: NbV, targets: Seq<(Name, int)>, data: JsonV, metadata: Entries)
    ensures
        displays_updated(n, targets, data, metadata).0.mutated || displays_updated(
            n,
            targets,
            data,
            metadata,
        ).0 == n,
{
}

proof fn lemma_all_idle(n: NbV, requests: Seq<(Seq<char>, Name)>)
    ensures
        all_idle(n, requests).0.mutated == n.mutated,
        same_fields(n.doc, all_idle(n, requests).0.doc),
    decreases requests.len(),
{
    if requests.len() > 0 {
        lemma_all_idle(n, requests.drop_last());
    }
}

proof fn lemma_all_failed(n: NbV, requests: Seq<(Seq<char>, Name)>, reason: Seq<char>)
    ensures
        all_failed(n, requests, reason).0.mutated == n.mutated,
        same_fields(n.doc, all_failed(n, requests, reason).0.doc),
    decreases requests.len(),
{
    if requests.len() > 0 {
        lemma_all_failed(n, requests.drop_last(), reason);
    }
}

/// Reading a buffer that shows the document leaves its cells as they are.
proof fn lemma_shown_unchanged(
    d: DocV,
    order: Seq<Name>,
    kinds: Seq<CellKind>,
    sources: Seq<Seq<char>>,
    e: DocV,
)
    requires
        doc_wf(d),
        rebuilt(d, order, kinds, sources, e),
        shows(d, order, kinds, sources),
    ensures
        same_fields(d, e),
{
    assert forall|k: Name| #[trigger] d.live.dom().contains(k) implies e.live.dom().contains(k)
        && d.live[k].raw == e.live[k].raw by {
        assert(d.order.contains(k));
        let i = choose|i: int| 0 <= i < order.len() && order[i] == k;
        assert(e.live[order[i]] == cell_for(d, order[i], kinds[i], sources[i]));
    }
}

/// A step that does not count as a change leaves what is written as it is, and no step takes
/// back that the notebook has changed.
proof fn lemma_step_text(before: &Notebook, step: StepV, after: &Notebook)
    requires
        before.wf(),
        steps(before, step, after),
    ensures
        before.mutated ==> after.mutated,
        !after.mutated ==> same_text(before, after),
        after.trailing_newline == before.trailing_newline,
        obj_get(after.top@, "nbformat_minor"@) == obj_get(before.top@, "nbformat_minor"@),
{
    reveal(steps);
    match step {
        StepV::Edit { group } => {
            if run(before.doc(), group).1.len() == 0 {
                idle_group_changes_nothing(before.doc(), group);
            }
        },
        StepV::Undo => {
            let undo = before.history().undo;
            if undo.len() > 0 && run(before.doc(), undo.last()).1.len() == 0 {
                idle_group_changes_nothing(before.doc(), undo.last());
            }
        },
        StepV::Redo => {
            let redo = before.history().redo;
            if redo.len() > 0 && run(before.doc(), redo.last()).1.len() == 0 {
                idle_group_changes_nothing(before.doc(), redo.last());
            }
        },
        StepV::SetKernelspec { name, display_name, language } => {
            assert(after.history().doc == before.history().doc);
            reveal_strlit("metadata");
            reveal_strlit("nbformat_minor");
            assert("metadata"@.len() != "nbformat_minor"@.len());
            if after.top@ != before.top@ {
                let meta = obj_get(before.top@, "metadata"@)->Some_0->Object_0;
                lemma_obj_insert(
                    before.top@,
                    "metadata"@,
                    JsonV::Object(
                        obj_insert(
                            meta,
                            "kernelspec"@,
                            kernelspec(name, display_name, language),
                        ),
                    ),
                    "nbformat_minor"@,
                );
            }
        },
        StepV::ReadBuffer { layout, edit, text, spans, done } => {
            if !done.changed {
                let found = regions(text);
                lemma_shown_unchanged(
                    before.doc(),
                    span_names(spans),
                    region_kinds(found),
                    region_sources(text, found),
                    after.doc(),
                );
            }
        },
        StepV::Handle { runs, parent, content, now } => {
            silent_message_changes_nothing(runs, nb_view(before), parent, content, now);
        },
        StepV::Reset { requests } => {
            lemma_all_idle(nb_view(before), requests);
        },
        StepV::FailAll { requests, reason } => {
            lemma_all_failed(nb_view(before), requests, reason);
        },
        _ => {},
    }
}

/// Once a notebook has changed it counts as changed, whatever is called later.
pub proof fn changed_stays_changed(s: Seq<Notebook>, calls: Seq<StepV>, i: int)
    requires
        trace(s, calls),
        0 <= i < s.len(),
        s[i].mutated,
    ensures
        s.last().mutated,
    decreases calls.len(),
{
    if i < s.len() - 1 {
        lemma_front(s, calls);
        changed_stays_changed(s.drop_last(), calls.drop_last(), i);
        lemma_step_text(&s.drop_last().last(), calls.last(), &s.last());
    }
}

proof fn lemma_text_kept(s: Seq<Notebook>, calls: Seq<StepV>)
    requires
        trace(s, calls),
    ensures
        !s.last().mutated ==> same_text(&s[0], &s.last()),
        s.last().trailing_newline == s[0].trailing_newline,
        obj_get(s.last().top@, "nbformat_minor"@) == obj_get(s[0].top@, "nbformat_minor"@),
        s.last().wf(),
    decreases calls.len(),
{
    if calls.len() > 0 {
        lemma_front(s, calls);
        lemma_text_kept(s.drop_last(), calls.drop_last());
        lemma_step_text(&s.drop_last().last(), calls.last(), &s.last());
    }
}

/// Whatever was called since a notebook was read: while it does not count as changed, it is
/// written as the JSON that was read, with a line break at the end if there was one.
pub proof fn lossless_while_unchanged(
    s: Seq<Notebook>,
    calls: Seq<StepV>,
    path: Seq<char>,
    text: Seq<u8>,
    used: Set<Seq<char>>,
)
    requires
        trace(s, calls),
        read_as(&s[0], path, text, used),
        !s.last().mutated,
    ensures
        json_parsed(text) == Some(
            JsonV::Object(top_json(s.last().top@, s.last().doc(), s.last().mutated)),
        ),
        written(&s.last()) == {
            let again = json_pretty(json_parsed(text)->0, seq![32u8]);
            if text.len() > 0 && text.last() == 10u8 {
                again.push(10u8)
            } else {
                again
            }
        },
{
    lemma_text_kept(s, calls);
    unchanged_is_lossless(&s[0], path, text, used);
    let d = s[0].doc();
    let e = s.last().doc();
    assert forall|i: int| 0 <= i < d.order.len() implies cells_json(d, false)[i] == cells_json(
        e,
        false,
    )[i] by {
        assert(d.order.contains(d.order[i]));
        assert(d.live.dom().contains(d.order[i]));
    }
    assert(cells_json(d, false) =~= cells_json(e, false));
}

/// Whatever was called since a notebook was read: once it counts as changed, its live cells
/// are written in their order, one each, with its key as the id, and with an nbformat that has
/// ids: the minor version is 5 if the text had none or a lower one, else as it was.
pub proof fn ids_once_changed(
    s: Seq<Notebook>,
    calls: Seq<StepV>,
    path: Seq<char>,
    text: Seq<u8>,
    used: Set<Seq<char>>,
)
    requires
        trace(s, calls),
        read_as(&s[0], path, text, used),
        s.last().mutated,
    ensures
        ({
            let nb = s.last();
            let order = nb.doc().order;
            let o = top_json(nb.top@, nb.doc(), nb.mutated);
            let minor = obj_get(text_top(text), "nbformat_minor"@);
            &&& obj_get(o, "cells"@) == Some(JsonV::Array(cells_json(nb.doc(), true)))
            &&& cells_json(nb.doc(), true).len() == order.len()
            &&& forall|i: int|
                #![trigger cells_json(nb.doc(), true)[i]]
                0 <= i < order.len() ==> cells_json(nb.doc(), true)[i] is Object && obj_get(
                    cells_json(nb.doc(), true)[i]->Object_0,
                    "id"@,
                ) == Some(JsonV::String(order[i]))
            &&& obj_get(o, "nbformat_minor"@) == if v_u64(minor) is None || v_u64(minor)->0 < 5 {
                Some(JsonV::Number(number_from(5)))
            } else {
                minor
            }
        }),
{
    lemma_text_kept(s, calls);
    let nb = s.last();
    let d = nb.doc();
    assert forall|i: int|
        #![trigger cells_json(d, true)[i]]
        0 <= i < d.order.len() implies cells_json(d, true)[i] is Object && obj_get(
        cells_json(d, true)[i]->Object_0,
        "id"@,
    ) == Some(JsonV::String(d.order[i])) by {
        ids_are_written(d, i);
    }
    reveal_strlit("cells");
    reveal_strlit("nbformat_minor");
    assert("cells"@.len() != "nbformat_minor"@.len());
    let cells = JsonV::Array(cells_json(d, true));
    let full = obj_insert(nb.top@, "cells"@, cells);
    lemma_obj_insert(nb.top@, "cells"@, cells, "nbformat_minor"@);
    lemma_obj_insert(full, "nbformat_minor"@, JsonV::Number(number_from(5)), "cells"@);
    lemma_obj_insert(
        text_top(text),
        "cells"@,
        JsonV::Array(Seq::empty()),
        "nbformat_minor"@,
    );
}

/// The key that a call returned for a cell it made.
pub open spec fn made_for(step: StepV) -> Option<Name> {
    match step {
        StepV::NewCell { key, .. } => Some(key),
        StepV::CopyCell { key, .. } => Some(key),
        _ => None,
    }
}

/// Whether a call leaves the outputs of cells alone. What is copied is an object of JSON, in
/// which no name occurs twice.
pub open spec fn keeps_outputs(step: StepV) -> bool {
    match step {
        StepV::SetCell { .. } => false,
        StepV::Request { .. } => false,
        StepV::Handle { .. } => false,
        StepV::ClearOutputs { .. } => false,
        StepV::CopyCell { raw, .. } => distinct(raw),
        _ => true,
    }
}

proof fn lemma_copied(raw: Entries)
    requires
        distinct(raw),
    ensures
        cell_wf(obj_remove(raw, "id"@), Entries::empty()),
{
    lemma_obj_remove(raw, "id"@, "id"@);
    assert forall|n: Seq<char>| #[trigger] obj_has(Entries::empty(), n) implies false by {
        lemma_obj_index(Entries::empty(), n);
    }
}

proof fn lemma_idle_cells(n: NbV, requests: Seq<(Seq<char>, Name)>)
    requires
        valid(n.doc),
    ensures
        ({
            let e = all_idle(n, requests).0.doc;
            &&& valid(e)
            &&& forall|k: Name| #[trigger]
                cell_at(n.doc, k) is Some ==> cell_at(e, k) is Some && outputs_at(e, k)
                    == outputs_at(n.doc, k)
        }),
    decreases requests.len(),
{
    if requests.len() > 0 {
        lemma_idle_cells(n, requests.drop_last());
    }
}

proof fn lemma_failed_cells(n: NbV, requests: Seq<(Seq<char>, Name)>, reason: Seq<char>)
    requires
        valid(n.doc),
    ensures
        ({
            let e = all_failed(n, requests, reason).0.doc;
            &&& valid(e)
            &&& forall|k: Name| #[trigger]
                cell_at(n.doc, k) is Some ==> cell_at(e, k) is Some && outputs_at(e, k)
                    == outputs_at(n.doc, k)
        }),
    decreases requests.len(),
{
    if requests.len() > 0 {
        lemma_failed_cells(n, requests.drop_last(), reason);
    }
}

proof fn lemma_step_cells(before: &Notebook, step: StepV, after: &Notebook)
    requires
        before.wf(),
        valid(before.doc()),
        steps(before, step, after),
        keeps_outputs(step),
    ensures
        valid(after.doc()),
        forall|k: Name| #[trigger]
            cell_at(before.doc(), k) is Some ==> cell_at(after.doc(), k) is Some && outputs_at(
                after.doc(),
                k,
            ) == outputs_at(before.doc(), k),
        made_for(step) matches Some(k) ==> cell_at(after.doc(), k) is Some,
{
    reveal(steps);
    let d = before.doc();
    let e = after.doc();
    match step {
        StepV::NewCell { kind, source, key } => {
            fresh_cell(kind, source);
            assert(cell_at(d, key) is None);
        },
        StepV::CopyCell { raw, key } => {
            lemma_copied(raw);
            assert(cell_at(d, key) is None);
        },
        StepV::SetSource { key, source } => {
            if d.live.dom().contains(key) {
                source_keeps_cell(d.live[key].raw, d.live[key].stash, source);
            }
        },
        StepV::Edit { group } => {
            group_keeps_document(d, group);
        },
        StepV::Undo => {
            if before.history().undo.len() > 0 {
                group_keeps_document(d, before.history().undo.last());
            }
        },
        StepV::Redo => {
            if before.history().redo.len() > 0 {
                group_keeps_document(d, before.history().redo.last());
            }
        },
        StepV::SetKernelspec { .. } => {
            assert(after.history().doc == before.history().doc);
        },
        StepV::ReadBuffer { layout, edit, text, spans, done } => {
            let found = regions(text);
            let order = span_names(spans);
            assert(order =~= e.order);
            assert forall|k: Name| #[trigger] cell_at(d, k) is Some implies cell_at(e, k) is Some
                && outputs_at(e, k) == outputs_at(d, k) by {
                reading_keeps_cells(
                    d,
                    order,
                    region_kinds(found),
                    region_sources(text, found),
                    e,
                    k,
                );
            }
            reading_keeps_cells(
                d,
                order,
                region_kinds(found),
                region_sources(text, found),
                e,
                Seq::empty(),
            );
        },
        StepV::Reset { requests } => {
            lemma_idle_cells(nb_view(before), requests);
        },
        StepV::FailAll { requests, reason } => {
            lemma_failed_cells(nb_view(before), requests, reason);
        },
        _ => {},
    }
}

/// Over any sequence of calls that leave outputs alone: each live cell stands once in the
/// order and none is both live and tombstoned; every cell that there was, and every cell made
/// since, is still there, live or tombstoned; and every cell that there was has the outputs it
/// had, in its fields or stashed.
pub proof fn cells_are_kept(s: Seq<Notebook>, calls: Seq<StepV>)
    requires
        trace(s, calls),
        valid(s[0].doc()),
        forall|i: int| 0 <= i < calls.len() ==> keeps_outputs(#[trigger] calls[i]),
    ensures
        doc_wf(s.last().doc()),
        valid(s.last().doc()),
        forall|k: Name| #[trigger]
            cell_at(s[0].doc(), k) is Some ==> cell_at(s.last().doc(), k) is Some && outputs_at(
                s.last().doc(),
                k,
            ) == outputs_at(s[0].doc(), k),
        forall|i: int|
            0 <= i < calls.len() ==> (made_for(#[trigger] calls[i]) matches Some(k) ==> cell_at(
                s.last().doc(),
                k,
            ) is Some),
    decreases calls.len(),
{
    if calls.len() > 0 {
        lemma_front(s, calls);
        let t = s.drop_last();
        let c = calls.drop_last();
        assert forall|i: int| 0 <= i < c.len() implies keeps_outputs(#[trigger] c[i]) by {
            assert(keeps_outputs(calls[i]));
        }
        cells_are_kept(t, c);
        assert(keeps_outputs(calls[calls.len() - 1]));
        lemma_step_cells(&t.last(), calls.last(), &s.last());
        assert forall|i: int| 0 <= i < calls.len() implies (made_for(#[trigger] calls[i]) matches Some(
            k,
        ) ==> cell_at(s.last().doc(), k) is Some) by {
            if i < c.len() {
                assert(c[i] == calls[i]);
            }
        }
    }
}

/// Whether undo can go back through a call. Lines may go only into a cell that no earlier edit
/// names, as into one just made; every edit of one change that divides no cell qualifies.
pub open spec fn undoable(before: &Notebook, step: StepV) -> bool {
    match step {
        StepV::NewCell { .. } => true,
        StepV::CopyCell { raw, .. } => distinct(raw),
        StepV::MintKey { .. } => true,
        StepV::Edit { group } => {
            &&& fresh_run(before.doc(), group)
            &&& forall|k: Name| #[trigger]
                run_overwrites(before.doc(), group).contains(k) ==> !stack_mentions(
                    before.history().undo,
                    k,
                )
        },
        StepV::Undo => true,
        StepV::Redo => true,
        StepV::SetKernelspec { .. } => true,
        StepV::Committed { .. } => true,
        _ => false,
    }
}

/// The oldest document that undo goes back to.
spec fn oldest(past: Seq<DocV>, now: DocV) -> DocV {
    if past.len() > 0 {
        past[0]
    } else {
        now
    }
}

proof fn lemma_made(
    h: HistoryV,
    past: Seq<DocV>,
    future: Seq<DocV>,
    start: DocV,
    used: Set<Name>,
    key: Name,
    cell: CellV,
)
    requires
        history_wf(h, past, future),
        history_known(h, used),
        alike(oldest(past, h.doc), start),
        !used.contains(key),
        cell_wf(cell.raw, cell.stash),
    ensures
        ({
            let after = HistoryV { doc: DocV { tombs: h.doc.tombs.insert(key, cell), ..h.doc }, ..h };
            &&& history_wf(after, past, future)
            &&& history_known(after, used.insert(key))
            &&& alike(oldest(past, after.doc), start)
        }),
{
    let after = HistoryV { doc: DocV { tombs: h.doc.tombs.insert(key, cell), ..h.doc }, ..h };
    assert(cell_at(h.doc, key) is None);
    new_cell_keeps_history(h, past, future, key, cell);
    assert forall|k: Name| #[trigger] cell_at(after.doc, k) is Some implies used.insert(
        key,
    ).contains(k) by {
        if k != key {
            assert(cell_at(h.doc, k) is Some);
        }
    }
}

/// The documents that undo and redo lead to.
proof fn lemma_walk(s: Seq<Notebook>, calls: Seq<StepV>) -> (r: (Seq<DocV>, Seq<DocV>))
    requires
        trace(s, calls),
        valid(s[0].doc()),
        s[0].undo@.len() == 0,
        s[0].redo@.len() == 0,
        forall|i: int| 0 <= i < calls.len() ==> undoable(&s[i], #[trigger] calls[i]),
    ensures
        history_wf(s.last().history(), r.0, r.1),
        history_known(s.last().history(), s.last().minter@),
        alike(oldest(r.0, s.last().doc()), s[0].doc()),
    decreases calls.len(),
{
    if calls.len() == 0 {
        let h = s[0].history();
        assert forall|k: Name| !stack_mentions(h.undo, k) && !stack_mentions(h.redo, k) by {}
        (Seq::empty(), Seq::empty())
    } else {
        reveal(steps);
        lemma_front(s, calls);
        let t = s.drop_last();
        let c = calls.drop_last();
        assert forall|i: int| 0 <= i < c.len() implies undoable(&t[i], #[trigger] c[i]) by {
            assert(undoable(&s[i], calls[i]));
        }
        let (past, future) = lemma_walk(t, c);
        let before = t.last();
        let after = s.last();
        let h = before.history();
        let start = s[0].doc();
        let step = calls.last();
        assert(undoable(&s[calls.len() - 1], calls[calls.len() - 1]));
        match step {
            StepV::NewCell { kind, source, key } => {
                fresh_cell(kind, source);
                lemma_made(h, past, future, start, before.minter@, key, fresh(kind, source));
                (past, future)
            },
            StepV::CopyCell { raw, key } => {
                lemma_copied(raw);
                lemma_made(
                    h,
                    past,
                    future,
                    start,
                    before.minter@,
                    key,
                    loaded(obj_remove(raw, "id"@)),
                );
                (past, future)
            },
            StepV::Edit { group } => {
                history_stays_known(h, group, before.minter@);
                if run(h.doc, group).1.len() > 0 {
                    fresh_targets_return(h.doc, group);
                    edit_is_undoable(h, past, future, group);
                    (past.push(h.doc), Seq::empty())
                } else {
                    idle_group_changes_nothing(h.doc, group);
                    (past, future)
                }
            },
            StepV::Undo => {
                history_stays_known(h, Seq::empty(), before.minter@);
                if h.undo.len() > 0 {
                    undo_steps_back(h, past, future);
                    if past.len() == 1 {
                        lemma_alike_trans(undone(h).doc, past[0], start);
                    }
                    (past.drop_last(), future.push(h.doc))
                } else {
                    (past, future)
                }
            },
            StepV::Redo => {
                history_stays_known(h, Seq::empty(), before.minter@);
                if h.redo.len() > 0 {
                    redo_steps_on(h, past, future);
                    (past.push(h.doc), future.drop_last())
                } else {
                    (past, future)
                }
            },
            _ => (past, future),
        }
    }
}

/// Whatever cells were made, changed, undone and redone since a notebook was read, undoing
/// everything returns to the notebook that was read; and where nothing had been undone,
/// redoing everything after that returns to where it started from.
pub proof fn undo_returns_to_the_start(s: Seq<Notebook>, calls: Seq<StepV>)
    requires
        trace(s, calls),
        valid(s[0].doc()),
        s[0].undo@.len() == 0,
        s[0].redo@.len() == 0,
        forall|i: int| 0 <= i < calls.len() ==> undoable(&s[i], #[trigger] calls[i]),
    ensures
        alike(undone_all(s.last().history()).doc, s[0].doc()),
        s.last().redo@.len() == 0 ==> alike(
            redone_all(undone_all(s.last().history())).doc,
            s.last().doc(),
        ),
{
    let (past, future) = lemma_walk(s, calls);
    let h = s.last().history();
    let _ = lemma_undone_all(h, past, future);
    if past.len() > 0 {
        lemma_alike_trans(undone_all(h).doc, past[0], s[0].doc());
    }
    if s.last().redo@.len() == 0 {
        assert(future =~= Seq::empty());
        undo_all_then_redo_all(h, past);
    }
}

/// A cell that stood in the order is live or tombstoned, and not both, with the outputs it had.
pub proof fn ordered_cells_are_kept(s: Seq<Notebook>, calls: Seq<StepV>, k: Name)
    requires
        trace(s, calls),
        valid(s[0].doc()),
        forall|i: int| 0 <= i < calls.len() ==> keeps_outputs(#[trigger] calls[i]),
        s[0].doc().order.contains(k),
    ensures
        s.last().doc().order.contains(k) != s.last().doc().tombs.dom().contains(k),
        outputs_at(s.last().doc(), k) == outputs_at(s[0].doc(), k),
{
    cells_are_kept(s, calls);
    assert(s[0].doc().live.dom().contains(k));
    assert(cell_at(s[0].doc(), k) is Some);
    assert(s.last().doc().live.dom().contains(k) == s.last().doc().order.contains(k));
}

/// A step sets no entry of the file but its kernel.
proof fn lemma_step_entries(before: &Notebook, step: StepV, after: &Notebook, n: Seq<char>)
    requires
        before.wf(),
        steps(before, step, after),
    ensures
        ({
            let meta = obj_get(before.top@, "metadata"@)->Some_0->Object_0;
            let now = obj_get(after.top@, "metadata"@)->Some_0->Object_0;
            &&& n != "metadata"@ ==> obj_get(after.top@, n) == obj_get(before.top@, n)
            &&& n != "kernelspec"@ ==> obj_get(now, n) == obj_get(meta, n)
            &&& !(step is SetKernelspec) ==> after.top@ == before.top@
        }),
{
    reveal(steps);
    if let StepV::SetKernelspec { name, display_name, language } = step {
        recorded_kernel_is_the_notebooks(before, after, name, display_name, language, n);
    }
}

proof fn lemma_entries(s: Seq<Notebook>, calls: Seq<StepV>, n: Seq<char>)
    requires
        trace(s, calls),
    ensures
        ({
            let meta = obj_get(s[0].top@, "metadata"@)->Some_0->Object_0;
            let now = obj_get(s.last().top@, "metadata"@)->Some_0->Object_0;
            &&& n != "metadata"@ ==> obj_get(s.last().top@, n) == obj_get(s[0].top@, n)
            &&& n != "kernelspec"@ ==> obj_get(now, n) == obj_get(meta, n)
            &&& (forall|i: int| 0 <= i < calls.len() ==> !((#[trigger] calls[i]) is SetKernelspec))
                ==> s.last().top@ == s[0].top@
            &&& s.last().wf()
        }),
    decreases calls.len(),
{
    if calls.len() > 0 {
        lemma_front(s, calls);
        let c = calls.drop_last();
        lemma_entries(s.drop_last(), c, n);
        lemma_step_entries(&s.drop_last().last(), calls.last(), &s.last(), n);
        if forall|i: int| 0 <= i < calls.len() ==> !((#[trigger] calls[i]) is SetKernelspec) {
            assert forall|i: int| 0 <= i < c.len() implies !((#[trigger] c[i]) is SetKernelspec) by {
                assert(c[i] == calls[i]);
            }
            assert(!(calls[calls.len() - 1] is SetKernelspec));
        }
    }
}

/// Whatever was called since a notebook was read, what is written has every top-level entry
/// that was read but the cells and the minor version, and all the metadata but the kernel that
/// was picked. Where none was picked, the metadata is as it was read.
pub proof fn entries_survive_any_calls(
    s: Seq<Notebook>,
    calls: Seq<StepV>,
    path: Seq<char>,
    text: Seq<u8>,
    used: Set<Seq<char>>,
    n: Seq<char>,
)
    requires
        trace(s, calls),
        read_as(&s[0], path, text, used),
    ensures
        ({
            let o = top_json(s.last().top@, s.last().doc(), s.last().mutated);
            let meta = obj_get(text_top(text), "metadata"@)->Some_0->Object_0;
            let now = obj_get(o, "metadata"@);
            &&& n != "cells"@ && n != "nbformat_minor"@ && n != "metadata"@ ==> obj_get(o, n)
                == obj_get(text_top(text), n)
            &&& now matches Some(JsonV::Object(_))
            &&& n != "kernelspec"@ ==> obj_get(now->Some_0->Object_0, n) == obj_get(meta, n)
            &&& (forall|i: int| 0 <= i < calls.len() ==> !((#[trigger] calls[i]) is SetKernelspec))
                ==> now == obj_get(text_top(text), "metadata"@)
        }),
{
    reveal_strlit("cells");
    reveal_strlit("nbformat_minor");
    reveal_strlit("metadata");
    assert("cells"@.len() == 5 && "nbformat_minor"@.len() == 14 && "metadata"@.len() == 8);
    let nb = s.last();
    lemma_entries(s, calls, n);
    lemma_obj_insert(text_top(text), "cells"@, JsonV::Array(Seq::empty()), n);
    lemma_obj_insert(text_top(text), "cells"@, JsonV::Array(Seq::empty()), "metadata"@);
    saving_keeps_other_entries(nb.top@, nb.doc(), nb.mutated, "metadata"@);
    if n != "cells"@ && n != "nbformat_minor"@ {
        saving_keeps_other_entries(nb.top@, nb.doc(), nb.mutated, n);
    }
}

/// What was typed into a cell is what is written as its source, with all its other fields, and
/// all the other cells, as they were.
pub proof fn typed_source_is_written(d: DocV, key: Name, source: Seq<char>, mutated: bool, i: int, n: Seq<char>)
    requires
        doc_wf(d),
        0 <= i < d.order.len(),
        d.live.dom().contains(key),
        distinct(d.live[key].raw),
        n != "source"@,
        n != "id"@,
    ensures
        ({
            let e = with_cell(d, key, sourced(d.live[key], source));
            let was = cells_json(d, mutated)[i];
            let now = cells_json(e, mutated)[i];
            &&& e.order == d.order
            &&& d.order[i] != key ==> now == was
            &&& d.order[i] == key ==> now is Object && multiline_text(
                obj_get(now->Object_0, "source"@),
            ) == source && obj_get(now->Object_0, n) == obj_get(was->Object_0, n)
        }),
{
    let e = with_cell(d, key, sourced(d.live[key], source));
    if d.order[i] == key {
        source_round_trip(d.live[key].raw, source);
        saving_keeps_cells(d, mutated, i);
        saving_keeps_cells(e, mutated, i);
        reveal_strlit("source");
        reveal_strlit("id");
        assert("source"@.len() != "id"@.len());
        let now = cells_json(e, mutated)[i];
        assert(obj_get(now->Object_0, "source"@) == obj_get(e.live[key].raw, "source"@));
    }
}

} // verus!
