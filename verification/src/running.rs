//! What running a cell leaves in the notebook: the cell it was asked of, and nothing of what
//! the cell showed before.

use crate::document::{
    lemma_list_text, list_of, multiline_list, multiline_text, raw_outputs, raw_source, CellV, ExecState,
};
use crate::executor::{
    all_failed, all_idle, answered, can_patch, collapsed, displays_but, displays_of,
    displays_updated, handled, media, named, named_at, patched, requested, runnable, settled,
    stream_name, streamed, wiped, with_named, with_outputs, ContentV, EventV, ExecV, ExecutionState, KernelStatus, NbV,
    ReplyStatus, Stdio,
};
use crate::history::{cell_at, Name};
use crate::json::{
    lemma_obj_index, lemma_obj_index_is, lemma_obj_insert, number_from, obj_get, obj_index, obj_insert,
    v_str, Entries, JsonV,
};
use crate::stream::{collapsed_text_stays, returns_end_lines};
use crate::text::starts_with;
use vstd::prelude::*;

verus! {

/// The cell under a key.
pub open spec fn cell_of(n: NbV, k: Name) -> CellV {
    cell_at(n.doc, k)->0
}

/// The outputs of a cell.
pub open spec fn outputs_of(n: NbV, k: Name) -> Seq<JsonV> {
    raw_outputs(cell_of(n, k).raw)
}

proof fn lemma_named<V>(s: Seq<(Name, V)>, k: Name)
    ensures
        0 <= named_at(s, k) <= s.len(),
        named_at(s, k) < s.len() ==> s[named_at(s, k)].0 == k,
        forall|j: int| 0 <= j < named_at(s, k) ==> (#[trigger] s[j]).0 != k,
    decreases s.len(),
{
    if s.len() > 0 && s[0].0 != k {
        lemma_named(s.skip(1), k);
        assert forall|j: int| 0 <= j < named_at(s, k) implies (#[trigger] s[j]).0 != k by {
            if j > 0 {
                assert(s.skip(1)[j - 1] == s[j]);
            }
        }
    }
}

proof fn lemma_named_is<V>(s: Seq<(Name, V)>, k: Name, i: int)
    requires
        0 <= i <= s.len(),
        forall|j: int| 0 <= j < i ==> (#[trigger] s[j]).0 != k,
        i < s.len() ==> s[i].0 == k,
    ensures
        named_at(s, k) == i,
{
    lemma_named(s, k);
    let m = named_at(s, k);
    if m < i {
        assert(s[m].0 == k);
    } else if i < m {
        assert(s[i].0 != k);
    }
}

proof fn lemma_with_named<V>(s: Seq<(Name, V)>, k: Name, v: V, other: Name)
    ensures
        named(with_named(s, k, v), k) == Some(v),
        other != k ==> named(with_named(s, k, v), other) == named(s, other),
{
    let t = with_named(s, k, v);
    lemma_named(s, k);
    lemma_named_is(t, k, named_at(s, k));
    if other != k {
        lemma_named(s, other);
        let i = named_at(s, other);
        if i < s.len() {
            lemma_named_is(t, other, i);
        } else {
            assert forall|j: int| 0 <= j < t.len() implies (#[trigger] t[j]).0 != other by {
                if j < s.len() {
                    assert(s[j].0 != other);
                }
            }
            lemma_named_is(t, other, t.len() as int);
        }
    }
}

/// Asking for a cell queues it: the request is answered by messages under its id, the cell's
/// source is what staleness is judged by, and nothing else of the notebook changes.
pub proof fn request_queues_the_cell(x: ExecV, n: NbV, k: Name, id: Seq<char>, other: Name)
    requires
        runnable(n.doc, k),
    ensures
        ({
            let r = requested(x, n, k, id);
            let c = cell_of(r.1, k);
            &&& answered(r.0, Some(id)) == Some(k)
            &&& other != id ==> answered(r.0, Some(other)) == answered(x, Some(other))
            &&& c.raw == cell_of(n, k).raw
            &&& c.runtime.state == ExecState::Queued
            &&& c.runtime.baseline == raw_source(c.raw)
            &&& c.runtime.error is None
            &&& r.1.mutated
            &&& other != k ==> cell_at(r.1.doc, other) == cell_at(n.doc, other)
            &&& r.1.doc.order == n.doc.order
        }),
{
    lemma_with_named(x.requests, id, k, other);
}

/// When the kernel starts on a queued cell, the cell is running, shows nothing and has no
/// count; its other fields, and the other cells, are as they were.
pub proof fn run_starts_clean(
    x: ExecV,
    n: NbV,
    parent: Seq<char>,
    k: Name,
    now: u64,
    field: Seq<char>,
    other: Name,
)
    requires
        answered(x, Some(parent)) == Some(k),
        cell_at(n.doc, k) is Some,
        cell_of(n, k).runtime.state == ExecState::Queued,
        field != "outputs"@,
        field != "execution_count"@,
        other != k,
    ensures
        ({
            let r = handled(x, n, Some(parent), ContentV::Status(ExecutionState::Busy), now);
            let c = cell_of(r.1, k);
            &&& cell_at(r.1.doc, k) is Some
            &&& c.runtime.state == ExecState::Running
            &&& obj_get(c.raw, "outputs"@) == Some(JsonV::Array(Seq::empty()))
            &&& outputs_of(r.1, k).len() == 0
            &&& obj_get(c.raw, "execution_count"@) == Some(JsonV::Null)
            &&& obj_get(c.raw, field) == obj_get(cell_of(n, k).raw, field)
            &&& named(r.0.started, k) == Some(now)
            &&& r.0.status == KernelStatus::Busy
            &&& r.0.requests == x.requests
            &&& r.2.contains(EventV::Cell(k))
            &&& cell_at(r.1.doc, other) == cell_at(n.doc, other)
            &&& r.1.doc.order == n.doc.order
        }),
{
    reveal_strlit("outputs");
    reveal_strlit("execution_count");
    assert("outputs"@.len() != "execution_count"@.len());
    let c = cell_of(n, k);
    let none = JsonV::Array(Seq::empty());
    lemma_obj_insert(c.raw, "outputs"@, none, field);
    let bare = obj_insert(c.raw, "outputs"@, none);
    lemma_obj_insert(bare, "execution_count"@, JsonV::Null, "outputs"@);
    lemma_obj_insert(bare, "execution_count"@, JsonV::Null, field);
    lemma_with_named(x.started, k, now, k);
    let r = handled(x, n, Some(parent), ContentV::Status(ExecutionState::Busy), now);
    assert(r.2.last() == EventV::Cell(k));
    assert(r.2[r.2.len() - 1] == EventV::Cell(k));
}

/// What a cell shows before the next output: nothing, if a clearing waits for it.
pub open spec fn shown_before(x: ExecV, n: NbV, k: Name) -> Seq<JsonV> {
    if x.clear_pending.contains(k) {
        Seq::empty()
    } else {
        outputs_of(n, k)
    }
}

/// A field of an output.
pub open spec fn field_of(o: JsonV, n: Seq<char>) -> Option<JsonV> {
    obj_get(o->Object_0, n)
}

proof fn lemma_outputs_set(c: CellV, outputs: Seq<JsonV>, n: Seq<char>)
    ensures
        raw_outputs(with_outputs(c, outputs).raw) == outputs,
        n != "outputs"@ ==> obj_get(with_outputs(c, outputs).raw, n) == obj_get(c.raw, n),
{
    lemma_obj_insert(c.raw, "outputs"@, JsonV::Array(outputs), n);
}

proof fn lemma_output_names()
    ensures
        "data"@.len() == 4,
        "metadata"@.len() == 8,
        "output_type"@.len() == 11,
        "execution_count"@.len() == 15,
        "ename"@.len() == 5,
        "evalue"@.len() == 6,
        "traceback"@.len() == 9,
        "name"@.len() == 4,
        "text"@.len() == 4,
        "name"@[0] == 'n',
        "text"@[0] == 't',
        "data"@[0] == 'd',
        "outputs"@.len() == 7,
        "display_data"@.len() == 12,
        "execute_result"@.len() == 14,
        "error"@.len() == 5,
        "stream"@.len() == 6,
        "stdout"@.len() == 6,
        "stderr"@.len() == 6,
        "stdout"@[3] == 'o',
        "stderr"@[3] == 'e',
{
    reveal_strlit("data");
    reveal_strlit("metadata");
    reveal_strlit("output_type");
    reveal_strlit("execution_count");
    reveal_strlit("ename");
    reveal_strlit("evalue");
    reveal_strlit("traceback");
    reveal_strlit("name");
    reveal_strlit("text");
    reveal_strlit("outputs");
    reveal_strlit("display_data");
    reveal_strlit("execute_result");
    reveal_strlit("error");
    reveal_strlit("stream");
    reveal_strlit("stdout");
    reveal_strlit("stderr");
}

/// An output that the kernel displays joins its cell below what the cell shows, with its data
/// and metadata.
pub proof fn display_is_added(
    x: ExecV,
    n: NbV,
    parent: Seq<char>,
    k: Name,
    data: JsonV,
    metadata: Entries,
    display_id: Option<Seq<char>>,
    now: u64,
)
    requires
        answered(x, Some(parent)) == Some(k),
        cell_at(n.doc, k) is Some,
    ensures
        ({
            let r = handled(
                x,
                n,
                Some(parent),
                ContentV::DisplayData { data, metadata, display_id },
                now,
            );
            let out = outputs_of(r.1, k);
            &&& out.len() == shown_before(x, n, k).len() + 1
            &&& out.drop_last() == shown_before(x, n, k)
            &&& out.last() is Object
            &&& v_str(field_of(out.last(), "output_type"@)) == Some("display_data"@)
            &&& field_of(out.last(), "data"@) == Some(media(data))
            &&& field_of(out.last(), "metadata"@) == Some(JsonV::Object(metadata))
            &&& r.2 == seq![EventV::Cell(k)]
        }),
{
    lemma_output_names();
    lemma_settled(x, n, k);
    let o = crate::executor::display_json(data, metadata);
    lemma_obj_index_is(o->Object_0, "data"@, 0);
    lemma_obj_index_is(o->Object_0, "metadata"@, 1);
    lemma_obj_index_is(o->Object_0, "output_type"@, 2);
    let c = cell_of(settled(x, n, k).1, k);
    lemma_outputs_set(c, raw_outputs(c.raw).push(o), "source"@);
    assert(shown_before(x, n, k).push(o).drop_last() =~= shown_before(x, n, k));
}

/// A result joins its cell below what the cell shows, with its data, metadata and count.
pub proof fn result_is_added(
    x: ExecV,
    n: NbV,
    parent: Seq<char>,
    k: Name,
    data: JsonV,
    count: u64,
    metadata: Entries,
    display_id: Option<Seq<char>>,
    now: u64,
)
    requires
        answered(x, Some(parent)) == Some(k),
        cell_at(n.doc, k) is Some,
    ensures
        ({
            let r = handled(
                x,
                n,
                Some(parent),
                ContentV::ExecuteResult { data, count, metadata, display_id },
                now,
            );
            let out = outputs_of(r.1, k);
            &&& out.len() == shown_before(x, n, k).len() + 1
            &&& out.drop_last() == shown_before(x, n, k)
            &&& out.last() is Object
            &&& v_str(field_of(out.last(), "output_type"@)) == Some("execute_result"@)
            &&& field_of(out.last(), "data"@) == Some(media(data))
            &&& field_of(out.last(), "metadata"@) == Some(JsonV::Object(metadata))
            &&& field_of(out.last(), "execution_count"@) == Some(JsonV::Number(number_from(count)))
            &&& r.2 == seq![EventV::Cell(k)]
        }),
{
    lemma_output_names();
    lemma_settled(x, n, k);
    let o = crate::executor::result_json(data, count, metadata);
    lemma_obj_index_is(o->Object_0, "data"@, 0);
    lemma_obj_index_is(o->Object_0, "execution_count"@, 1);
    lemma_obj_index_is(o->Object_0, "metadata"@, 2);
    lemma_obj_index_is(o->Object_0, "output_type"@, 3);
    let c = cell_of(settled(x, n, k).1, k);
    lemma_outputs_set(c, raw_outputs(c.raw).push(o), "source"@);
    assert(shown_before(x, n, k).push(o).drop_last() =~= shown_before(x, n, k));
}

/// An error joins its cell below what the cell shows, with its name, value and every line of
/// its traceback.
pub proof fn error_is_added(
    x: ExecV,
    n: NbV,
    parent: Seq<char>,
    k: Name,
    ename: Seq<char>,
    evalue: Seq<char>,
    traceback: Seq<Seq<char>>,
    now: u64,
)
    requires
        answered(x, Some(parent)) == Some(k),
        cell_at(n.doc, k) is Some,
    ensures
        ({
            let r = handled(
                x,
                n,
                Some(parent),
                ContentV::ErrorOutput { ename, evalue, traceback },
                now,
            );
            let out = outputs_of(r.1, k);
            let lines = list_of(field_of(out.last(), "traceback"@));
            &&& out.len() == shown_before(x, n, k).len() + 1
            &&& out.drop_last() == shown_before(x, n, k)
            &&& out.last() is Object
            &&& v_str(field_of(out.last(), "output_type"@)) == Some("error"@)
            &&& v_str(field_of(out.last(), "ename"@)) == Some(ename)
            &&& v_str(field_of(out.last(), "evalue"@)) == Some(evalue)
            &&& lines.len() == traceback.len()
            &&& forall|i: int|
                0 <= i < lines.len() ==> #[trigger] lines[i] == JsonV::String(traceback[i])
            &&& r.2 == seq![EventV::Cell(k)]
        }),
{
    lemma_output_names();
    lemma_settled(x, n, k);
    let o = crate::executor::error_json(ename, evalue, traceback);
    lemma_obj_index_is(o->Object_0, "ename"@, 0);
    lemma_obj_index_is(o->Object_0, "evalue"@, 1);
    lemma_obj_index_is(o->Object_0, "output_type"@, 2);
    lemma_obj_index_is(o->Object_0, "traceback"@, 3);
    let c = cell_of(settled(x, n, k).1, k);
    lemma_outputs_set(c, raw_outputs(c.raw).push(o), "source"@);
    assert(shown_before(x, n, k).push(o).drop_last() =~= shown_before(x, n, k));
}

proof fn lemma_settled(x: ExecV, n: NbV, k: Name)
    requires
        cell_at(n.doc, k) is Some,
    ensures
        cell_at(settled(x, n, k).1.doc, k) is Some,
        outputs_of(settled(x, n, k).1, k) == shown_before(x, n, k),
        cell_of(settled(x, n, k).1, k).runtime == cell_of(n, k).runtime,
        settled(x, n, k).0.requests == x.requests,
{
    lemma_outputs_set(cell_of(n, k), Seq::empty(), "source"@);
}

/// The text that a stream's output has.
pub open spec fn stream_text_of(o: JsonV) -> Seq<char> {
    multiline_text(field_of(o, "text"@))
}

/// Whether an output is of the stream of this name.
pub open spec fn of_stream(o: JsonV, name: Seq<char>) -> bool {
    &&& o is Object
    &&& v_str(field_of(o, "output_type"@)) == Some("stream"@)
    &&& v_str(field_of(o, "name"@)) == Some(name)
}

/// The name of a stream, as nbformat has it.
pub open spec fn name_of(s: Stdio) -> Seq<char> {
    match s {
        Stdio::Stdout => "stdout"@,
        Stdio::Stderr => "stderr"@,
    }
}

/// What a kernel writes to a stream is shown below what its cell shows: with the last output if
/// that is of the same stream, else in an output of its own. A text without carriage returns is
/// shown as it is.
pub proof fn stream_is_added(
    x: ExecV,
    n: NbV,
    parent: Seq<char>,
    k: Name,
    name: Stdio,
    text: Seq<char>,
    now: u64,
)
    requires
        answered(x, Some(parent)) == Some(k),
        cell_at(n.doc, k) is Some,
    ensures
        ({
            let r = handled(x, n, Some(parent), ContentV::Stream { name, text }, now);
            let was = shown_before(x, n, k);
            let out = outputs_of(r.1, k);
            let joins = was.len() > 0 && of_stream(was.last(), name_of(name));
            let had = if joins {
                stream_text_of(was.last())
            } else {
                Seq::empty()
            };
            &&& out.len() == if joins {
                was.len()
            } else {
                was.len() + 1
            }
            &&& out.drop_last() == if joins {
                was.drop_last()
            } else {
                was
            }
            &&& of_stream(out.last(), name_of(name))
            &&& stream_text_of(out.last()) == collapsed(had + text)
            &&& returns_end_lines(had + text) ==> stream_text_of(out.last()) == had + text
            &&& r.2 == seq![EventV::Cell(k)]
        }),
{
    lemma_output_names();
    lemma_settled(x, n, k);
    let was = shown_before(x, n, k);
    let joins = was.len() > 0 && of_stream(was.last(), name_of(name));
    let c = cell_of(settled(x, n, k).1, k);
    lemma_outputs_set(c, streamed(raw_outputs(c.raw), stream_name(name), text), "source"@);
    let had = if joins {
        stream_text_of(was.last())
    } else {
        Seq::empty()
    };
    lemma_list_text(collapsed(had + text));
    if returns_end_lines(had + text) {
        collapsed_text_stays(had + text);
    }
    let out = streamed(was, stream_name(name), text);
    if joins {
        let o = was.last()->Object_0;
        let v = multiline_list(collapsed(had + text));
        lemma_obj_insert(o, "text"@, v, "output_type"@);
        lemma_obj_insert(o, "text"@, v, "name"@);
        assert(out.drop_last() =~= was.drop_last());
    } else {
        assert(had + text =~= text);
        let o = out.last()->Object_0;
        lemma_obj_index_is(o, "name"@, 0);
        lemma_obj_index_is(o, "output_type"@, 1);
        lemma_obj_index_is(o, "text"@, 2);
        assert(out.drop_last() =~= was);
    }
}

/// In a media bundle every text reads as it was sent, and all else is kept as it is; a text of
/// a type that nbformat splits is a list of lines.
pub proof fn media_keeps_data(bundle: Entries, mime: Seq<char>)
    ensures
        ({
            let m = media(JsonV::Object(bundle));
            let was = obj_get(bundle, mime);
            let now = obj_get(m->Object_0, mime);
            let of_lines = starts_with(mime, "text/"@) || mime == "application/javascript"@ || mime
                == "image/svg+xml"@;
            &&& m is Object
            &&& now is Some == was is Some
            &&& multiline_text(now) == multiline_text(was)
            &&& !(was matches Some(JsonV::String(_))) ==> now == was
            &&& !of_lines ==> now == was
            &&& (was matches Some(JsonV::String(_))) && of_lines ==> now->0 is Array
        }),
{
    let m = media(JsonV::Object(bundle))->Object_0;
    lemma_obj_index(bundle, mime);
    let i = obj_index(bundle, mime);
    assert forall|j: int| 0 <= j < i implies (#[trigger] m[j]).0 != mime by {
        assert(bundle[j].0 != mime);
    }
    lemma_obj_index_is(m, mime, i);
    if i < bundle.len() {
        if let JsonV::String(s) = bundle[i].1 {
            lemma_list_text(s);
        }
    }
}

/// A reply ends the execution of its cell: in success or in error with its count, or aborted
/// with the count it had. What the cell shows stays, the time it took is known if its start
/// was, and no later message is taken as an answer to the request.
pub proof fn reply_says_how_it_went(
    x: ExecV,
    n: NbV,
    parent: Seq<char>,
    k: Name,
    status: ReplyStatus,
    count: u64,
    now: u64,
    field: Seq<char>,
)
    requires
        answered(x, Some(parent)) == Some(k),
        cell_at(n.doc, k) is Some,
        field != "execution_count"@,
    ensures
        ({
            let r = handled(x, n, Some(parent), ContentV::ExecuteReply { status, count }, now);
            let c = cell_of(r.1, k);
            &&& cell_at(r.1.doc, k) is Some
            &&& c.runtime.state == match status {
                ReplyStatus::Done => ExecState::Done,
                ReplyStatus::Error => ExecState::Error,
                ReplyStatus::Aborted => ExecState::Idle,
            }
            &&& status != ReplyStatus::Aborted ==> obj_get(c.raw, "execution_count"@) == Some(
                JsonV::Number(number_from(count)),
            )
            &&& status == ReplyStatus::Aborted ==> c.raw == cell_of(n, k).raw
            &&& obj_get(c.raw, field) == obj_get(cell_of(n, k).raw, field)
            &&& named(x.started, k) is Some && named(x.started, k)->0 <= now
                ==> c.runtime.duration == Some((now - named(x.started, k)->0) as u64)
            &&& named(x.started, k) is None ==> c.runtime.duration is None
            &&& c.runtime.baseline == cell_of(n, k).runtime.baseline
            &&& r.2 == seq![EventV::Cell(k)]
            &&& r.1.mutated
        }),
{
    lemma_obj_insert(
        cell_of(n, k).raw,
        "execution_count"@,
        JsonV::Number(number_from(count)),
        field,
    );
}

/// The count that the kernel says it runs a cell under is recorded at once.
pub proof fn input_sets_the_count(
    x: ExecV,
    n: NbV,
    parent: Seq<char>,
    k: Name,
    count: u64,
    now: u64,
    field: Seq<char>,
)
    requires
        answered(x, Some(parent)) == Some(k),
        cell_at(n.doc, k) is Some,
        field != "execution_count"@,
    ensures
        ({
            let r = handled(x, n, Some(parent), ContentV::ExecuteInput { count }, now);
            let c = cell_of(r.1, k);
            &&& obj_get(c.raw, "execution_count"@) == Some(JsonV::Number(number_from(count)))
            &&& obj_get(c.raw, field) == obj_get(cell_of(n, k).raw, field)
            &&& c.runtime == cell_of(n, k).runtime
            &&& r.0 == x
        }),
{
    lemma_obj_insert(
        cell_of(n, k).raw,
        "execution_count"@,
        JsonV::Number(number_from(count)),
        field,
    );
}

/// A kernel that clears a cell clears it at once, or, if it asks to wait, when the next output
/// comes: until then the cell shows what it showed.
pub proof fn clearing_waits_if_asked(
    x: ExecV,
    n: NbV,
    parent: Seq<char>,
    k: Name,
    wait: bool,
    now: u64,
)
    requires
        answered(x, Some(parent)) == Some(k),
        cell_at(n.doc, k) is Some,
    ensures
        ({
            let r = handled(x, n, Some(parent), ContentV::ClearOutput { wait }, now);
            &&& shown_before(r.0, r.1, k).len() == 0
            &&& wait ==> r.1 == n
            &&& !wait ==> outputs_of(r.1, k).len() == 0 && !r.0.clear_pending.contains(k)
            &&& answered(r.0, Some(parent)) == Some(k)
        }),
{
    lemma_outputs_set(cell_of(n, k), Seq::empty(), "source"@);
}

/// A request for input is passed on with its prompt, and changes nothing.
pub proof fn input_is_asked_for(
    x: ExecV,
    n: NbV,
    parent: Option<Seq<char>>,
    prompt: Seq<char>,
    password: bool,
    now: u64,
)
    ensures
        ({
            let r = handled(x, n, parent, ContentV::InputRequest { prompt, password }, now);
            &&& r.0 == x
            &&& r.1 == n
            &&& r.2 == seq![
                EventV::InputRequested { key: answered(x, parent), prompt, password },
            ]
        }),
{
}

/// What the kernel says of itself is its status, and is told where it is news.
pub proof fn status_is_the_kernels(
    x: ExecV,
    n: NbV,
    parent: Option<Seq<char>>,
    state: ExecutionState,
    now: u64,
)
    ensures
        ({
            let r = handled(x, n, parent, ContentV::Status(state), now);
            &&& state == ExecutionState::Idle ==> r.0.status == KernelStatus::Idle
            &&& state == ExecutionState::Busy ==> r.0.status == KernelStatus::Busy
            &&& state == ExecutionState::Starting ==> r.0.status == KernelStatus::Starting
            &&& state == ExecutionState::Restarting || state == ExecutionState::AutoRestarting
                ==> r.0.status == KernelStatus::Restarting
            &&& state == ExecutionState::Dead || state == ExecutionState::Terminating
                ==> r.0.status == KernelStatus::Dead
            &&& state == ExecutionState::Other ==> r.0.status == x.status
            &&& r.0.status != x.status ==> r.2.len() > 0 && r.2[0] == EventV::Status(r.0.status)
            &&& r.0.status == x.status ==> forall|i: int|
                0 <= i < r.2.len() ==> !((#[trigger] r.2[i]) is Status)
        }),
{
}

/// A kernel that goes away leaves no cell queued or running that had been asked for: all are
/// idle, with what they show.
pub proof fn reset_cells_are_idle(n: NbV, requests: Seq<(Seq<char>, Name)>, i: int, k: Name)
    requires
        0 <= i < requests.len(),
    ensures
        ({
            let r = all_idle(n, requests);
            let asked = requests[i].1;
            &&& cell_at(n.doc, asked) is Some ==> cell_at(r.0.doc, asked) is Some && cell_of(
                r.0,
                asked,
            ).runtime.state == ExecState::Idle
            &&& cell_at(n.doc, k) is Some ==> cell_at(r.0.doc, k) is Some && cell_of(r.0, k).raw
                == cell_of(n, k).raw
            &&& r.1.contains(EventV::Cell(asked))
        }),
    decreases requests.len(),
{
    let front = requests.drop_last();
    let r = all_idle(n, requests);
    lemma_idle_keeps(n, front, k);
    lemma_idle_keeps(n, front, requests[i].1);
    if i < front.len() {
        reset_cells_are_idle(n, front, i, k);
        let f = all_idle(n, front).1;
        let j = choose|j: int| 0 <= j < f.len() && f[j] == EventV::Cell(requests[i].1);
        assert(r.1[j] == EventV::Cell(requests[i].1));
    } else {
        assert(r.1[r.1.len() - 1] == EventV::Cell(requests[i].1));
    }
}

proof fn lemma_idle_keeps(n: NbV, requests: Seq<(Seq<char>, Name)>, k: Name)
    ensures
        cell_at(n.doc, k) is Some == cell_at(all_idle(n, requests).0.doc, k) is Some,
        cell_at(n.doc, k) is Some ==> cell_of(all_idle(n, requests).0, k).raw == cell_of(n, k).raw,
    decreases requests.len(),
{
    if requests.len() > 0 {
        lemma_idle_keeps(n, requests.drop_last(), k);
    }
}

/// Where nothing can run, every cell that had been asked for fails, with the reason beside it
/// and with what it shows.
pub proof fn failed_cells_say_why(
    n: NbV,
    requests: Seq<(Seq<char>, Name)>,
    reason: Seq<char>,
    i: int,
    k: Name,
)
    requires
        0 <= i < requests.len(),
    ensures
        ({
            let r = all_failed(n, requests, reason);
            let asked = requests[i].1;
            &&& cell_at(n.doc, asked) is Some ==> cell_at(r.0.doc, asked) is Some && cell_of(
                r.0,
                asked,
            ).runtime.state == ExecState::Error && cell_of(r.0, asked).runtime.error == Some(reason)
            &&& cell_at(n.doc, k) is Some ==> cell_at(r.0.doc, k) is Some && cell_of(r.0, k).raw
                == cell_of(n, k).raw
            &&& r.1.contains(EventV::Cell(asked))
        }),
    decreases requests.len(),
{
    let front = requests.drop_last();
    let r = all_failed(n, requests, reason);
    lemma_failed_keeps(n, front, reason, k);
    lemma_failed_keeps(n, front, reason, requests[i].1);
    if i < front.len() {
        failed_cells_say_why(n, front, reason, i, k);
        let f = all_failed(n, front, reason).1;
        let j = choose|j: int| 0 <= j < f.len() && f[j] == EventV::Cell(requests[i].1);
        assert(r.1[j] == EventV::Cell(requests[i].1));
    } else {
        assert(r.1[r.1.len() - 1] == EventV::Cell(requests[i].1));
    }
}

proof fn lemma_failed_keeps(n: NbV, requests: Seq<(Seq<char>, Name)>, reason: Seq<char>, k: Name)
    ensures
        cell_at(n.doc, k) is Some == cell_at(all_failed(n, requests, reason).0.doc, k) is Some,
        cell_at(n.doc, k) is Some ==> cell_of(all_failed(n, requests, reason).0, k).raw == cell_of(
            n,
            k,
        ).raw,
    decreases requests.len(),
{
    if requests.len() > 0 {
        lemma_failed_keeps(n, requests.drop_last(), reason, k);
    }
}

/// A cell that the user clears shows nothing and has no count; its other fields stay.
pub proof fn wiped_cell_shows_nothing(c: CellV, field: Seq<char>)
    requires
        field != "outputs"@,
        field != "execution_count"@,
    ensures
        raw_outputs(wiped(c).raw).len() == 0,
        !(obj_get(wiped(c).raw, "execution_count"@) matches Some(JsonV::Number(_))),
        obj_get(wiped(c).raw, field) == obj_get(c.raw, field),
        wiped(c).runtime.state == ExecState::Idle,
{
    reveal_strlit("outputs");
    reveal_strlit("execution_count");
    assert("outputs"@.len() != "execution_count"@.len());
    let bare = with_outputs(c, Seq::empty());
    lemma_outputs_set(c, Seq::empty(), field);
    lemma_obj_insert(bare.raw, "execution_count"@, JsonV::Null, field);
    lemma_obj_insert(bare.raw, "execution_count"@, JsonV::Null, "outputs"@);
}

/// The messages under one request, one after the other.
pub open spec fn all_handled(
    x: ExecV,
    n: NbV,
    parent: Seq<char>,
    contents: Seq<ContentV>,
    now: u64,
) -> (ExecV, NbV)
    decreases contents.len(),
{
    if contents.len() == 0 {
        (x, n)
    } else {
        let r = all_handled(x, n, parent, contents.drop_last(), now);
        let s = handled(r.0, r.1, Some(parent), contents.last(), now);
        (s.0, s.1)
    }
}

/// What a message makes of two notebooks in which a cell shows the same, it shows the same.
proof fn lemma_same_outputs(x: ExecV, n: NbV, m: NbV, parent: Seq<char>, k: Name, content: ContentV, now: u64)
    requires
        answered(x, Some(parent)) == Some(k),
        cell_at(n.doc, k) is Some,
        cell_at(m.doc, k) is Some,
        outputs_of(n, k) == outputs_of(m, k),
        !(content is Status),
    ensures
        ({
            let a = handled(x, n, Some(parent), content, now);
            let b = handled(x, m, Some(parent), content, now);
            &&& a.0 == b.0
            &&& cell_at(a.1.doc, k) is Some
            &&& cell_at(b.1.doc, k) is Some
            &&& outputs_of(a.1, k) == outputs_of(b.1, k)
        }),
{
    lemma_output_names();
    lemma_settled(x, n, k);
    lemma_settled(x, m, k);
    match content {
        ContentV::ExecuteInput { count } => {
            let v = JsonV::Number(number_from(count));
            lemma_obj_insert(cell_of(n, k).raw, "execution_count"@, v, "outputs"@);
            lemma_obj_insert(cell_of(m, k).raw, "execution_count"@, v, "outputs"@);
        },
        ContentV::Stream { name, text } => {
            let o = streamed(shown_before(x, n, k), stream_name(name), text);
            lemma_outputs_set(cell_of(settled(x, n, k).1, k), o, "source"@);
            lemma_outputs_set(cell_of(settled(x, m, k).1, k), o, "source"@);
        },
        ContentV::DisplayData { data, metadata, .. } => {
            let o = shown_before(x, n, k).push(crate::executor::display_json(data, metadata));
            lemma_outputs_set(cell_of(settled(x, n, k).1, k), o, "source"@);
            lemma_outputs_set(cell_of(settled(x, m, k).1, k), o, "source"@);
        },
        ContentV::ExecuteResult { data, count, metadata, .. } => {
            let o = shown_before(x, n, k).push(
                crate::executor::result_json(data, count, metadata),
            );
            lemma_outputs_set(cell_of(settled(x, n, k).1, k), o, "source"@);
            lemma_outputs_set(cell_of(settled(x, m, k).1, k), o, "source"@);
        },
        ContentV::ErrorOutput { ename, evalue, traceback } => {
            let o = shown_before(x, n, k).push(
                crate::executor::error_json(ename, evalue, traceback),
            );
            lemma_outputs_set(cell_of(settled(x, n, k).1, k), o, "source"@);
            lemma_outputs_set(cell_of(settled(x, m, k).1, k), o, "source"@);
        },
        ContentV::ClearOutput { .. } => {
            lemma_outputs_set(cell_of(n, k), Seq::empty(), "source"@);
            lemma_outputs_set(cell_of(m, k), Seq::empty(), "source"@);
        },
        ContentV::UpdateDisplayData { data, metadata, display_id } => {
            if let Some(id) = display_id {
                lemma_same_displays(n, m, displays_of(x.displays, id), data, metadata, k);
            }
        },
        ContentV::ExecuteReply { status, count } => {
            let v = JsonV::Number(number_from(count));
            lemma_obj_insert(cell_of(n, k).raw, "execution_count"@, v, "outputs"@);
            lemma_obj_insert(cell_of(m, k).raw, "execution_count"@, v, "outputs"@);
        },
        _ => {},
    }
}

proof fn lemma_same_displays(
    n: NbV,
    m: NbV,
    targets: Seq<(Name, int)>,
    data: JsonV,
    metadata: Entries,
    k: Name,
)
    requires
        cell_at(n.doc, k) is Some,
        cell_at(m.doc, k) is Some,
        outputs_of(n, k) == outputs_of(m, k),
    ensures
        ({
            let a = displays_updated(n, targets, data, metadata).0;
            let b = displays_updated(m, targets, data, metadata).0;
            &&& cell_at(a.doc, k) is Some
            &&& cell_at(b.doc, k) is Some
            &&& outputs_of(a, k) == outputs_of(b, k)
            &&& outputs_of(a, k).len() == outputs_of(n, k).len()
        }),
    decreases targets.len(),
{
    if targets.len() > 0 {
        let front = targets.drop_last();
        lemma_same_displays(n, m, front, data, metadata, k);
        let a = displays_updated(n, front, data, metadata).0;
        let b = displays_updated(m, front, data, metadata).0;
        if targets.last().0 == k {
            let o = patched(outputs_of(a, k), targets.last().1, data, metadata);
            lemma_outputs_set(cell_of(a, k), o, "source"@);
            lemma_outputs_set(cell_of(b, k), o, "source"@);
        }
    }
}

/// What a cell shows after a run depends on the messages of that run alone: whatever two
/// notebooks showed for it before, they show the same once the kernel has started on it and
/// sent the same messages.
pub proof fn outputs_are_of_the_run(
    x: ExecV,
    n: NbV,
    m: NbV,
    parent: Seq<char>,
    k: Name,
    contents: Seq<ContentV>,
    now: u64,
)
    requires
        answered(x, Some(parent)) == Some(k),
        cell_at(n.doc, k) is Some,
        cell_at(m.doc, k) is Some,
        cell_of(n, k).runtime.state == ExecState::Queued,
        cell_of(m, k).runtime.state == ExecState::Queued,
        forall|i: int|
            0 <= i < contents.len() ==> !((#[trigger] contents[i]) is Status) && !(
            contents[i] is ExecuteReply),
    ensures
        ({
            let busy = ContentV::Status(ExecutionState::Busy);
            let a = handled(x, n, Some(parent), busy, now);
            let b = handled(x, m, Some(parent), busy, now);
            let c = all_handled(a.0, a.1, parent, contents, now);
            let d = all_handled(b.0, b.1, parent, contents, now);
            &&& c.0 == d.0
            &&& cell_at(c.1.doc, k) is Some
            &&& cell_at(d.1.doc, k) is Some
            &&& outputs_of(c.1, k) == outputs_of(d.1, k)
            &&& answered(c.0, Some(parent)) == Some(k)
        }),
    decreases contents.len(),
{
    let busy = ContentV::Status(ExecutionState::Busy);
    let a = handled(x, n, Some(parent), busy, now);
    let b = handled(x, m, Some(parent), busy, now);
    if contents.len() == 0 {
        lemma_clean(x, n, parent, k, now);
        lemma_clean(x, m, parent, k, now);
        assert(outputs_of(a.1, k) =~= outputs_of(b.1, k));
    } else {
        let front = contents.drop_last();
        assert forall|i: int| 0 <= i < front.len() implies !((#[trigger] front[i]) is Status) && !(
        front[i] is ExecuteReply) by {
            assert(front[i] == contents[i]);
        }
        outputs_are_of_the_run(x, n, m, parent, k, front, now);
        let c = all_handled(a.0, a.1, parent, front, now);
        let d = all_handled(b.0, b.1, parent, front, now);
        let last = contents[contents.len() - 1];
        lemma_same_outputs(c.0, c.1, d.1, parent, k, last, now);
        assert(!(last is ExecuteReply));
    }
}

proof fn lemma_clean(x: ExecV, n: NbV, parent: Seq<char>, k: Name, now: u64)
    requires
        answered(x, Some(parent)) == Some(k),
        cell_at(n.doc, k) is Some,
        cell_of(n, k).runtime.state == ExecState::Queued,
    ensures
        ({
            let r = handled(x, n, Some(parent), ContentV::Status(ExecutionState::Busy), now);
            &&& outputs_of(r.1, k).len() == 0
            &&& cell_at(r.1.doc, k) is Some
            &&& answered(r.0, Some(parent)) == Some(k)
        }),
{
    reveal_strlit("outputs");
    reveal_strlit("execution_count");
    assert(Seq::<char>::empty().len() == 0);
    assert(k.push('x').len() != k.len());
    run_starts_clean(x, n, parent, k, now, Seq::empty(), k.push('x'));
}

/// New data for a display replaces the data of the output that was shown under its id.
pub proof fn display_is_updated(
    x: ExecV,
    n: NbV,
    parent: Seq<char>,
    k: Name,
    data: JsonV,
    metadata: Entries,
    id: Seq<char>,
    newer: JsonV,
    described: Entries,
    now: u64,
)
    requires
        answered(x, Some(parent)) == Some(k),
        cell_at(n.doc, k) is Some,
        forall|i: int| 0 <= i < x.displays.len() ==> (#[trigger] x.displays[i]).1 != k,
    ensures
        ({
            let a = handled(
                x,
                n,
                Some(parent),
                ContentV::DisplayData { data, metadata, display_id: Some(id) },
                now,
            );
            let b = handled(
                a.0,
                a.1,
                Some(parent),
                ContentV::UpdateDisplayData {
                    data: newer,
                    metadata: described,
                    display_id: Some(id),
                },
                now,
            );
            let out = outputs_of(b.1, k);
            &&& out.len() == outputs_of(a.1, k).len()
            &&& out.drop_last() == outputs_of(a.1, k).drop_last()
            &&& v_str(field_of(out.last(), "output_type"@)) == Some("display_data"@)
            &&& field_of(out.last(), "data"@) == Some(media(newer))
            &&& field_of(out.last(), "metadata"@) == Some(JsonV::Object(described))
            &&& b.2.contains(EventV::Cell(k))
        }),
{
    lemma_output_names();
    display_is_added(x, n, parent, k, data, metadata, Some(id), now);
    let a = handled(
        x,
        n,
        Some(parent),
        ContentV::DisplayData { data, metadata, display_id: Some(id) },
        now,
    );
    let was = outputs_of(a.1, k);
    let at = was.len() - 1;
    lemma_settled(x, n, k);
    let left = settled(x, n, k).0.displays;
    assert forall|i: int| 0 <= i < left.len() implies (#[trigger] left[i]).1 != k by {
        if x.clear_pending.contains(k) {
            lemma_displays_but(x.displays, k);
        }
    }
    assert(a.0.displays == left.push((id, k, at)));
    lemma_displays_others(left, id, k);
    let front = displays_of(left, id);
    let all = displays_of(a.0.displays, id);
    assert(a.0.displays.drop_last() =~= left);
    assert(all == front.push((k, at)));
    assert(all.drop_last() =~= front);
    lemma_displays_elsewhere(a.1, front, newer, described, k);
    let f = displays_updated(a.1, front, newer, described);
    let o = was.last()->Object_0;
    lemma_obj_insert(o, "data"@, media(newer), "output_type"@);
    let p = obj_insert(o, "data"@, media(newer));
    lemma_obj_insert(p, "metadata"@, JsonV::Object(described), "data"@);
    lemma_obj_insert(p, "metadata"@, JsonV::Object(described), "output_type"@);
    let next = patched(was, at, newer, described);
    assert(can_patch(was, at));
    lemma_outputs_set(cell_of(f.0, k), next, "source"@);
    assert(next.drop_last() =~= was.drop_last());
    let b = displays_updated(a.1, all, newer, described);
    assert(b.1[b.1.len() - 1] == EventV::Cell(k));
}

proof fn lemma_displays_but(s: Seq<(Seq<char>, Name, int)>, k: Name)
    ensures
        forall|i: int| 0 <= i < displays_but(s, k).len() ==> (#[trigger] displays_but(s, k)[i]).1 != k,
    decreases s.len(),
{
    if s.len() > 0 {
        lemma_displays_but(s.drop_last(), k);
        let front = displays_but(s.drop_last(), k);
        assert forall|i: int| 0 <= i < displays_but(s, k).len() implies (#[trigger] displays_but(
            s,
            k,
        )[i]).1 != k by {
            if i < front.len() {
                assert(displays_but(s, k)[i] == front[i]);
            }
        }
    }
}

proof fn lemma_displays_others(s: Seq<(Seq<char>, Name, int)>, id: Seq<char>, k: Name)
    requires
        forall|i: int| 0 <= i < s.len() ==> (#[trigger] s[i]).1 != k,
    ensures
        forall|i: int| 0 <= i < displays_of(s, id).len() ==> (#[trigger] displays_of(s, id)[i]).0 != k,
    decreases s.len(),
{
    if s.len() > 0 {
        let front = s.drop_last();
        assert forall|i: int| 0 <= i < front.len() implies (#[trigger] front[i]).1 != k by {
            assert(front[i] == s[i]);
        }
        lemma_displays_others(front, id, k);
        let d = displays_of(front, id);
        assert(s[s.len() - 1].1 != k);
        assert forall|i: int| 0 <= i < displays_of(s, id).len() implies (#[trigger] displays_of(
            s,
            id,
        )[i]).0 != k by {
            if i < d.len() {
                assert(displays_of(s, id)[i] == d[i]);
            }
        }
    }
}

proof fn lemma_displays_elsewhere(
    n: NbV,
    targets: Seq<(Name, int)>,
    data: JsonV,
    metadata: Entries,
    k: Name,
)
    requires
        forall|i: int| 0 <= i < targets.len() ==> (#[trigger] targets[i]).0 != k,
    ensures
        cell_at(displays_updated(n, targets, data, metadata).0.doc, k) == cell_at(n.doc, k),
    decreases targets.len(),
{
    if targets.len() > 0 {
        let front = targets.drop_last();
        assert forall|i: int| 0 <= i < front.len() implies (#[trigger] front[i]).0 != k by {
            assert(front[i] == targets[i]);
        }
        lemma_displays_elsewhere(n, front, data, metadata, k);
        assert(targets[targets.len() - 1].0 != k);
    }
}

} // verus!
