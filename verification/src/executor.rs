//! The Jupyter-level execution state machine. Transport-free: it consumes messages and applies
//! them to the notebook against the owning cell.

use crate::adapter::CellKind;
use crate::document::{
    lemma_lines_wf, multiline, multiline_list, multiline_text, opt_text, raw_kind, raw_outputs,
    raw_source, split_keep_newlines, Cell, CellV, ExecState, RuntimeV,
};
use crate::history::{cell_at, DocV, Name};
use crate::json::{
    json_views, json_wf, lemma_obj_insert, lemma_wf_insert, lemma_wf_items, lemma_wf_remove,
    number_from, number_of, obj_get, obj_has, obj_insert, v_str, v_u64, Entries, Json, JsonV, Object,
};
use crate::key::{find_key, keys, CellKey};
use crate::notebook::{lemma_same_cell, with_cell, Notebook};
use crate::save::{all_sound, sound};
use crate::session::{steps, StepV};
use crate::text::{
    append_chars, chars_of, concat, has_prefix, rest, split_keep, starts_with, str_eq, string_of,
    substr, texts,
};
use vstd::prelude::*;

verus! {

/// What the kernel is doing, from the frontend's point of view.
#[derive(Clone, Copy, Debug, PartialEq, Eq, Structural)]
pub enum KernelStatus {
    Starting,
    Idle,
    Busy,
    Restarting,
    Dead,
}

impl Default for KernelStatus {
    fn default() -> (r: Self)
        ensures
            r == KernelStatus::Starting,
    {
        KernelStatus::Starting
    }
}

/// What a kernel says it is doing.
#[derive(Clone, Copy, Debug, PartialEq, Eq, Structural)]
pub enum ExecutionState {
    Busy,
    Idle,
    Starting,
    Restarting,
    AutoRestarting,
    Terminating,
    Dead,
    /// Anything else that a kernel may say.
    Other,
}

/// How an execution ended.
#[derive(Clone, Copy, Debug, PartialEq, Eq, Structural)]
pub enum ReplyStatus {
    Done,
    Error,
    Aborted,
}

/// A stream that a kernel writes to.
#[derive(Clone, Copy, Debug, PartialEq, Eq, Structural)]
pub enum Stdio {
    Stdout,
    Stderr,
}

/// What a message from a kernel says.
#[derive(Debug)]
pub enum Content {
    Status(ExecutionState),
    ExecuteInput { count: u64 },
    Stream { name: Stdio, text: String },
    DisplayData { data: Json, metadata: Object, display_id: Option<String> },
    ExecuteResult { data: Json, count: u64, metadata: Object, display_id: Option<String> },
    ErrorOutput { ename: String, evalue: String, traceback: Vec<String> },
    ClearOutput { wait: bool },
    UpdateDisplayData { data: Json, metadata: Object, display_id: Option<String> },
    ExecuteReply { status: ReplyStatus, count: u64 },
    InputRequest { prompt: String, password: bool },
    /// A message that changes nothing here.
    Other,
}

/// A message from a kernel, with the id of the request that it answers.
#[derive(Debug)]
pub struct KernelMessage {
    pub parent: Option<String>,
    pub content: Content,
}

/// What a [`Content`] holds.
pub enum ContentV {
    Status(ExecutionState),
    ExecuteInput { count: u64 },
    Stream { name: Stdio, text: Seq<char> },
    DisplayData { data: JsonV, metadata: Entries, display_id: Option<Seq<char>> },
    ExecuteResult { data: JsonV, count: u64, metadata: Entries, display_id: Option<Seq<char>> },
    ErrorOutput { ename: Seq<char>, evalue: Seq<char>, traceback: Seq<Seq<char>> },
    ClearOutput { wait: bool },
    UpdateDisplayData { data: JsonV, metadata: Entries, display_id: Option<Seq<char>> },
    ExecuteReply { status: ReplyStatus, count: u64 },
    InputRequest { prompt: Seq<char>, password: bool },
    Other,
}

impl View for Content {
    type V = ContentV;

    open spec fn view(&self) -> ContentV {
        match *self {
            Content::Status(s) => ContentV::Status(s),
            Content::ExecuteInput { count } => ContentV::ExecuteInput { count },
            Content::Stream { name, text } => ContentV::Stream { name, text: text@ },
            Content::DisplayData { data, metadata, display_id } => ContentV::DisplayData {
                data: data@,
                metadata: metadata@,
                display_id: opt_text(display_id),
            },
            Content::ExecuteResult { data, count, metadata, display_id } =>
            ContentV::ExecuteResult {
                data: data@,
                count,
                metadata: metadata@,
                display_id: opt_text(display_id),
            },
            Content::ErrorOutput { ename, evalue, traceback } => ContentV::ErrorOutput {
                ename: ename@,
                evalue: evalue@,
                traceback: texts(traceback@),
            },
            Content::ClearOutput { wait } => ContentV::ClearOutput { wait },
            Content::UpdateDisplayData { data, metadata, display_id } =>
            ContentV::UpdateDisplayData {
                data: data@,
                metadata: metadata@,
                display_id: opt_text(display_id),
            },
            Content::ExecuteReply { status, count } => ContentV::ExecuteReply { status, count },
            Content::InputRequest { prompt, password } => ContentV::InputRequest {
                prompt: prompt@,
                password,
            },
            Content::Other => ContentV::Other,
        }
    }
}

/// Something the frontend should react to.
#[derive(Debug, PartialEq, Eq)]
pub enum ExecEvent {
    /// A cell's outputs, execution count or state changed.
    Cell(CellKey),
    Status(KernelStatus),
    /// The kernel asked for input on behalf of a cell (`input()`).
    InputRequested { key: Option<CellKey>, prompt: String, password: bool },
}

/// What an [`ExecEvent`] says.
pub enum EventV {
    Cell(Name),
    Status(KernelStatus),
    InputRequested { key: Option<Name>, prompt: Seq<char>, password: bool },
}

pub open spec fn opt_key(k: Option<CellKey>) -> Option<Name> {
    match k {
        Some(k) => Some(k@),
        None => None,
    }
}

impl View for ExecEvent {
    type V = EventV;

    open spec fn view(&self) -> EventV {
        match *self {
            ExecEvent::Cell(k) => EventV::Cell(k@),
            ExecEvent::Status(s) => EventV::Status(s),
            ExecEvent::InputRequested { key, prompt, password } => EventV::InputRequested {
                key: opt_key(key),
                prompt: prompt@,
                password,
            },
        }
    }
}

pub open spec fn events_view(v: Seq<ExecEvent>) -> Seq<EventV> {
    Seq::new(v.len(), |i: int| v[i]@)
}

/// Executions under way.
#[derive(Debug)]
pub struct Executor {
    /// The cell of each request under way, by the request's id.
    pub requests: Vec<(String, CellKey)>,
    /// When each running cell started, in nanoseconds.
    pub started: Vec<(CellKey, u64)>,
    /// Cells whose outputs clear on the next output (`clear_output(wait=True)`).
    pub clear_pending: Vec<CellKey>,
    /// Outputs that carry a display id: the id, the cell, and the output's position.
    pub displays: Vec<(String, CellKey, usize)>,
    pub status: KernelStatus,
}

/// What an [`Executor`] holds.
pub struct ExecV {
    pub requests: Seq<(Seq<char>, Name)>,
    pub started: Seq<(Name, u64)>,
    pub clear_pending: Set<Name>,
    pub displays: Seq<(Seq<char>, Name, int)>,
    pub status: KernelStatus,
}

impl View for Executor {
    type V = ExecV;

    open spec fn view(&self) -> ExecV {
        ExecV {
            requests: Seq::new(
                self.requests@.len(),
                |i: int| (self.requests@[i].0@, self.requests@[i].1@),
            ),
            started: Seq::new(
                self.started@.len(),
                |i: int| (self.started@[i].0@, self.started@[i].1),
            ),
            clear_pending: keys(self.clear_pending@).to_set(),
            displays: Seq::new(
                self.displays@.len(),
                |i: int|
                    (self.displays@[i].0@, self.displays@[i].1@, self.displays@[i].2 as int),
            ),
            status: self.status,
        }
    }
}

pub open spec fn exec_start() -> ExecV {
    ExecV {
        requests: Seq::empty(),
        started: Seq::empty(),
        clear_pending: Set::empty(),
        displays: Seq::empty(),
        status: KernelStatus::Starting,
    }
}

impl Default for Executor {
    fn default() -> (r: Self)
        ensures
            r@ == exec_start(),
    {
        let r = Executor {
            requests: Vec::new(),
            started: Vec::new(),
            clear_pending: Vec::new(),
            displays: Vec::new(),
            status: KernelStatus::Starting,
        };
        assert(r@.requests =~= Seq::empty());
        assert(r@.started =~= Seq::empty());
        assert(r@.clear_pending =~= Set::empty());
        assert(r@.displays =~= Seq::empty());
        r
    }
}

/// Where `k` names an entry of `s`, or the length of `s`.
pub open spec fn named_at<V>(s: Seq<(Name, V)>, k: Name) -> int
    decreases s.len(),
{
    if s.len() == 0 || s[0].0 == k {
        0
    } else {
        named_at(s.skip(1), k) + 1
    }
}

pub open spec fn named<V>(s: Seq<(Name, V)>, k: Name) -> Option<V> {
    if named_at(s, k) < s.len() {
        Some(s[named_at(s, k)].1)
    } else {
        None
    }
}

/// Sets the entry named `k`, or adds it at the end.
pub open spec fn with_named<V>(s: Seq<(Name, V)>, k: Name, v: V) -> Seq<(Name, V)> {
    if named_at(s, k) < s.len() {
        s.update(named_at(s, k), (k, v))
    } else {
        s.push((k, v))
    }
}

pub open spec fn without_named<V>(s: Seq<(Name, V)>, k: Name) -> Seq<(Name, V)> {
    if named_at(s, k) < s.len() {
        s.remove(named_at(s, k))
    } else {
        s
    }
}

proof fn lemma_named_at<V>(s: Seq<(Name, V)>, k: Name, i: int)
    requires
        0 <= i <= s.len(),
        forall|j: int| 0 <= j < i ==> (#[trigger] s[j]).0 != k,
        i < s.len() ==> s[i].0 == k,
    ensures
        named_at(s, k) == i,
    decreases i,
{
    if i > 0 {
        assert(s[0].0 != k);
        assert forall|j: int| 0 <= j < i - 1 implies (#[trigger] s.skip(1)[j]).0 != k by {
            assert(s[j + 1].0 != k);
        }
        lemma_named_at(s.skip(1), k, i - 1);
    }
}

/// A notebook as execution changes it.
pub struct NbV {
    pub doc: DocV,
    pub mutated: bool,
}

pub open spec fn nb_view(nb: &Notebook) -> NbV {
    NbV { doc: nb.doc(), mutated: nb.mutated }
}

/// Everything of a notebook that execution leaves as it is.
pub open spec fn nb_rest(a: &Notebook, b: &Notebook) -> bool {
    a.same_file(b) && a.undo@ == b.undo@ && a.redo@ == b.redo@
}

/// A change to one cell, if the notebook has it. The notebook counts as changed either way.
pub open spec fn touched(n: NbV, k: Name, f: spec_fn(CellV) -> CellV) -> NbV {
    NbV {
        doc: match cell_at(n.doc, k) {
            Some(c) => with_cell(n.doc, k, f(c)),
            None => n.doc,
        },
        mutated: true,
    }
}

/// A change to one cell's runtime, which does not count as a change of the notebook.
pub open spec fn retimed(n: NbV, k: Name, f: spec_fn(RuntimeV) -> RuntimeV) -> NbV {
    NbV {
        doc: match cell_at(n.doc, k) {
            Some(c) => with_cell(n.doc, k, CellV { runtime: f(c.runtime), ..c }),
            None => n.doc,
        },
        mutated: n.mutated,
    }
}

pub open spec fn with_outputs(c: CellV, outputs: Seq<JsonV>) -> CellV {
    CellV { raw: obj_insert(c.raw, "outputs"@, JsonV::Array(outputs)), ..c }
}

pub open spec fn with_count(c: CellV, v: JsonV) -> CellV {
    CellV { raw: obj_insert(c.raw, "execution_count"@, v), ..c }
}

/// A line without the carriage returns it ends with.
pub open spec fn without_cr(s: Seq<char>) -> Seq<char>
    decreases s.len(),
{
    if s.len() > 0 && s.last() == '\r' {
        without_cr(s.drop_last())
    } else {
        s
    }
}

/// What follows the last carriage return.
pub open spec fn after_cr(s: Seq<char>) -> Seq<char>
    decreases s.len(),
{
    if s.len() == 0 || s.last() == '\r' {
        Seq::empty()
    } else {
        after_cr(s.drop_last()).push(s.last())
    }
}

/// One line with its carriage returns applied. A trailing one keeps its text visible until
/// something overwrites it.
pub open spec fn collapsed_line(line: Seq<char>) -> Seq<char> {
    let ended = line.len() > 0 && line.last() == '\n';
    let body = if ended {
        line.drop_last()
    } else {
        line
    };
    let kept = without_cr(body);
    let text = after_cr(kept) + body.skip(kept.len() as int);
    if ended {
        text.push('\n')
    } else {
        text
    }
}

/// Carriage returns applied within each line.
pub open spec fn collapsed(s: Seq<char>) -> Seq<char> {
    concat(split_keep(s).map_values(|l: Seq<char>| collapsed_line(l)))
}

/// Whether a media type is written as a list of lines.
pub open spec fn splits(mime: Seq<char>) -> bool {
    starts_with(mime, "text/"@) || mime == "application/javascript"@ || mime == "image/svg+xml"@
}

/// A media bundle in nbformat form: text types split into lines, all else as it is.
pub open spec fn media(v: JsonV) -> JsonV {
    JsonV::Object(
        match v {
            JsonV::Object(bundle) => Seq::new(
                bundle.len(),
                |i: int|
                    (
                        bundle[i].0,
                        match bundle[i].1 {
                            JsonV::String(s) => if splits(bundle[i].0) {
                                multiline_list(s)
                            } else {
                                JsonV::String(s)
                            },
                            v => v,
                        },
                    ),
            ),
            _ => Seq::empty(),
        },
    )
}

pub open spec fn stream_name(s: Stdio) -> Seq<char> {
    match s {
        Stdio::Stdout => "stdout"@,
        Stdio::Stderr => "stderr"@,
    }
}

/// A stream's output.
pub open spec fn stream_json(name: Seq<char>, text: Seq<char>) -> JsonV {
    JsonV::Object(
        seq![
            ("name"@, JsonV::String(name)),
            ("output_type"@, JsonV::String("stream"@)),
            ("text"@, multiline_list(collapsed(text))),
        ],
    )
}

/// Whether an output is of the stream.
pub open spec fn is_stream(v: JsonV, name: Seq<char>) -> bool {
    match v {
        JsonV::Object(o) => v_str(obj_get(o, "output_type"@)) == Some("stream"@) && v_str(
            obj_get(o, "name"@),
        ) == Some(name),
        _ => false,
    }
}

/// Outputs with more of a stream: consecutive output of one stream merges into one output.
pub open spec fn streamed(outputs: Seq<JsonV>, name: Seq<char>, text: Seq<char>) -> Seq<JsonV> {
    if outputs.len() > 0 && is_stream(outputs.last(), name) {
        let o = outputs.last()->Object_0;
        let whole = multiline_text(obj_get(o, "text"@)) + text;
        outputs.drop_last().push(
            JsonV::Object(obj_insert(o, "text"@, multiline_list(collapsed(whole)))),
        )
    } else {
        outputs.push(stream_json(name, text))
    }
}

pub open spec fn display_json(data: JsonV, metadata: Entries) -> JsonV {
    JsonV::Object(
        seq![
            ("data"@, media(data)),
            ("metadata"@, JsonV::Object(metadata)),
            ("output_type"@, JsonV::String("display_data"@)),
        ],
    )
}

pub open spec fn result_json(data: JsonV, count: u64, metadata: Entries) -> JsonV {
    JsonV::Object(
        seq![
            ("data"@, media(data)),
            ("execution_count"@, JsonV::Number(number_from(count))),
            ("metadata"@, JsonV::Object(metadata)),
            ("output_type"@, JsonV::String("execute_result"@)),
        ],
    )
}

pub open spec fn strings(s: Seq<Seq<char>>) -> JsonV {
    JsonV::Array(s.map_values(|l: Seq<char>| JsonV::String(l)))
}

pub open spec fn error_json(
    ename: Seq<char>,
    evalue: Seq<char>,
    traceback: Seq<Seq<char>>,
) -> JsonV {
    JsonV::Object(
        seq![
            ("ename"@, JsonV::String(ename)),
            ("evalue"@, JsonV::String(evalue)),
            ("output_type"@, JsonV::String("error"@)),
            ("traceback"@, strings(traceback)),
        ],
    )
}

/// The displays of other cells than `k`.
pub open spec fn displays_but(s: Seq<(Seq<char>, Name, int)>, k: Name) -> Seq<
    (Seq<char>, Name, int),
>
    decreases s.len(),
{
    if s.len() == 0 {
        s
    } else {
        let front = displays_but(s.drop_last(), k);
        if s.last().1 == k {
            front
        } else {
            front.push(s.last())
        }
    }
}

/// The outputs that carry a display id.
pub open spec fn displays_of(s: Seq<(Seq<char>, Name, int)>, id: Seq<char>) -> Seq<(Name, int)>
    decreases s.len(),
{
    if s.len() == 0 {
        Seq::empty()
    } else {
        let front = displays_of(s.drop_last(), id);
        if s.last().0 == id {
            front.push((s.last().1, s.last().2))
        } else {
            front
        }
    }
}

pub open spec fn forgotten(x: ExecV, k: Name) -> ExecV {
    ExecV { displays: displays_but(x.displays, k), ..x }
}

/// A cell's outputs are cleared.
pub open spec fn cleared(x: ExecV, n: NbV, k: Name) -> (ExecV, NbV) {
    (
        forgotten(ExecV { clear_pending: x.clear_pending.remove(k), ..x }, k),
        touched(n, k, |c: CellV| with_outputs(c, Seq::empty())),
    )
}

/// A clearing that waits for an output happens.
pub open spec fn settled(x: ExecV, n: NbV, k: Name) -> (ExecV, NbV) {
    if x.clear_pending.contains(k) {
        cleared(x, n, k)
    } else {
        (x, n)
    }
}

/// A cell has one more output.
pub open spec fn output_added(
    x: ExecV,
    n: NbV,
    k: Name,
    output: JsonV,
    display_id: Option<Seq<char>>,
) -> (ExecV, NbV) {
    let r = settled(x, n, k);
    let after = touched(
        r.1,
        k,
        |c: CellV| with_outputs(c, raw_outputs(c.raw).push(output)),
    );
    match (cell_at(r.1.doc, k), display_id) {
        (Some(c), Some(id)) => (
            ExecV {
                displays: r.0.displays.push((id, k, raw_outputs(c.raw).len() as int)),
                ..r.0
            },
            after,
        ),
        _ => (r.0, after),
    }
}

/// A cell has more of a stream.
pub open spec fn stream_added(x: ExecV, n: NbV, k: Name, name: Seq<char>, text: Seq<char>) -> (
    ExecV,
    NbV,
) {
    let r = settled(x, n, k);
    (
        r.0,
        touched(
            r.1,
            k,
            |c: CellV| with_outputs(c, streamed(raw_outputs(c.raw), name, text)),
        ),
    )
}

pub open spec fn status_of(s: ExecutionState, was: KernelStatus) -> KernelStatus {
    match s {
        ExecutionState::Busy => KernelStatus::Busy,
        ExecutionState::Idle => KernelStatus::Idle,
        ExecutionState::Starting => KernelStatus::Starting,
        ExecutionState::Restarting | ExecutionState::AutoRestarting => KernelStatus::Restarting,
        ExecutionState::Terminating | ExecutionState::Dead => KernelStatus::Dead,
        ExecutionState::Other => was,
    }
}

/// Whether a cell waits for its execution to start.
pub open spec fn is_queued(n: NbV, k: Name) -> bool {
    cell_at(n.doc, k) matches Some(c) && c.runtime.state == ExecState::Queued
}

/// A queued cell starts to run: what it showed is cleared, as Jupyter does.
pub open spec fn run_started(x: ExecV, n: NbV, k: Name, now: u64) -> (ExecV, NbV) {
    let running = retimed(n, k, |r: RuntimeV| RuntimeV { state: ExecState::Running, ..r });
    (
        forgotten(ExecV { started: with_named(x.started, k, now), ..x }, k),
        touched(
            running,
            k,
            |c: CellV| with_count(with_outputs(c, Seq::empty()), JsonV::Null),
        ),
    )
}

pub open spec fn status_handled(
    x: ExecV,
    n: NbV,
    key: Option<Name>,
    state: ExecutionState,
    now: u64,
) -> (ExecV, NbV, Seq<EventV>) {
    let status = status_of(state, x.status);
    let y = ExecV { status, ..x };
    let told = if status != x.status {
        seq![EventV::Status(status)]
    } else {
        Seq::empty()
    };
    match key {
        Some(k) => if status == KernelStatus::Busy && is_queued(n, k) {
            let r = run_started(y, n, k, now);
            (r.0, r.1, told.push(EventV::Cell(k)))
        } else {
            (y, n, told)
        },
        None => (y, n, told),
    }
}

/// Outputs with new data in the one at `i`, if it is there.
pub open spec fn patched(outputs: Seq<JsonV>, i: int, data: JsonV, metadata: Entries) -> Seq<JsonV> {
    if can_patch(outputs, i) {
        outputs.update(
            i,
            JsonV::Object(
                obj_insert(
                    obj_insert(outputs[i]->Object_0, "data"@, media(data)),
                    "metadata"@,
                    JsonV::Object(metadata),
                ),
            ),
        )
    } else {
        outputs
    }
}

pub open spec fn can_patch(outputs: Seq<JsonV>, i: int) -> bool {
    0 <= i < outputs.len() && outputs[i] is Object
}

/// New data for every output carrying an id, whichever cell produced it.
pub open spec fn displays_updated(
    n: NbV,
    targets: Seq<(Name, int)>,
    data: JsonV,
    metadata: Entries,
) -> (NbV, Seq<EventV>)
    decreases targets.len(),
{
    if targets.len() == 0 {
        (n, Seq::empty())
    } else {
        let front = displays_updated(n, targets.drop_last(), data, metadata);
        let k = targets.last().0;
        let i = targets.last().1;
        (
            touched(
                front.0,
                k,
                |c: CellV| with_outputs(c, patched(raw_outputs(c.raw), i, data, metadata)),
            ),
            match cell_at(front.0.doc, k) {
                Some(c) => if can_patch(raw_outputs(c.raw), i) {
                    front.1.push(EventV::Cell(k))
                } else {
                    front.1
                },
                None => front.1,
            },
        )
    }
}

pub open spec fn elapsed(started: Option<u64>, now: u64) -> Option<u64> {
    match started {
        Some(s) => Some(
            if now >= s {
                (now - s) as u64
            } else {
                0
            },
        ),
        None => None,
    }
}

/// A cell whose execution ended.
pub open spec fn ended(c: CellV, status: ReplyStatus, count: u64, duration: Option<u64>) -> CellV {
    let counted = if status != ReplyStatus::Aborted {
        with_count(c, JsonV::Number(number_from(count)))
    } else {
        c
    };
    CellV {
        runtime: RuntimeV {
            state: match status {
                ReplyStatus::Done => ExecState::Done,
                ReplyStatus::Error => ExecState::Error,
                ReplyStatus::Aborted => ExecState::Idle,
            },
            duration,
            ..c.runtime
        },
        ..counted
    }
}

pub open spec fn reply_handled(
    x: ExecV,
    n: NbV,
    parent: Option<Seq<char>>,
    status: ReplyStatus,
    count: u64,
    now: u64,
) -> (ExecV, NbV, Seq<EventV>) {
    match parent {
        Some(p) => match named(x.requests, p) {
            Some(k) => {
                let duration = elapsed(named(x.started, k), now);
                (
                    ExecV {
                        requests: without_named(x.requests, p),
                        started: without_named(x.started, k),
                        clear_pending: x.clear_pending.remove(k),
                        ..x
                    },
                    touched(n, k, |c: CellV| ended(c, status, count, duration)),
                    seq![EventV::Cell(k)],
                )
            },
            None => (x, n, Seq::empty()),
        },
        None => (x, n, Seq::empty()),
    }
}

/// The cell whose request a message answers.
pub open spec fn answered(x: ExecV, parent: Option<Seq<char>>) -> Option<Name> {
    match parent {
        Some(p) => named(x.requests, p),
        None => None,
    }
}

/// What a message does to the executions, to the notebook, and to the frontend.
pub open spec fn handled(x: ExecV, n: NbV, parent: Option<Seq<char>>, content: ContentV, now: u64) -> (
    ExecV,
    NbV,
    Seq<EventV>,
) {
    let key = answered(x, parent);
    match content {
        ContentV::Status(state) => status_handled(x, n, key, state, now),
        ContentV::UpdateDisplayData { data, metadata, display_id } => match display_id {
            Some(id) => {
                let r = displays_updated(n, displays_of(x.displays, id), data, metadata);
                (x, r.0, r.1)
            },
            None => (x, n, Seq::empty()),
        },
        ContentV::ExecuteReply { status, count } => reply_handled(
            x,
            n,
            parent,
            status,
            count,
            now,
        ),
        ContentV::InputRequest { prompt, password } => (
            x,
            n,
            seq![EventV::InputRequested { key, prompt, password }],
        ),
        ContentV::Other => (x, n, Seq::empty()),
        _ => match key {
            Some(k) => output_handled(x, n, k, content),
            None => (x, n, Seq::empty()),
        },
    }
}

/// What a message about a cell's outputs does.
pub open spec fn output_handled(x: ExecV, n: NbV, k: Name, content: ContentV) -> (
    ExecV,
    NbV,
    Seq<EventV>,
) {
    let told = seq![EventV::Cell(k)];
    match content {
        ContentV::ExecuteInput { count } => (
            x,
            touched(n, k, |c: CellV| with_count(c, JsonV::Number(number_from(count)))),
            if cell_at(n.doc, k) is Some {
                told
            } else {
                Seq::empty()
            },
        ),
        ContentV::Stream { name, text } => {
            let r = stream_added(x, n, k, stream_name(name), text);
            (r.0, r.1, told)
        },
        ContentV::DisplayData { data, metadata, display_id } => {
            let r = output_added(x, n, k, display_json(data, metadata), display_id);
            (r.0, r.1, told)
        },
        ContentV::ExecuteResult { data, count, metadata, display_id } => {
            let r = output_added(x, n, k, result_json(data, count, metadata), display_id);
            (r.0, r.1, told)
        },
        ContentV::ErrorOutput { ename, evalue, traceback } => {
            let r = output_added(x, n, k, error_json(ename, evalue, traceback), None);
            (r.0, r.1, told)
        },
        ContentV::ClearOutput { wait } => if wait {
            (ExecV { clear_pending: x.clear_pending.insert(k), ..x }, n, Seq::empty())
        } else {
            let r = cleared(x, n, k);
            (r.0, r.1, told)
        },
        _ => (x, n, Seq::empty()),
    }
}

/// Applies carriage returns within each line, so progress bars do not accumulate.
pub fn collapse_cr(s: &str) -> (r: String)
    ensures
        r@ == collapsed(s@),
{
    let lines = split_keep_newlines(s);
    let ghost f = |l: Seq<char>| collapsed_line(l);
    let ghost parts = split_keep(s@);
    let mut out: Vec<char> = Vec::new();
    let mut i: usize = 0;
    assert(parts.map_values(f).take(0) =~= Seq::empty());
    while i < lines.len()
        invariant
            i <= lines@.len(),
            parts == texts(lines@),
            f == (|l: Seq<char>| collapsed_line(l)),
            out@ == concat(parts.map_values(f).take(i as int)),
        decreases lines@.len() - i,
    {
        let ghost m = parts.map_values(f);
        assert(m.take(i + 1).drop_last() =~= m.take(i as int));
        assert(m.take(i + 1).last() == collapsed_line(lines@[i as int]@));
        append_chars(&mut out, &collapse_line(chars_of(lines[i].as_str())));
        i += 1;
    }
    assert(parts.map_values(f).take(i as int) =~= parts.map_values(f));
    string_of(&out)
}

fn collapse_line(line: Vec<char>) -> (r: Vec<char>)
    ensures
        r@ == collapsed_line(line@),
{
    let ended = line.len() > 0 && line[line.len() - 1] == '\n';
    let n = if ended {
        line.len() - 1
    } else {
        line.len()
    };
    let body = substr(&line, 0, n);
    assert(body@ =~= if ended {
        line@.drop_last()
    } else {
        line@
    });
    let mut kept: usize = n;
    assert(body@.take(n as int) =~= body@);
    while kept > 0 && body[kept - 1] == '\r'
        invariant
            kept <= body@.len(),
            without_cr(body@) == without_cr(body@.take(kept as int)),
        decreases kept,
    {
        assert(body@.take(kept as int).drop_last() =~= body@.take(kept - 1));
        kept -= 1;
    }
    assert(without_cr(body@) == body@.take(kept as int));
    let mut from: usize = kept;
    let ghost whole = body@.take(kept as int);
    assert(whole.take(kept as int) =~= whole);
    assert(body@.subrange(kept as int, kept as int) =~= Seq::empty());
    assert(after_cr(whole) =~= after_cr(whole.take(from as int)) + body@.subrange(
        from as int,
        kept as int,
    ));
    while from > 0 && body[from - 1] != '\r'
        invariant
            from <= kept <= body@.len(),
            whole == body@.take(kept as int),
            after_cr(whole) == after_cr(whole.take(from as int)) + body@.subrange(
                from as int,
                kept as int,
            ),
        decreases from,
    {
        let ghost t = whole.take(from as int);
        assert(t.drop_last() =~= whole.take(from - 1));
        assert(after_cr(whole) =~= after_cr(whole.take(from - 1)) + body@.subrange(
            from - 1,
            kept as int,
        ));
        from -= 1;
    }
    assert(after_cr(whole.take(from as int)) =~= Seq::empty());
    let mut out = substr(&body, from, kept);
    append_chars(&mut out, &rest(&body, kept));
    assert(out@ =~= after_cr(whole) + body@.skip(kept as int));
    if ended {
        out.push('\n');
    }
    out
}

/// nbformat's multiline list form.
fn lines_json(s: &str) -> (r: Json)
    ensures
        r@ == multiline_list(s@),
{
    crate::document::list_form(s)
}

/// A MIME bundle in nbformat form: text types split into lines, JSON types as objects.
pub fn media_json(v: &Json) -> (r: Json)
    ensures
        r@ == media(v@),
{
    let mut out = Object::new();
    if let Json::Object(bundle) = v {
        assert(v@ == JsonV::Object(bundle@));
        let mut i: usize = 0;
        while i < bundle.entries.len()
            invariant
                i <= bundle.entries@.len(),
                v@ == JsonV::Object(bundle@),
                out.entries@.len() == i,
                forall|j: int|
                    0 <= j < i ==> out@[j] == media(JsonV::Object(bundle@))->Object_0[j],
            decreases bundle.entries@.len() - i,
        {
            let mime = chars_of(bundle.entries[i].0.as_str());
            let split = has_prefix(&mime, "text/") || str_eq(
                bundle.entries[i].0.as_str(),
                "application/javascript",
            ) || str_eq(bundle.entries[i].0.as_str(), "image/svg+xml");
            let value = match &bundle.entries[i].1 {
                Json::String(s) => if split {
                    lines_json(s.as_str())
                } else {
                    Json::String(s.clone())
                },
                other => other.clone(),
            };
            let ghost before = out@;
            assert(bundle@[i as int] == (bundle.entries@[i as int].0@, bundle.entries@[i as int].1@));
            let ghost vv = value@;
            out.entries.push((bundle.entries[i].0.clone(), value));
            assert(out@ =~= before.push((bundle@[i as int].0, vv)));
            i += 1;
        }
    }
    assert(out@ =~= media(v@)->Object_0);
    let r = Json::Object(out);
    assert(r@ == JsonV::Object(out@));
    r
}

/// `jupyter_protocol`'s message.
#[verifier::external_type_specification]
#[verifier::external_body]
pub struct ExJupyterMessage(jupyter_protocol::JupyterMessage);

/// The id of a message.
pub uninterp spec fn message_id(m: jupyter_protocol::JupyterMessage) -> Seq<char>;

/// What an execute request asks for.
pub struct Asked {
    pub code: Seq<char>,
    pub silent: bool,
    pub store_history: bool,
    pub allow_stdin: bool,
    pub stop_on_error: bool,
}

/// What a message asks the kernel to execute.
pub uninterp spec fn message_asks(m: jupyter_protocol::JupyterMessage) -> Asked;

/// Asks for a code to be run and recorded; it may ask for input, and an error stops what is
/// queued behind it.
pub open spec fn run_of(code: Seq<char>) -> Asked {
    Asked { code, silent: false, store_history: true, allow_stdin: true, stop_on_error: true }
}

/// `JupyterMessage::new` makes a message of an `ExecuteRequest`, under an id drawn at random.
/// The request has no user expressions, and the message no parent.
#[verifier::external_body]
fn execute_request(
    code: String,
    silent: bool,
    store_history: bool,
    allow_stdin: bool,
    stop_on_error: bool,
) -> (r: jupyter_protocol::JupyterMessage)
    ensures
        message_asks(r) == (Asked { code: code@, silent, store_history, allow_stdin, stop_on_error }),
{
    let request = jupyter_protocol::ExecuteRequest {
        code,
        silent,
        store_history,
        user_expressions: None,
        allow_stdin,
        stop_on_error,
    };
    jupyter_protocol::JupyterMessage::new(request, None)
}

/// The `msg_id` in the header of a `JupyterMessage`.
#[verifier::external_body]
fn id_of_message(m: &jupyter_protocol::JupyterMessage) -> (r: String)
    ensures
        r@ == message_id(*m),
{
    m.header.msg_id.clone()
}

/// A cell about to be executed: its source becomes the baseline that staleness is judged by.
pub open spec fn queued(c: CellV) -> CellV {
    CellV {
        runtime: RuntimeV {
            state: ExecState::Queued,
            baseline: raw_source(c.raw),
            error: None,
            ..c.runtime
        },
        ..c
    }
}

/// Whether a cell can be executed.
pub open spec fn runnable(d: DocV, k: Name) -> bool {
    d.live.dom().contains(k) && raw_kind(d.live[k].raw) == CellKind::Code
}

/// What recording a request does.
pub open spec fn requested(x: ExecV, n: NbV, k: Name, id: Seq<char>) -> (ExecV, NbV) {
    (
        ExecV { requests: with_named(x.requests, id, k), ..x },
        touched(n, k, |c: CellV| queued(c)),
    )
}

/// A cell whose outputs the user cleared.
pub open spec fn wiped(c: CellV) -> CellV {
    let bare = with_outputs(c, Seq::empty());
    let counted = if obj_has(bare.raw, "execution_count"@) {
        with_count(bare, JsonV::Null)
    } else {
        bare
    };
    CellV { runtime: RuntimeV { state: ExecState::Idle, duration: None, ..c.runtime }, ..counted }
}

/// Whether a cell shows nothing of an execution.
pub open spec fn is_bare(c: CellV) -> bool {
    raw_outputs(c.raw).len() == 0 && v_u64(obj_get(c.raw, "execution_count"@)) is None
}

/// The requests' cells are idle.
pub open spec fn all_idle(n: NbV, requests: Seq<(Seq<char>, Name)>) -> (NbV, Seq<EventV>)
    decreases requests.len(),
{
    if requests.len() == 0 {
        (n, Seq::empty())
    } else {
        let front = all_idle(n, requests.drop_last());
        let k = requests.last().1;
        (
            retimed(front.0, k, |r: RuntimeV| RuntimeV { state: ExecState::Idle, ..r }),
            front.1.push(EventV::Cell(k)),
        )
    }
}

/// A cell's execution failed for a reason outside the cell.
pub open spec fn failed(n: NbV, k: Name, reason: Seq<char>) -> NbV {
    retimed(
        n,
        k,
        |r: RuntimeV| RuntimeV { state: ExecState::Error, error: Some(reason), ..r },
    )
}

/// The requests' cells failed.
pub open spec fn all_failed(n: NbV, requests: Seq<(Seq<char>, Name)>, reason: Seq<char>) -> (
    NbV,
    Seq<EventV>,
)
    decreases requests.len(),
{
    if requests.len() == 0 {
        (n, Seq::empty())
    } else {
        let front = all_failed(n, requests.drop_last(), reason);
        let k = requests.last().1;
        (failed(front.0, k, reason), front.1.push(EventV::Cell(k)))
    }
}

/// The executions when nothing is under way.
pub open spec fn nothing_under_way(x: ExecV, status: KernelStatus) -> ExecV {
    ExecV {
        requests: Seq::empty(),
        started: Seq::empty(),
        clear_pending: Set::empty(),
        status,
        ..x
    }
}

fn object_json(o: Object) -> (r: Json)
    ensures
        r@ == JsonV::Object(o@),
{
    let r = Json::Object(o);
    assert(r@ == JsonV::Object(o@));
    r
}

fn add_entry(o: &mut Object, name: &str, v: Json)
    ensures
        final(o)@ == old(o)@.push((name@, v@)),
{
    let ghost before = o@;
    let ghost vv = v@;
    o.entries.push((name.to_string(), v));
    assert(o@ =~= before.push((name@, vv)));
}

fn stream_text(s: Stdio) -> (r: &'static str)
    ensures
        r@ == stream_name(s),
{
    match s {
        Stdio::Stdout => "stdout",
        Stdio::Stderr => "stderr",
    }
}

fn display_output(data: &Json, metadata: &Object) -> (r: Json)
    ensures
        r@ == display_json(data@, metadata@),
{
    let mut o = Object::new();
    add_entry(&mut o, "data", media_json(data));
    add_entry(&mut o, "metadata", object_json(metadata.clone()));
    add_entry(&mut o, "output_type", Json::String("display_data".to_string()));
    assert(o@ =~= display_json(data@, metadata@)->Object_0);
    object_json(o)
}

fn result_output(data: &Json, count: u64, metadata: &Object) -> (r: Json)
    ensures
        r@ == result_json(data@, count, metadata@),
{
    let mut o = Object::new();
    add_entry(&mut o, "data", media_json(data));
    add_entry(&mut o, "execution_count", Json::Number(number_of(count)));
    add_entry(&mut o, "metadata", object_json(metadata.clone()));
    add_entry(&mut o, "output_type", Json::String("execute_result".to_string()));
    assert(o@ =~= result_json(data@, count, metadata@)->Object_0);
    object_json(o)
}

fn error_output(ename: &str, evalue: &str, traceback: &Vec<String>) -> (r: Json)
    ensures
        r@ == error_json(ename@, evalue@, texts(traceback@)),
{
    let mut lines: Vec<Json> = Vec::new();
    let mut i: usize = 0;
    while i < traceback.len()
        invariant
            i <= traceback@.len(),
            lines@.len() == i,
            forall|j: int| 0 <= j < i ==> (#[trigger] lines@[j])@ == JsonV::String(traceback@[j]@),
        decreases traceback@.len() - i,
    {
        lines.push(Json::String(traceback[i].clone()));
        i += 1;
    }
    let list = Json::Array(lines);
    proof {
        let want = strings(texts(traceback@))->Array_0;
        assert forall|j: int| 0 <= j < want.len() implies list@->Array_0[j] == want[j] by {
            assert(lines@[j]@ == JsonV::String(traceback@[j]@));
        }
        assert(list@->Array_0 =~= want);
    }
    let mut o = Object::new();
    add_entry(&mut o, "ename", Json::String(ename.to_string()));
    add_entry(&mut o, "evalue", Json::String(evalue.to_string()));
    add_entry(&mut o, "output_type", Json::String("error".to_string()));
    add_entry(&mut o, "traceback", list);
    assert(o@ =~= error_json(ename@, evalue@, texts(traceback@))->Object_0);
    object_json(o)
}

/// Adds to the outputs of one cell.
fn push_stream_output(outputs: &mut Vec<Json>, name: &str, text: &str)
    ensures
        json_views(final(outputs)@) == streamed(json_views(old(outputs)@), name@, text@),
{
    let ghost before = json_views(outputs@);
    if outputs.len() > 0 {
        let last = outputs.len() - 1;
        assert(before.last() == outputs@[last as int]@);
        let merged = match &outputs[last] {
            Json::Object(o) => {
                assert(outputs@[last as int]@ == JsonV::Object(o@));
                let stream = match o.get("output_type") {
                    Some(v) => match v.as_str() {
                        Some(t) => str_eq(t, "stream"),
                        None => false,
                    },
                    None => false,
                };
                let same = match o.get("name") {
                    Some(v) => match v.as_str() {
                        Some(t) => str_eq(t, name),
                        None => false,
                    },
                    None => false,
                };
                if stream && same {
                    let mut whole = chars_of(multiline(o.get("text")).as_str());
                    append_chars(&mut whole, &chars_of(text));
                    let shown = collapse_cr(string_of(&whole).as_str());
                    let mut next = o.clone();
                    next.insert("text", lines_json(shown.as_str()));
                    Some(object_json(next))
                } else {
                    None
                }
            },
            _ => None,
        };
        if let Some(m) = merged {
            let ghost mv = m@;
            outputs.set(last, m);
            assert(json_views(outputs@) =~= before.drop_last().push(mv));
            return;
        }
    }
    let mut o = Object::new();
    add_entry(&mut o, "name", Json::String(name.to_string()));
    add_entry(&mut o, "output_type", Json::String("stream".to_string()));
    add_entry(&mut o, "text", lines_json(collapse_cr(text).as_str()));
    assert(o@ =~= stream_json(name@, text@)->Object_0);
    let out = object_json(o);
    let ghost ov = out@;
    outputs.push(out);
    assert(json_views(outputs@) =~= before.push(ov));
}

impl Executor {
    pub fn status(&self) -> (r: KernelStatus)
        ensures
            r == self.status,
    {
        self.status
    }

    fn request_at(&self, id: &str) -> (r: usize)
        ensures
            r == named_at(self@.requests, id@),
            r <= self.requests@.len(),
    {
        let mut i: usize = 0;
        while i < self.requests.len()
            invariant
                i <= self.requests@.len(),
                forall|j: int| 0 <= j < i ==> (#[trigger] self@.requests[j]).0 != id@,
            decreases self.requests@.len() - i,
        {
            assert(self@.requests[i as int].0 == self.requests@[i as int].0@);
            if str_eq(self.requests[i].0.as_str(), id) {
                proof {
                    lemma_named_at(self@.requests, id@, i as int);
                }
                return i;
            }
            i += 1;
        }
        proof {
            lemma_named_at(self@.requests, id@, i as int);
        }
        i
    }

    fn started_at(&self, key: &CellKey) -> (r: usize)
        ensures
            r == named_at(self@.started, key@),
            r <= self.started@.len(),
    {
        let mut i: usize = 0;
        while i < self.started.len()
            invariant
                i <= self.started@.len(),
                forall|j: int| 0 <= j < i ==> (#[trigger] self@.started[j]).0 != key@,
            decreases self.started@.len() - i,
        {
            assert(self@.started[i as int].0 == self.started@[i as int].0@);
            if self.started[i].0.same(key) {
                proof {
                    lemma_named_at(self@.started, key@, i as int);
                }
                return i;
            }
            i += 1;
        }
        proof {
            lemma_named_at(self@.started, key@, i as int);
        }
        i
    }

    /// Records the request with `id` for `key`. `None` if the cell is not a live code cell; else
    /// the code to execute. It becomes the cell's staleness baseline.
    pub fn request_as(&mut self, nb: &mut Notebook, key: &CellKey, id: &str) -> (r: Option<String>)
        requires
            old(nb).wf(),
        ensures
            final(nb).wf(),
            nb_rest(final(nb), old(nb)),
            if runnable(old(nb).doc(), key@) {
                &&& r matches Some(code) && code@ == raw_source(old(nb).doc().live[key@].raw)
                &&& (final(self)@, nb_view(final(nb))) == requested(
                    old(self)@,
                    nb_view(old(nb)),
                    key@,
                    id@,
                )
            } else {
                r is None && final(self)@ == old(self)@ && nb_view(final(nb)) == nb_view(old(nb))
            },
            steps(old(nb), StepV::Request { runs: old(self)@, key: key@, id: id@ }, final(nb)),
    {
        proof {
            reveal(steps);
        }
        let code = match runnable_code(nb, key) {
            Some(code) => code,
            None => {
                return None;
            },
        };
        if let Some(cell) = nb.cell_mut(key) {
            cell.runtime.baseline = code.clone();
            cell.runtime.state = ExecState::Queued;
            cell.runtime.error = None;
        }
        let i = self.request_at(id);
        let ghost before = self@;
        if i < self.requests.len() {
            self.requests.set(i, (id.to_string(), key.clone()));
        } else {
            self.requests.push((id.to_string(), key.clone()));
        }
        assert(self@.requests =~= with_named(before.requests, id@, key@));
        assert(self@.started =~= before.started);
        assert(self@.displays =~= before.displays);
        Some(code)
    }

    /// Builds the `execute_request` for `key` and records it. `None` if the cell is not a live
    /// code cell. The request's source becomes the cell's staleness baseline.
    pub fn request(&mut self, nb: &mut Notebook, key: &CellKey) -> (r: Option<
        jupyter_protocol::JupyterMessage,
    >)
        requires
            old(nb).wf(),
        ensures
            final(nb).wf(),
            nb_rest(final(nb), old(nb)),
            if runnable(old(nb).doc(), key@) {
                &&& r matches Some(m) && {
                    &&& message_asks(m) == run_of(raw_source(old(nb).doc().live[key@].raw))
                    &&& (final(self)@, nb_view(final(nb))) == requested(
                        old(self)@,
                        nb_view(old(nb)),
                        key@,
                        message_id(m),
                    )
                }
            } else {
                r is None && final(self)@ == old(self)@ && nb_view(final(nb)) == nb_view(old(nb))
            },
            exists|id: Seq<char>|
                #[trigger] steps(
                    old(nb),
                    StepV::Request { runs: old(self)@, key: key@, id },
                    final(nb),
                ),
    {
        match runnable_code(nb, key) {
            Some(code) => {
                let m = execute_request(code, false, true, true, true);
                let id = id_of_message(&m);
                let _ = self.request_as(nb, key, id.as_str());
                Some(m)
            },
            None => {
                proof {
                    reveal(steps);
                    assert(steps(
                        old(nb),
                        StepV::Request { runs: old(self)@, key: key@, id: Seq::empty() },
                        nb,
                    ));
                }
                None
            },
        }
    }

    /// Cells queued or running. They become idle when the kernel restarts or dies.
    pub fn in_flight(&self) -> (r: Vec<CellKey>)
        ensures
            keys(r@) == self@.requests.map_values(|e: (Seq<char>, Name)| e.1),
    {
        let mut out: Vec<CellKey> = Vec::new();
        let mut i: usize = 0;
        while i < self.requests.len()
            invariant
                i <= self.requests@.len(),
                out@.len() == i,
                forall|j: int| 0 <= j < i ==> (#[trigger] out@[j])@ == self.requests@[j].1@,
            decreases self.requests@.len() - i,
        {
            out.push(self.requests[i].1.clone());
            i += 1;
        }
        assert(keys(out@) =~= self@.requests.map_values(|e: (Seq<char>, Name)| e.1));
        out
    }

    /// Clears a cell's outputs at the user's request.
    pub fn clear_outputs(&mut self, nb: &mut Notebook, key: &CellKey)
        requires
            old(nb).wf(),
        ensures
            final(nb).wf(),
            nb_rest(final(nb), old(nb)),
            match cell_at(old(nb).doc(), key@) {
                Some(c) => if is_bare(c) {
                    final(self)@ == old(self)@ && nb_view(final(nb)) == (NbV {
                        mutated: true,
                        ..nb_view(old(nb))
                    })
                } else {
                    final(self)@ == forgotten(old(self)@, key@) && nb_view(final(nb)) == touched(
                        nb_view(old(nb)),
                        key@,
                        |c: CellV| wiped(c),
                    )
                },
                None => final(self)@ == forgotten(old(self)@, key@) && nb_view(final(nb)) == (NbV {
                    mutated: true,
                    ..nb_view(old(nb))
                }),
            },
            steps(old(nb), StepV::ClearOutputs { key: key@ }, final(nb)),
    {
        proof {
            reveal(steps);
        }
        let mut bare = false;
        proof {
            if cell_at(nb.doc(), key@) is Some {
                lemma_same_cell(nb.doc(), key@);
            }
        }
        if let Some(cell) = nb.cell_mut(key) {
            if cell.outputs().len() == 0 && cell.execution_count().is_none() {
                bare = true;
            } else {
                cell.drop_outputs();
                if cell.raw.contains_key("execution_count") {
                    cell.raw.insert("execution_count", Json::Null);
                }
                cell.runtime.state = ExecState::Idle;
                cell.runtime.duration = None;
            }
        }
        if bare {
            return;
        }
        self.forget_displays(key);
    }

    fn forget_displays(&mut self, key: &CellKey)
        ensures
            final(self)@ == forgotten(old(self)@, key@),
    {
        let ghost before = self@;
        let mut out: Vec<(String, CellKey, usize)> = Vec::new();
        let mut i: usize = 0;
        assert(displays_but(before.displays.take(0), key@) =~= displays_view(out@));
        while i < self.displays.len()
            invariant
                i <= self.displays@.len(),
                before == self@,
                displays_view(out@) == displays_but(before.displays.take(i as int), key@),
            decreases self.displays@.len() - i,
        {
            let ghost shown = displays_view(out@);
            assert(before.displays.take(i + 1).drop_last() =~= before.displays.take(i as int));
            assert(before.displays.take(i + 1).last() == before.displays[i as int]);
            if !self.displays[i].1.same(key) {
                let id = self.displays[i].0.clone();
                let at = self.displays[i].2;
                out.push((id, self.displays[i].1.clone(), at));
                assert(displays_view(out@) =~= shown.push(before.displays[i as int]));
            }
            i += 1;
        }
        assert(before.displays.take(i as int) =~= before.displays);
        self.displays = out;
        assert(self@.displays =~= displays_view(out@));
        assert(self@.requests =~= before.requests);
        assert(self@.started =~= before.started);
    }

    fn unpend(&mut self, key: &CellKey)
        ensures
            final(self)@ == (ExecV {
                clear_pending: old(self)@.clear_pending.remove(key@),
                ..old(self)@
            }),
    {
        let ghost before = self@;
        let mut left: Vec<CellKey> = Vec::new();
        let mut i: usize = 0;
        while i < self.clear_pending.len()
            invariant
                i <= self.clear_pending@.len(),
                *self == *old(self),
                forall|k: Name| #[trigger]
                    keys(left@).contains(k) == (k != key@ && keys(
                        self.clear_pending@.take(i as int),
                    ).contains(k)),
            decreases self.clear_pending@.len() - i,
        {
            let ghost was = keys(left@);
            let ghost seen = keys(self.clear_pending@.take(i as int));
            let ghost now = self.clear_pending@[i as int]@;
            assert(keys(self.clear_pending@.take(i + 1)) =~= seen.push(now));
            proof {
                lemma_push_contains(seen, now);
            }
            if !self.clear_pending[i].same(key) {
                left.push(self.clear_pending[i].clone());
                assert(keys(left@) =~= was.push(now));
                proof {
                    lemma_push_contains(was, now);
                }
            }
            i += 1;
        }
        assert(self.clear_pending@.take(i as int) =~= self.clear_pending@);
        self.clear_pending = left;
        assert(self@.clear_pending =~= before.clear_pending.remove(key@));
        assert(self@.requests =~= before.requests);
        assert(self@.started =~= before.started);
        assert(self@.displays =~= before.displays);
    }

    fn clear_now(&mut self, nb: &mut Notebook, key: &CellKey)
        requires
            old(nb).wf(),
        ensures
            final(nb).wf(),
            nb_rest(final(nb), old(nb)),
            (final(self)@, nb_view(final(nb))) == cleared(old(self)@, nb_view(old(nb)), key@),
    {
        self.unpend(key);
        if let Some(cell) = nb.cell_mut(key) {
            cell.drop_outputs();
        }
        self.forget_displays(key);
    }

    fn settle(&mut self, nb: &mut Notebook, key: &CellKey)
        requires
            old(nb).wf(),
        ensures
            final(nb).wf(),
            nb_rest(final(nb), old(nb)),
            (final(self)@, nb_view(final(nb))) == settled(old(self)@, nb_view(old(nb)), key@),
    {
        if find_key(&self.clear_pending, key) < self.clear_pending.len() {
            self.clear_now(nb, key);
        }
    }
}

pub open spec fn displays_view(s: Seq<(String, CellKey, usize)>) -> Seq<(Seq<char>, Name, int)> {
    Seq::new(s.len(), |i: int| (s[i].0@, s[i].1@, s[i].2 as int))
}

proof fn lemma_push_contains(s: Seq<Name>, k: Name)
    ensures
        forall|x: Name| #[trigger] s.push(k).contains(x) == (x == k || s.contains(x)),
{
    assert forall|x: Name| #[trigger] s.push(k).contains(x) == (x == k || s.contains(x)) by {
        let t = s.push(k);
        if s.contains(x) {
            let i = choose|i: int| 0 <= i < s.len() && s[i] == x;
            assert(t[i] == x);
        }
        assert(t[s.len() as int] == k);
    }
}

fn runnable_code(nb: &Notebook, key: &CellKey) -> (r: Option<String>)
    ensures
        if runnable(nb.doc(), key@) {
            r matches Some(code) && code@ == raw_source(nb.doc().live[key@].raw)
        } else {
            r is None
        },
{
    match nb.live.get(key) {
        Some(cell) => if cell.kind() == CellKind::Code {
            Some(cell.source())
        } else {
            None
        },
        None => None,
    }
}

impl Executor {
    fn push_output(
        &mut self,
        nb: &mut Notebook,
        key: &CellKey,
        output: Json,
        display_id: Option<&String>,
    )
        requires
            old(nb).wf(),
        ensures
            final(nb).wf(),
            nb_rest(final(nb), old(nb)),
            (final(self)@, nb_view(final(nb))) == output_added(
                old(self)@,
                nb_view(old(nb)),
                key@,
                output@,
                match display_id {
                    Some(id) => Some(id@),
                    None => None,
                },
            ),
    {
        self.settle(nb, key);
        let ghost before = self@;
        let ghost ov = output@;
        if let Some(cell) = nb.cell_mut(key) {
            let outputs = cell.outputs_mut();
            let at = outputs.len();
            let ghost shown = json_views(outputs@);
            outputs.push(output);
            assert(json_views(outputs@) =~= shown.push(ov));
            if let Some(id) = display_id {
                self.displays.push((id.clone(), key.clone(), at));
                assert(self@.displays =~= before.displays.push((id@, key@, at as int)));
                assert(self@.requests =~= before.requests);
                assert(self@.started =~= before.started);
            }
        }
    }

    /// Consecutive stream output of the same name merges into one output, as Jupyter does.
    fn push_stream(&mut self, nb: &mut Notebook, key: &CellKey, name: &str, text: &str)
        requires
            old(nb).wf(),
        ensures
            final(nb).wf(),
            nb_rest(final(nb), old(nb)),
            (final(self)@, nb_view(final(nb))) == stream_added(
                old(self)@,
                nb_view(old(nb)),
                key@,
                name@,
                text@,
            ),
    {
        self.settle(nb, key);
        if let Some(cell) = nb.cell_mut(key) {
            push_stream_output(cell.outputs_mut(), name, text);
        }
    }

    fn start_run(&mut self, nb: &mut Notebook, key: &CellKey, now: u64)
        requires
            old(nb).wf(),
        ensures
            final(nb).wf(),
            nb_rest(final(nb), old(nb)),
            (final(self)@, nb_view(final(nb))) == run_started(
                old(self)@,
                nb_view(old(nb)),
                key@,
                now,
            ),
    {
        if let Some(rt) = nb.runtime_mut(key) {
            rt.state = ExecState::Running;
        }
        let ghost before = self@;
        let i = self.started_at(key);
        if i < self.started.len() {
            self.started.set(i, (key.clone(), now));
        } else {
            self.started.push((key.clone(), now));
        }
        assert(self@.started =~= with_named(before.started, key@, now));
        assert(self@.requests =~= before.requests);
        assert(self@.displays =~= before.displays);
        // Jupyter clears previous outputs when execution starts.
        if let Some(cell) = nb.cell_mut(key) {
            cell.drop_outputs();
            cell.raw.insert("execution_count", Json::Null);
        }
        self.forget_displays(key);
    }

    fn on_status(&mut self, nb: &mut Notebook, key: Option<&CellKey>, state: ExecutionState, now: u64) -> (r:
        Vec<ExecEvent>)
        requires
            old(nb).wf(),
        ensures
            final(nb).wf(),
            nb_rest(final(nb), old(nb)),
            (final(self)@, nb_view(final(nb)), events_view(r@)) == status_handled(
                old(self)@,
                nb_view(old(nb)),
                match key {
                    Some(k) => Some(k@),
                    None => None,
                },
                state,
                now,
            ),
    {
        let status = match state {
            ExecutionState::Busy => KernelStatus::Busy,
            ExecutionState::Idle => KernelStatus::Idle,
            ExecutionState::Starting => KernelStatus::Starting,
            ExecutionState::Restarting | ExecutionState::AutoRestarting => KernelStatus::Restarting,
            ExecutionState::Terminating | ExecutionState::Dead => KernelStatus::Dead,
            ExecutionState::Other => self.status,
        };
        let ghost x = self@;
        let mut events: Vec<ExecEvent> = Vec::new();
        if status != self.status {
            events.push(ExecEvent::Status(status));
        }
        self.status = status;
        let ghost told = if status != x.status {
            seq![EventV::Status(status)]
        } else {
            Seq::empty()
        };
        assert(events_view(events@) =~= told);
        assert(self@.requests =~= x.requests);
        assert(self@.started =~= x.started);
        assert(self@.displays =~= x.displays);
        if let Some(k) = key {
            let queued = match nb.cell(k) {
                Some(cell) => cell.runtime.state == ExecState::Queued,
                None => false,
            };
            if status == KernelStatus::Busy && queued {
                self.start_run(nb, k, now);
                events.push(ExecEvent::Cell(k.clone()));
                assert(events_view(events@) =~= told.push(EventV::Cell(k@)));
            }
        }
        events
    }

    fn on_reply(
        &mut self,
        nb: &mut Notebook,
        parent: Option<&String>,
        status: ReplyStatus,
        count: u64,
        now: u64,
    ) -> (r: Vec<ExecEvent>)
        requires
            old(nb).wf(),
        ensures
            final(nb).wf(),
            nb_rest(final(nb), old(nb)),
            (final(self)@, nb_view(final(nb)), events_view(r@)) == reply_handled(
                old(self)@,
                nb_view(old(nb)),
                match parent {
                    Some(p) => Some(p@),
                    None => None,
                },
                status,
                count,
                now,
            ),
    {
        let mut events: Vec<ExecEvent> = Vec::new();
        assert(events_view(events@) =~= Seq::empty());
        let ghost x = self@;
        if let Some(p) = parent {
            let i = self.request_at(p.as_str());
            if i < self.requests.len() {
                assert(x.requests[i as int].1 == self.requests@[i as int].1@);
                let (_, key) = self.requests.remove(i);
                assert(self@.requests =~= x.requests.remove(i as int));
                assert(self@.started =~= x.started);
                assert(self@.displays =~= x.displays);
                let j = self.started_at(&key);
                let mut since: Option<u64> = None;
                if j < self.started.len() {
                    assert(x.started[j as int].1 == self.started@[j as int].1);
                    let (_, at) = self.started.remove(j);
                    since = Some(at);
                }
                assert(self@.started =~= without_named(x.started, key@));
                assert(self@.requests =~= x.requests.remove(i as int));
                assert(self@.displays =~= x.displays);
                self.unpend(&key);
                let duration = match since {
                    Some(at) => Some(
                        if now >= at {
                            now - at
                        } else {
                            0
                        },
                    ),
                    None => None,
                };
                if let Some(cell) = nb.cell_mut(&key) {
                    cell.runtime.state = match status {
                        ReplyStatus::Done => ExecState::Done,
                        ReplyStatus::Error => ExecState::Error,
                        ReplyStatus::Aborted => ExecState::Idle,
                    };
                    if status != ReplyStatus::Aborted {
                        cell.raw.insert("execution_count", Json::Number(number_of(count)));
                    }
                    cell.runtime.duration = duration;
                }
                let ghost k = key@;
                events.push(ExecEvent::Cell(key));
                assert(events_view(events@) =~= seq![EventV::Cell(k)]);
            }
        }
        events
    }

    fn targets_of(&self, id: &str) -> (r: Vec<(CellKey, usize)>)
        ensures
            targets_view(r@) == displays_of(self@.displays, id@),
    {
        let mut out: Vec<(CellKey, usize)> = Vec::new();
        let mut i: usize = 0;
        let ghost all = self@.displays;
        assert(targets_view(out@) =~= displays_of(all.take(0), id@));
        while i < self.displays.len()
            invariant
                i <= self.displays@.len(),
                all == self@.displays,
                targets_view(out@) == displays_of(all.take(i as int), id@),
            decreases self.displays@.len() - i,
        {
            let ghost shown = targets_view(out@);
            assert(all.take(i + 1).drop_last() =~= all.take(i as int));
            assert(all.take(i + 1).last() == all[i as int]);
            if str_eq(self.displays[i].0.as_str(), id) {
                let at = self.displays[i].2;
                out.push((self.displays[i].1.clone(), at));
                assert(targets_view(out@) =~= shown.push((all[i as int].1, all[i as int].2)));
            }
            i += 1;
        }
        assert(all.take(i as int) =~= all);
        out
    }

    fn on_update(&self, nb: &mut Notebook, id: &str, data: &Json, metadata: &Object) -> (r: Vec<
        ExecEvent,
    >)
        requires
            old(nb).wf(),
        ensures
            final(nb).wf(),
            nb_rest(final(nb), old(nb)),
            (nb_view(final(nb)), events_view(r@)) == displays_updated(
                nb_view(old(nb)),
                displays_of(self@.displays, id@),
                data@,
                metadata@,
            ),
    {
        let targets = self.targets_of(id);
        let ghost all = targets_view(targets@);
        let ghost n = nb_view(nb);
        let mut events: Vec<ExecEvent> = Vec::new();
        let mut i: usize = 0;
        assert(all.take(0) =~= Seq::empty());
        assert(events_view(events@) =~= Seq::empty());
        while i < targets.len()
            invariant
                i <= targets@.len(),
                all == targets_view(targets@),
                nb.wf(),
                nb_rest(nb, old(nb)),
                (nb_view(nb), events_view(events@)) == displays_updated(
                    n,
                    all.take(i as int),
                    data@,
                    metadata@,
                ),
            decreases targets@.len() - i,
        {
            assert(all.take(i + 1).drop_last() =~= all.take(i as int));
            assert(all.take(i + 1).last() == (targets@[i as int].0@, targets@[i as int].1 as int));
            let ghost told = events_view(events@);
            let mut shown = false;
            if let Some(cell) = nb.cell_mut(&targets[i].0) {
                shown = patch_output(cell.outputs_mut(), targets[i].1, data, metadata);
            }
            if shown {
                events.push(ExecEvent::Cell(targets[i].0.clone()));
                assert(events_view(events@) =~= told.push(EventV::Cell(targets@[i as int].0@)));
            }
            i += 1;
        }
        assert(all.take(i as int) =~= all);
        events
    }

    /// Applies one message from the iopub, shell or stdin channel, which came at `now`.
    pub fn handle(&mut self, nb: &mut Notebook, msg: &KernelMessage, now: u64) -> (r: Vec<
        ExecEvent,
    >)
        requires
            old(nb).wf(),
        ensures
            final(nb).wf(),
            nb_rest(final(nb), old(nb)),
            (final(self)@, nb_view(final(nb)), events_view(r@)) == handled(
                old(self)@,
                nb_view(old(nb)),
                opt_text(msg.parent),
                msg.content@,
                now,
            ),
            steps(
                old(nb),
                StepV::Handle {
                    runs: old(self)@,
                    parent: opt_text(msg.parent),
                    content: msg.content@,
                    now,
                },
                final(nb),
            ),
    {
        proof {
            reveal(steps);
        }
        let parent = match &msg.parent {
            Some(p) => Some(p),
            None => None,
        };
        let key = match parent {
            Some(p) => {
                let i = self.request_at(p.as_str());
                if i < self.requests.len() {
                    assert(self@.requests[i as int].1 == self.requests@[i as int].1@);
                    Some(self.requests[i].1.clone())
                } else {
                    None
                }
            },
            None => None,
        };
        let mut events: Vec<ExecEvent> = Vec::new();
        assert(events_view(events@) =~= Seq::empty());
        match &msg.content {
            Content::Status(state) => {
                return self.on_status(nb, key.as_ref(), *state, now);
            },
            Content::UpdateDisplayData { data, metadata, display_id } => {
                // Updates apply to every output carrying the id, whichever cell produced it.
                if let Some(id) = display_id {
                    return self.on_update(nb, id.as_str(), data, metadata);
                }
            },
            Content::ExecuteReply { status, count } => {
                return self.on_reply(nb, parent, *status, *count, now);
            },
            Content::InputRequest { prompt, password } => {
                let ghost k = opt_key(key);
                events.push(
                    ExecEvent::InputRequested { key, prompt: prompt.clone(), password: *password },
                );
                assert(events_view(events@) =~= seq![
                    EventV::InputRequested { key: k, prompt: prompt@, password: *password },
                ]);
            },
            Content::Other => {},
            _ => {
                if let Some(k) = key {
                    return self.on_output(nb, &k, &msg.content);
                }
            },
        }
        events
    }

    fn on_output(&mut self, nb: &mut Notebook, key: &CellKey, content: &Content) -> (r: Vec<
        ExecEvent,
    >)
        requires
            old(nb).wf(),
        ensures
            final(nb).wf(),
            nb_rest(final(nb), old(nb)),
            (final(self)@, nb_view(final(nb)), events_view(r@)) == output_handled(
                old(self)@,
                nb_view(old(nb)),
                key@,
                content@,
            ),
    {
        let ghost none = Seq::<EventV>::empty();
        let ghost told = seq![EventV::Cell(key@)];
        let mut events: Vec<ExecEvent> = Vec::new();
        assert(events_view(events@) =~= none);
        match content {
            Content::ExecuteInput { count } => {
                let mut found = false;
                if let Some(cell) = nb.cell_mut(key) {
                    cell.raw.insert("execution_count", Json::Number(number_of(*count)));
                    found = true;
                }
                if !found {
                    return events;
                }
            },
            Content::Stream { name, text } => {
                self.push_stream(nb, key, stream_text(*name), text.as_str());
            },
            Content::DisplayData { data, metadata, display_id } => {
                let output = display_output(data, metadata);
                self.push_output(nb, key, output, display_id.as_ref());
            },
            Content::ExecuteResult { data, count, metadata, display_id } => {
                let output = result_output(data, *count, metadata);
                self.push_output(nb, key, output, display_id.as_ref());
            },
            Content::ErrorOutput { ename, evalue, traceback } => {
                let output = error_output(ename.as_str(), evalue.as_str(), traceback);
                self.push_output(nb, key, output, None);
            },
            Content::ClearOutput { wait } => {
                if *wait {
                    let ghost before = self@;
                    let ghost pending = self.clear_pending@;
                    if find_key(&self.clear_pending, key) >= self.clear_pending.len() {
                        self.clear_pending.push(key.clone());
                        assert(keys(self.clear_pending@) =~= keys(pending).push(key@));
                        proof {
                            lemma_push_contains(keys(pending), key@);
                        }
                    }
                    assert(self@.clear_pending =~= before.clear_pending.insert(key@));
                    assert(self@.requests =~= before.requests);
                    assert(self@.started =~= before.started);
                    assert(self@.displays =~= before.displays);
                    return events;
                }
                self.clear_now(nb, key);
            },
            _ => {
                return events;
            },
        }
        events.push(ExecEvent::Cell(key.clone()));
        assert(events_view(events@) =~= told);
        events
    }

    /// The kernel went away (restart or death): nothing in flight will complete.
    pub fn reset(&mut self, nb: &mut Notebook, status: KernelStatus) -> (r: Vec<ExecEvent>)
        requires
            old(nb).wf(),
        ensures
            final(nb).wf(),
            nb_rest(final(nb), old(nb)),
            final(self)@ == nothing_under_way(old(self)@, status),
            nb_view(final(nb)) == all_idle(nb_view(old(nb)), old(self)@.requests).0,
            events_view(r@) == all_idle(nb_view(old(nb)), old(self)@.requests).1.push(
                EventV::Status(status),
            ),
            steps(old(nb), StepV::Reset { requests: old(self)@.requests }, final(nb)),
    {
        proof {
            reveal(steps);
        }
        let ghost all = self@.requests;
        let ghost n = nb_view(nb);
        let mut events: Vec<ExecEvent> = Vec::new();
        let mut i: usize = 0;
        assert(all.take(0) =~= Seq::empty());
        assert(events_view(events@) =~= Seq::empty());
        while i < self.requests.len()
            invariant
                i <= self.requests@.len(),
                *self == *old(self),
                all == self@.requests,
                nb.wf(),
                nb_rest(nb, old(nb)),
                (nb_view(nb), events_view(events@)) == all_idle(n, all.take(i as int)),
            decreases self.requests@.len() - i,
        {
            assert(all.take(i + 1).drop_last() =~= all.take(i as int));
            assert(all.take(i + 1).last() == all[i as int]);
            let ghost told = events_view(events@);
            if let Some(rt) = nb.runtime_mut(&self.requests[i].1) {
                rt.state = ExecState::Idle;
            }
            events.push(ExecEvent::Cell(self.requests[i].1.clone()));
            assert(events_view(events@) =~= told.push(EventV::Cell(all[i as int].1)));
            i += 1;
        }
        assert(all.take(i as int) =~= all);
        self.stop(status);
        let ghost told = events_view(events@);
        events.push(ExecEvent::Status(status));
        assert(events_view(events@) =~= told.push(EventV::Status(status)));
        events
    }

    fn stop(&mut self, status: KernelStatus)
        ensures
            final(self)@ == nothing_under_way(old(self)@, status),
    {
        let ghost before = self@;
        self.requests = Vec::new();
        self.started = Vec::new();
        self.clear_pending = Vec::new();
        self.status = status;
        assert(self@.requests =~= Seq::empty());
        assert(self@.started =~= Seq::empty());
        assert(self@.clear_pending =~= Set::empty());
        assert(self@.displays =~= before.displays);
    }

    /// A cell that cannot be executed fails with `reason`.
    pub fn fail(&mut self, nb: &mut Notebook, key: &CellKey, reason: &str) -> (r: ExecEvent)
        requires
            old(nb).wf(),
        ensures
            final(nb).wf(),
            nb_rest(final(nb), old(nb)),
            *final(self) == *old(self),
            nb_view(final(nb)) == failed(nb_view(old(nb)), key@, reason@),
            r@ == EventV::Cell(key@),
            steps(old(nb), StepV::Fail { key: key@, reason: reason@ }, final(nb)),
    {
        proof {
            reveal(steps);
        }
        if let Some(rt) = nb.runtime_mut(key) {
            rt.state = ExecState::Error;
            rt.error = Some(reason.to_string());
        }
        ExecEvent::Cell(key.clone())
    }

    /// The kernel cannot run anything: every cell queued or running fails with `reason`.
    pub fn fail_all(&mut self, nb: &mut Notebook, reason: &str) -> (r: Vec<ExecEvent>)
        requires
            old(nb).wf(),
        ensures
            final(nb).wf(),
            nb_rest(final(nb), old(nb)),
            final(self)@ == nothing_under_way(old(self)@, KernelStatus::Dead),
            nb_view(final(nb)) == all_failed(nb_view(old(nb)), old(self)@.requests, reason@).0,
            events_view(r@) == all_failed(
                nb_view(old(nb)),
                old(self)@.requests,
                reason@,
            ).1.push(EventV::Status(KernelStatus::Dead)),
            steps(old(nb), StepV::FailAll { requests: old(self)@.requests, reason: reason@ }, final(nb)),
    {
        proof {
            reveal(steps);
        }
        let ghost all = self@.requests;
        let ghost n = nb_view(nb);
        let mut events: Vec<ExecEvent> = Vec::new();
        let mut i: usize = 0;
        assert(all.take(0) =~= Seq::empty());
        assert(events_view(events@) =~= Seq::empty());
        while i < self.requests.len()
            invariant
                i <= self.requests@.len(),
                *self == *old(self),
                all == self@.requests,
                nb.wf(),
                nb_rest(nb, old(nb)),
                (nb_view(nb), events_view(events@)) == all_failed(
                    n,
                    all.take(i as int),
                    reason@,
                ),
            decreases self.requests@.len() - i,
        {
            assert(all.take(i + 1).drop_last() =~= all.take(i as int));
            assert(all.take(i + 1).last() == all[i as int]);
            let ghost told = events_view(events@);
            let key = self.requests[i].1.clone();
            let event = self.fail(nb, &key, reason);
            let ghost e = event@;
            events.push(event);
            assert(events_view(events@) =~= told.push(e));
            i += 1;
        }
        assert(all.take(i as int) =~= all);
        self.stop(KernelStatus::Dead);
        let ghost told = events_view(events@);
        events.push(ExecEvent::Status(KernelStatus::Dead));
        assert(events_view(events@) =~= told.push(EventV::Status(KernelStatus::Dead)));
        events
    }

    /// A kernel is there to execute cells.
    pub fn connected(&mut self)
        ensures
            final(self)@ == (ExecV { status: KernelStatus::Idle, ..old(self)@ }),
    {
        let ghost before = self@;
        self.status = KernelStatus::Idle;
        assert(self@.requests =~= before.requests);
        assert(self@.started =~= before.started);
        assert(self@.displays =~= before.displays);
    }
}

pub open spec fn targets_view(s: Seq<(CellKey, usize)>) -> Seq<(Name, int)> {
    Seq::new(s.len(), |i: int| (s[i].0@, s[i].1 as int))
}

/// Puts new data into the output at `i`. Returns whether there is one.
fn patch_output(outputs: &mut Vec<Json>, i: usize, data: &Json, metadata: &Object) -> (r: bool)
    ensures
        json_views(final(outputs)@) == patched(
            json_views(old(outputs)@),
            i as int,
            data@,
            metadata@,
        ),
        r == can_patch(json_views(old(outputs)@), i as int),
{
    let ghost before = json_views(outputs@);
    if i >= outputs.len() {
        return false;
    }
    let next = match &outputs[i] {
        Json::Object(o) => {
            assert(outputs@[i as int]@ == JsonV::Object(o@));
            let mut next = o.clone();
            next.insert("data", media_json(data));
            next.insert("metadata", object_json(metadata.clone()));
            object_json(next)
        },
        _ => {
            return false;
        },
    };
    let ghost nv = next@;
    outputs.set(i, next);
    assert(json_views(outputs@) =~= before.update(i as int, nv));
    true
}

/// The same cells under the same keys, in the same order.
pub open spec fn same_structure(d: DocV, e: DocV) -> bool {
    d.order == e.order && d.live.dom() == e.live.dom() && d.tombs.dom() == e.tombs.dom()
}

proof fn lemma_touched(n: NbV, k: Name, f: spec_fn(CellV) -> CellV)
    ensures
        same_structure(n.doc, touched(n, k, f).doc),
        forall|o: Name| o != k ==> #[trigger] cell_at(touched(n, k, f).doc, o) == cell_at(n.doc, o),
{
    let e = touched(n, k, f).doc;
    assert(n.doc.live.dom() =~= e.live.dom());
    assert(n.doc.tombs.dom() =~= e.tombs.dom());
}

proof fn lemma_retimed(n: NbV, k: Name, f: spec_fn(RuntimeV) -> RuntimeV)
    ensures
        same_structure(n.doc, retimed(n, k, f).doc),
        forall|o: Name| o != k ==> #[trigger] cell_at(retimed(n, k, f).doc, o) == cell_at(n.doc, o),
{
    let e = retimed(n, k, f).doc;
    assert(n.doc.live.dom() =~= e.live.dom());
    assert(n.doc.tombs.dom() =~= e.tombs.dom());
}

proof fn lemma_displays_updated(
    n: NbV,
    targets: Seq<(Name, int)>,
    data: JsonV,
    metadata: Entries,
)
    ensures
        same_structure(n.doc, displays_updated(n, targets, data, metadata).0.doc),
    decreases targets.len(),
{
    if targets.len() > 0 {
        lemma_displays_updated(n, targets.drop_last(), data, metadata);
        let front = displays_updated(n, targets.drop_last(), data, metadata);
        let i = targets.last().1;
        lemma_touched(
            front.0,
            targets.last().0,
            |c: CellV| with_outputs(c, patched(raw_outputs(c.raw), i, data, metadata)),
        );
    }
}

/// A message about a cell's outputs changes that cell only.
pub proof fn outputs_stay_with_their_cell(x: ExecV, n: NbV, k: Name, content: ContentV, other: Name)
    requires
        other != k,
    ensures
        same_structure(n.doc, output_handled(x, n, k, content).1.doc),
        cell_at(output_handled(x, n, k, content).1.doc, other) == cell_at(n.doc, other),
{
    lemma_touched(n, k, |c: CellV| with_outputs(c, Seq::empty()));
    let m = settled(x, n, k).1;
    match content {
        ContentV::ExecuteInput { count } => {
            lemma_touched(n, k, |c: CellV| with_count(c, JsonV::Number(number_from(count))));
        },
        ContentV::Stream { name, text } => {
            lemma_touched(
                m,
                k,
                |c: CellV|
                    with_outputs(c, streamed(raw_outputs(c.raw), stream_name(name), text)),
            );
        },
        ContentV::DisplayData { data, metadata, .. } => {
            let o = display_json(data, metadata);
            lemma_touched(m, k, |c: CellV| with_outputs(c, raw_outputs(c.raw).push(o)));
        },
        ContentV::ExecuteResult { data, count, metadata, .. } => {
            let o = result_json(data, count, metadata);
            lemma_touched(m, k, |c: CellV| with_outputs(c, raw_outputs(c.raw).push(o)));
        },
        ContentV::ErrorOutput { ename, evalue, traceback } => {
            let o = error_json(ename, evalue, traceback);
            lemma_touched(m, k, |c: CellV| with_outputs(c, raw_outputs(c.raw).push(o)));
        },
        _ => {},
    }
}

/// No message adds, removes or moves a cell.
pub proof fn messages_keep_structure(
    x: ExecV,
    n: NbV,
    parent: Option<Seq<char>>,
    content: ContentV,
    now: u64,
)
    ensures
        same_structure(n.doc, handled(x, n, parent, content, now).1.doc),
{
    match content {
        ContentV::Status(state) => {
            if let Some(k) = answered(x, parent) {
                let f = |r: RuntimeV| RuntimeV { state: ExecState::Running, ..r };
                lemma_retimed(n, k, f);
                lemma_touched(
                    retimed(n, k, f),
                    k,
                    |c: CellV| with_count(with_outputs(c, Seq::empty()), JsonV::Null),
                );
            }
        },
        ContentV::UpdateDisplayData { data, metadata, display_id } => {
            if let Some(id) = display_id {
                lemma_displays_updated(n, displays_of(x.displays, id), data, metadata);
            }
        },
        ContentV::ExecuteReply { status, count } => {
            if let Some(k) = answered(x, parent) {
                let duration = elapsed(named(x.started, k), now);
                lemma_touched(n, k, |c: CellV| ended(c, status, count, duration));
            }
        },
        _ => {
            if let Some(k) = answered(x, parent) {
                assert(k.push('a').len() != k.len());
                outputs_stay_with_their_cell(x, n, k, content, k.push('a'));
            }
        },
    }
}

/// A cell's fields, but for what execution records, are the same.
pub open spec fn fields_kept(c: CellV, e: CellV) -> bool {
    forall|f: Seq<char>|
        f != "outputs"@ && f != "execution_count"@ ==> #[trigger] obj_get(e.raw, f) == obj_get(
            c.raw,
            f,
        )
}

/// Every cell's fields, but for what execution records, are the same.
pub open spec fn all_fields_kept(d: DocV, e: DocV) -> bool {
    forall|k: Name| #[trigger]
        cell_at(d, k) is Some ==> cell_at(e, k) is Some && fields_kept(
            cell_at(d, k)->0,
            cell_at(e, k)->0,
        )
}

proof fn lemma_fields()
    ensures
        forall|c: CellV, o: Seq<JsonV>| fields_kept(c, #[trigger] with_outputs(c, o)),
        forall|c: CellV, v: JsonV| fields_kept(c, #[trigger] with_count(c, v)),
{
    assert forall|c: CellV, o: Seq<JsonV>| fields_kept(c, #[trigger] with_outputs(c, o)) by {
        assert forall|f: Seq<char>| f != "outputs"@ implies #[trigger] obj_get(
            with_outputs(c, o).raw,
            f,
        ) == obj_get(c.raw, f) by {
            lemma_obj_insert(c.raw, "outputs"@, JsonV::Array(o), f);
        }
    }
    assert forall|c: CellV, v: JsonV| fields_kept(c, #[trigger] with_count(c, v)) by {
        assert forall|f: Seq<char>| f != "execution_count"@ implies #[trigger] obj_get(
            with_count(c, v).raw,
            f,
        ) == obj_get(c.raw, f) by {
            lemma_obj_insert(c.raw, "execution_count"@, v, f);
        }
    }
}

proof fn lemma_touched_fields(d: DocV, n: NbV, k: Name, f: spec_fn(CellV) -> CellV)
    requires
        all_fields_kept(d, n.doc),
        cell_at(n.doc, k) is Some ==> fields_kept(cell_at(n.doc, k)->0, f(cell_at(n.doc, k)->0)),
    ensures
        all_fields_kept(d, touched(n, k, f).doc),
{
    let e = touched(n, k, f).doc;
    assert forall|o: Name| #[trigger] cell_at(d, o) is Some implies cell_at(e, o) is Some
        && fields_kept(cell_at(d, o)->0, cell_at(e, o)->0) by {
        let c = cell_at(n.doc, o)->0;
        if o == k {
            assert forall|g: Seq<char>|
                g != "outputs"@ && g != "execution_count"@ implies #[trigger] obj_get(
                cell_at(e, o)->0.raw,
                g,
            ) == obj_get(cell_at(d, o)->0.raw, g) by {
                assert(obj_get(c.raw, g) == obj_get(cell_at(d, o)->0.raw, g));
            }
        }
    }
}

proof fn lemma_displays_fields(
    n: NbV,
    targets: Seq<(Name, int)>,
    data: JsonV,
    metadata: Entries,
)
    ensures
        all_fields_kept(n.doc, displays_updated(n, targets, data, metadata).0.doc),
    decreases targets.len(),
{
    if targets.len() > 0 {
        lemma_displays_fields(n, targets.drop_last(), data, metadata);
        lemma_fields();
        let front = displays_updated(n, targets.drop_last(), data, metadata);
        let i = targets.last().1;
        lemma_touched_fields(
            n.doc,
            front.0,
            targets.last().0,
            |c: CellV| with_outputs(c, patched(raw_outputs(c.raw), i, data, metadata)),
        );
    }
}

proof fn lemma_output_fields(x: ExecV, n: NbV, k: Name, content: ContentV)
    ensures
        all_fields_kept(n.doc, output_handled(x, n, k, content).1.doc),
{
    lemma_fields();
    lemma_touched_fields(n.doc, n, k, |c: CellV| with_outputs(c, Seq::empty()));
    let m = settled(x, n, k).1;
    match content {
        ContentV::ExecuteInput { count } => {
            lemma_touched_fields(
                n.doc,
                n,
                k,
                |c: CellV| with_count(c, JsonV::Number(number_from(count))),
            );
        },
        ContentV::Stream { name, text } => {
            lemma_touched_fields(
                n.doc,
                m,
                k,
                |c: CellV|
                    with_outputs(c, streamed(raw_outputs(c.raw), stream_name(name), text)),
            );
        },
        ContentV::DisplayData { data, metadata, .. } => {
            let o = display_json(data, metadata);
            lemma_touched_fields(
                n.doc,
                m,
                k,
                |c: CellV| with_outputs(c, raw_outputs(c.raw).push(o)),
            );
        },
        ContentV::ExecuteResult { data, count, metadata, .. } => {
            let o = result_json(data, count, metadata);
            lemma_touched_fields(
                n.doc,
                m,
                k,
                |c: CellV| with_outputs(c, raw_outputs(c.raw).push(o)),
            );
        },
        ContentV::ErrorOutput { ename, evalue, traceback } => {
            let o = error_json(ename, evalue, traceback);
            lemma_touched_fields(
                n.doc,
                m,
                k,
                |c: CellV| with_outputs(c, raw_outputs(c.raw).push(o)),
            );
        },
        _ => {},
    }
}

/// No message changes a field of a cell, its source and its type among them, but its outputs
/// and its execution count.
pub proof fn messages_keep_fields(
    x: ExecV,
    n: NbV,
    parent: Option<Seq<char>>,
    content: ContentV,
    now: u64,
)
    ensures
        all_fields_kept(n.doc, handled(x, n, parent, content, now).1.doc),
{
    lemma_fields();
    match content {
        ContentV::Status(state) => {
            if let Some(k) = answered(x, parent) {
                let f = |r: RuntimeV| RuntimeV { state: ExecState::Running, ..r };
                let m = retimed(n, k, f);
                assert(all_fields_kept(n.doc, m.doc));
                assert forall|c: CellV|
                    fields_kept(
                        c,
                        #[trigger] with_count(with_outputs(c, Seq::empty()), JsonV::Null),
                    ) by {
                    let b = with_outputs(c, Seq::empty());
                    assert(fields_kept(c, b));
                    assert forall|g: Seq<char>|
                        g != "outputs"@ && g != "execution_count"@ implies #[trigger] obj_get(
                        with_count(b, JsonV::Null).raw,
                        g,
                    ) == obj_get(c.raw, g) by {
                        assert(obj_get(b.raw, g) == obj_get(c.raw, g));
                    }
                }
                lemma_touched_fields(
                    n.doc,
                    m,
                    k,
                    |c: CellV| with_count(with_outputs(c, Seq::empty()), JsonV::Null),
                );
            }
        },
        ContentV::UpdateDisplayData { data, metadata, display_id } => {
            if let Some(id) = display_id {
                lemma_displays_fields(n, displays_of(x.displays, id), data, metadata);
            }
        },
        ContentV::ExecuteReply { status, count } => {
            if let Some(k) = answered(x, parent) {
                let duration = elapsed(named(x.started, k), now);
                lemma_touched_fields(
                    n.doc,
                    n,
                    k,
                    |c: CellV| ended(c, status, count, duration),
                );
            }
        },
        _ => {
            if let Some(k) = answered(x, parent) {
                lemma_output_fields(x, n, k, content);
            }
        },
    }
}

/// Whether no name occurs twice in what a message brings.
pub open spec fn content_wf(content: ContentV) -> bool {
    match content {
        ContentV::DisplayData { data, metadata, .. } => json_wf(data) && json_wf(
            JsonV::Object(metadata),
        ),
        ContentV::ExecuteResult { data, metadata, .. } => json_wf(data) && json_wf(
            JsonV::Object(metadata),
        ),
        ContentV::UpdateDisplayData { data, metadata, .. } => json_wf(data) && json_wf(
            JsonV::Object(metadata),
        ),
        _ => true,
    }
}

proof fn lemma_media_wf(v: JsonV)
    requires
        json_wf(v),
    ensures
        json_wf(media(v)),
{
    let t = media(v)->Object_0;
    if let JsonV::Object(bundle) = v {
        assert forall|i: int, j: int| 0 <= i < j < t.len() implies (#[trigger] t[i]).0
            != (#[trigger] t[j]).0 by {
            assert(t[i].0 == bundle[i].0 && t[j].0 == bundle[j].0);
        }
        assert forall|i: int| 0 <= i < t.len() implies json_wf((#[trigger] t[i]).1) by {
            assert(json_wf(bundle[i].1));
            if let JsonV::String(s) = bundle[i].1 {
                lemma_lines_wf(s);
            }
        }
    }
}

/// An object of entries with names of different lengths.
proof fn lemma_object_wf(s: Entries)
    requires
        forall|i: int, j: int|
            0 <= i < j < s.len() ==> (#[trigger] s[i]).0.len() != (#[trigger] s[j]).0.len(),
        forall|i: int| 0 <= i < s.len() ==> json_wf((#[trigger] s[i]).1),
    ensures
        json_wf(JsonV::Object(s)),
{
}

proof fn lemma_outputs_wf(
    data: JsonV,
    metadata: Entries,
    count: u64,
    ename: Seq<char>,
    evalue: Seq<char>,
    traceback: Seq<Seq<char>>,
)
    ensures
        json_wf(data) && json_wf(JsonV::Object(metadata)) ==> json_wf(display_json(data, metadata))
            && json_wf(result_json(data, count, metadata)),
        json_wf(error_json(ename, evalue, traceback)),
{
    reveal_strlit("data");
    reveal_strlit("metadata");
    reveal_strlit("output_type");
    reveal_strlit("execution_count");
    reveal_strlit("ename");
    reveal_strlit("evalue");
    reveal_strlit("traceback");
    assert("data"@.len() == 4 && "metadata"@.len() == 8 && "output_type"@.len() == 11);
    assert("execution_count"@.len() == 15 && "ename"@.len() == 5 && "evalue"@.len() == 6);
    assert("traceback"@.len() == 9);
    if json_wf(data) && json_wf(JsonV::Object(metadata)) {
        lemma_media_wf(data);
        lemma_object_wf(display_json(data, metadata)->Object_0);
        lemma_object_wf(result_json(data, count, metadata)->Object_0);
    }
    let lines = strings(traceback)->Array_0;
    assert forall|i: int| 0 <= i < lines.len() implies json_wf(#[trigger] lines[i]) by {
        assert(lines[i] is String);
    }
    lemma_object_wf(error_json(ename, evalue, traceback)->Object_0);
}

proof fn lemma_streamed_wf(outputs: Seq<JsonV>, name: Seq<char>, text: Seq<char>)
    requires
        json_wf(JsonV::Array(outputs)),
    ensures
        json_wf(JsonV::Array(streamed(outputs, name, text))),
{
    lemma_lines_wf(collapsed(text));
    reveal_strlit("name");
    reveal_strlit("output_type");
    reveal_strlit("text");
    assert("name"@.len() == 4 && "output_type"@.len() == 11 && "text"@.len() == 4);
    assert("name"@[0] == 'n' && "text"@[0] == 't');
    let fresh = stream_json(name, text)->Object_0;
    assert forall|i: int, j: int| 0 <= i < j < fresh.len() implies (#[trigger] fresh[i]).0
        != (#[trigger] fresh[j]).0 by {
        assert(fresh[i].0.len() != fresh[j].0.len() || fresh[i].0[0] != fresh[j].0[0]);
    }
    assert forall|i: int| 0 <= i < fresh.len() implies json_wf((#[trigger] fresh[i]).1) by {
        assert(i < 2 ==> fresh[i].1 is String);
    }
    assert(json_wf(JsonV::Object(fresh)));
    lemma_wf_items(outputs);
    if outputs.len() > 0 && is_stream(outputs.last(), name) {
        assert(json_wf(outputs[outputs.len() - 1]));
        let o = outputs.last()->Object_0;
        let whole = multiline_text(obj_get(o, "text"@)) + text;
        lemma_lines_wf(collapsed(whole));
        lemma_wf_insert(o, "text"@, multiline_list(collapsed(whole)));
    }
    let all = streamed(outputs, name, text);
    assert forall|i: int| 0 <= i < all.len() implies json_wf(#[trigger] all[i]) by {
        if i < outputs.len() - 1 {
            assert(all[i] == outputs[i]);
        } else if i < outputs.len() {
            assert(json_wf(outputs[i]));
        }
    }
    lemma_wf_items(all);
}

proof fn lemma_patched_wf(outputs: Seq<JsonV>, i: int, data: JsonV, metadata: Entries)
    requires
        json_wf(JsonV::Array(outputs)),
        json_wf(data),
        json_wf(JsonV::Object(metadata)),
    ensures
        json_wf(JsonV::Array(patched(outputs, i, data, metadata))),
{
    if can_patch(outputs, i) {
        lemma_wf_items(outputs);
        assert(json_wf(outputs[i]));
        lemma_media_wf(data);
        let o = outputs[i]->Object_0;
        lemma_wf_insert(o, "data"@, media(data));
        lemma_wf_insert(obj_insert(o, "data"@, media(data)), "metadata"@, JsonV::Object(metadata));
        let all = patched(outputs, i, data, metadata);
        assert forall|j: int| 0 <= j < all.len() implies json_wf(#[trigger] all[j]) by {
            assert(j != i ==> all[j] == outputs[j]);
        }
        lemma_wf_items(all);
    }
}

proof fn lemma_recorded_sound(c: CellV, outputs: Seq<JsonV>, v: JsonV)
    requires
        sound(c),
    ensures
        json_wf(JsonV::Array(raw_outputs(c.raw))),
        json_wf(JsonV::Array(outputs)) ==> sound(with_outputs(c, outputs)),
        json_wf(v) ==> sound(with_count(c, v)),
{
    lemma_wf_remove(c.raw, "outputs"@);
    lemma_obj_insert(c.raw, "outputs"@, JsonV::Array(outputs), "cell_type"@);
    lemma_obj_insert(c.raw, "execution_count"@, v, "cell_type"@);
    reveal_strlit("cell_type");
    reveal_strlit("outputs");
    reveal_strlit("execution_count");
    assert("cell_type"@.len() == 9 && "outputs"@.len() == 7 && "execution_count"@.len() == 15);
    if json_wf(JsonV::Array(outputs)) {
        lemma_wf_insert(c.raw, "outputs"@, JsonV::Array(outputs));
    }
    if json_wf(v) {
        lemma_wf_insert(c.raw, "execution_count"@, v);
    }
}

proof fn lemma_touched_sound(n: NbV, k: Name, f: spec_fn(CellV) -> CellV)
    requires
        all_sound(n.doc),
        cell_at(n.doc, k) is Some ==> sound(f(cell_at(n.doc, k)->0)),
    ensures
        all_sound(touched(n, k, f).doc),
{
    let e = touched(n, k, f).doc;
    assert forall|o: Name| #[trigger] cell_at(e, o) is Some implies sound(cell_at(e, o)->0) by {
        assert(cell_at(n.doc, o) is Some ==> sound(cell_at(n.doc, o)->0));
    }
}

proof fn lemma_added_sound(n: NbV, k: Name, o: JsonV)
    requires
        all_sound(n.doc),
        json_wf(o),
    ensures
        all_sound(touched(n, k, |c: CellV| with_outputs(c, raw_outputs(c.raw).push(o))).doc),
{
    if cell_at(n.doc, k) is Some {
        let c = cell_at(n.doc, k)->0;
        let all = raw_outputs(c.raw).push(o);
        lemma_recorded_sound(c, all, JsonV::Null);
        assert forall|i: int| 0 <= i < all.len() implies json_wf(#[trigger] all[i]) by {
            if i < all.len() - 1 {
                assert(all[i] == raw_outputs(c.raw)[i]);
            }
        }
        lemma_recorded_sound(c, all, JsonV::Null);
    }
    lemma_touched_sound(n, k, |c: CellV| with_outputs(c, raw_outputs(c.raw).push(o)));
}

proof fn lemma_cleared_sound(n: NbV, k: Name)
    requires
        all_sound(n.doc),
    ensures
        all_sound(touched(n, k, |c: CellV| with_outputs(c, Seq::empty())).doc),
{
    if cell_at(n.doc, k) is Some {
        lemma_recorded_sound(cell_at(n.doc, k)->0, Seq::empty(), JsonV::Null);
    }
    lemma_touched_sound(n, k, |c: CellV| with_outputs(c, Seq::empty()));
}

proof fn lemma_displays_sound(
    n: NbV,
    targets: Seq<(Name, int)>,
    data: JsonV,
    metadata: Entries,
)
    requires
        all_sound(n.doc),
        json_wf(data),
        json_wf(JsonV::Object(metadata)),
    ensures
        all_sound(displays_updated(n, targets, data, metadata).0.doc),
    decreases targets.len(),
{
    if targets.len() > 0 {
        lemma_displays_sound(n, targets.drop_last(), data, metadata);
        let front = displays_updated(n, targets.drop_last(), data, metadata);
        let k = targets.last().0;
        let i = targets.last().1;
        if cell_at(front.0.doc, k) is Some {
            let c = cell_at(front.0.doc, k)->0;
            let all = patched(raw_outputs(c.raw), i, data, metadata);
            lemma_recorded_sound(c, all, JsonV::Null);
            lemma_patched_wf(raw_outputs(c.raw), i, data, metadata);
        }
        lemma_touched_sound(
            front.0,
            k,
            |c: CellV| with_outputs(c, patched(raw_outputs(c.raw), i, data, metadata)),
        );
    }
}

proof fn lemma_output_sound(x: ExecV, n: NbV, k: Name, content: ContentV)
    requires
        all_sound(n.doc),
        content_wf(content),
    ensures
        all_sound(output_handled(x, n, k, content).1.doc),
{
    lemma_cleared_sound(n, k);
    let m = settled(x, n, k).1;
    match content {
        ContentV::ExecuteInput { count } => {
            let v = JsonV::Number(number_from(count));
            if cell_at(n.doc, k) is Some {
                lemma_recorded_sound(cell_at(n.doc, k)->0, Seq::empty(), v);
            }
            lemma_touched_sound(n, k, |c: CellV| with_count(c, v));
        },
        ContentV::Stream { name, text } => {
            let stream = stream_name(name);
            if cell_at(m.doc, k) is Some {
                let c = cell_at(m.doc, k)->0;
                let all = streamed(raw_outputs(c.raw), stream, text);
                lemma_recorded_sound(c, all, JsonV::Null);
                lemma_streamed_wf(raw_outputs(c.raw), stream, text);
            }
            lemma_touched_sound(
                m,
                k,
                |c: CellV| with_outputs(c, streamed(raw_outputs(c.raw), stream, text)),
            );
        },
        ContentV::DisplayData { data, metadata, .. } => {
            lemma_outputs_wf(data, metadata, 0, Seq::empty(), Seq::empty(), Seq::empty());
            lemma_added_sound(m, k, display_json(data, metadata));
        },
        ContentV::ExecuteResult { data, count, metadata, .. } => {
            lemma_outputs_wf(data, metadata, count, Seq::empty(), Seq::empty(), Seq::empty());
            lemma_added_sound(m, k, result_json(data, count, metadata));
        },
        ContentV::ErrorOutput { ename, evalue, traceback } => {
            lemma_outputs_wf(JsonV::Null, Seq::empty(), 0, ename, evalue, traceback);
            lemma_added_sound(m, k, error_json(ename, evalue, traceback));
        },
        _ => {},
    }
}

/// Messages in which no name occurs twice keep every cell sound, so that a notebook whose cells
/// have run can be written and opened again.
pub proof fn messages_keep_cells_sound(
    x: ExecV,
    n: NbV,
    parent: Option<Seq<char>>,
    content: ContentV,
    now: u64,
)
    requires
        all_sound(n.doc),
        content_wf(content),
    ensures
        all_sound(handled(x, n, parent, content, now).1.doc),
{
    match content {
        ContentV::Status(state) => {
            if let Some(k) = answered(x, parent) {
                let m = retimed(n, k, |r: RuntimeV| RuntimeV { state: ExecState::Running, ..r });
                assert forall|o: Name| #[trigger] cell_at(m.doc, o) is Some implies sound(
                    cell_at(m.doc, o)->0,
                ) by {
                    assert(cell_at(n.doc, o) is Some ==> sound(cell_at(n.doc, o)->0));
                }
                if cell_at(m.doc, k) is Some {
                    let c = cell_at(m.doc, k)->0;
                    lemma_recorded_sound(c, Seq::empty(), JsonV::Null);
                    lemma_recorded_sound(
                        with_outputs(c, Seq::empty()),
                        Seq::empty(),
                        JsonV::Null,
                    );
                }
                lemma_touched_sound(
                    m,
                    k,
                    |c: CellV| with_count(with_outputs(c, Seq::empty()), JsonV::Null),
                );
            }
        },
        ContentV::UpdateDisplayData { data, metadata, display_id } => {
            if let Some(id) = display_id {
                lemma_displays_sound(n, displays_of(x.displays, id), data, metadata);
            }
        },
        ContentV::ExecuteReply { status, count } => {
            if let Some(k) = answered(x, parent) {
                let duration = elapsed(named(x.started, k), now);
                if cell_at(n.doc, k) is Some {
                    let v = JsonV::Number(number_from(count));
                    lemma_recorded_sound(cell_at(n.doc, k)->0, Seq::empty(), v);
                }
                lemma_touched_sound(n, k, |c: CellV| ended(c, status, count, duration));
            }
        },
        _ => {
            if let Some(k) = answered(x, parent) {
                lemma_output_sound(x, n, k, content);
            }
        },
    }
}

/// A message that answers no request, is no news of the kernel's state, asks for no input and
/// updates no display changes nothing.
pub proof fn stray_message_changes_nothing(
    x: ExecV,
    n: NbV,
    parent: Option<Seq<char>>,
    content: ContentV,
    now: u64,
)
    requires
        answered(x, parent) is None,
        !(content is Status || content is InputRequest || content is UpdateDisplayData),
    ensures
        handled(x, n, parent, content, now) == (x, n, Seq::<EventV>::empty()),
{
}

/// After the reply to its request, a cell that the notebook has is not queued or running, and
/// the request is no longer under way.
pub proof fn reply_ends_execution(
    x: ExecV,
    n: NbV,
    parent: Seq<char>,
    status: ReplyStatus,
    count: u64,
    now: u64,
)
    requires
        named(x.requests, parent) is Some,
        cell_at(n.doc, named(x.requests, parent)->0) is Some,
    ensures
        ({
            let r = reply_handled(x, n, Some(parent), status, count, now);
            let c = cell_at(r.1.doc, named(x.requests, parent)->0);
            &&& c is Some
            &&& c->0.runtime.state != ExecState::Queued
            &&& c->0.runtime.state != ExecState::Running
            &&& r.0.requests.len() == x.requests.len() - 1
        }),
{
    lemma_named_len(x.requests, parent);
}

proof fn lemma_named_len<V>(s: Seq<(Name, V)>, k: Name)
    ensures
        0 <= named_at(s, k) <= s.len(),
    decreases s.len(),
{
    if s.len() > 0 && s[0].0 != k {
        lemma_named_len(s.skip(1), k);
    }
}

} // verus!
