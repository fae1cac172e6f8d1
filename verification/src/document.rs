//! The lossless document: raw notebook JSON beneath a typed index.

use crate::adapter::{kind_name, kind_named, CellKind};
use crate::json::{
    distinct, json_views, json_wf, lemma_obj_index, lemma_obj_index_is, lemma_obj_insert,
    lemma_obj_or_insert, lemma_obj_remove, lemma_wf_insert, lemma_wf_remove, obj_get, obj_has,
    obj_index, obj_insert, obj_or_insert, obj_remove, obj_swap_remove, v_str, v_u64, Entries, Json,
    JsonV, Object,
};
use crate::text::{
    append_chars, chars_of, concat, lemma_concat_split_keep, split_keep, split_keep_chars, str_eq,
    string_of, texts,
};
use vstd::prelude::*;

verus! {

#[derive(Clone, Copy, Debug, PartialEq, Eq, Structural)]
pub enum ExecState {
    Idle,
    Queued,
    Running,
    Done,
    Error,
}

impl Default for ExecState {
    fn default() -> (r: Self)
        ensures
            r == ExecState::Idle,
    {
        ExecState::Idle
    }
}

/// Per-cell runtime state. Never serialised.
#[derive(Debug, PartialEq)]
pub struct Runtime {
    pub state: ExecState,
    /// Source at load or at the most recent execution request.
    pub baseline: String,
    /// Wall time of the most recent completed execution, in nanoseconds.
    pub duration: Option<u64>,
    /// Why the most recent execution request could not be carried out.
    pub error: Option<String>,
}

/// What a [`Runtime`] holds.
pub struct RuntimeV {
    pub state: ExecState,
    pub baseline: Seq<char>,
    pub duration: Option<u64>,
    pub error: Option<Seq<char>>,
}

pub open spec fn opt_text(s: Option<String>) -> Option<Seq<char>> {
    match s {
        Some(s) => Some(s@),
        None => None,
    }
}

impl View for Runtime {
    type V = RuntimeV;

    open spec fn view(&self) -> RuntimeV {
        RuntimeV {
            state: self.state,
            baseline: self.baseline@,
            duration: self.duration,
            error: opt_text(self.error),
        }
    }
}

pub open spec fn runtime_default() -> RuntimeV {
    RuntimeV { state: ExecState::Idle, baseline: Seq::empty(), duration: None, error: None }
}

impl Default for Runtime {
    fn default() -> (r: Self)
        ensures
            r@ == runtime_default(),
    {
        let r = Runtime {
            state: ExecState::Idle,
            baseline: String::new(),
            duration: None,
            error: None,
        };
        assert(r.baseline@ =~= Seq::empty());
        r
    }
}

impl Clone for Runtime {
    fn clone(&self) -> (r: Self)
        ensures
            r@ == self@,
    {
        let error = match &self.error {
            Some(e) => Some(e.clone()),
            None => None,
        };
        Runtime { state: self.state, baseline: self.baseline.clone(), duration: self.duration, error }
    }
}

/// One cell: its raw JSON object plus the fields the current type does not allow.
#[derive(Debug, PartialEq)]
pub struct Cell {
    pub raw: Object,
    /// Fields removed from `raw` by a type change, restored when the type changes back.
    pub stash: Object,
    pub runtime: Runtime,
}

/// What a [`Cell`] holds.
pub struct CellV {
    pub raw: Entries,
    pub stash: Entries,
    pub runtime: RuntimeV,
}

impl View for Cell {
    type V = CellV;

    open spec fn view(&self) -> CellV {
        CellV { raw: self.raw@, stash: self.stash@, runtime: self.runtime@ }
    }
}

impl Clone for Cell {
    fn clone(&self) -> (r: Self)
        ensures
            r@ == self@,
    {
        Cell { raw: self.raw.clone(), stash: self.stash.clone(), runtime: self.runtime.clone() }
    }
}

/// Whether cells of `kind` may not have the field `name`.
pub open spec fn disallowed(kind: CellKind, name: Seq<char>) -> bool {
    match kind {
        CellKind::Code => name == "attachments"@,
        _ => name == "outputs"@ || name == "execution_count"@,
    }
}

/// The strings among `parts`, one after another.
pub open spec fn concat_strings(parts: Seq<JsonV>) -> Seq<char>
    decreases parts.len(),
{
    if parts.len() == 0 {
        Seq::empty()
    } else {
        let head = concat_strings(parts.drop_last());
        match parts.last() {
            JsonV::String(s) => head + s,
            _ => head,
        }
    }
}

/// The text of nbformat's multiline string: a string, or a list of strings.
pub open spec fn multiline_text(v: Option<JsonV>) -> Seq<char> {
    match v {
        Some(JsonV::String(s)) => s,
        Some(JsonV::Array(parts)) => concat_strings(parts),
        _ => Seq::empty(),
    }
}

/// nbformat's list form: every element but the last ends with a line break.
pub open spec fn multiline_list(s: Seq<char>) -> JsonV {
    JsonV::Array(split_keep(s).map_values(|l: Seq<char>| JsonV::String(l)))
}

pub open spec fn raw_kind(raw: Entries) -> CellKind {
    match v_str(obj_get(raw, "cell_type"@)) {
        Some(s) => match kind_named(s) {
            Some(k) => k,
            None => CellKind::Raw,
        },
        None => CellKind::Raw,
    }
}

pub open spec fn raw_source(raw: Entries) -> Seq<char> {
    multiline_text(obj_get(raw, "source"@))
}

/// `raw` with `source` written in the form, string or list, that it already uses.
pub open spec fn with_source(raw: Entries, source: Seq<char>) -> Entries {
    if obj_has(raw, "source"@) && raw_source(raw) == source {
        raw
    } else {
        obj_insert(
            raw,
            "source"@,
            match obj_get(raw, "source"@) {
                Some(JsonV::String(_)) => JsonV::String(source),
                _ => multiline_list(source),
            },
        )
    }
}

pub open spec fn list_of(v: Option<JsonV>) -> Seq<JsonV> {
    match v {
        Some(JsonV::Array(a)) => a,
        _ => Seq::empty(),
    }
}

pub open spec fn raw_outputs(raw: Entries) -> Seq<JsonV> {
    list_of(obj_get(raw, "outputs"@))
}

/// A value that a field has when nothing is recorded in it.
pub open spec fn is_default(name: Seq<char>, v: JsonV) -> bool {
    ||| name == "execution_count"@ && v == JsonV::Null
    ||| name == "outputs"@ && v == JsonV::Array(Seq::empty())
}

/// Moves one field from `raw` into the stash; a default is dropped.
pub open spec fn stash_field(raw: Entries, stash: Entries, name: Seq<char>) -> (Entries, Entries) {
    match obj_get(raw, name) {
        Some(v) => (
            obj_remove(raw, name),
            if is_default(name, v) {
                stash
            } else {
                obj_insert(stash, name, v)
            },
        ),
        None => (raw, stash),
    }
}

/// Moves the fields that `kind` does not allow into the stash.
pub open spec fn stash_all(raw: Entries, stash: Entries, kind: CellKind) -> (Entries, Entries) {
    match kind {
        CellKind::Code => stash_field(raw, stash, "attachments"@),
        _ => {
            let first = stash_field(raw, stash, "outputs"@);
            stash_field(first.0, first.1, "execution_count"@)
        },
    }
}

/// The names in the stash that `kind` allows.
pub open spec fn restorable(stash: Entries, kind: CellKind) -> Seq<Seq<char>>
    decreases stash.len(),
{
    if stash.len() == 0 {
        Seq::empty()
    } else {
        let front = restorable(stash.drop_last(), kind);
        if disallowed(kind, stash.last().0) {
            front
        } else {
            front.push(stash.last().0)
        }
    }
}

/// Moves the named fields from the stash back into `raw`.
pub open spec fn restore(raw: Entries, stash: Entries, names: Seq<Seq<char>>) -> (Entries, Entries)
    decreases names.len(),
{
    if names.len() == 0 {
        (raw, stash)
    } else {
        let front = restore(raw, stash, names.drop_last());
        let name = names.last();
        match obj_get(front.1, name) {
            Some(v) => (obj_insert(front.0, name, v), obj_swap_remove(front.1, name)),
            None => front,
        }
    }
}

/// The raw fields and the stash after a change of type.
pub open spec fn with_kind(raw: Entries, stash: Entries, kind: CellKind) -> (Entries, Entries) {
    if raw_kind(raw) == kind {
        (raw, stash)
    } else {
        let hidden = stash_all(raw, stash, kind);
        let shown = restore(hidden.0, hidden.1, restorable(hidden.1, kind));
        let full = if kind == CellKind::Code {
            obj_or_insert(
                obj_or_insert(shown.0, "execution_count"@, JsonV::Null),
                "outputs"@,
                JsonV::Array(Seq::empty()),
            )
        } else {
            shown.0
        };
        (obj_insert(full, "cell_type"@, JsonV::String(kind_name(kind))), shown.1)
    }
}

/// The fields of a new cell, without its source.
pub open spec fn blank_fields(kind: CellKind) -> Entries {
    let head = Entries::empty().push(("cell_type"@, JsonV::String(kind_name(kind))));
    let counted = if kind == CellKind::Code {
        head.push(("execution_count"@, JsonV::Null))
    } else {
        head
    };
    let described = counted.push(("metadata"@, JsonV::Object(Seq::empty())));
    let shown = if kind == CellKind::Code {
        described.push(("outputs"@, JsonV::Array(Seq::empty())))
    } else {
        described
    };
    shown.push(("source"@, JsonV::Array(Seq::empty())))
}

/// The cell that a raw object is loaded as.
pub open spec fn loaded(raw: Entries) -> CellV {
    CellV {
        raw,
        stash: Entries::empty(),
        runtime: RuntimeV { baseline: raw_source(raw), ..runtime_default() },
    }
}

/// A new cell.
pub open spec fn fresh(kind: CellKind, source: Seq<char>) -> CellV {
    CellV {
        raw: with_source(blank_fields(kind), source),
        stash: Entries::empty(),
        runtime: RuntimeV { baseline: source, ..runtime_default() },
    }
}

fn stash_named(raw: &mut Object, stash: &mut Object, name: &str)
    ensures
        (final(raw)@, final(stash)@) == stash_field(old(raw)@, old(stash)@, name@),
{
    if let Some(v) = raw.shift_remove(name) {
        let ghost vv = v@;
        // Defaults are recreated on the way back; stashing them would be noise.
        let default = match &v {
            Json::Null => str_eq(name, "execution_count"),
            Json::Array(a) => {
                assert(a@.len() == 0 ==> vv->Array_0 =~= Seq::empty());
                assert(a@.len() == vv->Array_0.len());
                str_eq(name, "outputs") && a.len() == 0
            },
            _ => false,
        };
        if !default {
            stash.insert(name, v);
        }
    }
}

fn is_disallowed(kind: CellKind, name: &str) -> (r: bool)
    ensures
        r == disallowed(kind, name@),
{
    match kind {
        CellKind::Code => str_eq(name, "attachments"),
        _ => str_eq(name, "outputs") || str_eq(name, "execution_count"),
    }
}

fn restorable_names(stash: &Object, kind: CellKind) -> (r: Vec<String>)
    ensures
        texts(r@) == restorable(stash@, kind),
{
    let mut out: Vec<String> = Vec::new();
    let mut i: usize = 0;
    assert(texts(out@) =~= restorable(stash@.take(0), kind));
    while i < stash.entries.len()
        invariant
            i <= stash.entries@.len(),
            texts(out@) == restorable(stash@.take(i as int), kind),
        decreases stash.entries@.len() - i,
    {
        let ghost names = texts(out@);
        assert(stash@.take(i + 1).drop_last() =~= stash@.take(i as int));
        assert(stash@.take(i + 1).last() == stash@[i as int]);
        if !is_disallowed(kind, stash.entries[i].0.as_str()) {
            out.push(stash.entries[i].0.clone());
            assert(texts(out@) =~= names.push(stash@[i as int].0));
        }
        i += 1;
    }
    assert(stash@.take(i as int) =~= stash@);
    out
}

impl Cell {
    pub fn new(kind: CellKind, source: &str) -> (r: Cell)
        ensures
            r@ == fresh(kind, source@),
    {
        let none = Object::new();
        let meta = Json::Object(none);
        assert(meta@ == JsonV::Object(none@));
        let outputs = empty_list();
        let lines = empty_list();
        let mut raw = Object::new();
        raw.entries.push(("cell_type".to_string(), Json::String(kind.as_nbformat().to_string())));
        if kind == CellKind::Code {
            raw.entries.push(("execution_count".to_string(), Json::Null));
        }
        raw.entries.push(("metadata".to_string(), meta));
        if kind == CellKind::Code {
            raw.entries.push(("outputs".to_string(), outputs));
        }
        raw.entries.push(("source".to_string(), lines));
        assert(raw@ =~= blank_fields(kind));
        let mut cell = Cell { raw, stash: Object::new(), runtime: Runtime::default() };
        let _ = cell.set_source(source);
        cell.runtime.baseline = source.to_string();
        cell
    }

    pub fn from_raw(raw: Object) -> (r: Cell)
        ensures
            r@ == loaded(raw@),
    {
        let mut cell = Cell { raw, stash: Object::new(), runtime: Runtime::default() };
        cell.runtime.baseline = cell.source();
        cell
    }

    /// Unknown cell types are treated as raw for projection; their `cell_type` is untouched.
    pub fn kind(&self) -> (r: CellKind)
        ensures
            r == raw_kind(self.raw@),
    {
        match self.raw.get("cell_type") {
            Some(v) => match v.as_str() {
                Some(s) => match CellKind::from_nbformat(s) {
                    Some(k) => k,
                    None => CellKind::Raw,
                },
                None => CellKind::Raw,
            },
            None => CellKind::Raw,
        }
    }

    pub fn set_kind(&mut self, kind: CellKind)
        ensures
            (final(self).raw@, final(self).stash@) == with_kind(
                old(self).raw@,
                old(self).stash@,
                kind,
            ),
            final(self).runtime == old(self).runtime,
    {
        if kind == self.kind() {
            return;
        }
        match kind {
            CellKind::Code => stash_named(&mut self.raw, &mut self.stash, "attachments"),
            _ => {
                stash_named(&mut self.raw, &mut self.stash, "outputs");
                stash_named(&mut self.raw, &mut self.stash, "execution_count");
            },
        }
        let ghost hidden = (self.raw@, self.stash@);
        let names = restorable_names(&self.stash, kind);
        let ghost list = texts(names@);
        let mut i: usize = 0;
        assert(list.take(0) =~= Seq::empty());
        while i < names.len()
            invariant
                i <= names@.len(),
                list == texts(names@),
                (self.raw@, self.stash@) == restore(hidden.0, hidden.1, list.take(i as int)),
                self.runtime == old(self).runtime,
            decreases names@.len() - i,
        {
            assert(list.take(i + 1).drop_last() =~= list.take(i as int));
            assert(list.take(i + 1).last() == names@[i as int]@);
            if let Some(v) = self.stash.swap_remove(names[i].as_str()) {
                self.raw.insert(names[i].as_str(), v);
            } else {
                assert(self.stash@ == restore(hidden.0, hidden.1, list.take(i as int)).1);
            }
            i += 1;
        }
        assert(list.take(i as int) =~= list);
        if kind == CellKind::Code {
            self.raw.or_insert("execution_count", Json::Null);
            self.raw.or_insert("outputs", empty_list());
        }
        self.raw.insert("cell_type", Json::String(kind.as_nbformat().to_string()));
    }

    /// nbformat multiline string: either a string or a list of strings.
    pub fn source(&self) -> (r: String)
        ensures
            r@ == raw_source(self.raw@),
    {
        multiline(self.raw.get("source"))
    }

    /// Writes `source`, keeping the representation (string or list) the cell already uses.
    /// Returns whether anything changed.
    pub fn set_source(&mut self, source: &str) -> (r: bool)
        ensures
            final(self)@ == (CellV { raw: with_source(old(self).raw@, source@), ..old(self)@ }),
            r == !(obj_has(old(self).raw@, "source"@) && raw_source(old(self).raw@) == source@),
    {
        if self.raw.contains_key("source") && str_eq(self.source().as_str(), source) {
            return false;
        }
        let as_string = match self.raw.get("source") {
            Some(Json::String(_)) => true,
            _ => false,
        };
        let value = if as_string {
            Json::String(source.to_string())
        } else {
            list_form(source)
        };
        self.raw.insert("source", value);
        true
    }

    pub fn outputs(&self) -> (r: &[Json])
        ensures
            json_views(r@) == raw_outputs(self.raw@),
    {
        match self.raw.get("outputs") {
            Some(Json::Array(a)) => {
                assert(json_views(a@) =~= raw_outputs(self.raw@));
                a.as_slice()
            },
            _ => {
                let none: &[Json] = &[];
                assert(json_views(none@) =~= raw_outputs(self.raw@));
                none
            },
        }
    }

    /// The list of outputs; created, or put in place of anything else, if need be.
    pub fn outputs_mut(&mut self) -> (r: &mut Vec<Json>)
        ensures
            json_views(r@) == raw_outputs(old(self).raw@),
            final(self)@ == (CellV {
                raw: obj_insert(
                    old(self).raw@,
                    "outputs"@,
                    JsonV::Array(json_views(final(r)@)),
                ),
                ..old(self)@
            }),
    {
        let ghost before = self.raw@;
        proof {
            lemma_obj_index(before, "outputs"@);
        }
        let i = self.raw.position("outputs");
        if i < self.raw.entries.len() {
            let listed = match &self.raw.entries[i].1 {
                Json::Array(_) => true,
                _ => false,
            };
            if !listed {
                self.raw.entries.set(i, ("outputs".to_string(), empty_list()));
            }
        } else {
            self.raw.entries.push(("outputs".to_string(), empty_list()));
        }
        proof {
            let mid = self.raw.entries@;
            assert forall|o: Object, v: Vec<Json>|
                o.entries@ == mid.update(i as int, (mid[i as int].0, Json::Array(v))) implies
                #[trigger] o@ == obj_insert(
                before,
                "outputs"@,
                JsonV::Array(#[trigger] json_views(v@)),
            ) by {
                let list = Json::Array(v);
                assert(list@->Array_0 =~= json_views(v@));
                assert(o@ =~= obj_insert(before, "outputs"@, list@));
            }
            assert forall|v: Vec<Json>| mid[i as int].1 == Json::Array(v) implies
                #[trigger] json_views(v@) == raw_outputs(before) by {
                assert(self.raw@[i as int].1->Array_0 =~= json_views(v@));
                assert(raw_outputs(before) =~= json_views(v@));
            }
        }
        match &mut self.raw.entries[i].1 {
            Json::Array(a) => a,
            _ => vstd::pervasive::unreached(),
        }
    }

    /// Leaves the cell without outputs.
    pub(crate) fn drop_outputs(&mut self)
        ensures
            final(self)@ == (CellV {
                raw: obj_insert(old(self).raw@, "outputs"@, JsonV::Array(Seq::empty())),
                ..old(self)@
            }),
    {
        self.raw.insert("outputs", empty_list());
    }

    pub fn execution_count(&self) -> (r: Option<u64>)
        ensures
            r == v_u64(obj_get(self.raw@, "execution_count"@)),
    {
        match self.raw.get("execution_count") {
            Some(v) => v.as_u64(),
            None => None,
        }
    }

    pub fn persisted_id(&self) -> (r: Option<&str>)
        ensures
            match r {
                Some(s) => v_str(obj_get(self.raw@, "id"@)) == Some(s@),
                None => v_str(obj_get(self.raw@, "id"@)) is None,
            },
    {
        match self.raw.get("id") {
            Some(v) => v.as_str(),
            None => None,
        }
    }

    pub fn is_stale(&self) -> (r: bool)
        ensures
            r == (raw_kind(self.raw@) == CellKind::Code && raw_source(self.raw@)
                != self.runtime.baseline@),
    {
        self.kind() == CellKind::Code && !str_eq(
            self.source().as_str(),
            self.runtime.baseline.as_str(),
        )
    }
}

pub(crate) fn empty_list() -> (r: Json)
    ensures
        r@ == JsonV::Array(Seq::empty()),
{
    let r = Json::Array(Vec::new());
    assert(r@->Array_0 =~= Seq::empty());
    r
}

pub(crate) fn list_form(source: &str) -> (r: Json)
    ensures
        r@ == multiline_list(source@),
{
    let parts = split_keep_newlines(source);
    let mut out: Vec<Json> = Vec::new();
    let mut i: usize = 0;
    while i < parts.len()
        invariant
            i <= parts@.len(),
            out@.len() == i,
            forall|j: int| 0 <= j < i ==> (#[trigger] out@[j])@ == JsonV::String(parts@[j]@),
        decreases parts@.len() - i,
    {
        out.push(Json::String(parts[i].clone()));
        i += 1;
    }
    let r = Json::Array(out);
    proof {
        let want = split_keep(source@).map_values(|l: Seq<char>| JsonV::String(l));
        assert forall|j: int| 0 <= j < want.len() implies r@->Array_0[j] == want[j] by {
            assert(texts(parts@)[j] == parts@[j]@);
            assert(out@[j]@ == JsonV::String(parts@[j]@));
        }
        assert(r@->Array_0 =~= want);
    }
    r
}

pub fn multiline(v: Option<&Json>) -> (r: String)
    ensures
        r@ == multiline_text(
            match v {
                Some(j) => Some(j@),
                None => None,
            },
        ),
{
    match v {
        Some(Json::String(s)) => s.clone(),
        Some(Json::Array(parts)) => {
            let mut out: Vec<char> = Vec::new();
            let mut i: usize = 0;
            let ghost s = v->0@->Array_0;
            assert(s.take(0) =~= Seq::empty());
            while i < parts.len()
                invariant
                    i <= parts@.len(),
                    s.len() == parts@.len(),
                    forall|j: int| 0 <= j < s.len() ==> #[trigger] s[j] == parts@[j]@,
                    out@ == concat_strings(s.take(i as int)),
                decreases parts@.len() - i,
            {
                assert(s.take(i + 1).drop_last() =~= s.take(i as int));
                assert(s.take(i + 1).last() == parts@[i as int]@);
                if let Json::String(t) = &parts[i] {
                    append_chars(&mut out, &chars_of(t.as_str()));
                }
                i += 1;
            }
            assert(s.take(i as int) =~= s);
            string_of(&out)
        },
        _ => {
            let r = String::new();
            assert(r@ =~= Seq::empty());
            r
        },
    }
}

/// Splits into nbformat's list form: every element but the last ends with `\n`.
pub fn split_keep_newlines(s: &str) -> (r: Vec<String>)
    ensures
        texts(r@) == split_keep(s@),
{
    split_keep_chars(&chars_of(s))
}

/// What is recorded of a cell's outputs, in its fields or stashed by a change of type.
pub open spec fn held_outputs(raw: Entries, stash: Entries) -> JsonV {
    match obj_get(raw, "outputs"@) {
        Some(v) => v,
        None => match obj_get(stash, "outputs"@) {
            Some(v) => v,
            None => JsonV::Array(Seq::empty()),
        },
    }
}

/// No field occurs twice, and the stash holds only fields that the cell's type does not
/// allow and that the cell does not have.
pub open spec fn cell_wf(raw: Entries, stash: Entries) -> bool {
    &&& distinct(raw)
    &&& distinct(stash)
    &&& forall|n: Seq<char>| #[trigger]
        obj_has(stash, n) ==> disallowed(raw_kind(raw), n) && !obj_has(raw, n)
}

proof fn lemma_names()
    ensures
        "cell_type"@.len() == 9,
        "attachments"@.len() == 11,
        "outputs"@.len() == 7,
        "execution_count"@.len() == 15,
        "source"@.len() == 6,
        "metadata"@.len() == 8,
{
    reveal_strlit("cell_type");
    reveal_strlit("attachments");
    reveal_strlit("outputs");
    reveal_strlit("execution_count");
    reveal_strlit("source");
    reveal_strlit("metadata");
}

proof fn lemma_concat_strings(parts: Seq<Seq<char>>)
    ensures
        concat_strings(parts.map_values(|l: Seq<char>| JsonV::String(l))) == concat(parts),
    decreases parts.len(),
{
    let f = |l: Seq<char>| JsonV::String(l);
    let m = parts.map_values(f);
    if parts.len() > 0 {
        lemma_concat_strings(parts.drop_last());
        assert(m.drop_last() =~= parts.drop_last().map_values(f));
        assert(m.last() == JsonV::String(parts.last()));
    }
}

/// A text in list form is read back.
pub proof fn lemma_list_text(s: Seq<char>)
    ensures
        multiline_text(Some(multiline_list(s))) == s,
{
    lemma_concat_strings(split_keep(s));
    lemma_concat_split_keep(s);
}

/// A source that was written is read back.
pub proof fn source_round_trip(raw: Entries, source: Seq<char>)
    ensures
        raw_source(with_source(raw, source)) == source,
        forall|n: Seq<char>|
            n != "source"@ ==> #[trigger] obj_get(with_source(raw, source), n) == obj_get(raw, n),
        distinct(raw) ==> distinct(with_source(raw, source)),
{
    if !(obj_has(raw, "source"@) && raw_source(raw) == source) {
        let v = match obj_get(raw, "source"@) {
            Some(JsonV::String(_)) => JsonV::String(source),
            _ => multiline_list(source),
        };
        lemma_obj_insert(raw, "source"@, v, "source"@);
        lemma_concat_strings(split_keep(source));
        lemma_concat_split_keep(source);
        assert forall|n: Seq<char>| n != "source"@ implies #[trigger] obj_get(
            with_source(raw, source),
            n,
        ) == obj_get(raw, n) by {
            lemma_obj_insert(raw, "source"@, v, n);
        }
    }
}

/// What the stash holds under a name once the fields that `kind` does not allow are in it.
pub open spec fn stashed_at(
    raw: Entries,
    stash: Entries,
    kind: CellKind,
    name: Seq<char>,
) -> Option<JsonV> {
    match obj_get(raw, name) {
        Some(v) => if disallowed(kind, name) && !is_default(name, v) {
            Some(v)
        } else {
            obj_get(stash, name)
        },
        None => obj_get(stash, name),
    }
}

proof fn lemma_stash_field(raw: Entries, stash: Entries, field: Seq<char>, n: Seq<char>)
    requires
        distinct(raw),
        distinct(stash),
    ensures
        ({
            let r = stash_field(raw, stash, field);
            &&& distinct(r.0)
            &&& distinct(r.1)
            &&& obj_get(r.0, n) == if n == field {
                None
            } else {
                obj_get(raw, n)
            }
            &&& obj_get(r.1, n) == if n == field && obj_get(raw, n) is Some && !is_default(
                n,
                obj_get(raw, n)->0,
            ) {
                obj_get(raw, n)
            } else {
                obj_get(stash, n)
            }
        }),
{
    lemma_obj_remove(raw, field, n);
    if let Some(v) = obj_get(raw, field) {
        lemma_obj_insert(stash, field, v, n);
    }
}

proof fn lemma_stash_all(raw: Entries, stash: Entries, kind: CellKind, n: Seq<char>)
    requires
        distinct(raw),
        distinct(stash),
    ensures
        ({
            let r = stash_all(raw, stash, kind);
            &&& distinct(r.0)
            &&& distinct(r.1)
            &&& obj_get(r.0, n) == if disallowed(kind, n) {
                None
            } else {
                obj_get(raw, n)
            }
            &&& obj_get(r.1, n) == stashed_at(raw, stash, kind, n)
        }),
{
    lemma_names();
    if kind == CellKind::Code {
        lemma_stash_field(raw, stash, "attachments"@, n);
    } else {
        lemma_stash_field(raw, stash, "outputs"@, n);
        let first = stash_field(raw, stash, "outputs"@);
        lemma_stash_field(first.0, first.1, "execution_count"@, n);
    }
}

proof fn lemma_restorable(stash: Entries, kind: CellKind, n: Seq<char>)
    ensures
        restorable(stash, kind).contains(n) == (obj_has(stash, n) && !disallowed(kind, n)),
    decreases stash.len(),
{
    let names = restorable(stash, kind);
    if stash.len() == 0 {
    } else {
        let front = stash.drop_last();
        let before = restorable(front, kind);
        lemma_restorable(front, kind, n);
        lemma_obj_index(stash, n);
        lemma_obj_index(front, n);
        let m = obj_index(front, n);
        assert forall|j: int| 0 <= j < m implies (#[trigger] stash[j]).0 != n by {
            assert(front[j] == stash[j]);
        }
        if m < front.len() {
            lemma_obj_index_is(stash, n, m);
        } else if stash.last().0 == n {
            lemma_obj_index_is(stash, n, m);
        } else {
            lemma_obj_index_is(stash, n, stash.len() as int);
        }
        if !disallowed(kind, stash.last().0) {
            if before.contains(n) {
                let i = choose|i: int| 0 <= i < before.len() && before[i] == n;
                assert(names[i] == n);
            }
            if stash.last().0 == n {
                assert(names[before.len() as int] == n);
            }
            if names.contains(n) {
                let i = choose|i: int| 0 <= i < names.len() && names[i] == n;
                if i < before.len() {
                    assert(before[i] == n);
                }
            }
        }
    }
}

proof fn lemma_restore(raw: Entries, stash: Entries, names: Seq<Seq<char>>, n: Seq<char>)
    requires
        distinct(raw),
        distinct(stash),
    ensures
        ({
            let r = restore(raw, stash, names);
            &&& distinct(r.0)
            &&& distinct(r.1)
            &&& obj_get(r.0, n) == if names.contains(n) && obj_has(stash, n) {
                obj_get(stash, n)
            } else {
                obj_get(raw, n)
            }
            &&& obj_get(r.1, n) == if names.contains(n) {
                None
            } else {
                obj_get(stash, n)
            }
        }),
    decreases names.len(),
{
    if names.len() > 0 {
        let before = names.drop_last();
        lemma_restore(raw, stash, before, n);
        lemma_restore(raw, stash, before, names.last());
        let front = restore(raw, stash, before);
        let name = names.last();
        if let Some(v) = obj_get(front.1, name) {
            lemma_obj_insert(front.0, name, v, n);
            lemma_obj_remove(front.1, name, n);
        }
        if names.contains(n) {
            let i = choose|i: int| 0 <= i < names.len() && names[i] == n;
            if i < before.len() {
                assert(before[i] == n);
            }
        }
        if before.contains(n) {
            let i = choose|i: int| 0 <= i < before.len() && before[i] == n;
            assert(names[i] == n);
        }
        assert(names[names.len() - 1] == name);
    }
}

/// Each field of a cell after a change of type.
pub proof fn lemma_with_kind(raw: Entries, stash: Entries, kind: CellKind, n: Seq<char>)
    requires
        distinct(raw),
        distinct(stash),
        raw_kind(raw) != kind,
    ensures
        ({
            let r = with_kind(raw, stash, kind);
            &&& distinct(r.0)
            &&& distinct(r.1)
            &&& obj_get(r.1, n) == if disallowed(kind, n) {
                stashed_at(raw, stash, kind, n)
            } else {
                None
            }
            &&& obj_get(r.0, n) == if n == "cell_type"@ {
                Some(JsonV::String(kind_name(kind)))
            } else if disallowed(kind, n) {
                None
            } else if obj_has(stash, n) {
                obj_get(stash, n)
            } else if obj_has(raw, n) {
                obj_get(raw, n)
            } else if kind == CellKind::Code && n == "execution_count"@ {
                Some(JsonV::Null)
            } else if kind == CellKind::Code && n == "outputs"@ {
                Some(JsonV::Array(Seq::empty()))
            } else {
                None
            }
        }),
{
    lemma_names();
    let hidden = stash_all(raw, stash, kind);
    lemma_stash_all(raw, stash, kind, n);
    let names = restorable(hidden.1, kind);
    lemma_restorable(hidden.1, kind, n);
    lemma_restore(hidden.0, hidden.1, names, n);
    let shown = restore(hidden.0, hidden.1, names);
    let full = if kind == CellKind::Code {
        let counted = obj_or_insert(shown.0, "execution_count"@, JsonV::Null);
        lemma_obj_or_insert(shown.0, "execution_count"@, JsonV::Null, n);
        lemma_obj_or_insert(counted, "outputs"@, JsonV::Array(Seq::empty()), n);
        obj_or_insert(counted, "outputs"@, JsonV::Array(Seq::empty()))
    } else {
        shown.0
    };
    lemma_obj_insert(full, "cell_type"@, JsonV::String(kind_name(kind)), n);
}

/// A change of type gives the cell that type.
pub proof fn kind_is_set(raw: Entries, stash: Entries, kind: CellKind)
    ensures
        raw_kind(with_kind(raw, stash, kind).0) == kind,
{
    cell_type_is_set(raw, stash, kind);
    crate::adapter::kind_name_round_trip(kind);
}

/// A change of type names the new type, or leaves the name of the same type as it is.
pub proof fn cell_type_is_set(raw: Entries, stash: Entries, kind: CellKind)
    ensures
        obj_get(with_kind(raw, stash, kind).0, "cell_type"@) == if raw_kind(raw) == kind {
            obj_get(raw, "cell_type"@)
        } else {
            Some(JsonV::String(kind_name(kind)))
        },
{
    if raw_kind(raw) != kind {
        let hidden = stash_all(raw, stash, kind);
        let shown = restore(hidden.0, hidden.1, restorable(hidden.1, kind));
        let full = if kind == CellKind::Code {
            obj_or_insert(
                obj_or_insert(shown.0, "execution_count"@, JsonV::Null),
                "outputs"@,
                JsonV::Array(Seq::empty()),
            )
        } else {
            shown.0
        };
        lemma_obj_insert(full, "cell_type"@, JsonV::String(kind_name(kind)), "cell_type"@);
    }
}

/// In what a cell holds, no name occurs twice.
pub open spec fn fields_wf(raw: Entries, stash: Entries) -> bool {
    json_wf(JsonV::Object(raw)) && json_wf(JsonV::Object(stash))
}

pub proof fn lemma_lines_wf(s: Seq<char>)
    ensures
        json_wf(multiline_list(s)),
{
    let lines = multiline_list(s)->Array_0;
    assert forall|i: int| 0 <= i < lines.len() implies json_wf(#[trigger] lines[i]) by {
        assert(lines[i] is String);
    }
}

proof fn lemma_stash_wf(raw: Entries, stash: Entries, name: Seq<char>)
    requires
        fields_wf(raw, stash),
    ensures
        fields_wf(stash_field(raw, stash, name).0, stash_field(raw, stash, name).1),
{
    lemma_wf_remove(raw, name);
    if let Some(v) = obj_get(raw, name) {
        lemma_wf_insert(stash, name, v);
    }
}

proof fn lemma_restore_wf(raw: Entries, stash: Entries, names: Seq<Seq<char>>)
    requires
        fields_wf(raw, stash),
    ensures
        fields_wf(restore(raw, stash, names).0, restore(raw, stash, names).1),
    decreases names.len(),
{
    if names.len() > 0 {
        lemma_restore_wf(raw, stash, names.drop_last());
        let front = restore(raw, stash, names.drop_last());
        lemma_wf_remove(front.1, names.last());
        if let Some(v) = obj_get(front.1, names.last()) {
            lemma_wf_insert(front.0, names.last(), v);
        }
    }
}

/// Where no name occurs twice in what a cell holds, none does after a change of its type or
/// its source.
pub proof fn changes_keep_fields(
    raw: Entries,
    stash: Entries,
    kind: CellKind,
    source: Seq<char>,
)
    requires
        fields_wf(raw, stash),
    ensures
        fields_wf(with_kind(raw, stash, kind).0, with_kind(raw, stash, kind).1),
        fields_wf(with_source(raw, source), stash),
{
    lemma_wf_insert(raw, "source"@, JsonV::String(source));
    lemma_lines_wf(source);
    lemma_wf_insert(raw, "source"@, multiline_list(source));
    lemma_stash_wf(raw, stash, "attachments"@);
    lemma_stash_wf(raw, stash, "outputs"@);
    let first = stash_field(raw, stash, "outputs"@);
    lemma_stash_wf(first.0, first.1, "execution_count"@);
    let hidden = stash_all(raw, stash, kind);
    lemma_restore_wf(hidden.0, hidden.1, restorable(hidden.1, kind));
    let shown = restore(hidden.0, hidden.1, restorable(hidden.1, kind));
    let name = JsonV::String(kind_name(kind));
    lemma_wf_insert(shown.0, "cell_type"@, name);
    lemma_wf_insert(shown.0, "execution_count"@, JsonV::Null);
    let counted = obj_or_insert(shown.0, "execution_count"@, JsonV::Null);
    lemma_wf_insert(counted, "outputs"@, JsonV::Array(Seq::empty()));
    let full = obj_or_insert(counted, "outputs"@, JsonV::Array(Seq::empty()));
    lemma_wf_insert(full, "cell_type"@, name);
}

/// A change of type keeps a cell's invariant, its source, and what is recorded of its
/// outputs.
pub proof fn kind_keeps_cell(raw: Entries, stash: Entries, kind: CellKind)
    requires
        cell_wf(raw, stash),
    ensures
        ({
            let r = with_kind(raw, stash, kind);
            &&& cell_wf(r.0, r.1)
            &&& raw_source(r.0) == raw_source(raw)
            &&& held_outputs(r.0, r.1) == held_outputs(raw, stash)
        }),
{
    lemma_names();
    let r = with_kind(raw, stash, kind);
    if raw_kind(raw) != kind {
        kind_is_set(raw, stash, kind);
        lemma_with_kind(raw, stash, kind, "source"@);
        lemma_with_kind(raw, stash, kind, "outputs"@);
        assert(!obj_has(stash, "source"@));
        assert forall|n: Seq<char>| #[trigger] obj_has(r.1, n) implies disallowed(kind, n)
            && !obj_has(r.0, n) by {
            lemma_with_kind(raw, stash, kind, n);
        }
        if obj_has(stash, "outputs"@) {
            assert(!obj_has(raw, "outputs"@));
        }
    }
}

/// Writing a source keeps a cell's invariant, its type, and what is recorded of its outputs.
pub proof fn source_keeps_cell(raw: Entries, stash: Entries, source: Seq<char>)
    ensures
        ({
            let r = with_source(raw, source);
            &&& cell_wf(raw, stash) ==> cell_wf(r, stash)
            &&& raw_kind(r) == raw_kind(raw)
            &&& held_outputs(r, stash) == held_outputs(raw, stash)
        }),
{
    lemma_names();
    source_round_trip(raw, source);
    let r = with_source(raw, source);
    assert(obj_get(r, "outputs"@) == obj_get(raw, "outputs"@));
    assert(obj_get(r, "cell_type"@) == obj_get(raw, "cell_type"@));
    if cell_wf(raw, stash) {
        assert forall|n: Seq<char>| #[trigger] obj_has(stash, n) implies disallowed(raw_kind(r), n)
            && !obj_has(r, n) by {
            assert(obj_get(r, n) == obj_get(raw, n));
        }
    }
}

/// A cell that has exactly the fields its type asks for: none that the type does not allow,
/// and for code both fields that execution writes. The stash holds no default.
pub open spec fn cell_valid(raw: Entries, stash: Entries) -> bool {
    &&& cell_wf(raw, stash)
    &&& obj_get(raw, "cell_type"@) == Some(JsonV::String(kind_name(raw_kind(raw))))
    &&& forall|n: Seq<char>| #[trigger] obj_has(raw, n) ==> !disallowed(raw_kind(raw), n)
    &&& raw_kind(raw) == CellKind::Code ==> obj_has(raw, "outputs"@) && obj_has(
        raw,
        "execution_count"@,
    )
    &&& forall|n: Seq<char>| #[trigger] obj_has(stash, n) ==> !is_default(n, obj_get(stash, n)->0)
}

/// Changing a cell's type and changing it back restores every field, and the stash.
pub proof fn kind_there_and_back(raw: Entries, stash: Entries, kind: CellKind, n: Seq<char>)
    requires
        cell_valid(raw, stash),
    ensures
        ({
            let there = with_kind(raw, stash, kind);
            let back = with_kind(there.0, there.1, raw_kind(raw));
            &&& obj_get(back.0, n) == obj_get(raw, n)
            &&& obj_get(back.1, n) == obj_get(stash, n)
        }),
{
    lemma_names();
    let old = raw_kind(raw);
    if old != kind {
        let there = with_kind(raw, stash, kind);
        kind_is_set(raw, stash, kind);
        lemma_with_kind(raw, stash, kind, n);
        lemma_with_kind(there.0, there.1, old, n);
        let back = with_kind(there.0, there.1, old);
        assert(obj_has(raw, n) ==> !disallowed(old, n));
        assert(obj_has(stash, n) ==> disallowed(old, n) && !obj_has(raw, n));
        assert(obj_has(stash, n) ==> !is_default(n, obj_get(stash, n)->0));
    }
}

/// A new cell has its kind and source, no outputs, and nothing stashed.
pub proof fn fresh_cell(kind: CellKind, source: Seq<char>)
    ensures
        ({
            let c = fresh(kind, source);
            &&& cell_wf(c.raw, c.stash)
            &&& raw_kind(c.raw) == kind
            &&& raw_source(c.raw) == source
            &&& held_outputs(c.raw, c.stash) == JsonV::Array(Seq::empty())
        }),
{
    lemma_names();
    let blank = blank_fields(kind);
    let none = Entries::empty();
    source_round_trip(blank, source);
    source_keeps_cell(blank, none, source);
    crate::adapter::kind_name_round_trip(kind);
    lemma_obj_index_is(blank, "cell_type"@, 0);
    lemma_obj_index_is(blank, "outputs"@, 3);
    assert(distinct(blank));
    assert forall|n: Seq<char>| #[trigger] obj_has(none, n) implies false by {
        lemma_obj_index(none, n);
    }
    assert(cell_wf(blank, none));
}

/// A changed source is written in the form that the file has: a text stays a text, and a list has
/// an entry for each line, with its line break.
pub proof fn source_keeps_its_form(raw: Entries, source: Seq<char>)
    ensures
        ({
            let was = obj_get(raw, "source"@);
            let now = obj_get(with_source(raw, source), "source"@);
            &&& was matches Some(JsonV::String(_)) ==> now == Some(JsonV::String(source))
            &&& was matches Some(JsonV::Array(_)) ==> (now matches Some(JsonV::Array(_)))
            &&& was is None ==> now is Some && now->Some_0 is Array && now->Some_0->Array_0.len()
                == split_keep(source).len() && forall|i: int|
                0 <= i < split_keep(source).len() ==> #[trigger] now->Some_0->Array_0[i]
                    == JsonV::String(split_keep(source)[i])
        }),
{
    lemma_obj_index(raw, "source"@);
    lemma_obj_insert(raw, "source"@, JsonV::String(source), "source"@);
    lemma_obj_insert(raw, "source"@, multiline_list(source), "source"@);
}

/// A new cell has what the format asks of it: a type, a source and metadata, and if it is code an
/// empty list of outputs and no execution count. It has nothing else.
pub proof fn new_cells_have_their_fields(kind: CellKind, source: Seq<char>)
    requires
        source.len() > 0,
    ensures
        ({
            let raw = fresh(kind, source).raw;
            &&& v_str(obj_get(raw, "cell_type"@)) == Some(kind_name(kind))
            &&& obj_get(raw, "metadata"@) == Some(JsonV::Object(Seq::empty()))
            &&& raw_source(raw) == source
            &&& kind == CellKind::Code ==> {
                &&& obj_get(raw, "outputs"@) == Some(JsonV::Array(Seq::empty()))
                &&& obj_get(raw, "execution_count"@) == Some(JsonV::Null)
                &&& raw.len() == 5
            }
            &&& kind != CellKind::Code ==> raw.len() == 3
        }),
{
    lemma_names();
    let blank = blank_fields(kind);
    source_round_trip(blank, source);
    if kind == CellKind::Code {
        lemma_obj_index_is(blank, "cell_type"@, 0);
        lemma_obj_index_is(blank, "execution_count"@, 1);
        lemma_obj_index_is(blank, "metadata"@, 2);
        lemma_obj_index_is(blank, "outputs"@, 3);
        lemma_obj_index_is(blank, "source"@, 4);
    } else {
        lemma_obj_index_is(blank, "cell_type"@, 0);
        lemma_obj_index_is(blank, "metadata"@, 1);
        lemma_obj_index_is(blank, "source"@, 2);
    }
    let v = multiline_list(source);
    lemma_obj_insert(blank, "source"@, v, "cell_type"@);
    lemma_obj_insert(blank, "source"@, v, "execution_count"@);
    lemma_obj_insert(blank, "source"@, v, "metadata"@);
    lemma_obj_insert(blank, "source"@, v, "outputs"@);
    assert(raw_source(blank) =~= Seq::empty());
}

} // verus!
