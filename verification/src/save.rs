//! Writing a notebook: its JSON, its bytes, and when a file may be replaced.

use crate::adapter::CellKind;
use crate::document::{blank_fields, changes_keep_fields, fields_wf, fresh, loaded, CellV};
use crate::history::{
    after, applied, cell_at, doc_wf, group_keeps_document, joined, kinded, lemma_pos, lines_of, run,
    source_of, sourced, valid, ChangeV, DocV, Name,
};
use crate::json::{
    distinct, integers_only, json_normal, json_parsed, json_pretty, json_wf, lemma_json_normal,
    lemma_obj_index, lemma_obj_index_is, lemma_obj_insert, lemma_obj_remove, lemma_wf_insert,
    lemma_wf_remove, nests_within, number_from, number_of, obj_get, obj_has, obj_index, obj_insert,
    obj_remove, pretty, v_get, v_str, v_u64, Entries, Json, JsonV, Object,
};
use crate::load::{
    cells_refusal, digest, known_type, loaded_cells, read_as, refused, sha256, text_cells, text_top,
};
use crate::notebook::{hash_view, CommitOptions, Notebook};
use crate::session::{steps, StepV};
use crate::text::{append_chars, chars_of, is_less, one, str_eq, string_of, text_less};
use vstd::prelude::*;

verus! {

/// Why a notebook was not written.
#[derive(Debug)]
pub enum CommitError {
    /// The file is not the one that was read or written last.
    ChangedOnDisk(String),
}

impl CommitError {
    pub open spec fn shown(&self) -> Seq<char> {
        match *self {
            CommitError::ChangedOnDisk(p) => p@
                + " changed on disk since it was loaded (use :w! to overwrite, :e! to reload)"@,
        }
    }

    pub fn message(&self) -> (r: String)
        ensures
            r@ == self.shown(),
    {
        match self {
            CommitError::ChangedOnDisk(p) => {
                let mut out = chars_of(p.as_str());
                append_chars(
                    &mut out,
                    &chars_of(
                        " changed on disk since it was loaded (use :w! to overwrite, :e! to reload)",
                    ),
                );
                string_of(&out)
            },
        }
    }
}

/// The kernel recorded in a notebook's metadata, unless it is recorded there already.
pub open spec fn kernelspec_set(
    before: &Notebook,
    after: &Notebook,
    name: Seq<char>,
    display_name: Seq<char>,
    language: Seq<char>,
) -> bool {
    let meta = obj_get(before.top@, "metadata"@)->Some_0->Object_0;
    &&& after.history() == before.history()
    &&& after.path@ == before.path@
    &&& after.trailing_newline == before.trailing_newline
    &&& after.minter@ == before.minter@
    &&& hash_view(after.disk_hash) == hash_view(before.disk_hash)
    &&& if is_kernelspec(obj_get(meta, "kernelspec"@), name, display_name, language) {
        after.top@ == before.top@ && after.mutated == before.mutated
    } else {
        &&& after.mutated
        &&& after.top@ == obj_insert(
            before.top@,
            "metadata"@,
            JsonV::Object(
                obj_insert(meta, "kernelspec"@, kernelspec(name, display_name, language)),
            ),
        )
    }
}

/// Whether the names of entries are in order.
pub open spec fn names_sorted(s: Entries) -> bool {
    forall|i: int, j: int|
        0 <= i && j == i + 1 && j < s.len() ==> !text_less((#[trigger] s[j]).0, (#[trigger] s[i]).0)
}

/// The position of the first name after `k`, or the number of entries.
pub open spec fn first_after(s: Entries, k: Seq<char>, i: int) -> int
    decreases s.len() - i,
{
    if i >= s.len() || text_less(k, s[i].0) {
        i
    } else {
        first_after(s, k, i + 1)
    }
}

/// Sets an entry in its place, or adds it where it belongs if the names are in order, else at
/// the end.
pub open spec fn sorted_insert(s: Entries, k: Seq<char>, v: JsonV) -> Entries {
    if obj_has(s, k) {
        obj_insert(s, k, v)
    } else if names_sorted(s) {
        s.insert(first_after(s, k, 0), (k, v))
    } else {
        s.push((k, v))
    }
}

/// Inserts `key` where it belongs if the names are sorted, else at the end.
fn insert_sorted(map: &mut Object, key: &str, value: Json)
    ensures
        final(map)@ == sorted_insert(old(map)@, key@, value@),
{
    let ghost before = map@;
    if map.contains_key(key) {
        map.insert(key, value);
        return;
    }
    let n = map.entries.len();
    let mut sorted = true;
    let mut i: usize = 1;
    while i < n
        invariant
            n == map.entries@.len(),
            1 <= i,
            i <= n || n == 0,
            before == map@,
            sorted == (forall|a: int, b: int|
                0 <= a && b == a + 1 && b < i && b < n ==> !text_less(
                    (#[trigger] before[b]).0,
                    (#[trigger] before[a]).0,
                )),
        decreases n - i,
    {
        assert(before[i as int].0 == map.entries@[i as int].0@);
        assert(before[i - 1].0 == map.entries@[i - 1].0@);
        if is_less(map.entries[i].0.as_str(), map.entries[i - 1].0.as_str()) {
            sorted = false;
        }
        i += 1;
    }
    assert(sorted == names_sorted(before));
    let mut at: usize = n;
    if sorted {
        at = 0;
        while at < n && !is_less(key, map.entries[at].0.as_str())
            invariant
                n == map.entries@.len(),
                at <= n,
                before == map@,
                first_after(before, key@, 0) == first_after(before, key@, at as int),
            decreases n - at,
        {
            assert(before[at as int].0 == map.entries@[at as int].0@);
            at += 1;
        }
        assert(at < n ==> before[at as int].0 == map.entries@[at as int].0@);
    }
    let ghost v = value@;
    map.entries.insert(at, (key.to_string(), value));
    assert(map@ =~= before.insert(at as int, (key@, v)));
    assert(!sorted ==> map@ =~= before.push((key@, v)));
}

/// A cell as it is written: with its key as its id once anything has changed.
pub open spec fn cell_json(c: CellV, key: Seq<char>, mutated: bool) -> JsonV {
    JsonV::Object(
        if mutated {
            sorted_insert(c.raw, "id"@, JsonV::String(key))
        } else {
            c.raw
        },
    )
}

pub open spec fn cells_json(d: DocV, mutated: bool) -> Seq<JsonV> {
    Seq::new(d.order.len(), |i: int| cell_json(d.live[d.order[i]], d.order[i], mutated))
}

/// The top-level object as it is written: ids need nbformat 4.5.
pub open spec fn top_json(top: Entries, d: DocV, mutated: bool) -> Entries {
    let full = obj_insert(top, "cells"@, JsonV::Array(cells_json(d, mutated)));
    let minor = v_u64(obj_get(full, "nbformat_minor"@));
    if mutated && (minor is None || minor->0 < 5) {
        obj_insert(full, "nbformat_minor"@, JsonV::Number(number_from(5)))
    } else {
        full
    }
}

/// A kernel's record in the metadata.
pub open spec fn kernelspec(
    name: Seq<char>,
    display_name: Seq<char>,
    language: Seq<char>,
) -> JsonV {
    JsonV::Object(
        seq![
            ("display_name"@, JsonV::String(display_name)),
            ("language"@, JsonV::String(language)),
            ("name"@, JsonV::String(name)),
        ],
    )
}

/// Whether a value is that record, whatever the order of its entries.
pub open spec fn is_kernelspec(
    v: Option<JsonV>,
    name: Seq<char>,
    display_name: Seq<char>,
    language: Seq<char>,
) -> bool {
    match v {
        Some(JsonV::Object(o)) => {
            &&& o.len() == 3
            &&& obj_get(o, "display_name"@) == Some(JsonV::String(display_name))
            &&& obj_get(o, "language"@) == Some(JsonV::String(language))
            &&& obj_get(o, "name"@) == Some(JsonV::String(name))
        },
        _ => false,
    }
}

fn string_entry(o: &Object, name: &str, text: &str) -> (r: bool)
    ensures
        r == (obj_get(o@, name@) == Some(JsonV::String(text@))),
{
    match o.get(name) {
        Some(Json::String(s)) => str_eq(s.as_str(), text),
        _ => false,
    }
}

fn holds_kernelspec(v: Option<&Json>, name: &str, display_name: &str, language: &str) -> (r: bool)
    ensures
        r == is_kernelspec(
            match v {
                Some(j) => Some(j@),
                None => None,
            },
            name@,
            display_name@,
            language@,
        ),
{
    match v {
        Some(Json::Object(o)) => {
            assert(v->0@ == JsonV::Object(o@));
            o.entries.len() == 3 && string_entry(o, "display_name", display_name) && string_entry(
                o,
                "language",
                language,
            ) && string_entry(o, "name", name)
        },
        _ => false,
    }
}

impl Notebook {
    /// The kernel name from `metadata.kernelspec.name`, if any.
    pub fn kernel_name(&self) -> (r: Option<&str>)
        ensures
            ({
                let v = v_str(
                    v_get(v_get(obj_get(self.top@, "metadata"@), "kernelspec"@), "name"@),
                );
                match r {
                    Some(s) => v == Some(s@),
                    None => v is None,
                }
            }),
    {
        match self.top.get("metadata") {
            Some(meta) => match meta.get("kernelspec") {
                Some(kernel) => match kernel.get("name") {
                    Some(name) => name.as_str(),
                    None => None,
                },
                None => None,
            },
            None => None,
        }
    }

    /// Records the kernel the notebook runs on, as Jupyter does when a kernel is chosen.
    pub fn set_kernelspec(&mut self, name: &str, display_name: &str, language: &str)
        requires
            old(self).wf(),
        ensures
            final(self).wf(),
            kernelspec_set(old(self), final(self), name@, display_name@, language@),
            steps(
                old(self),
                StepV::SetKernelspec {
                    name: name@,
                    display_name: display_name@,
                    language: language@,
                },
                final(self),
            ),
    {
        proof {
            reveal(steps);
        }
        let ghost top = self.top@;
        let mut meta = match self.top.get("metadata") {
            Some(Json::Object(o)) => {
                assert(obj_get(top, "metadata"@) == Some(JsonV::Object(o@)));
                o.clone()
            },
            _ => {
                return;
            },
        };
        if holds_kernelspec(meta.get("kernelspec"), name, display_name, language) {
            return;
        }
        let mut record = Object::new();
        record.entries.push(("display_name".to_string(), Json::String(display_name.to_string())));
        record.entries.push(("language".to_string(), Json::String(language.to_string())));
        record.entries.push(("name".to_string(), Json::String(name.to_string())));
        proof {
            let want = kernelspec(name@, display_name@, language@)->Object_0;
            assert(record.entries@.len() == 3);
            assert(record@[0] == want[0] && record@[1] == want[1] && record@[2] == want[2]);
            assert(record@ =~= want);
        }
        let value = Json::Object(record);
        assert(value@ == JsonV::Object(record@));
        meta.insert("kernelspec", value);
        let whole = Json::Object(meta);
        assert(whole@ == JsonV::Object(meta@));
        self.top.insert("metadata", whole);
        proof {
            lemma_obj_insert(top, "metadata"@, whole@, "metadata"@);
        }
        self.mutated = true;
    }

    /// The document as nbformat JSON, as it would be committed.
    pub fn to_json(&self) -> (r: Json)
        requires
            self.wf(),
        ensures
            r@ == JsonV::Object(top_json(self.top@, self.doc(), self.mutated)),
    {
        let ghost d = self.doc();
        let mut cells: Vec<Json> = Vec::new();
        let mut i: usize = 0;
        while i < self.order.len()
            invariant
                self.wf(),
                d == self.doc(),
                i <= self.order@.len(),
                cells@.len() == i,
                forall|j: int|
                    0 <= j < i ==> (#[trigger] cells@[j])@ == cells_json(d, self.mutated)[j],
            decreases self.order@.len() - i,
        {
            assert(d.order[i as int] == self.order@[i as int]@);
            assert(d.order.contains(d.order[i as int]));
            assert(d.live.dom().contains(d.order[i as int]));
            let mut raw = match self.live.get(&self.order[i]) {
                Some(cell) => cell.raw.clone(),
                None => Object::new(),
            };
            if self.mutated {
                let id = Json::String(self.order[i].as_str().to_string());
                insert_sorted(&mut raw, "id", id);
            }
            let cell = Json::Object(raw);
            assert(cell@ == JsonV::Object(raw@));
            cells.push(cell);
            i += 1;
        }
        let list = Json::Array(cells);
        assert(list@->Array_0 =~= cells_json(d, self.mutated));
        let mut top = self.top.clone();
        top.insert("cells", list);
        if self.mutated {
            let minor = match top.get("nbformat_minor") {
                Some(v) => v.as_u64(),
                None => None,
            };
            let old_minor = match minor {
                Some(m) => m < 5,
                None => true,
            };
            if old_minor {
                top.insert("nbformat_minor", Json::Number(number_of(5)));
            }
        }
        let r = Json::Object(top);
        assert(r@ == JsonV::Object(top@));
        r
    }

    /// Serialises with Jupyter's 1-space indentation and the original key order.
    pub fn to_bytes(&self) -> (r: Vec<u8>)
        requires
            self.wf(),
        ensures
            r@ == written(self),
            ({
                let v = JsonV::Object(top_json(self.top@, self.doc(), self.mutated));
                json_wf(v) && integers_only(v) && nests_within(v, 127) ==> json_parsed(r@) == Some(
                    v,
                )
            }),
    {
        let mut out = pretty(&self.to_json());
        if self.trailing_newline {
            out.push(10);
        }
        out
    }

    /// The text to commit the document to its file with, given what the file holds (nothing if
    /// there is none). Refused if the file has changed since it was read or written, unless
    /// forced.
    pub fn commit(&self, opts: CommitOptions, on_disk: Option<&[u8]>) -> (r: Result<
        Vec<u8>,
        CommitError,
    >)
        requires
            self.wf(),
        ensures
            ({
                let changed = on_disk matches Some(b) && hash_view(self.disk_hash) != Some(
                    sha256(b@),
                );
                match r {
                    Ok(text) => (opts.force || !changed) && text@ == written(self),
                    Err(CommitError::ChangedOnDisk(p)) => !opts.force && changed && p@
                        == self.path@,
                }
            }),
    {
        if !opts.force {
            if let Some(bytes) = on_disk {
                let now = digest(bytes);
                let same = match &self.disk_hash {
                    Some(h) => same_bytes(h, &now),
                    None => false,
                };
                if !same {
                    return Err(CommitError::ChangedOnDisk(self.path.clone()));
                }
            }
        }
        Ok(self.to_bytes())
    }

    /// Records that the file now holds `text`.
    pub fn committed(&mut self, text: &[u8])
        ensures
            hash_view(final(self).disk_hash) == Some(sha256(text@)),
            *final(self) == (Notebook { disk_hash: final(self).disk_hash, ..*old(self) }),
            old(self).wf() ==> steps(old(self), StepV::Committed { bytes: text@ }, final(self)),
    {
        proof {
            reveal(steps);
        }
        self.disk_hash = Some(digest(text));
    }
}

fn same_bytes(a: &Vec<u8>, b: &Vec<u8>) -> (r: bool)
    ensures
        r == (a@ == b@),
{
    if a.len() != b.len() {
        return false;
    }
    let mut i: usize = 0;
    while i < a.len()
        invariant
            a@.len() == b@.len(),
            i <= a@.len(),
            forall|j: int| 0 <= j < i ==> a@[j] == b@[j],
        decreases a@.len() - i,
    {
        if a[i] != b[i] {
            return false;
        }
        i += 1;
    }
    assert(a@ =~= b@);
    true
}

/// The bytes of a notebook's file.
pub open spec fn written(nb: &Notebook) -> Seq<u8> {
    let text = json_pretty(
        json_normal(JsonV::Object(top_json(nb.top@, nb.doc(), nb.mutated))),
        seq![32u8],
    );
    if nb.trailing_newline {
        text.push(10u8)
    } else {
        text
    }
}

/// A notebook that was read and not changed is written as the JSON that was read, with a line
/// break at the end if there was one.
pub proof fn unchanged_is_lossless(
    nb: &Notebook,
    path: Seq<char>,
    text: Seq<u8>,
    used: Set<Seq<char>>,
)
    requires
        read_as(nb, path, text, used),
    ensures
        json_parsed(text) == Some(JsonV::Object(top_json(nb.top@, nb.doc(), nb.mutated))),
        written(nb) == {
            let again = json_pretty(json_parsed(text)->0, seq![32u8]);
            if text.len() > 0 && text.last() == 10u8 {
                again.push(10u8)
            } else {
                again
            }
        },
{
    let top = text_top(text);
    let cells = text_cells(text);
    let d = nb.doc();
    assert forall|i: int| 0 <= i < cells.len() implies cells_json(d, false)[i] == cells[i] by {
        crate::load::lemma_cells_refusal(cells, 0, i);
        assert(d.live[d.order[i]] == loaded_cells(cells)[i]);
    }
    assert(cells_json(d, false) =~= cells);
    lemma_obj_index(top, "cells"@);
    lemma_obj_insert(top, "cells"@, JsonV::Array(Seq::empty()), "cells"@);
    let bare = obj_insert(top, "cells"@, JsonV::Array(Seq::empty()));
    let at = obj_index(top, "cells"@);
    lemma_obj_index_is(bare, "cells"@, at);
    assert(top[at].1 == JsonV::Array(cells));
    assert(obj_insert(bare, "cells"@, JsonV::Array(cells)) =~= top);
    lemma_json_normal(JsonV::Object(top));
}

proof fn lemma_first_after(s: Entries, k: Seq<char>, i: int)
    requires
        0 <= i <= s.len(),
    ensures
        i <= first_after(s, k, i) <= s.len(),
    decreases s.len() - i,
{
    if i < s.len() && !text_less(k, s[i].0) {
        lemma_first_after(s, k, i + 1);
    }
}

/// An entry that was set is read back, and no other changes.
pub proof fn sorted_insert_sets(s: Entries, k: Seq<char>, v: JsonV, other: Seq<char>)
    ensures
        obj_get(sorted_insert(s, k, v), k) == Some(v),
        other != k ==> obj_get(sorted_insert(s, k, v), other) == obj_get(s, other),
{
    lemma_obj_insert(s, k, v, other);
    if !obj_has(s, k) && names_sorted(s) {
        let at = first_after(s, k, 0);
        lemma_first_after(s, k, 0);
        let t = s.insert(at, (k, v));
        lemma_obj_index(s, k);
        assert forall|j: int| 0 <= j < at implies (#[trigger] t[j]).0 != k by {
            assert(t[j] == s[j]);
        }
        lemma_obj_index_is(t, k, at);
        if other != k {
            lemma_obj_index(s, other);
            let m = obj_index(s, other);
            let n = if m < at {
                m
            } else {
                m + 1
            };
            assert forall|j: int| 0 <= j < n implies (#[trigger] t[j]).0 != other by {
                if j < at {
                    assert(t[j] == s[j]);
                } else if j > at {
                    assert(t[j] == s[j - 1]);
                }
            }
            lemma_obj_index_is(t, other, n);
        }
    }
}

/// Every cell of a changed notebook is written with its key as its id.
pub proof fn ids_are_written(d: DocV, i: int)
    requires
        0 <= i < d.order.len(),
    ensures
        cells_json(d, true)[i] is Object,
        obj_get(cells_json(d, true)[i]->Object_0, "id"@) == Some(JsonV::String(d.order[i])),
{
    sorted_insert_sets(
        d.live[d.order[i]].raw,
        "id"@,
        JsonV::String(d.order[i]),
        "id"@,
    );
}

/// Whether a cell is of a type that nbformat 4 has, and no name occurs twice in what it holds.
pub open spec fn sound(c: CellV) -> bool {
    known_type(c.raw) && fields_wf(c.raw, c.stash)
}

/// Whether every cell, live or tombstoned, is sound.
pub open spec fn all_sound(d: DocV) -> bool {
    forall|k: Name| #[trigger] cell_at(d, k) is Some ==> sound(cell_at(d, k)->0)
}

/// Whether a notebook has what the reader asks of a file, and no name occurs twice in it.
pub open spec fn can_be_read(nb: &Notebook) -> bool {
    &&& v_u64(obj_get(nb.top@, "nbformat"@)) == Some(4u64)
    &&& json_wf(JsonV::Object(nb.top@))
    &&& all_sound(nb.doc())
}

/// A notebook that was read has what the reader asks of a file.
pub proof fn opened_can_be_read(
    nb: &Notebook,
    path: Seq<char>,
    text: Seq<u8>,
    used: Set<Seq<char>>,
)
    requires
        nb.wf(),
        read_as(nb, path, text, used),
    ensures
        can_be_read(nb),
{
    let d = nb.doc();
    let top = text_top(text);
    let cells = text_cells(text);
    reveal_strlit("cells");
    reveal_strlit("nbformat");
    assert("cells"@.len() != "nbformat"@.len());
    lemma_obj_insert(top, "cells"@, JsonV::Array(Seq::empty()), "nbformat"@);
    lemma_wf_insert(top, "cells"@, JsonV::Array(Seq::empty()));
    lemma_wf_remove(top, "cells"@);
    assert forall|k: Name| #[trigger] cell_at(d, k) is Some implies sound(cell_at(d, k)->0) by {
        assert(d.live.dom().contains(k));
        let i = choose|i: int| 0 <= i < d.order.len() && d.order[i] == k;
        assert(d.live[d.order[i]] == loaded_cells(cells)[i]);
        crate::load::lemma_cells_refusal(cells, 0, i);
        assert(json_wf(cells[i]));
    }
}

/// A new cell is sound.
pub proof fn new_cell_is_sound(kind: CellKind, source: Seq<char>)
    ensures
        sound(fresh(kind, source)),
{
    let raw = blank_fields(kind);
    crate::document::fresh_cell(kind, source);
    lemma_blank_wf(kind);
    changes_keep_fields(raw, Entries::empty(), kind, source);
    crate::adapter::kind_name_round_trip(kind);
    crate::document::source_round_trip(raw, source);
    reveal_strlit("source");
    reveal_strlit("cell_type");
    assert("source"@.len() != "cell_type"@.len());
    lemma_obj_index_is(raw, "cell_type"@, 0);
}

proof fn lemma_blank_wf(kind: CellKind)
    ensures
        json_wf(JsonV::Object(blank_fields(kind))),
{
    let s = blank_fields(kind);
    reveal_strlit("cell_type");
    reveal_strlit("execution_count");
    reveal_strlit("metadata");
    reveal_strlit("outputs");
    reveal_strlit("source");
    assert("cell_type"@.len() == 9 && "execution_count"@.len() == 15 && "metadata"@.len() == 8);
    assert("outputs"@.len() == 7 && "source"@.len() == 6);
    assert(distinct(s)) by {
        assert forall|i: int, j: int| 0 <= i < j < s.len() implies (#[trigger] s[i]).0
            != (#[trigger] s[j]).0 by {
            assert(s[i].0.len() != s[j].0.len());
        }
    }
    assert forall|i: int| 0 <= i < s.len() implies json_wf((#[trigger] s[i]).1) by {
        assert(s[i].1 is String || s[i].1 is Null || s[i].1 == JsonV::Object(Seq::empty())
            || s[i].1 == JsonV::Array(Seq::empty()));
    }
}

/// A copy of a sound cell is sound.
pub proof fn copied_cell_is_sound(c: CellV)
    requires
        sound(c),
    ensures
        sound(loaded(obj_remove(c.raw, "id"@))),
{
    lemma_wf_remove(c.raw, "id"@);
    lemma_obj_remove(c.raw, "id"@, "cell_type"@);
    reveal_strlit("id");
    reveal_strlit("cell_type");
    assert("id"@.len() != "cell_type"@.len());
}

proof fn lemma_sound(c: CellV, kind: CellKind, source: Seq<char>)
    requires
        sound(c),
    ensures
        sound(kinded(c, kind)),
        sound(sourced(c, source)),
{
    crate::document::cell_type_is_set(c.raw, c.stash, kind);
    crate::adapter::kind_name_round_trip(kind);
    crate::document::source_round_trip(c.raw, source);
    changes_keep_fields(c.raw, c.stash, kind, source);
    reveal_strlit("source");
    reveal_strlit("cell_type");
    assert("source"@.len() != "cell_type"@.len());
}

/// Changes to a notebook keep every cell sound.
pub proof fn changes_keep_cells_sound(d: DocV, g: Seq<ChangeV>)
    requires
        valid(d),
        all_sound(d),
    ensures
        all_sound(run(d, g).0),
    decreases g.len(),
{
    if g.len() > 0 {
        changes_keep_cells_sound(d, g.drop_last());
        let e = run(d, g.drop_last()).0;
        let c = g.last();
        group_keeps_document(d, g.drop_last());
        if applied(e, c) is Some {
            lemma_change_keeps_sound(e, c);
        }
    }
}

proof fn lemma_change_keeps_sound(d: DocV, c: ChangeV)
    requires
        doc_wf(d),
        all_sound(d),
        applied(d, c) is Some,
    ensures
        all_sound(after(d, c)),
{
    let e = after(d, c);
    assert forall|k: Name| #[trigger] cell_at(e, k) is Some implies sound(cell_at(e, k)->0) by {
        assert(cell_at(d, k) is Some ==> sound(cell_at(d, k)->0));
        match c {
            ChangeV::Kind { key, kind } => {
                lemma_pos(d.order, key);
                assert(cell_at(d, key) is Some);
                lemma_sound(d.live[key], kind, Seq::empty());
            },
            ChangeV::Split { key, line, fresh } => {
                lemma_pos(d.order, key);
                assert(cell_at(d, key) is Some);
                assert(cell_at(d, fresh) is Some);
                let lines = lines_of(source_of(d.live[key]));
                lemma_sound(d.live[key], CellKind::Code, joined(lines.take(line)));
                lemma_sound(d.tombs[fresh], CellKind::Code, joined(lines.skip(line)));
            },
            ChangeV::Unmerge { key, line, next: fresh, .. } => {
                lemma_pos(d.order, key);
                assert(cell_at(d, key) is Some);
                assert(cell_at(d, fresh) is Some);
                let lines = lines_of(source_of(d.live[key]));
                lemma_sound(d.live[key], CellKind::Code, joined(lines.take(line)));
                lemma_sound(d.tombs[fresh], CellKind::Code, joined(lines.skip(line)));
            },
            ChangeV::Merge { key, next } => {
                lemma_pos(d.order, key);
                lemma_pos(d.order, next);
                assert(cell_at(d, key) is Some);
                assert(cell_at(d, next) is Some);
                let whole = source_of(d.live[key]) + one('\n') + source_of(d.live[next]);
                lemma_sound(d.live[key], CellKind::Code, whole);
            },
            ChangeV::Hide { key } => {
                lemma_pos(d.order, key);
                assert(cell_at(d, key) is Some);
            },
            _ => {},
        }
    }
}

proof fn lemma_no_refusal(cells: Seq<JsonV>, i: int)
    requires
        0 <= i,
        forall|j: int|
            0 <= j < cells.len() ==> (#[trigger] cells[j]) is Object && known_type(
                cells[j]->Object_0,
            ),
    ensures
        cells_refusal(cells, i) is None,
    decreases cells.len() - i,
{
    if i < cells.len() {
        assert(cells[i] is Object);
        lemma_no_refusal(cells, i + 1);
    }
}

/// A notebook that can be read is written as the JSON that it is: in what is written, no name
/// occurs twice.
pub proof fn saved_notebook_is_json(nb: &Notebook)
    requires
        nb.wf(),
        can_be_read(nb),
    ensures
        json_wf(JsonV::Object(top_json(nb.top@, nb.doc(), nb.mutated))),
{
    let d = nb.doc();
    let cells = cells_json(d, nb.mutated);
    assert forall|i: int| 0 <= i < cells.len() implies json_wf(#[trigger] cells[i]) by {
        let k = d.order[i];
        assert(d.order.contains(k));
        assert(d.live.dom().contains(k));
        assert(cell_at(d, k) is Some);
        lemma_sorted_insert_wf(d.live[k].raw, "id"@, JsonV::String(k));
    }
    lemma_wf_insert(nb.top@, "cells"@, JsonV::Array(cells));
    let full = obj_insert(nb.top@, "cells"@, JsonV::Array(cells));
    lemma_wf_insert(full, "nbformat_minor"@, JsonV::Number(number_from(5)));
}

proof fn lemma_sorted_insert_wf(s: Entries, k: Seq<char>, v: JsonV)
    requires
        json_wf(JsonV::Object(s)),
        json_wf(v),
    ensures
        json_wf(JsonV::Object(sorted_insert(s, k, v))),
{
    lemma_wf_insert(s, k, v);
    if !obj_has(s, k) && names_sorted(s) {
        let at = first_after(s, k, 0);
        lemma_first_after(s, k, 0);
        lemma_obj_index(s, k);
        let t = s.insert(at, (k, v));
        assert forall|i: int, j: int| 0 <= i < j < t.len() implies (#[trigger] t[i]).0
            != (#[trigger] t[j]).0 by {
            let m = if i < at { i } else { i - 1 };
            let n = if j < at { j } else { j - 1 };
            assert(i != at ==> t[i] == s[m]);
            assert(j != at ==> t[j] == s[n]);
        }
        assert forall|i: int| 0 <= i < t.len() implies json_wf((#[trigger] t[i]).1) by {
            assert(t[i] == (k, v) || t[i] == s[if i < at { i } else { i - 1 }]);
        }
    }
}

/// A notebook that was written can be opened again.
pub proof fn saved_notebook_opens(nb: &Notebook, text: Seq<u8>)
    requires
        nb.wf(),
        can_be_read(nb),
        json_parsed(text) == Some(JsonV::Object(top_json(nb.top@, nb.doc(), nb.mutated))),
    ensures
        refused(text) is None,
{
    let d = nb.doc();
    let cells = cells_json(d, nb.mutated);
    reveal_strlit("cells");
    reveal_strlit("nbformat");
    reveal_strlit("nbformat_minor");
    reveal_strlit("metadata");
    reveal_strlit("id");
    reveal_strlit("cell_type");
    assert("cells"@.len() == 5 && "nbformat"@.len() == 8 && "nbformat_minor"@.len() == 14);
    assert("metadata"@.len() == 8 && "metadata"@[0] == 'm' && "nbformat"@[0] == 'n');
    let full = obj_insert(nb.top@, "cells"@, JsonV::Array(cells));
    let minor = JsonV::Number(number_from(5));
    lemma_obj_insert(nb.top@, "cells"@, JsonV::Array(cells), "nbformat"@);
    lemma_obj_insert(nb.top@, "cells"@, JsonV::Array(cells), "metadata"@);
    lemma_obj_insert(nb.top@, "cells"@, JsonV::Array(cells), "cells"@);
    lemma_obj_insert(full, "nbformat_minor"@, minor, "nbformat"@);
    lemma_obj_insert(full, "nbformat_minor"@, minor, "metadata"@);
    lemma_obj_insert(full, "nbformat_minor"@, minor, "cells"@);
    assert forall|j: int| 0 <= j < cells.len() implies (#[trigger] cells[j]) is Object && known_type(
        cells[j]->Object_0,
    ) by {
        let k = d.order[j];
        assert(d.order.contains(k));
        assert(d.live.dom().contains(k));
        assert(cell_at(d, k) is Some);
        assert("id"@.len() != "cell_type"@.len());
        sorted_insert_sets(d.live[k].raw, "id"@, JsonV::String(k), "cell_type"@);
    }
    lemma_no_refusal(cells, 0);
}

/// A changed notebook that is written and read again has its cells under the same keys, in the
/// same order, with every field but the id as it was, if all keys are valid ids.
pub proof fn keys_survive_saving(
    nb: &Notebook,
    again: &Notebook,
    path: Seq<char>,
    text: Seq<u8>,
    used: Set<Seq<char>>,
)
    requires
        nb.wf(),
        nb.mutated,
        forall|i: int|
            0 <= i < nb.doc().order.len() ==> crate::key::valid_id(#[trigger] nb.doc().order[i]),
        json_parsed(text) == Some(JsonV::Object(top_json(nb.top@, nb.doc(), nb.mutated))),
        read_as(again, path, text, used),
    ensures
        again.doc().order == nb.doc().order,
        forall|k: Name, n: Seq<char>|
            nb.doc().order.contains(k) && n != "id"@ ==> #[trigger] obj_get(
                again.doc().live[k].raw,
                n,
            ) == obj_get(nb.doc().live[k].raw, n),
{
    let d = nb.doc();
    let full = obj_insert(nb.top@, "cells"@, JsonV::Array(cells_json(d, true)));
    lemma_obj_insert(nb.top@, "cells"@, JsonV::Array(cells_json(d, true)), "cells"@);
    reveal_strlit("cells");
    reveal_strlit("nbformat_minor");
    assert("cells"@.len() != "nbformat_minor"@.len());
    lemma_obj_insert(full, "nbformat_minor"@, JsonV::Number(number_from(5)), "cells"@);
    let cells = loaded_cells(text_cells(text));
    assert(text_cells(text) == cells_json(d, true));
    assert forall|i: int| 0 <= i < cells.len() implies crate::load::id_of(#[trigger] cells[i])
        == Some(d.order[i]) by {
        ids_are_written(d, i);
    }
    assert forall|i: int| 0 <= i < cells.len() implies crate::load::usable(cells, i) by {
        assert(crate::load::id_of(cells[i]) == Some(d.order[i]));
        assert forall|j: int| 0 <= j < cells.len() && j != i implies crate::load::id_of(
            #[trigger] cells[j],
        ) != crate::load::id_of(cells[i]) by {
            assert(d.order[i] != d.order[j]);
        }
    }
    assert forall|i: int| 0 <= i < cells.len() implies again.doc().order[i] == d.order[i] by {
        assert(crate::load::usable(cells, i));
        assert(Some(again.doc().order[i]) == crate::load::id_of(cells[i]));
    }
    assert(again.doc().order =~= d.order);
    assert forall|k: Name, n: Seq<char>| d.order.contains(k) && n != "id"@ implies #[trigger] obj_get(
        again.doc().live[k].raw,
        n,
    ) == obj_get(d.live[k].raw, n) by {
        let i = choose|i: int| 0 <= i < d.order.len() && d.order[i] == k;
        assert(again.doc().live[again.doc().order[i]] == cells[i]);
        sorted_insert_sets(d.live[k].raw, "id"@, JsonV::String(k), n);
    }
}

proof fn lemma_remove_inserted(s: Entries, k: Seq<char>, v: JsonV)
    requires
        distinct(s),
    ensures
        obj_remove(obj_insert(s, k, v), k) == obj_remove(s, k),
        obj_remove(sorted_insert(s, k, v), k) == obj_remove(s, k),
{
    lemma_obj_index(s, k);
    let t = obj_insert(s, k, v);
    let m = obj_index(s, k);
    lemma_obj_index_is(t, k, m);
    assert(obj_remove(t, k) =~= obj_remove(s, k));
    if !obj_has(s, k) && names_sorted(s) {
        let at = first_after(s, k, 0);
        lemma_first_after(s, k, 0);
        let u = s.insert(at, (k, v));
        assert forall|j: int| 0 <= j < at implies (#[trigger] u[j]).0 != k by {
            assert(u[j] == s[j]);
        }
        lemma_obj_index_is(u, k, at);
        assert(u.remove(at) =~= s);
    }
}

/// Saving touches nothing of the file but its cells and its minor version: every other
/// top-level entry is written as the notebook holds it, whether or not the notebook has
/// changed.
pub proof fn saving_keeps_other_entries(top: Entries, d: DocV, mutated: bool, n: Seq<char>)
    requires
        n != "cells"@,
        n != "nbformat_minor"@,
    ensures
        obj_get(top_json(top, d, mutated), n) == obj_get(top, n),
{
    let cells = JsonV::Array(cells_json(d, mutated));
    let full = obj_insert(top, "cells"@, cells);
    lemma_obj_insert(top, "cells"@, cells, n);
    lemma_obj_insert(full, "nbformat_minor"@, JsonV::Number(number_from(5)), n);
}

/// An entry that a notebook has stays where it is among the others when it is saved.
pub proof fn saving_keeps_the_order_of_entries(top: Entries, d: DocV, mutated: bool, i: int)
    requires
        0 <= i < top.len(),
    ensures
        top_json(top, d, mutated).len() >= top.len(),
        top_json(top, d, mutated)[i].0 == top[i].0,
{
    let cells = JsonV::Array(cells_json(d, mutated));
    let full = obj_insert(top, "cells"@, cells);
    lemma_obj_index(top, "cells"@);
    lemma_obj_index(full, "nbformat_minor"@);
}

/// Saving touches nothing of a cell but its id: without it, the cell is written as it is held,
/// its fields in their order.
pub proof fn saving_keeps_cells(d: DocV, mutated: bool, i: int)
    requires
        0 <= i < d.order.len(),
        distinct(d.live[d.order[i]].raw),
    ensures
        cells_json(d, mutated).len() == d.order.len(),
        cells_json(d, mutated)[i] is Object,
        obj_remove(cells_json(d, mutated)[i]->Object_0, "id"@) == obj_remove(
            d.live[d.order[i]].raw,
            "id"@,
        ),
        !mutated ==> cells_json(d, mutated)[i] == JsonV::Object(d.live[d.order[i]].raw),
        forall|n: Seq<char>|
            n != "id"@ ==> #[trigger] obj_get(cells_json(d, mutated)[i]->Object_0, n) == obj_get(
                d.live[d.order[i]].raw,
                n,
            ),
{
    let raw = d.live[d.order[i]].raw;
    let id = JsonV::String(d.order[i]);
    lemma_remove_inserted(raw, "id"@, id);
    assert forall|n: Seq<char>|
        n != "id"@ implies #[trigger] obj_get(cells_json(d, mutated)[i]->Object_0, n) == obj_get(
        raw,
        n,
    ) by {
        sorted_insert_sets(raw, "id"@, id, n);
    }
}

/// A notebook that is written and read again has every top-level entry but its cells and its
/// minor version as it was: its metadata above all.
pub proof fn metadata_survives_saving(
    nb: &Notebook,
    again: &Notebook,
    path: Seq<char>,
    text: Seq<u8>,
    used: Set<Seq<char>>,
    n: Seq<char>,
)
    requires
        json_parsed(text) == Some(JsonV::Object(top_json(nb.top@, nb.doc(), nb.mutated))),
        read_as(again, path, text, used),
        n != "cells"@,
        n != "nbformat_minor"@,
    ensures
        obj_get(again.top@, n) == obj_get(nb.top@, n),
        obj_get(again.top@, "metadata"@) == obj_get(nb.top@, "metadata"@),
{
    reveal_strlit("cells");
    reveal_strlit("nbformat_minor");
    reveal_strlit("metadata");
    assert("cells"@.len() == 5 && "nbformat_minor"@.len() == 14 && "metadata"@.len() == 8);
    saving_keeps_other_entries(nb.top@, nb.doc(), nb.mutated, n);
    saving_keeps_other_entries(nb.top@, nb.doc(), nb.mutated, "metadata"@);
    lemma_obj_insert(text_top(text), "cells"@, JsonV::Array(Seq::empty()), n);
    lemma_obj_insert(text_top(text), "cells"@, JsonV::Array(Seq::empty()), "metadata"@);
}

/// Recording a kernel makes its name the notebook's kernel, with its display name and language
/// beside it, and leaves every other entry of the metadata and of the file as it was.
pub proof fn recorded_kernel_is_the_notebooks(
    before: &Notebook,
    after: &Notebook,
    name: Seq<char>,
    display_name: Seq<char>,
    language: Seq<char>,
    n: Seq<char>,
)
    requires
        before.wf(),
        kernelspec_set(before, after, name, display_name, language),
    ensures
        ({
            let meta = obj_get(before.top@, "metadata"@)->Some_0->Object_0;
            let now = obj_get(after.top@, "metadata"@)->Some_0->Object_0;
            let spec = obj_get(now, "kernelspec"@);
            &&& obj_get(after.top@, "metadata"@) matches Some(JsonV::Object(_))
            &&& v_str(v_get(spec, "name"@)) == Some(name)
            &&& v_str(v_get(spec, "display_name"@)) == Some(display_name)
            &&& v_str(v_get(spec, "language"@)) == Some(language)
            &&& n != "kernelspec"@ ==> obj_get(now, n) == obj_get(meta, n)
            &&& n != "metadata"@ ==> obj_get(after.top@, n) == obj_get(before.top@, n)
            &&& after.doc() == before.doc()
        }),
{
    let meta = obj_get(before.top@, "metadata"@)->Some_0->Object_0;
    let o = kernelspec(name, display_name, language)->Object_0;
    reveal_strlit("display_name");
    reveal_strlit("language");
    reveal_strlit("name");
    assert("display_name"@.len() == 12 && "language"@.len() == 8 && "name"@.len() == 4);
    lemma_obj_index_is(o, "display_name"@, 0);
    lemma_obj_index_is(o, "language"@, 1);
    lemma_obj_index_is(o, "name"@, 2);
    lemma_obj_insert(meta, "kernelspec"@, JsonV::Object(o), n);
    let whole = JsonV::Object(obj_insert(meta, "kernelspec"@, JsonV::Object(o)));
    lemma_obj_insert(before.top@, "metadata"@, whole, n);
    assert(after.history().doc == before.history().doc);
}

/// A changed notebook says that it is of nbformat 4.5 at least, which has ids; one that says a
/// later minor version keeps it, and so does a notebook that was not changed.
pub proof fn minor_version_is_five_at_least(top: Entries, d: DocV, mutated: bool)
    ensures
        ({
            let was = v_u64(obj_get(top, "nbformat_minor"@));
            let now = obj_get(top_json(top, d, mutated), "nbformat_minor"@);
            &&& mutated && (was is None || was->0 < 5) ==> now == Some(
                JsonV::Number(number_from(5)),
            )
            &&& !mutated || (was is Some && was->0 >= 5) ==> now == obj_get(top, "nbformat_minor"@)
        }),
{
    reveal_strlit("cells");
    reveal_strlit("nbformat_minor");
    assert("cells"@.len() != "nbformat_minor"@.len());
    let cells = JsonV::Array(cells_json(d, mutated));
    lemma_obj_insert(top, "cells"@, cells, "nbformat_minor"@);
    let full = obj_insert(top, "cells"@, cells);
    lemma_obj_insert(
        full,
        "nbformat_minor"@,
        JsonV::Number(number_from(5)),
        "nbformat_minor"@,
    );
}

/// A file that ended with a line break ends with one when it is written, changed or not, and one
/// that did not ends with the notebook's own text.
pub proof fn last_line_break_is_kept(nb: &Notebook, other: &Notebook)
    requires
        nb.trailing_newline,
        !other.trailing_newline,
        other.top@ == nb.top@,
        other.doc() == nb.doc(),
        other.mutated == nb.mutated,
    ensures
        written(nb).len() > 0,
        written(nb).last() == 10u8,
        written(nb).drop_last() == written(other),
{
    assert(written(nb).drop_last() =~= written(other));
}

} // verus!
