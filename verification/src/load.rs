//! Reading a notebook file: what is refused, and which key each cell gets.

use crate::adapter::{kind_named, CellKind};
use crate::document::{cell_wf, empty_list, loaded, Cell, CellV};
use crate::history::cells_wf;
use crate::json::{
    compact, json_compact, json_normal, json_parsed, json_wf, lemma_obj_index, lemma_obj_insert,
    obj_get, obj_index, obj_insert, parse, v_str, v_u64, Entries, Json, JsonV, Object,
};
use crate::key::{keys, made_key, valid_id, CellKey, KeyMinter, KEYS};
use crate::notebook::{hash_view, is_object, known, Notebook};
use crate::table::CellTable;
use crate::text::{append_chars, chars_of, str_eq, string_of};
use vstd::prelude::*;

verus! {

/// Why a file is not a notebook that can be opened.
#[derive(Debug)]
pub enum OpenError {
    /// The text is not JSON.
    Json(String, serde_json::Error),
    /// Something every notebook has is missing or of another type.
    NotANotebook(String, &'static str),
    /// The notebook is of another version than 4.
    UnsupportedNbformat(String, String),
    /// A cell, counted from one, has a type that nbformat 4 does not have.
    UnknownCellType(String, usize, String),
}

/// What an [`OpenError`] says, but for the path and the JSON reader's own error.
pub enum Refusal {
    Json,
    NotANotebook(Seq<char>),
    UnsupportedNbformat(Seq<char>),
    UnknownCellType(int, Seq<char>),
}

/// The text of the JSON reader's error.
pub uninterp spec fn json_error_text(e: serde_json::Error) -> Seq<char>;

/// `serde_json::Error`'s `Display` says what is wrong with a text, and where.
#[verifier::external_body]
pub(crate) fn error_text(e: &serde_json::Error) -> (r: String)
    ensures
        r@ == json_error_text(*e),
{
    e.to_string()
}

impl OpenError {
    pub open spec fn refusal(&self) -> Refusal {
        match *self {
            OpenError::Json(_, _) => Refusal::Json,
            OpenError::NotANotebook(_, s) => Refusal::NotANotebook(s@),
            OpenError::UnsupportedNbformat(_, s) => Refusal::UnsupportedNbformat(s@),
            OpenError::UnknownCellType(_, i, s) => Refusal::UnknownCellType(i as int, s@),
        }
    }

    pub open spec fn path(&self) -> Seq<char> {
        match *self {
            OpenError::Json(p, _) => p@,
            OpenError::NotANotebook(p, _) => p@,
            OpenError::UnsupportedNbformat(p, _) => p@,
            OpenError::UnknownCellType(p, _, _) => p@,
        }
    }

    /// The error as it is shown.
    pub open spec fn shown(&self) -> Seq<char> {
        match *self {
            OpenError::Json(p, e) => p@ + " is not valid JSON: "@ + json_error_text(e),
            OpenError::NotANotebook(p, s) => p@ + " is not a notebook: "@ + s@,
            OpenError::UnsupportedNbformat(p, s) => p@ + " is nbformat "@ + s@
                + "; nbv supports nbformat 4 only"@,
            OpenError::UnknownCellType(p, i, s) => p@ + ": cell "@ + crate::text::decimal(i as nat)
                + " has cell_type "@ + s@ + "; nbformat 4 allows code, markdown and raw"@,
        }
    }

    pub fn message(&self) -> (r: String)
        ensures
            r@ == self.shown(),
    {
        let mut out: Vec<char>;
        match self {
            OpenError::Json(p, e) => {
                out = chars_of(p.as_str());
                append_chars(&mut out, &chars_of(" is not valid JSON: "));
                append_chars(&mut out, &chars_of(error_text(e).as_str()));
            },
            OpenError::NotANotebook(p, s) => {
                out = chars_of(p.as_str());
                append_chars(&mut out, &chars_of(" is not a notebook: "));
                append_chars(&mut out, &chars_of(s));
            },
            OpenError::UnsupportedNbformat(p, s) => {
                out = chars_of(p.as_str());
                append_chars(&mut out, &chars_of(" is nbformat "));
                append_chars(&mut out, &chars_of(s.as_str()));
                append_chars(&mut out, &chars_of("; nbv supports nbformat 4 only"));
            },
            OpenError::UnknownCellType(p, i, s) => {
                out = chars_of(p.as_str());
                append_chars(&mut out, &chars_of(": cell "));
                append_chars(&mut out, &crate::text::decimal_chars(*i as u64));
                append_chars(&mut out, &chars_of(" has cell_type "));
                append_chars(&mut out, &chars_of(s.as_str()));
                append_chars(&mut out, &chars_of("; nbformat 4 allows code, markdown and raw"));
            },
        }
        string_of(&out)
    }
}

/// Whether nbformat 4 has the cell's type.
pub open spec fn known_type(raw: Entries) -> bool {
    v_str(obj_get(raw, "cell_type"@)) matches Some(s) && kind_named(s) is Some
}

/// What is wrong with the cell at `i`.
pub open spec fn cell_refusal(c: JsonV, i: int) -> Option<Refusal> {
    match c {
        JsonV::Object(raw) => if known_type(raw) {
            None
        } else {
            Some(
                Refusal::UnknownCellType(
                    i + 1,
                    match obj_get(raw, "cell_type"@) {
                        Some(v) => json_compact(json_normal(v)),
                        None => "missing"@,
                    },
                ),
            )
        },
        _ => Some(Refusal::NotANotebook("a cell is not an object"@)),
    }
}

/// What is wrong with the first cell, from `i` on, with which anything is.
pub open spec fn cells_refusal(cells: Seq<JsonV>, i: int) -> Option<Refusal>
    decreases cells.len() - i,
{
    if i >= cells.len() {
        None
    } else {
        match cell_refusal(cells[i], i) {
            Some(p) => Some(p),
            None => cells_refusal(cells, i + 1),
        }
    }
}

/// What is wrong with a notebook's top-level object: its version, metadata and cells, in this
/// order.
pub open spec fn top_refusal(top: Entries) -> Option<Refusal> {
    match obj_get(top, "nbformat"@) {
        None => Some(Refusal::NotANotebook("missing nbformat"@)),
        Some(v) => if v_u64(Some(v)) != Some(4u64) {
            Some(Refusal::UnsupportedNbformat(json_compact(json_normal(v))))
        } else if !is_object(obj_get(top, "metadata"@)) {
            Some(Refusal::NotANotebook("metadata is missing or not an object"@))
        } else {
            match obj_get(top, "cells"@) {
                Some(JsonV::Array(cells)) => cells_refusal(cells, 0),
                _ => Some(Refusal::NotANotebook("missing cells array"@)),
            }
        },
    }
}

/// Why a text is refused, if it is.
pub open spec fn refused(text: Seq<u8>) -> Option<Refusal> {
    match json_parsed(text) {
        None => Some(Refusal::Json),
        Some(JsonV::Object(top)) => top_refusal(top),
        Some(_) => Some(Refusal::NotANotebook("top level is not an object"@)),
    }
}

/// The top-level object of a text that is not refused.
pub open spec fn text_top(text: Seq<u8>) -> Entries {
    json_parsed(text)->Some_0->Object_0
}

/// The cells of a text that is not refused.
pub open spec fn text_cells(text: Seq<u8>) -> Seq<JsonV> {
    obj_get(text_top(text), "cells"@)->Some_0->Array_0
}

pub proof fn lemma_cells_refusal(cells: Seq<JsonV>, i: int, j: int)
    requires
        cells_refusal(cells, i) is None,
        i <= j < cells.len(),
    ensures
        cells[j] is Object,
        known_type(cells[j]->Object_0),
    decreases j - i,
{
    if i < j {
        lemma_cells_refusal(cells, i + 1, j);
    }
}

pub open spec fn cell_views(v: Seq<Cell>) -> Seq<CellV> {
    Seq::new(v.len(), |i: int| v[i]@)
}

/// The cells that raw objects are loaded as.
pub open spec fn loaded_cells(cells: Seq<JsonV>) -> Seq<CellV> {
    Seq::new(cells.len(), |i: int| loaded(cells[i]->Object_0))
}

fn read_cell(path: &str, c: &Json, i: usize) -> (r: Result<Cell, OpenError>)
    requires
        i < usize::MAX,
    ensures
        match r {
            Ok(cell) => cell_refusal(c@, i as int) is None && cell@ == loaded(c@->Object_0),
            Err(e) => cell_refusal(c@, i as int) == Some(e.refusal()) && e.path() == path@,
        },
{
    match c {
        Json::Object(raw) => {
            assert(c@ == JsonV::Object(raw@));
            let known = match raw.get("cell_type") {
                Some(v) => match v.as_str() {
                    Some(s) => CellKind::from_nbformat(s).is_some(),
                    None => false,
                },
                None => false,
            };
            if !known {
                let shown = match raw.get("cell_type") {
                    Some(v) => compact(v),
                    None => "missing".to_string(),
                };
                return Err(OpenError::UnknownCellType(path.to_string(), i + 1, shown));
            }
            Ok(Cell::from_raw(raw.clone()))
        },
        _ => Err(OpenError::NotANotebook(path.to_string(), "a cell is not an object")),
    }
}

fn read_cells(path: &str, raw: &Vec<Json>) -> (r: Result<Vec<Cell>, OpenError>)
    ensures
        ({
            let cells = crate::json::json_views(raw@);
            match r {
                Ok(v) => cells_refusal(cells, 0) is None && cell_views(v@) == loaded_cells(cells),
                Err(e) => cells_refusal(cells, 0) == Some(e.refusal()) && e.path() == path@,
            }
        }),
{
    let ghost cells = crate::json::json_views(raw@);
    let mut out: Vec<Cell> = Vec::new();
    let mut i: usize = 0;
    while i < raw.len()
        invariant
            i <= raw@.len(),
            cells == crate::json::json_views(raw@),
            out@.len() == i,
            cells_refusal(cells, 0) == cells_refusal(cells, i as int),
            forall|j: int| 0 <= j < i ==> (#[trigger] out@[j])@ == loaded(cells[j]->Object_0),
        decreases raw@.len() - i,
    {
        assert(cells[i as int] == raw@[i as int]@);
        match read_cell(path, &raw[i], i) {
            Ok(c) => {
                out.push(c);
            },
            Err(e) => {
                return Err(e);
            },
        }
        i += 1;
    }
    assert(cell_views(out@) =~= loaded_cells(cells));
    Ok(out)
}

/// Reads a text: its top-level object, with no cells in it, and its cells.
fn read_text(path: &str, text: &[u8]) -> (r: Result<(Object, Vec<Cell>), OpenError>)
    ensures
        match r {
            Ok((top, cells)) => {
                &&& refused(text@) is None
                &&& top@ == obj_insert(text_top(text@), "cells"@, JsonV::Array(Seq::empty()))
                &&& cell_views(cells@) == loaded_cells(text_cells(text@))
                &&& json_wf(JsonV::Object(text_top(text@)))
            },
            Err(e) => refused(text@) == Some(e.refusal()) && e.path() == path@,
        },
{
    let value = match parse(text) {
        Ok(v) => v,
        Err(e) => {
            return Err(OpenError::Json(path.to_string(), e));
        },
    };
    let ghost whole = value@;
    let mut top = match value {
        Json::Object(top) => {
            assert(whole == JsonV::Object(top@));
            top
        },
        _ => {
            return Err(OpenError::NotANotebook(path.to_string(), "top level is not an object"));
        },
    };
    let ghost before = top@;
    match top.get("nbformat") {
        Some(v) => {
            let four = match v.as_u64() {
                Some(n) => n == 4,
                None => false,
            };
            if !four {
                return Err(OpenError::UnsupportedNbformat(path.to_string(), compact(v)));
            }
        },
        None => {
            return Err(OpenError::NotANotebook(path.to_string(), "missing nbformat"));
        },
    }
    let described = match top.get("metadata") {
        Some(Json::Object(_)) => true,
        _ => false,
    };
    if !described {
        return Err(
            OpenError::NotANotebook(path.to_string(), "metadata is missing or not an object"),
        );
    }
    proof {
        lemma_obj_index(before, "cells"@);
    }
    let at = top.position("cells");
    if at >= top.entries.len() {
        return Err(OpenError::NotANotebook(path.to_string(), "missing cells array"));
    }
    assert(before[at as int].1 == top.entries@[at as int].1@);
    let taken = top.entries.remove(at);
    top.entries.insert(at, ("cells".to_string(), empty_list()));
    assert(top@ =~= obj_insert(before, "cells"@, JsonV::Array(Seq::empty())));
    match taken.1 {
        Json::Array(raw) => {
            assert(crate::json::json_views(raw@) =~= text_cells(text@));
            match read_cells(path, &raw) {
                Ok(cells) => Ok((top, cells)),
                Err(e) => Err(e),
            }
        },
        _ => Err(OpenError::NotANotebook(path.to_string(), "missing cells array")),
    }
}

/// A cell's persisted id.
pub open spec fn id_of(c: CellV) -> Option<Seq<char>> {
    v_str(obj_get(c.raw, "id"@))
}

/// Whether the cell at `i` has a valid id that no other cell has.
pub open spec fn usable(cells: Seq<CellV>, i: int) -> bool {
    &&& id_of(cells[i]) matches Some(s) && valid_id(s)
    &&& forall|j: int| 0 <= j < cells.len() && j != i ==> id_of(#[trigger] cells[j]) != id_of(cells[i])
}

/// A persisted id becomes the key only if it is valid and unique. Every other cell gets a key
/// that was never used and that is no other cell's.
pub open spec fn keys_assigned(cells: Seq<CellV>, used: Set<Seq<char>>, order: Seq<Seq<char>>) -> bool {
    &&& order.len() == cells.len()
    &&& order.no_duplicates()
    &&& forall|i: int|
        0 <= i < cells.len() ==> if usable(cells, i) {
            Some(#[trigger] order[i]) == id_of(cells[i])
        } else {
            &&& !used.contains(order[i])
            &&& used.len() + 2 * cells.len() <= KEYS ==> made_key(order[i])
        }
}

fn is_usable(cells: &Vec<Cell>, i: usize) -> (r: Option<CellKey>)
    requires
        i < cells@.len(),
    ensures
        match r {
            Some(k) => usable(cell_views(cells@), i as int) && id_of(cells@[i as int]@) == Some(k@),
            None => !usable(cell_views(cells@), i as int),
        },
{
    let ghost views = cell_views(cells@);
    assert(views[i as int] == cells@[i as int]@);
    let id = match cells[i].persisted_id() {
        Some(id) => id,
        None => {
            return None;
        },
    };
    if !CellKey::is_valid_nbformat_id(id) {
        return None;
    }
    let mut j: usize = 0;
    while j < cells.len()
        invariant
            j <= cells@.len(),
            views == cell_views(cells@),
            id_of(views[i as int]) == Some(id@),
            forall|x: int|
                0 <= x < j && x != i ==> id_of(#[trigger] views[x]) != id_of(views[i as int]),
        decreases cells@.len() - j,
    {
        assert(views[j as int] == cells@[j as int]@);
        if j != i {
            if let Some(other) = cells[j].persisted_id() {
                if str_eq(other, id) {
                    return None;
                }
            }
        }
        j += 1;
    }
    Some(CellKey::new(id))
}

/// The ids that become keys.
pub open spec fn usable_ids(cells: Seq<CellV>, n: int) -> Set<Seq<char>> {
    Set::new(|k: Seq<char>|
        exists|i: int|
            0 <= i < n && #[trigger] usable(cells, i) && id_of(cells[i]) == Some(k))
}

proof fn lemma_minter_len(minter: KeyMinter)
    ensures
        minter@.finite(),
{
    broadcast use vstd::seq_lib::seq_to_set_is_finite;

}

/// Gives every cell its key.
fn assign_keys(cells: &Vec<Cell>, minter: &mut KeyMinter) -> (r: Vec<CellKey>)
    requires
        old(minter).wf(),
    ensures
        final(minter).wf(),
        keys_assigned(cell_views(cells@), old(minter)@, keys(r@)),
        final(minter)@ == old(minter)@.union(keys(r@).to_set()),
{
    let ghost views = cell_views(cells@);
    let ghost used = minter@;
    let mut wanted: Vec<Option<CellKey>> = Vec::new();
    let mut i: usize = 0;
    proof {
        lemma_minter_len(*minter);
    }
    assert(minter@ =~= used.union(usable_ids(views, 0)));
    while i < cells.len()
        invariant
            i <= cells@.len(),
            wanted@.len() == i,
            views == cell_views(cells@),
            minter.wf(),
            minter@.finite(),
            used.finite(),
            minter@.len() <= used.len() + i,
            minter@ == used.union(usable_ids(views, i as int)),
            forall|j: int|
                0 <= j < i ==> match #[trigger] wanted@[j] {
                    Some(k) => usable(views, j) && id_of(views[j]) == Some(k@),
                    None => !usable(views, j),
                },
        decreases cells@.len() - i,
    {
        let k = is_usable(cells, i);
        assert(views[i as int] == cells@[i as int]@);
        let ghost seen = minter@;
        if let Some(key) = &k {
            let _ = minter.reserve(key);
            assert(minter@ =~= used.union(usable_ids(views, i + 1))) by {
                assert forall|x: Seq<char>| minter@.contains(x) == used.union(
                    usable_ids(views, i + 1),
                ).contains(x) by {
                    if usable_ids(views, i + 1).contains(x) && !usable_ids(views, i as int).contains(x) {
                        let j = choose|j: int|
                            0 <= j < i + 1 && #[trigger] usable(views, j) && id_of(views[j])
                                == Some(x);
                        assert(j == i);
                    }
                    if x == key@ {
                        assert(usable(views, i as int));
                    }
                }
            }
        } else {
            assert(usable_ids(views, i + 1) =~= usable_ids(views, i as int));
        }
        wanted.push(k);
        i += 1;
    }
    let ghost ids = usable_ids(views, cells@.len() as int);
    let mut out: Vec<CellKey> = Vec::new();
    i = 0;
    assert(keys(out@) =~= Seq::empty());
    assert(minter@ =~= used.union(ids).union(keys(out@).to_set()));
    while i < cells.len()
        invariant
            i <= cells@.len(),
            wanted@.len() == cells@.len(),
            out@.len() == i,
            views == cell_views(cells@),
            ids == usable_ids(views, cells@.len() as int),
            minter.wf(),
            minter@.finite(),
            minter@.len() <= used.len() + cells@.len() + i,
            minter@ == used.union(ids).union(keys(out@).to_set()),
            forall|j: int|
                0 <= j < cells@.len() ==> match #[trigger] wanted@[j] {
                    Some(k) => usable(views, j) && id_of(views[j]) == Some(k@),
                    None => !usable(views, j),
                },
            forall|j: int|
                0 <= j < i ==> if usable(views, j) {
                    Some((#[trigger] out@[j])@) == id_of(views[j])
                } else {
                    &&& !used.contains(out@[j]@)
                    &&& !ids.contains(out@[j]@)
                    &&& used.len() + 2 * cells@.len() <= KEYS ==> made_key(out@[j]@)
                },
            keys(out@).no_duplicates(),
        decreases cells@.len() - i,
    {
        let ghost before = keys(out@);
        let key = match &wanted[i] {
            Some(k) => k.clone(),
            None => minter.mint(),
        };
        proof {
            if usable(views, i as int) {
                assert(ids.contains(key@));
                assert forall|j: int| 0 <= j < i implies before[j] != key@ by {
                    assert(before[j] == out@[j]@);
                    if usable(views, j) {
                        assert(id_of(views[j]) != id_of(views[i as int]));
                    }
                }
            } else {
                assert forall|j: int| 0 <= j < i implies before[j] != key@ by {
                    assert(before.contains(before[j]));
                }
            }
        }
        out.push(key);
        proof {
            let now = keys(out@);
            assert(now =~= before.push(key@));
            crate::key::lemma_push_set(before, key@);
            assert(minter@ =~= used.union(ids).union(now.to_set()));
            assert forall|a: int, b: int| 0 <= a < b < now.len() implies now[a] != now[b] by {
                if b < i {
                    assert(before[a] != before[b]);
                }
            }
        }
        i += 1;
    }
    proof {
        let order = keys(out@);
        assert forall|x: Seq<char>| #[trigger] ids.contains(x) implies order.to_set().contains(x) by {
            let j = choose|j: int|
                0 <= j < views.len() && #[trigger] usable(views, j) && id_of(views[j]) == Some(x);
            assert(order[j] == out@[j]@);
            assert(order.contains(x));
        }
        assert(minter@ =~= used.union(order.to_set()));
        assert forall|j: int| 0 <= j < views.len() implies if usable(views, j) {
            Some(#[trigger] order[j]) == id_of(views[j])
        } else {
            &&& !used.contains(order[j])
            &&& used.len() + 2 * views.len() <= KEYS ==> made_key(order[j])
        } by {
            assert(order[j] == out@[j]@);
        }
    }
    out
}

/// A notebook as it is read from a text.
pub open spec fn read_as(
    nb: &Notebook,
    path: Seq<char>,
    text: Seq<u8>,
    used: Set<Seq<char>>,
) -> bool {
    let cells = loaded_cells(text_cells(text));
    let order = nb.doc().order;
    &&& refused(text) is None
    &&& json_wf(JsonV::Object(text_top(text)))
    &&& nb.path@ == path
    &&& nb.top@ == obj_insert(text_top(text), "cells"@, JsonV::Array(Seq::empty()))
    &&& nb.trailing_newline == (text.len() > 0 && text.last() == 10u8)
    &&& keys_assigned(cells, used, order)
    &&& forall|i: int| 0 <= i < order.len() ==> nb.doc().live[#[trigger] order[i]] == cells[i]
    &&& nb.doc().tombs == Map::<Seq<char>, CellV>::empty()
    &&& nb.minter@ == used.union(order.to_set())
    &&& nb.undo@.len() == 0
    &&& nb.redo@.len() == 0
    &&& !nb.mutated
}

/// Puts cells under their keys.
fn fill_table(order: &Vec<CellKey>, cells: &Vec<Cell>) -> (r: CellTable)
    requires
        order@.len() == cells@.len(),
        keys(order@).no_duplicates(),
    ensures
        r.wf(),
        r@.dom() == keys(order@).to_set(),
        forall|i: int| 0 <= i < order@.len() ==> r@[(#[trigger] order@[i])@] == cells@[i]@,
{
    let mut table = CellTable::new();
    let mut i: usize = 0;
    let ghost names = keys(order@);
    assert(table@.dom() =~= names.take(0).to_set());
    while i < order.len()
        invariant
            i <= order@.len(),
            order@.len() == cells@.len(),
            names == keys(order@),
            names.no_duplicates(),
            table.wf(),
            table@.dom() == names.take(i as int).to_set(),
            forall|j: int| 0 <= j < i ==> table@[(#[trigger] order@[j])@] == cells@[j]@,
        decreases order@.len() - i,
    {
        proof {
            let before = names.take(i as int);
            assert(names.take(i + 1) =~= before.push(order@[i as int]@));
            crate::key::lemma_push_set(before, order@[i as int]@);
            assert forall|j: int| 0 <= j < i implies (#[trigger] order@[j])@ != order@[i as int]@ by {
                assert(names[j] != names[i as int]);
            }
        }
        table.insert(order[i].clone(), cells[i].clone());
        assert(table@.dom() =~= names.take(i + 1).to_set());
        i += 1;
    }
    assert(names.take(i as int) =~= names);
    table
}

fn assemble(path: &str, text: &[u8], top: Object, cells: Vec<Cell>, minter: KeyMinter) -> (r:
    Notebook)
    requires
        minter.wf(),
        refused(text@) is None,
        top@ == obj_insert(text_top(text@), "cells"@, JsonV::Array(Seq::empty())),
        cell_views(cells@) == loaded_cells(text_cells(text@)),
        json_wf(JsonV::Object(text_top(text@))),
    ensures
        r.wf(),
        cells_wf(r.doc()),
        read_as(&r, path@, text@, minter@),
        r.disk_hash is None,
{
    let mut minter = minter;
    let ghost used = minter@;
    let order = assign_keys(&cells, &mut minter);
    let live = fill_table(&order, &cells);
    let trailing_newline = text.len() > 0 && text[text.len() - 1] == 10;
    let nb = Notebook {
        path: path.to_string(),
        top,
        trailing_newline,
        order,
        live,
        tombstones: CellTable::new(),
        minter,
        undo: Vec::new(),
        redo: Vec::new(),
        mutated: false,
        disk_hash: None,
    };
    proof {
        let names = nb.doc().order;
        let views = loaded_cells(text_cells(text@));
        assert forall|i: int| 0 <= i < names.len() implies nb.doc().live[#[trigger] names[i]]
            == views[i] by {
            assert(names[i] == nb.order@[i]@);
            assert(cell_views(cells@)[i] == cells@[i]@);
        }
        assert(known(nb.doc(), nb.minter@));
        reveal_strlit("metadata");
        reveal_strlit("cells");
        assert("metadata"@.len() != "cells"@.len());
        lemma_obj_insert(
            text_top(text@),
            "cells"@,
            JsonV::Array(Seq::empty()),
            "metadata"@,
        );
        lemma_cells_loaded(text@);
        assert forall|k: Seq<char>| #[trigger] nb.doc().live.dom().contains(k) implies cell_wf(
            nb.doc().live[k].raw,
            nb.doc().live[k].stash,
        ) by {
            let i = choose|i: int| 0 <= i < names.len() && names[i] == k;
            assert(nb.doc().live[names[i]] == views[i]);
        }
    }
    nb
}

/// The cells of a text keep their invariant when they are loaded.
proof fn lemma_cells_loaded(text: Seq<u8>)
    requires
        refused(text) is None,
        json_wf(JsonV::Object(text_top(text))),
    ensures
        forall|i: int|
            0 <= i < text_cells(text).len() ==> cell_wf(
                (#[trigger] loaded_cells(text_cells(text))[i]).raw,
                loaded_cells(text_cells(text))[i].stash,
            ),
{
    let top = text_top(text);
    let cells = text_cells(text);
    lemma_obj_index(top, "cells"@);
    assert(json_wf(top[obj_index(top, "cells"@)].1));
    assert forall|i: int| 0 <= i < cells.len() implies cell_wf(
        (#[trigger] loaded_cells(cells)[i]).raw,
        loaded_cells(cells)[i].stash,
    ) by {
        lemma_cells_refusal(cells, 0, i);
        assert(json_wf(cells[i]));
        assert forall|n: Seq<char>| !crate::json::obj_has(Entries::empty(), n) by {
            lemma_obj_index(Entries::empty(), n);
        }
    }
}

impl Notebook {
    /// Parses notebook JSON. `path` is only used for naming.
    pub fn from_bytes(path: &str, text: &[u8], minter: KeyMinter) -> (r: Result<
        Notebook,
        OpenError,
    >)
        requires
            minter.wf(),
        ensures
            match r {
                Ok(nb) => {
                    &&& nb.wf()
                    &&& cells_wf(nb.doc())
                    &&& read_as(&nb, path@, text@, minter@)
                    &&& nb.disk_hash is None
                },
                Err(e) => refused(text@) == Some(e.refusal()) && e.path() == path@,
            },
    {
        match read_text(path, text) {
            Ok((top, cells)) => Ok(assemble(path, text, top, cells, minter)),
            Err(e) => Err(e),
        }
    }

    /// Opens a notebook whose file holds `text`.
    pub fn open(path: &str, text: &[u8]) -> (r: Result<Notebook, OpenError>)
        ensures
            match r {
                Ok(nb) => {
                    &&& nb.wf()
                    &&& cells_wf(nb.doc())
                    &&& read_as(&nb, path@, text@, Set::empty())
                    &&& hash_view(nb.disk_hash) == Some(sha256(text@))
                },
                Err(e) => refused(text@) == Some(e.refusal()) && e.path() == path@,
            },
    {
        match Notebook::from_bytes(path, text, KeyMinter::default()) {
            Ok(nb) => {
                let mut nb = nb;
                nb.disk_hash = Some(digest(text));
                Ok(nb)
            },
            Err(e) => Err(e),
        }
    }

    /// Reloads from the file, which holds `text`: rebuilds the document, discarding tombstones
    /// and history. A file that is refused leaves the notebook as it is.
    pub fn reload(&mut self, text: &[u8]) -> (r: Result<(), OpenError>)
        requires
            old(self).wf(),
        ensures
            final(self).wf(),
            match r {
                Ok(_) => {
                    &&& cells_wf(final(self).doc())
                    &&& read_as(final(self), old(self).path@, text@, old(self).minter@)
                    &&& hash_view(final(self).disk_hash) == Some(sha256(text@))
                },
                Err(e) => {
                    &&& refused(text@) == Some(e.refusal())
                    &&& e.path() == old(self).path@
                    &&& *final(self) == *old(self)
                },
            },
    {
        match read_text(self.path.as_str(), text) {
            Ok((top, cells)) => {
                let path = self.path.clone();
                let mut minter = KeyMinter::default();
                std::mem::swap(&mut minter, &mut self.minter);
                let mut nb = assemble(path.as_str(), text, top, cells, minter);
                nb.disk_hash = Some(digest(text));
                *self = nb;
                Ok(())
            },
            Err(e) => Err(e),
        }
    }
}

/// The SHA-256 digest of a text.
pub uninterp spec fn sha256(text: Seq<u8>) -> Seq<u8>;

/// `sha2`'s `Sha256::digest`.
#[verifier::external_body]
pub(crate) fn digest(text: &[u8]) -> (r: Vec<u8>)
    ensures
        r@ == sha256(text@),
{
    <sha2::Sha256 as sha2::Digest>::digest(text).to_vec()
}

/// Exactly the notebooks of nbformat 4 are read: an object with that version, metadata and
/// cells, each cell an object of one of the three types.
pub proof fn what_is_read(text: Seq<u8>)
    ensures
        refused(text) is None <==> (json_parsed(text) matches Some(JsonV::Object(top)) && v_u64(
            obj_get(top, "nbformat"@),
        ) == Some(4u64) && (obj_get(top, "metadata"@) matches Some(JsonV::Object(_))) && (obj_get(
            top,
            "cells"@,
        ) matches Some(JsonV::Array(cells)) && forall|i: int|
            0 <= i < cells.len() ==> (#[trigger] cells[i]) is Object && of_nbformat_4(
                cells[i]->Object_0,
            ))),
{
    if let Some(JsonV::Object(top)) = json_parsed(text) {
        if let Some(JsonV::Array(cells)) = obj_get(top, "cells"@) {
            lemma_types();
            if cells_refusal(cells, 0) is None {
                assert forall|i: int| 0 <= i < cells.len() implies (#[trigger] cells[i]) is Object
                    && of_nbformat_4(cells[i]->Object_0) by {
                    lemma_cells_refusal(cells, 0, i);
                }
            }
            if forall|i: int|
                0 <= i < cells.len() ==> (#[trigger] cells[i]) is Object && of_nbformat_4(
                    cells[i]->Object_0,
                ) {
                lemma_cells_accepted(cells, 0);
            }
        }
    }
}

/// Whether a cell says that it is code, markdown or raw.
pub open spec fn of_nbformat_4(raw: Entries) -> bool {
    ||| obj_get(raw, "cell_type"@) == Some(JsonV::String("code"@))
    ||| obj_get(raw, "cell_type"@) == Some(JsonV::String("markdown"@))
    ||| obj_get(raw, "cell_type"@) == Some(JsonV::String("raw"@))
}

proof fn lemma_types()
    ensures
        forall|raw: Entries| #[trigger] of_nbformat_4(raw) == known_type(raw),
{
    reveal_strlit("code");
    reveal_strlit("markdown");
    reveal_strlit("raw");
    assert("code"@.len() == 4 && "markdown"@.len() == 8 && "raw"@.len() == 3);
}

proof fn lemma_cells_accepted(cells: Seq<JsonV>, i: int)
    requires
        0 <= i,
        forall|j: int|
            0 <= j < cells.len() ==> (#[trigger] cells[j]) is Object && of_nbformat_4(
                cells[j]->Object_0,
            ),
    ensures
        cells_refusal(cells, i) is None,
    decreases cells.len() - i,
{
    if i < cells.len() {
        lemma_types();
        assert(cells[i] is Object);
        lemma_cells_accepted(cells, i + 1);
    }
}

/// A notebook that was read has the cells of the text, in their order, with every field as it
/// was read; a cell with a valid id that no other cell has is under that id; and every other
/// top-level entry is as it was read.
pub proof fn opened_notebook_is_the_text(
    nb: &Notebook,
    path: Seq<char>,
    text: Seq<u8>,
    used: Set<Seq<char>>,
    i: int,
    n: Seq<char>,
)
    requires
        read_as(nb, path, text, used),
        0 <= i < text_cells(text).len(),
    ensures
        nb.doc().order.len() == text_cells(text).len(),
        JsonV::Object(nb.doc().live[nb.doc().order[i]].raw) == text_cells(text)[i],
        nb.doc().live[nb.doc().order[i]].stash.len() == 0,
        ({
            let id = v_str(obj_get(text_cells(text)[i]->Object_0, "id"@));
            id is Some && valid_id(id->0) && (forall|j: int|
                0 <= j < text_cells(text).len() && j != i ==> v_str(
                    obj_get((#[trigger] text_cells(text)[j])->Object_0, "id"@),
                ) != id) ==> nb.doc().order[i] == id->0
        }),
        n != "cells"@ ==> obj_get(nb.top@, n) == obj_get(text_top(text), n),
{
    let cells = text_cells(text);
    let views = loaded_cells(cells);
    lemma_cells_refusal(cells, 0, i);
    assert(nb.doc().live[nb.doc().order[i]] == views[i]);
    crate::json::lemma_obj_insert(text_top(text), "cells"@, JsonV::Array(Seq::empty()), n);
    let id = v_str(obj_get(cells[i]->Object_0, "id"@));
    if id is Some && valid_id(id->0) && (forall|j: int|
        0 <= j < cells.len() && j != i ==> v_str(
            obj_get((#[trigger] cells[j])->Object_0, "id"@),
        ) != id) {
        assert forall|j: int| 0 <= j < views.len() && j != i implies id_of(#[trigger] views[j])
            != id_of(views[i]) by {
            lemma_cells_refusal(cells, 0, j);
            assert(v_str(obj_get(cells[j]->Object_0, "id"@)) != id);
        }
        assert(usable(views, i));
        assert(Some(nb.doc().order[i]) == id_of(views[i]));
    }
}

/// A refused text says what is wrong with it: that it is no JSON, that it has another version,
/// or which cell has a type that the format does not know, counted from one.
pub proof fn refusals_say_why(text: Seq<u8>)
    ensures
        json_parsed(text) is None ==> refused(text) == Some(Refusal::Json),
        json_parsed(text) matches Some(v) ==> !(v is Object) ==> refused(text)
            matches Some(Refusal::NotANotebook(_)),
        json_parsed(text) matches Some(JsonV::Object(top)) ==> obj_get(top, "nbformat"@) is Some
            && v_u64(obj_get(top, "nbformat"@)) != Some(4u64) ==> refused(text) == Some(
            Refusal::UnsupportedNbformat(json_compact(json_normal(obj_get(top, "nbformat"@)->0))),
        ),
{
}

/// The first cell of a type that the format does not know is the one that is named.
pub proof fn first_unknown_cell_is_named(cells: Seq<JsonV>, from: int, i: int)
    requires
        0 <= from <= i < cells.len(),
        forall|j: int|
            from <= j < i ==> (#[trigger] cells[j]) is Object && of_nbformat_4(cells[j]->Object_0),
        cells[i] is Object,
        !of_nbformat_4(cells[i]->Object_0),
    ensures
        cells_refusal(cells, from) is Some,
        cells_refusal(cells, from)->0 is UnknownCellType,
        cells_refusal(cells, from)->0->UnknownCellType_0 == i + 1,
    decreases i - from,
{
    lemma_types();
    if from < i {
        assert(cells[from] is Object && of_nbformat_4(cells[from]->Object_0));
        first_unknown_cell_is_named(cells, from + 1, i);
    }
}

/// Every error on opening names the file.
pub proof fn errors_name_the_file(e: OpenError)
    ensures
        e.shown().len() >= e.path().len(),
        e.shown().take(e.path().len() as int) == e.path(),
        e matches OpenError::NotANotebook(_, why) ==> e.shown().skip(e.shown().len() - why@.len())
            == why@,
        e matches OpenError::Json(_, err) ==> e.shown().skip(
            e.shown().len() - json_error_text(err).len(),
        ) == json_error_text(err),
{
    assert(e.shown().take(e.path().len() as int) =~= e.path());
    match e {
        OpenError::NotANotebook(_, why) => {
            assert(e.shown().skip(e.shown().len() - why@.len()) =~= why@);
        },
        OpenError::Json(_, err) => {
            let t = json_error_text(err);
            assert(e.shown().skip(e.shown().len() - t.len()) =~= t);
        },
        _ => {},
    }
}

} // verus!
