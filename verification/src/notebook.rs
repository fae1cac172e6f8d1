//! The canonical notebook: loading, cell sources and structural changes with undo, and what
//! is written back.

use crate::adapter::CellKind;
use crate::document::{fresh, loaded, raw_source, Cell, CellV, Runtime};
use crate::history::{
    applied, cell_at, divided, divides, doc_wf, edited, lemma_insert, lemma_pos, lemma_remove, lines_of, pos, redone,
    run, sourced, undone, ChangeV, DocV, HistoryV,
};
use crate::json::{obj_get, obj_has, obj_remove, JsonV, Object};
use crate::key::{find_key, keys, made_key, CellKey, KeyMinter};
use crate::session::{steps, StepV};
use crate::table::CellTable;
use crate::text::{
    append_chars, chars_of, join_chars, one, split_chars, string_of, sub_parts, views,
};
use vstd::prelude::*;

verus! {

/// One structural change to the document. Every change has an exact inverse, which is what
/// undo applies. Cells leaving the document are tombstoned, never destroyed, so an inverse can
/// always bring a cell back with its outputs.
#[derive(Debug, PartialEq, Eq)]
pub enum Change {
    /// Makes a tombstoned cell live at `index` (clamped to the end).
    Show { key: CellKey, index: usize },
    /// Tombstones a live cell.
    Hide { key: CellKey },
    /// Moves a live cell to `index` (clamped to the end).
    Move { key: CellKey, index: usize },
    /// Changes a live cell's type.
    Kind { key: CellKey, kind: CellKind },
    /// Splits a live cell before source line `line`, which must leave a line on each side: the
    /// lines from there on move into the tombstoned cell `new`, which keeps its own type and
    /// becomes live directly below.
    Split { key: CellKey, line: usize, new: CellKey },
    /// Appends live cell `next`'s source to `key`'s, on a new line, and tombstones `next`.
    Merge { key: CellKey, next: CellKey },
    /// Takes a merge back: the lines of live cell `key` from `line` on move into the tombstoned
    /// cell `next`, which becomes live at `index` (clamped to the end).
    Unmerge { key: CellKey, line: usize, next: CellKey, index: usize },
}

impl View for Change {
    type V = ChangeV;

    open spec fn view(&self) -> ChangeV {
        match *self {
            Change::Show { key, index } => ChangeV::Show { key: key@, index: index as int },
            Change::Hide { key } => ChangeV::Hide { key: key@ },
            Change::Move { key, index } => ChangeV::Move { key: key@, index: index as int },
            Change::Kind { key, kind } => ChangeV::Kind { key: key@, kind },
            Change::Split { key, line, new } => ChangeV::Split {
                key: key@,
                line: line as int,
                fresh: new@,
            },
            Change::Merge { key, next } => ChangeV::Merge { key: key@, next: next@ },
            Change::Unmerge { key, line, next, index } => ChangeV::Unmerge {
                key: key@,
                line: line as int,
                next: next@,
                index: index as int,
            },
        }
    }
}

impl Clone for Change {
    fn clone(&self) -> (r: Self)
        ensures
            r@ == self@,
    {
        match self {
            Change::Show { key, index } => Change::Show { key: key.clone(), index: *index },
            Change::Hide { key } => Change::Hide { key: key.clone() },
            Change::Move { key, index } => Change::Move { key: key.clone(), index: *index },
            Change::Kind { key, kind } => Change::Kind { key: key.clone(), kind: *kind },
            Change::Split { key, line, new } => Change::Split {
                key: key.clone(),
                line: *line,
                new: new.clone(),
            },
            Change::Merge { key, next } => Change::Merge { key: key.clone(), next: next.clone() },
            Change::Unmerge { key, line, next, index } => Change::Unmerge {
                key: key.clone(),
                line: *line,
                next: next.clone(),
                index: *index,
            },
        }
    }
}

pub open spec fn changes(g: Seq<Change>) -> Seq<ChangeV> {
    Seq::new(g.len(), |i: int| g[i]@)
}

pub open spec fn groups(s: Seq<Vec<Change>>) -> Seq<Seq<ChangeV>> {
    Seq::new(s.len(), |i: int| changes(s[i]@))
}

#[derive(Debug, Clone, Copy)]
pub struct CommitOptions {
    pub force: bool,
}

impl Default for CommitOptions {
    fn default() -> (r: Self)
        ensures
            !r.force,
    {
        CommitOptions { force: false }
    }
}

#[derive(Debug)]
pub struct Notebook {
    pub path: String,
    /// The top-level object. Its `cells` entry is rebuilt from `order` on serialisation.
    pub top: Object,
    pub trailing_newline: bool,
    pub order: Vec<CellKey>,
    pub live: CellTable,
    /// Deleted cells, and cells created but not yet shown.
    pub tombstones: CellTable,
    pub minter: KeyMinter,
    /// Inverse change groups, most recent last.
    pub undo: Vec<Vec<Change>>,
    pub redo: Vec<Vec<Change>>,
    /// Whether any source, structure, type, output or execution change has happened.
    pub mutated: bool,
    /// The digest of the file as it was last read or written.
    pub disk_hash: Option<Vec<u8>>,
}

pub open spec fn hash_view(h: Option<Vec<u8>>) -> Option<Seq<u8>> {
    match h {
        Some(v) => Some(v@),
        None => None,
    }
}

pub open spec fn is_object(v: Option<JsonV>) -> bool {
    v matches Some(JsonV::Object(_))
}

impl Notebook {
    pub open spec fn doc(&self) -> DocV {
        DocV { order: keys(self.order@), live: self.live@, tombs: self.tombstones@ }
    }

    pub open spec fn history(&self) -> HistoryV {
        HistoryV { doc: self.doc(), undo: groups(self.undo@), redo: groups(self.redo@) }
    }

    /// Every live cell stands once in the order, no cell is both live and tombstoned, the
    /// minter has seen the key of every cell, and the metadata is an object.
    pub open spec fn wf(&self) -> bool {
        &&& self.live.wf()
        &&& self.tombstones.wf()
        &&& self.minter.wf()
        &&& doc_wf(self.doc())
        &&& known(self.doc(), self.minter@)
        &&& is_object(obj_get(self.top@, "metadata"@))
    }

    /// Everything but the cells is as in `other`.
    pub open spec fn same_but_cells(&self, other: &Notebook) -> bool {
        &&& self.path@ == other.path@
        &&& self.top@ == other.top@
        &&& self.trailing_newline == other.trailing_newline
        &&& self.minter@ == other.minter@
        &&& self.undo@ == other.undo@
        &&& self.redo@ == other.redo@
        &&& self.mutated == other.mutated
        &&& hash_view(self.disk_hash) == hash_view(other.disk_hash)
    }

    /// Everything but the cells and the history is as in `other`.
    pub open spec fn same_file(&self, other: &Notebook) -> bool {
        &&& self.path@ == other.path@
        &&& self.top@ == other.top@
        &&& self.trailing_newline == other.trailing_newline
        &&& self.minter@ == other.minter@
        &&& hash_view(self.disk_hash) == hash_view(other.disk_hash)
    }

    pub fn path(&self) -> (r: &str)
        ensures
            r@ == self.path@,
    {
        self.path.as_str()
    }

    pub fn is_mutated(&self) -> (r: bool)
        ensures
            r == self.mutated,
    {
        self.mutated
    }

    pub fn order(&self) -> (r: &[CellKey])
        ensures
            r@ == self.order@,
    {
        self.order.as_slice()
    }

    pub fn index_of(&self, key: &CellKey) -> (r: Option<usize>)
        ensures
            match r {
                Some(i) => i == pos(self.doc().order, key@) && i < self.order.len(),
                None => pos(self.doc().order, key@) >= self.order@.len(),
            },
    {
        let i = find_key(&self.order, key);
        proof {
            let order = self.doc().order;
            lemma_pos(order, key@);
            let m = pos(order, key@);
            if m < i {
                assert(self.order@[m]@ == key@);
            } else if i < m {
                assert(order[i as int] == key@);
            }
        }
        if i < self.order.len() {
            Some(i)
        } else {
            None
        }
    }

    /// A live or tombstoned cell.
    pub fn cell(&self, key: &CellKey) -> (r: Option<&Cell>)
        ensures
            match r {
                Some(c) => cell_at(self.doc(), key@) == Some(c@),
                None => cell_at(self.doc(), key@) is None,
            },
    {
        match self.live.get(key) {
            Some(c) => Some(c),
            None => self.tombstones.get(key),
        }
    }

    pub fn is_live(&self, key: &CellKey) -> (r: bool)
        ensures
            r == self.doc().live.dom().contains(key@),
    {
        self.live.contains_key(key)
    }

    pub fn is_tombstoned(&self, key: &CellKey) -> (r: bool)
        ensures
            r == self.doc().tombs.dom().contains(key@),
    {
        self.tombstones.contains_key(key)
    }

    /// A live or tombstoned cell, for runtime and output changes. Marks the document mutated.
    pub fn cell_mut(&mut self, key: &CellKey) -> (r: Option<&mut Cell>)
        requires
            old(self).wf(),
        ensures
            final(self).wf(),
            final(self).mutated,
            final(self).same_file(old(self)),
            final(self).undo@ == old(self).undo@,
            final(self).redo@ == old(self).redo@,
            match r {
                Some(c) => {
                    &&& cell_at(old(self).doc(), key@) == Some(c@)
                    &&& final(self).doc() == with_cell(old(self).doc(), key@, final(c)@)
                    &&& steps(
                        old(self),
                        StepV::SetCell { key: key@, cell: final(c)@ },
                        final(self),
                    )
                },
                None => {
                    &&& cell_at(old(self).doc(), key@) is None
                    &&& final(self).doc() == old(self).doc()
                },
            },
    {
        proof {
            reveal(steps);
        }
        self.mutated = true;
        proof {
            lemma_with_cell(self.doc(), key@, self.minter@);
        }
        if self.live.contains_key(key) {
            self.live.get_mut(key)
        } else {
            self.tombstones.get_mut(key)
        }
    }

    /// Runtime-only access (exec state, timings) that does not count as a mutation.
    pub fn runtime_mut(&mut self, key: &CellKey) -> (r: Option<&mut Runtime>)
        requires
            old(self).wf(),
        ensures
            final(self).wf(),
            final(self).same_but_cells(old(self)),
            match r {
                Some(t) => {
                    &&& cell_at(old(self).doc(), key@) matches Some(c) && c.runtime == t@
                    &&& final(self).doc() == with_cell(
                        old(self).doc(),
                        key@,
                        CellV { runtime: final(t)@, ..cell_at(old(self).doc(), key@)->0 },
                    )
                    &&& steps(
                        old(self),
                        StepV::SetRuntime { key: key@, runtime: final(t)@ },
                        final(self),
                    )
                },
                None => {
                    &&& cell_at(old(self).doc(), key@) is None
                    &&& final(self).doc() == old(self).doc()
                },
            },
    {
        proof {
            reveal(steps);
        }
        proof {
            lemma_with_cell(self.doc(), key@, self.minter@);
        }
        let found = if self.live.contains_key(key) {
            self.live.get_mut(key)
        } else {
            self.tombstones.get_mut(key)
        };
        match found {
            Some(c) => Some(&mut c.runtime),
            None => None,
        }
    }
}

/// The document with another cell under a key that it has.
pub open spec fn with_cell(d: DocV, k: Seq<char>, c: CellV) -> DocV {
    if d.live.dom().contains(k) {
        DocV { live: d.live.insert(k, c), ..d }
    } else {
        DocV { tombs: d.tombs.insert(k, c), ..d }
    }
}

/// Putting a cell in its own place changes nothing.
pub proof fn lemma_same_cell(d: DocV, k: Seq<char>)
    requires
        cell_at(d, k) is Some,
    ensures
        with_cell(d, k, cell_at(d, k)->0) == d,
{
    if d.live.dom().contains(k) {
        assert(d.live.insert(k, d.live[k]) =~= d.live);
    } else {
        assert(d.tombs.insert(k, d.tombs[k]) =~= d.tombs);
    }
}

/// The minter has seen the key of every cell.
pub open spec fn known(d: DocV, used: Set<Seq<char>>) -> bool {
    forall|k: Seq<char>| #[trigger] cell_at(d, k) is Some ==> used.contains(k)
}

/// Putting another cell under a key that the document has keeps its structure.
proof fn lemma_with_cell(d: DocV, k: Seq<char>, used: Set<Seq<char>>)
    requires
        doc_wf(d),
        known(d, used),
    ensures
        d.live.dom().contains(k) ==> forall|c: CellV|
            #![trigger d.live.insert(k, c)]
            {
                let e = DocV { live: d.live.insert(k, c), ..d };
                doc_wf(e) && known(e, used)
            },
        d.tombs.dom().contains(k) ==> forall|c: CellV|
            #![trigger d.tombs.insert(k, c)]
            {
                let e = DocV { tombs: d.tombs.insert(k, c), ..d };
                doc_wf(e) && known(e, used)
            },
{
    assert forall|c: CellV| d.live.dom().contains(k) implies {
        let e = DocV { live: #[trigger] d.live.insert(k, c), ..d };
        doc_wf(e) && known(e, used)
    } by {
        let e = DocV { live: d.live.insert(k, c), ..d };
        assert forall|x: Seq<char>| #[trigger] cell_at(e, x) is Some implies used.contains(x) by {
            assert(cell_at(d, x) is Some);
        }
    }
    assert forall|c: CellV| d.tombs.dom().contains(k) implies {
        let e = DocV { tombs: #[trigger] d.tombs.insert(k, c), ..d };
        doc_wf(e) && known(e, used)
    } by {
        let e = DocV { tombs: d.tombs.insert(k, c), ..d };
        assert forall|x: Seq<char>| #[trigger] cell_at(e, x) is Some implies used.contains(x) by {
            assert(cell_at(d, x) is Some);
        }
    }
}

impl Notebook {
    /// Replaces a live cell's source, as typed in its editor. Returns whether it changed.
    /// Text edits are not structural changes: the editor has its own undo for them.
    pub fn set_source(&mut self, key: &CellKey, source: &str) -> (r: bool)
        requires
            old(self).wf(),
        ensures
            final(self).wf(),
            final(self).same_file(old(self)),
            final(self).undo@ == old(self).undo@,
            final(self).redo@ == old(self).redo@,
            final(self).mutated == (old(self).mutated || r),
            ({
                let d = old(self).doc();
                if d.live.dom().contains(key@) {
                    let raw = d.live[key@].raw;
                    &&& r == !(obj_has(raw, "source"@) && raw_source(raw) == source@)
                    &&& final(self).doc() == with_cell(d, key@, sourced(d.live[key@], source@))
                } else {
                    !r && final(self).doc() == d
                }
            }),
            steps(old(self), StepV::SetSource { key: key@, source: source@ }, final(self)),
    {
        proof {
            reveal(steps);
        }
        proof {
            lemma_with_cell(self.doc(), key@, self.minter@);
        }
        let changed = match self.live.get_mut(key) {
            Some(cell) => cell.set_source(source),
            None => false,
        };
        if changed {
            self.mutated = true;
        }
        changed
    }

    /// Creates a tombstoned cell under a fresh key, ready for [`Change::Show`] or as the
    /// `new` half of a [`Change::Split`].
    pub fn new_cell(&mut self, kind: CellKind, source: &str) -> (r: CellKey)
        requires
            old(self).wf(),
        ensures
            final(self).wf(),
            final(self).created(old(self), r@, fresh(kind, source@)),
            steps(old(self), StepV::NewCell { kind, source: source@, key: r@ }, final(self)),
    {
        proof {
            reveal(steps);
        }
        self.create(Cell::new(kind, source))
    }

    /// Creates a tombstoned copy of a cell under a fresh key, outputs included, for pasting.
    pub fn copy_cell(&mut self, raw: &Object) -> (r: CellKey)
        requires
            old(self).wf(),
        ensures
            final(self).wf(),
            final(self).created(old(self), r@, loaded(obj_remove(raw@, "id"@))),
            steps(old(self), StepV::CopyCell { raw: raw@, key: r@ }, final(self)),
    {
        proof {
            reveal(steps);
        }
        let mut raw = raw.clone();
        let _ = raw.shift_remove("id");
        self.create(Cell::from_raw(raw))
    }

    /// The notebook is `before` with one more tombstoned cell, under a key never seen.
    pub open spec fn created(&self, before: &Notebook, key: Seq<char>, cell: CellV) -> bool {
        &&& !before.minter@.contains(key)
        &&& before.minter@.len() < crate::key::KEYS ==> made_key(key)
        &&& self.minter@ == before.minter@.insert(key)
        &&& self.doc() == (DocV {
            tombs: before.doc().tombs.insert(key, cell),
            ..before.doc()
        })
        &&& self.path@ == before.path@
        &&& self.top@ == before.top@
        &&& self.trailing_newline == before.trailing_newline
        &&& self.undo@ == before.undo@
        &&& self.redo@ == before.redo@
        &&& self.mutated == before.mutated
        &&& hash_view(self.disk_hash) == hash_view(before.disk_hash)
    }

    fn create(&mut self, cell: Cell) -> (r: CellKey)
        requires
            old(self).wf(),
        ensures
            final(self).wf(),
            final(self).created(old(self), r@, cell@),
    {
        let key = self.minter.mint();
        let ghost d = self.doc();
        let ghost c = cell@;
        self.tombstones.insert(key.clone(), cell);
        proof {
            let e = self.doc();
            assert(cell_at(d, key@) is None);
            assert forall|k: Seq<char>| #[trigger] cell_at(e, k) is Some implies
                self.minter@.contains(k) by {
                if k != key@ {
                    assert(cell_at(d, k) is Some);
                }
            }
        }
        key
    }

    /// A key never seen, for a cell to come.
    pub fn mint_key(&mut self) -> (r: CellKey)
        requires
            old(self).wf(),
        ensures
            final(self).wf(),
            final(self).minted(old(self), r@),
            steps(old(self), StepV::MintKey { key: r@ }, final(self)),
    {
        proof {
            reveal(steps);
        }
        let key = self.minter.mint();
        proof {
            lemma_known(old(self).doc(), self.doc(), self.minter@);
        }
        key
    }

    /// The notebook is `before` with one more key seen.
    pub open spec fn minted(&self, before: &Notebook, key: Seq<char>) -> bool {
        &&& !before.minter@.contains(key)
        &&& before.minter@.len() < crate::key::KEYS ==> made_key(key)
        &&& self.minter@ == before.minter@.insert(key)
        &&& self.doc() == before.doc()
        &&& self.path@ == before.path@
        &&& self.top@ == before.top@
        &&& self.trailing_newline == before.trailing_newline
        &&& self.undo@ == before.undo@
        &&& self.redo@ == before.redo@
        &&& self.mutated == before.mutated
        &&& hash_view(self.disk_hash) == hash_view(before.disk_hash)
    }

    /// Applies a group of changes as one undo step. Returns the index of the cell to focus.
    pub fn edit(&mut self, changes: Vec<Change>) -> (r: Option<usize>)
        requires
            old(self).wf(),
        ensures
            final(self).wf(),
            final(self).same_file(old(self)),
            ({
                let g = self::changes(changes@);
                let run = run(old(self).doc(), g);
                &&& final(self).history() == edited(old(self).history(), g)
                &&& focus_view(r) == run.2
                &&& final(self).mutated == (old(self).mutated || run.1.len() > 0)
            }),
            steps(old(self), StepV::Edit { group: self::changes(changes@) }, final(self)),
    {
        proof {
            reveal(steps);
        }
        let (inverse, focus) = self.apply_group(&changes);
        if inverse.len() > 0 {
            self.undo.push(inverse);
            self.redo = Vec::new();
        }
        assert(self.history().undo =~= edited(
            old(self).history(),
            self::changes(changes@),
        ).undo);
        assert(self.history().redo =~= edited(
            old(self).history(),
            self::changes(changes@),
        ).redo);
        focus
    }

    /// Reverts the most recent change group. Returns the index of the cell to focus, or
    /// `None` when there is nothing to undo.
    pub fn undo(&mut self) -> (r: Option<usize>)
        requires
            old(self).wf(),
        ensures
            final(self).wf(),
            final(self).same_file(old(self)),
            final(self).history() == undone(old(self).history()),
            ({
                let undo = old(self).history().undo;
                let run = run(old(self).doc(), undo.last());
                if undo.len() == 0 {
                    r is None && final(self).mutated == old(self).mutated
                } else {
                    &&& focus_view(r) == (if run.2 is Some {
                        run.2
                    } else {
                        Some(0int)
                    })
                    &&& final(self).mutated == (old(self).mutated || run.1.len() > 0)
                }
            }),
            steps(old(self), StepV::Undo, final(self)),
    {
        proof {
            reveal(steps);
        }
        let ghost before = groups(self.undo@);
        match self.undo.pop() {
            Some(group) => {
                assert(groups(self.undo@) =~= before.drop_last());
                assert(before.last() == changes(group@));
                let (inverse, focus) = self.apply_group(&group);
                self.redo.push(inverse);
                assert(groups(self.redo@) =~= undone(old(self).history()).redo);
                match focus {
                    Some(i) => Some(i),
                    None => Some(0),
                }
            },
            None => None,
        }
    }

    pub fn redo(&mut self) -> (r: Option<usize>)
        requires
            old(self).wf(),
        ensures
            final(self).wf(),
            final(self).same_file(old(self)),
            final(self).history() == redone(old(self).history()),
            ({
                let redo = old(self).history().redo;
                let run = run(old(self).doc(), redo.last());
                if redo.len() == 0 {
                    r is None && final(self).mutated == old(self).mutated
                } else {
                    &&& focus_view(r) == (if run.2 is Some {
                        run.2
                    } else {
                        Some(0int)
                    })
                    &&& final(self).mutated == (old(self).mutated || run.1.len() > 0)
                }
            }),
            steps(old(self), StepV::Redo, final(self)),
    {
        proof {
            reveal(steps);
        }
        let ghost before = groups(self.redo@);
        match self.redo.pop() {
            Some(group) => {
                assert(groups(self.redo@) =~= before.drop_last());
                assert(before.last() == changes(group@));
                let (inverse, focus) = self.apply_group(&group);
                self.undo.push(inverse);
                assert(groups(self.undo@) =~= redone(old(self).history()).undo);
                match focus {
                    Some(i) => Some(i),
                    None => Some(0),
                }
            },
            None => None,
        }
    }

    /// Applies changes in order; returns their inverses in reverse order, and the focus of the
    /// first change that applied. Changes that do not apply (a stale key) are skipped.
    fn apply_group(&mut self, group: &Vec<Change>) -> (r: (Vec<Change>, Option<usize>))
        requires
            old(self).wf(),
        ensures
            final(self).wf(),
            final(self).same_file(old(self)),
            final(self).undo@ == old(self).undo@,
            final(self).redo@ == old(self).redo@,
            final(self).doc() == run(old(self).doc(), changes(group@)).0,
            changes(r.0@) == run(old(self).doc(), changes(group@)).1,
            focus_view(r.1) == run(old(self).doc(), changes(group@)).2,
            final(self).mutated == (old(self).mutated || r.0@.len() > 0),
    {
        let mut inverse: Vec<Change> = Vec::new();
        let mut focus: Option<usize> = None;
        let mut i: usize = 0;
        let ghost d = self.doc();
        let ghost g = changes(group@);
        assert(g.take(0) =~= Seq::empty());
        assert(changes(inverse@) =~= Seq::empty());
        while i < group.len()
            invariant
                i <= group@.len(),
                g == changes(group@),
                self.wf(),
                self.same_file(old(self)),
                self.undo@ == old(self).undo@,
                self.redo@ == old(self).redo@,
                self.mutated == old(self).mutated,
                self.doc() == run(d, g.take(i as int)).0,
                changes(inverse@) == run(d, g.take(i as int)).1,
                focus_view(focus) == run(d, g.take(i as int)).2,
            decreases group@.len() - i,
        {
            assert(g.take(i + 1).drop_last() =~= g.take(i as int));
            assert(g.take(i + 1).last() == group@[i as int]@);
            let ghost before = changes(inverse@);
            if let Some((inv, at)) = self.apply(&group[i]) {
                inverse.insert(0, inv);
                assert(changes(inverse@) =~= seq![inv@] + before);
                if focus.is_none() {
                    focus = Some(at);
                }
            }
            i += 1;
        }
        assert(g.take(i as int) =~= g);
        if inverse.len() > 0 {
            self.mutated = true;
        }
        (inverse, focus)
    }

    fn apply(&mut self, change: &Change) -> (r: Option<(Change, usize)>)
        requires
            old(self).wf(),
        ensures
            final(self).wf(),
            final(self).same_but_cells(old(self)),
            match r {
                Some((inverse, at)) => applied(old(self).doc(), change@) == Some(
                    (final(self).doc(), inverse@, at as int),
                ),
                None => applied(old(self).doc(), change@) is None && final(self).doc() == old(
                    self,
                ).doc(),
            },
    {
        match change {
            Change::Show { key, index } => self.show(key, *index),
            Change::Hide { key } => self.bury(key),
            Change::Move { key, index } => self.shift(key, *index),
            Change::Kind { key, kind } => self.retype(key, *kind),
            Change::Split { key, line, new } => self.split(key, *line, new),
            Change::Merge { key, next } => self.merge(key, next),
            Change::Unmerge { key, line, next, index } => self.unmerge(key, *line, next, *index),
        }
    }

    fn show(&mut self, key: &CellKey, index: usize) -> (r: Option<(Change, usize)>)
        requires
            old(self).wf(),
        ensures
            final(self).wf(),
            final(self).same_but_cells(old(self)),
            step_is(
                old(self).doc(),
                ChangeV::Show { key: key@, index: index as int },
                final(self).doc(),
                r,
            ),
    {
        let ghost d = self.doc();
        match self.tombstones.remove(key) {
            Some(cell) => {
                let at = if index < self.order.len() {
                    index
                } else {
                    self.order.len()
                };
                assert(d.tombs.dom().contains(key@));
                assert(cell_at(d, key@) is Some);
                self.order.insert(at, key.clone());
                self.live.insert(key.clone(), cell);
                proof {
                    assert(!d.live.dom().contains(key@));
                    lemma_insert(d.order, at as int, key@);
                    assert(self.doc().order =~= d.order.insert(at as int, key@));
                    lemma_known(d, self.doc(), self.minter@);
                }
                Some((Change::Hide { key: key.clone() }, at))
            },
            None => {
                assert(self.doc().tombs =~= d.tombs);
                None
            },
        }
    }

    fn bury(&mut self, key: &CellKey) -> (r: Option<(Change, usize)>)
        requires
            old(self).wf(),
        ensures
            final(self).wf(),
            final(self).same_but_cells(old(self)),
            step_is(old(self).doc(), ChangeV::Hide { key: key@ }, final(self).doc(), r),
    {
        let ghost d = self.doc();
        match self.index_of(key) {
            Some(at) => {
                proof {
                    lemma_pos(d.order, key@);
                    lemma_remove(d.order, at as int);
                    assert(d.live.dom().contains(key@));
                }
                let _ = self.order.remove(at);
                if let Some(cell) = self.live.remove(key) {
                    self.tombstones.insert(key.clone(), cell);
                }
                proof {
                    assert(self.doc().order =~= d.order.remove(at as int));
                    lemma_known(d, self.doc(), self.minter@);
                }
                let last = if self.order.len() > 0 {
                    self.order.len() - 1
                } else {
                    0
                };
                let focus = if at < last {
                    at
                } else {
                    last
                };
                Some((Change::Show { key: key.clone(), index: at }, focus))
            },
            None => None,
        }
    }

    fn shift(&mut self, key: &CellKey, index: usize) -> (r: Option<(Change, usize)>)
        requires
            old(self).wf(),
        ensures
            final(self).wf(),
            final(self).same_but_cells(old(self)),
            step_is(
                old(self).doc(),
                ChangeV::Move { key: key@, index: index as int },
                final(self).doc(),
                r,
            ),
    {
        let ghost d = self.doc();
        match self.index_of(key) {
            Some(from) => {
                let _ = self.order.remove(from);
                let at = if index < self.order.len() {
                    index
                } else {
                    self.order.len()
                };
                self.order.insert(at, key.clone());
                proof {
                    lemma_pos(d.order, key@);
                    lemma_remove(d.order, from as int);
                    let rest = d.order.remove(from as int);
                    lemma_insert(rest, at as int, key@);
                    assert(self.doc().order =~= rest.insert(at as int, key@));
                    assert(d.live.dom().contains(key@));
                    lemma_known(d, self.doc(), self.minter@);
                }
                Some((Change::Move { key: key.clone(), index: from }, at))
            },
            None => None,
        }
    }

    fn retype(&mut self, key: &CellKey, kind: CellKind) -> (r: Option<(Change, usize)>)
        requires
            old(self).wf(),
        ensures
            final(self).wf(),
            final(self).same_but_cells(old(self)),
            step_is(old(self).doc(), ChangeV::Kind { key: key@, kind }, final(self).doc(), r),
    {
        let ghost d = self.doc();
        match self.index_of(key) {
            Some(at) => {
                proof {
                    lemma_pos(d.order, key@);
                    assert(d.live.dom().contains(key@));
                    lemma_with_cell(d, key@, self.minter@);
                }
                let mut was = kind;
                if let Some(cell) = self.live.get_mut(key) {
                    was = cell.kind();
                    cell.set_kind(kind);
                }
                if was == kind {
                    assert(self.doc().live =~= d.live);
                    None
                } else {
                    Some((Change::Kind { key: key.clone(), kind: was }, at))
                }
            },
            None => None,
        }
    }

    fn split(&mut self, key: &CellKey, line: usize, new: &CellKey) -> (r: Option<(Change, usize)>)
        requires
            old(self).wf(),
        ensures
            final(self).wf(),
            final(self).same_but_cells(old(self)),
            step_is(
                old(self).doc(),
                ChangeV::Split { key: key@, line: line as int, fresh: new@ },
                final(self).doc(),
                r,
            ),
    {
        let at = match self.index_of(key) {
            Some(at) => at,
            None => {
                return None;
            },
        };
        proof {
            lemma_pos(self.doc().order, key@);
        }
        if self.divide(key, line, new, at + 1) {
            Some((Change::Merge { key: key.clone(), next: new.clone() }, at))
        } else {
            None
        }
    }

    fn unmerge(&mut self, key: &CellKey, line: usize, next: &CellKey, index: usize) -> (r: Option<
        (Change, usize),
    >)
        requires
            old(self).wf(),
        ensures
            final(self).wf(),
            final(self).same_but_cells(old(self)),
            step_is(
                old(self).doc(),
                ChangeV::Unmerge {
                    key: key@,
                    line: line as int,
                    next: next@,
                    index: index as int,
                },
                final(self).doc(),
                r,
            ),
    {
        let at = match self.index_of(key) {
            Some(at) => at,
            None => {
                return None;
            },
        };
        let place = if index < self.order.len() {
            index
        } else {
            self.order.len()
        };
        proof {
            lemma_pos(self.doc().order, key@);
        }
        if self.divide(key, line, next, place) {
            let focus = if place <= at {
                at + 1
            } else {
                at
            };
            Some((Change::Merge { key: key.clone(), next: next.clone() }, focus))
        } else {
            None
        }
    }

    /// Moves the lines of live cell `key` from `line` on into tombstoned cell `new`, which
    /// becomes live at `place`. Returns whether they can be moved.
    fn divide(&mut self, key: &CellKey, line: usize, new: &CellKey, place: usize) -> (r: bool)
        requires
            old(self).wf(),
            old(self).doc().order.contains(key@),
            place <= old(self).order@.len(),
        ensures
            final(self).wf(),
            final(self).same_but_cells(old(self)),
            r == divides(old(self).doc(), key@, line as int, new@),
            final(self).doc() == if r {
                divided(old(self).doc(), key@, line as int, new@, place as int)
            } else {
                old(self).doc()
            },
    {
        let ghost d = self.doc();
        proof {
            lemma_pos(d.order, key@);
            assert(d.live.dom().contains(key@));
        }
        if !self.tombstones.contains_key(new) {
            return false;
        }
        let lines = match self.live.get(key) {
            Some(cell) => split_chars(&chars_of(cell.source().as_str()), '\n'),
            None => Vec::new(),
        };
        let ghost all = lines_of(raw_source(d.live[key@].raw));
        assert(views(lines@) == all);
        // Both halves keep at least one line, so merging them back restores the source.
        if line == 0 || line >= lines.len() {
            return false;
        }
        assert(all.subrange(0, line as int) =~= all.take(line as int));
        assert(all.subrange(line as int, all.len() as int) =~= all.skip(line as int));
        let head = string_of(&join_chars(&sub_parts(&lines, 0, line), '\n'));
        let tail = string_of(&join_chars(&sub_parts(&lines, line, lines.len()), '\n'));
        assert(!d.live.dom().contains(new@));
        if let Some(cell) = self.live.get_mut(key) {
            let _ = cell.set_source(head.as_str());
        }
        if let Some(mut second) = self.tombstones.remove(new) {
            let _ = second.set_source(tail.as_str());
            self.order.insert(place, new.clone());
            self.live.insert(new.clone(), second);
        }
        proof {
            lemma_insert(d.order, place as int, new@);
            assert(self.doc().order =~= d.order.insert(place as int, new@));
            lemma_known(d, self.doc(), self.minter@);
        }
        true
    }

    fn merge(&mut self, key: &CellKey, next: &CellKey) -> (r: Option<(Change, usize)>)
        requires
            old(self).wf(),
        ensures
            final(self).wf(),
            final(self).same_but_cells(old(self)),
            step_is(
                old(self).doc(),
                ChangeV::Merge { key: key@, next: next@ },
                final(self).doc(),
                r,
            ),
    {
        let ghost d = self.doc();
        let at = match self.index_of(key) {
            Some(at) => at,
            None => {
                return None;
            },
        };
        let below = match self.index_of(next) {
            Some(below) => below,
            None => {
                return None;
            },
        };
        if key.same(next) {
            return None;
        }
        proof {
            lemma_pos(d.order, key@);
            lemma_pos(d.order, next@);
            assert(d.live.dom().contains(key@));
            assert(d.live.dom().contains(next@));
        }
        let mut whole = match self.live.get(key) {
            Some(cell) => chars_of(cell.source().as_str()),
            None => Vec::new(),
        };
        let lines = split_chars(&whole, '\n');
        assert(views(lines@).len() == lines@.len());
        let line = lines.len();
        let ghost head = whole@;
        let tail = match self.live.get(next) {
            Some(cell) => chars_of(cell.source().as_str()),
            None => Vec::new(),
        };
        whole.push('\n');
        append_chars(&mut whole, &tail);
        assert(whole@ =~= head + one('\n') + tail@);
        if let Some(cell) = self.live.get_mut(key) {
            let _ = cell.set_source(string_of(&whole).as_str());
        }
        let _ = self.order.remove(below);
        if let Some(cell) = self.live.remove(next) {
            self.tombstones.insert(next.clone(), cell);
        }
        proof {
            lemma_remove(d.order, below as int);
            assert(self.doc().order =~= d.order.remove(below as int));
            lemma_known(d, self.doc(), self.minter@);
        }
        Some((Change::Unmerge { key: key.clone(), line, next: next.clone(), index: below }, at))
    }
}

pub open spec fn focus_view(f: Option<usize>) -> Option<int> {
    match f {
        Some(i) => Some(i as int),
        None => None,
    }
}

/// What one change came to.
pub open spec fn step_is(d: DocV, c: ChangeV, e: DocV, r: Option<(Change, usize)>) -> bool {
    match r {
        Some((inverse, at)) => applied(d, c) == Some((e, inverse@, at as int)),
        None => applied(d, c) is None && e == d,
    }
}

/// A document with the same cells has the same keys.
proof fn lemma_known(d: DocV, e: DocV, used: Set<Seq<char>>)
    requires
        known(d, used),
        forall|k: Seq<char>| #[trigger] cell_at(e, k) is Some ==> cell_at(d, k) is Some,
    ensures
        known(e, used),
{
}

} // verus!
