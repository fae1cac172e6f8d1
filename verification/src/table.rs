//! Cells by key.

use crate::document::{Cell, CellV};
use crate::key::CellKey;
use vstd::prelude::*;

verus! {

/// Cells, each under a key of its own.
#[derive(Debug)]
pub struct CellTable {
    pub entries: Vec<(CellKey, Cell)>,
}

/// Where `k` is a key among `s`, or the length of `s`.
pub open spec fn key_index(s: Seq<(CellKey, Cell)>, k: Seq<char>) -> int
    decreases s.len(),
{
    if s.len() == 0 || s[0].0@ == k {
        0
    } else {
        key_index(s.skip(1), k) + 1
    }
}

pub open spec fn table_map(s: Seq<(CellKey, Cell)>) -> Map<Seq<char>, CellV> {
    Map::new(|k: Seq<char>| key_index(s, k) < s.len(), |k: Seq<char>| s[key_index(s, k)].1@)
}

pub open spec fn keys_distinct(s: Seq<(CellKey, Cell)>) -> bool {
    forall|i: int, j: int| 0 <= i < j < s.len() ==> (#[trigger] s[i]).0@ != (#[trigger] s[j]).0@
}

proof fn lemma_key_index(s: Seq<(CellKey, Cell)>, k: Seq<char>)
    ensures
        0 <= key_index(s, k) <= s.len(),
        key_index(s, k) < s.len() ==> s[key_index(s, k)].0@ == k,
        forall|j: int| 0 <= j < key_index(s, k) ==> (#[trigger] s[j]).0@ != k,
    decreases s.len(),
{
    if s.len() > 0 && s[0].0@ != k {
        lemma_key_index(s.skip(1), k);
        assert forall|j: int| 0 <= j < key_index(s, k) implies (#[trigger] s[j]).0@ != k by {
            if j > 0 {
                assert(s.skip(1)[j - 1] == s[j]);
            }
        }
    }
}

proof fn lemma_key_index_is(s: Seq<(CellKey, Cell)>, k: Seq<char>, i: int)
    requires
        0 <= i <= s.len(),
        forall|j: int| 0 <= j < i ==> (#[trigger] s[j]).0@ != k,
        i < s.len() ==> s[i].0@ == k,
    ensures
        key_index(s, k) == i,
{
    lemma_key_index(s, k);
    let m = key_index(s, k);
    if m < i {
        assert(s[m].0@ == k);
    } else if i < m {
        assert(s[i].0@ != k);
    }
}

proof fn lemma_push(s: Seq<(CellKey, Cell)>, e: (CellKey, Cell))
    requires
        keys_distinct(s),
        !table_map(s).dom().contains(e.0@),
    ensures
        keys_distinct(s.push(e)),
        table_map(s.push(e)) == table_map(s).insert(e.0@, e.1@),
{
    let t = s.push(e);
    lemma_key_index(s, e.0@);
    assert forall|k: Seq<char>| true implies #[trigger] key_index(t, k) == if key_index(s, k)
        < s.len() {
        key_index(s, k)
    } else if k == e.0@ {
        s.len() as int
    } else {
        s.len() + 1int
    } by {
        lemma_key_index(s, k);
        let m = key_index(s, k);
        assert forall|j: int| 0 <= j < m implies (#[trigger] t[j]).0@ != k by {
            assert(t[j] == s[j]);
        }
        if m < s.len() || k == e.0@ {
            lemma_key_index_is(t, k, m);
        } else {
            lemma_key_index_is(t, k, t.len() as int);
        }
    }
    let want = table_map(s).insert(e.0@, e.1@);
    assert forall|k: Seq<char>| #[trigger] table_map(t).dom().contains(k) == want.dom().contains(
        k,
    ) && (want.dom().contains(k) ==> table_map(t)[k] == want[k]) by {
        lemma_key_index(s, k);
        lemma_key_index(t, k);
    }
    assert(table_map(t) =~= want);
}

proof fn lemma_update(s: Seq<(CellKey, Cell)>, i: int, e: (CellKey, Cell))
    requires
        keys_distinct(s),
        0 <= i < s.len(),
        e.0@ == s[i].0@,
    ensures
        keys_distinct(s.update(i, e)),
        table_map(s.update(i, e)) == table_map(s).insert(e.0@, e.1@),
        key_index(s, e.0@) == i,
{
    let t = s.update(i, e);
    lemma_key_index_is(s, e.0@, i);
    assert forall|k: Seq<char>| true implies #[trigger] key_index(t, k) == key_index(s, k) by {
        lemma_key_index(s, k);
        let m = key_index(s, k);
        assert forall|j: int| 0 <= j < m implies (#[trigger] t[j]).0@ != k by {
            assert(t[j].0@ == s[j].0@);
        }
        lemma_key_index_is(t, k, m);
    }
    let want = table_map(s).insert(e.0@, e.1@);
    assert forall|k: Seq<char>| #[trigger] table_map(t).dom().contains(k) == want.dom().contains(
        k,
    ) && (want.dom().contains(k) ==> table_map(t)[k] == want[k]) by {
        lemma_key_index(s, k);
        lemma_key_index(t, k);
    }
    assert(table_map(t) =~= want);
}

proof fn lemma_remove(s: Seq<(CellKey, Cell)>, i: int)
    requires
        keys_distinct(s),
        0 <= i < s.len(),
    ensures
        keys_distinct(s.remove(i)),
        table_map(s.remove(i)) == table_map(s).remove(s[i].0@),
        table_map(s).dom().contains(s[i].0@),
        table_map(s)[s[i].0@] == s[i].1@,
{
    let t = s.remove(i);
    let key = s[i].0@;
    lemma_key_index_is(s, key, i);
    assert forall|k: Seq<char>| true implies #[trigger] key_index(t, k) == if k == key || key_index(
        s,
        k,
    ) == s.len() {
        t.len() as int
    } else if key_index(s, k) < i {
        key_index(s, k)
    } else {
        key_index(s, k) - 1
    } by {
        lemma_key_index(s, k);
        let m = key_index(s, k);
        if k == key || m == s.len() {
            assert forall|j: int| 0 <= j < t.len() implies (#[trigger] t[j]).0@ != k by {
                if j < i {
                    assert(t[j] == s[j]);
                } else {
                    assert(t[j] == s[j + 1]);
                }
            }
            lemma_key_index_is(t, k, t.len() as int);
        } else {
            let n = if m < i {
                m
            } else {
                m - 1
            };
            assert forall|j: int| 0 <= j < n implies (#[trigger] t[j]).0@ != k by {
                if j < i {
                    assert(t[j] == s[j]);
                } else {
                    assert(t[j] == s[j + 1]);
                }
            }
            lemma_key_index_is(t, k, n);
        }
    }
    let want = table_map(s).remove(key);
    assert forall|k: Seq<char>| #[trigger] table_map(t).dom().contains(k) == want.dom().contains(
        k,
    ) && (want.dom().contains(k) ==> table_map(t)[k] == want[k]) by {
        lemma_key_index(s, k);
        lemma_key_index(t, k);
    }
    assert(table_map(t) =~= want);
}

impl View for CellTable {
    type V = Map<Seq<char>, CellV>;

    open spec fn view(&self) -> Map<Seq<char>, CellV> {
        table_map(self.entries@)
    }
}

impl CellTable {
    /// No two cells have the same key.
    pub open spec fn wf(&self) -> bool {
        keys_distinct(self.entries@)
    }

    pub fn new() -> (r: CellTable)
        ensures
            r.wf(),
            r@ == Map::<Seq<char>, CellV>::empty(),
    {
        let r = CellTable { entries: Vec::new() };
        proof {
            assert forall|k: Seq<char>| true implies !(#[trigger] r@.dom().contains(k)) by {
                lemma_key_index(r.entries@, k);
            }
            assert(r@ =~= Map::<Seq<char>, CellV>::empty());
        }
        r
    }

    fn position(&self, key: &CellKey) -> (r: usize)
        ensures
            r == key_index(self.entries@, key@),
            r <= self.entries@.len(),
            (r < self.entries@.len()) == self@.dom().contains(key@),
            r < self.entries@.len() ==> self.entries@[r as int].0@ == key@ && self@[key@]
                == self.entries@[r as int].1@,
    {
        let mut i: usize = 0;
        while i < self.entries.len()
            invariant
                i <= self.entries@.len(),
                forall|j: int| 0 <= j < i ==> (#[trigger] self.entries@[j]).0@ != key@,
            decreases self.entries@.len() - i,
        {
            if self.entries[i].0.same(key) {
                proof {
                    lemma_key_index_is(self.entries@, key@, i as int);
                }
                return i;
            }
            i += 1;
        }
        proof {
            lemma_key_index_is(self.entries@, key@, i as int);
        }
        i
    }

    pub fn contains_key(&self, key: &CellKey) -> (r: bool)
        ensures
            r == self@.dom().contains(key@),
    {
        self.position(key) < self.entries.len()
    }

    pub fn get(&self, key: &CellKey) -> (r: Option<&Cell>)
        ensures
            match r {
                Some(c) => self@.dom().contains(key@) && self@[key@] == c@,
                None => !self@.dom().contains(key@),
            },
    {
        let i = self.position(key);
        if i < self.entries.len() {
            Some(&self.entries[i].1)
        } else {
            None
        }
    }

    pub fn get_mut(&mut self, key: &CellKey) -> (r: Option<&mut Cell>)
        requires
            old(self).wf(),
        ensures
            final(self).wf(),
            match r {
                Some(c) => {
                    &&& old(self)@.dom().contains(key@)
                    &&& old(self)@[key@] == c@
                    &&& final(self)@ == old(self)@.insert(key@, final(c)@)
                },
                None => !old(self)@.dom().contains(key@) && *final(self) == *old(self),
            },
    {
        let i = self.position(key);
        if i < self.entries.len() {
            proof {
                let s = self.entries@;
                assert forall|c: Cell| #[trigger]
                    s.update(i as int, (s[i as int].0, c)) == s.update(i as int, (s[i as int].0, c))
                    implies keys_distinct(s.update(i as int, (s[i as int].0, c))) && table_map(
                    s.update(i as int, (s[i as int].0, c)),
                ) == table_map(s).insert(key@, c@) by {
                    lemma_update(s, i as int, (s[i as int].0, c));
                }
            }
            Some(&mut self.entries[i].1)
        } else {
            None
        }
    }

    /// Puts a cell under a key, in place of any that was there.
    pub fn insert(&mut self, key: CellKey, cell: Cell)
        requires
            old(self).wf(),
        ensures
            final(self).wf(),
            final(self)@ == old(self)@.insert(key@, cell@),
    {
        let i = self.position(&key);
        if i < self.entries.len() {
            proof {
                lemma_update(self.entries@, i as int, (key, cell));
            }
            self.entries.set(i, (key, cell));
        } else {
            proof {
                lemma_push(self.entries@, (key, cell));
            }
            self.entries.push((key, cell));
        }
    }

    pub fn remove(&mut self, key: &CellKey) -> (r: Option<Cell>)
        requires
            old(self).wf(),
        ensures
            final(self).wf(),
            final(self)@ == old(self)@.remove(key@),
            match r {
                Some(c) => {
                    &&& old(self)@.dom().contains(key@)
                    &&& old(self)@[key@] == c@
                    &&& final(self).entries@.len() == old(self).entries@.len() - 1
                },
                None => !old(self)@.dom().contains(key@),
            },
    {
        let i = self.position(key);
        if i < self.entries.len() {
            proof {
                lemma_remove(self.entries@, i as int);
            }
            let e = self.entries.remove(i);
            Some(e.1)
        } else {
            assert(self@ =~= old(self)@.remove(key@));
            None
        }
    }
}

/// A table without entries holds nothing.
pub proof fn lemma_no_entries(s: Seq<(CellKey, Cell)>)
    requires
        s.len() == 0,
    ensures
        table_map(s) == Map::<Seq<char>, CellV>::empty(),
{
    assert forall|k: Seq<char>| true implies !(#[trigger] table_map(s).dom().contains(k)) by {
        lemma_key_index(s, k);
    }
    assert(table_map(s) =~= Map::<Seq<char>, CellV>::empty());
}

/// The last entry's key is a key of the table.
pub proof fn lemma_last_entry(s: Seq<(CellKey, Cell)>)
    requires
        s.len() > 0,
    ensures
        table_map(s).dom().contains(s.last().0@),
{
    lemma_key_index(s, s.last().0@);
    let m = key_index(s, s.last().0@);
    if m == s.len() {
        assert(s[s.len() - 1].0@ != s.last().0@);
    }
}

} // verus!
