//! JSON values and objects that keep the order of their keys.
//!
//! Parsing and writing are `serde_json`'s. A value read from text is taken apart into
//! [`Json`], which the rest of the library works on, and put together again to be written.

use vstd::prelude::*;

use crate::text::str_eq;

verus! {

/// `serde_json`'s number, carried as it was read.
#[verifier::external_type_specification]
#[verifier::external_body]
pub struct ExNumber(serde_json::Number);

/// `serde_json`'s value, as its parser returns it and its writer takes it.
#[verifier::external_type_specification]
#[verifier::external_body]
pub struct ExValue(serde_json::Value);

/// `serde_json`'s error.
#[verifier::external_type_specification]
#[verifier::external_body]
pub struct ExError(serde_json::Error);

#[derive(Debug, PartialEq)]
pub enum Json {
    Null,
    Bool(bool),
    Number(serde_json::Number),
    String(String),
    Array(Vec<Json>),
    Object(Object),
}

/// An object: its entries in order.
#[derive(Debug, PartialEq)]
pub struct Object {
    pub entries: Vec<(String, Json)>,
}

/// What a [`Json`] holds.
pub enum JsonV {
    Null,
    Bool(bool),
    Number(serde_json::Number),
    String(Seq<char>),
    Array(Seq<JsonV>),
    Object(Seq<(Seq<char>, JsonV)>),
}

/// An object's entries, in order.
pub type Entries = Seq<(Seq<char>, JsonV)>;

impl View for Json {
    type V = JsonV;

    open spec fn view(&self) -> JsonV {
        json_view(*self)
    }
}

impl View for Object {
    type V = Entries;

    open spec fn view(&self) -> Entries {
        object_view(*self)
    }
}

pub open spec fn json_view(j: Json) -> JsonV
    decreases j,
{
    match j {
        Json::Null => JsonV::Null,
        Json::Bool(b) => JsonV::Bool(b),
        Json::Number(n) => JsonV::Number(n),
        Json::String(s) => JsonV::String(s@),
        Json::Array(v) => JsonV::Array(
            Seq::new(
                v@.len(),
                |i: int|
                    if 0 <= i < v@.len() {
                        json_view(v@[i])
                    } else {
                        JsonV::Null
                    },
            ),
        ),
        Json::Object(o) => JsonV::Object(object_view(o)),
    }
}

pub open spec fn object_view(o: Object) -> Entries
    decreases o,
{
    Seq::new(
        o.entries@.len(),
        |i: int|
            if 0 <= i < o.entries@.len() {
                (o.entries@[i].0@, json_view(o.entries@[i].1))
            } else {
                (Seq::empty(), JsonV::Null)
            },
    )
}

/// The values' contents.
pub open spec fn json_views(v: Seq<Json>) -> Seq<JsonV> {
    Seq::new(v.len(), |i: int| v[i]@)
}

impl Clone for Json {
    fn clone(&self) -> (r: Self)
        ensures
            r@ == self@,
        decreases self,
    {
        match self {
            Json::Null => Json::Null,
            Json::Bool(b) => Json::Bool(*b),
            Json::Number(n) => Json::Number(clone_number(n)),
            Json::String(s) => Json::String(s.clone()),
            Json::Array(v) => {
                let mut out: Vec<Json> = Vec::new();
                let mut i: usize = 0;
                while i < v.len()
                    invariant
                        i <= v@.len(),
                        out@.len() == i,
                        self matches Json::Array(w) && w == v,
                        forall|j: int| 0 <= j < i ==> (#[trigger] out@[j])@ == v@[j]@,
                    decreases v@.len() - i,
                {
                    let x = v[i].clone();
                    out.push(x);
                    i += 1;
                }
                let r = Json::Array(out);
                assert(r@->Array_0 =~= self@->Array_0);
                r
            },
            Json::Object(o) => Json::Object(o.clone()),
        }
    }
}

impl Clone for Object {
    fn clone(&self) -> (r: Self)
        ensures
            r@ == self@,
        decreases self,
    {
        let mut out: Vec<(String, Json)> = Vec::new();
        let mut i: usize = 0;
        while i < self.entries.len()
            invariant
                i <= self.entries@.len(),
                out@.len() == i,
                forall|j: int|
                    0 <= j < i ==> (#[trigger] out@[j]).0@ == self.entries@[j].0@ && out@[j].1@
                        == self.entries@[j].1@,
            decreases self.entries@.len() - i,
        {
            let x = self.entries[i].1.clone();
            out.push((self.entries[i].0.clone(), x));
            i += 1;
        }
        let r = Object { entries: out };
        assert(r@ =~= self@);
        r
    }
}

/// `Number::clone` gives the same number.
#[verifier::external_body]
pub(crate) fn clone_number(n: &serde_json::Number) -> (r: serde_json::Number)
    ensures
        r == *n,
{
    n.clone()
}


/// The integer a number holds; none for a fraction or an exponent.
pub uninterp spec fn number_int(n: serde_json::Number) -> Option<int>;

/// The number that holds a given count.
pub uninterp spec fn number_from(n: u64) -> serde_json::Number;

/// `Number::as_u64` reads a count that is not negative; a number read so is the one made
/// from it.
#[verifier::external_body]
pub(crate) fn number_u64(n: &serde_json::Number) -> (r: Option<u64>)
    ensures
        match r {
            Some(u) => number_int(*n) == Some(u as int) && *n == number_from(u),
            None => number_int(*n) is None || number_int(*n)->0 < 0,
        },
{
    n.as_u64()
}

/// `Number::from` makes the number of a count.
#[verifier::external_body]
pub(crate) fn number_of(n: u64) -> (r: serde_json::Number)
    ensures
        r == number_from(n),
        number_int(r) == Some(n as int),
{
    serde_json::Number::from(n)
}

/// The position of the entry named `k`, or the number of entries.
pub open spec fn obj_index(s: Entries, k: Seq<char>) -> int
    decreases s.len(),
{
    if s.len() == 0 {
        0
    } else if s[0].0 == k {
        0
    } else {
        1 + obj_index(s.skip(1), k)
    }
}

pub open spec fn obj_has(s: Entries, k: Seq<char>) -> bool {
    obj_index(s, k) < s.len()
}

pub open spec fn obj_get(s: Entries, k: Seq<char>) -> Option<JsonV> {
    if obj_has(s, k) {
        Some(s[obj_index(s, k)].1)
    } else {
        None
    }
}

/// Sets the entry named `k`, in its place if it is there, else at the end.
pub open spec fn obj_insert(s: Entries, k: Seq<char>, v: JsonV) -> Entries {
    if obj_has(s, k) {
        s.update(obj_index(s, k), (k, v))
    } else {
        s.push((k, v))
    }
}

/// Adds an entry at the end unless one of its name is there.
pub open spec fn obj_or_insert(s: Entries, k: Seq<char>, v: JsonV) -> Entries {
    if obj_has(s, k) {
        s
    } else {
        s.push((k, v))
    }
}

/// Removes the entry named `k`, keeping the order of the rest.
pub open spec fn obj_remove(s: Entries, k: Seq<char>) -> Entries {
    if obj_has(s, k) {
        s.remove(obj_index(s, k))
    } else {
        s
    }
}

/// Removes the entry named `k`; the last entry takes its place.
pub open spec fn obj_swap_remove(s: Entries, k: Seq<char>) -> Entries {
    if obj_has(s, k) {
        s.update(obj_index(s, k), s.last()).drop_last()
    } else {
        s
    }
}

/// No two entries have the same name.
pub open spec fn distinct(s: Entries) -> bool {
    forall|i: int, j: int| 0 <= i < j < s.len() ==> (#[trigger] s[i]).0 != (#[trigger] s[j]).0
}

pub proof fn lemma_obj_index(s: Entries, k: Seq<char>)
    ensures
        0 <= obj_index(s, k) <= s.len(),
        obj_has(s, k) ==> s[obj_index(s, k)].0 == k,
        forall|j: int| 0 <= j < obj_index(s, k) ==> (#[trigger] s[j]).0 != k,
    decreases s.len(),
{
    if s.len() > 0 && s[0].0 != k {
        lemma_obj_index(s.skip(1), k);
        assert forall|j: int| 0 <= j < obj_index(s, k) implies (#[trigger] s[j]).0 != k by {
            if j > 0 {
                assert(s.skip(1)[j - 1] == s[j]);
            }
        }
    }
}

/// The first entry named `k` is where the name is first met.
pub proof fn lemma_obj_index_is(s: Entries, k: Seq<char>, i: int)
    requires
        0 <= i <= s.len(),
        forall|j: int| 0 <= j < i ==> (#[trigger] s[j]).0 != k,
        i < s.len() ==> s[i].0 == k,
    ensures
        obj_index(s, k) == i,
{
    lemma_obj_index(s, k);
    let m = obj_index(s, k);
    if m < i {
        assert(s[m].0 == k);
    } else if i < m {
        assert(s[i].0 != k);
    }
}

pub proof fn lemma_obj_insert(s: Entries, k: Seq<char>, v: JsonV, other: Seq<char>)
    ensures
        obj_get(obj_insert(s, k, v), k) == Some(v),
        other != k ==> obj_get(obj_insert(s, k, v), other) == obj_get(s, other),
        distinct(s) ==> distinct(obj_insert(s, k, v)),
{
    let t = obj_insert(s, k, v);
    lemma_obj_index(s, k);
    lemma_obj_index_is(t, k, obj_index(s, k));
    if other != k {
        lemma_obj_index(s, other);
        let i = obj_index(s, other);
        if i < s.len() {
            lemma_obj_index_is(t, other, i);
        } else {
            lemma_obj_index_is(t, other, t.len() as int);
        }
    }
}

pub proof fn lemma_obj_or_insert(s: Entries, k: Seq<char>, v: JsonV, other: Seq<char>)
    ensures
        obj_get(obj_or_insert(s, k, v), k) == if obj_has(s, k) {
            obj_get(s, k)
        } else {
            Some(v)
        },
        other != k ==> obj_get(obj_or_insert(s, k, v), other) == obj_get(s, other),
        distinct(s) ==> distinct(obj_or_insert(s, k, v)),
{
    if !obj_has(s, k) {
        lemma_obj_insert(s, k, v, other);
    }
}

pub proof fn lemma_obj_remove(s: Entries, k: Seq<char>, other: Seq<char>)
    requires
        distinct(s),
    ensures
        obj_get(obj_remove(s, k), k) is None,
        other != k ==> obj_get(obj_remove(s, k), other) == obj_get(s, other),
        distinct(obj_remove(s, k)),
        obj_get(obj_swap_remove(s, k), k) is None,
        other != k ==> obj_get(obj_swap_remove(s, k), other) == obj_get(s, other),
        distinct(obj_swap_remove(s, k)),
{
    lemma_obj_index(s, k);
    let m = obj_index(s, k);
    if obj_has(s, k) {
        let t = s.remove(m);
        let u = s.update(m, s.last()).drop_last();
        assert forall|j: int| 0 <= j < t.len() implies (#[trigger] t[j]).0 != k by {
            if j < m {
                assert(t[j] == s[j]);
            } else {
                assert(t[j] == s[j + 1]);
            }
        }
        lemma_obj_index_is(t, k, t.len() as int);
        assert forall|j: int| 0 <= j < u.len() implies (#[trigger] u[j]).0 != k by {
            if j == m {
                assert(u[j] == s[s.len() - 1]);
            } else {
                assert(u[j] == s[j]);
            }
        }
        lemma_obj_index_is(u, k, u.len() as int);
        assert forall|i: int, j: int| 0 <= i < j < t.len() implies (#[trigger] t[i]).0 != (
        #[trigger] t[j]).0 by {
            let a = if i < m { i } else { i + 1 };
            let b = if j < m { j } else { j + 1 };
            assert(t[i] == s[a] && t[j] == s[b]);
        }
        assert forall|i: int, j: int| 0 <= i < j < u.len() implies (#[trigger] u[i]).0 != (
        #[trigger] u[j]).0 by {
            let a = if i == m { s.len() - 1 } else { i };
            let b = if j == m { s.len() - 1 } else { j };
            assert(u[i] == s[a] && u[j] == s[b]);
            assert(a != b);
            if a < b {
            } else {
                assert(s[b].0 != s[a].0);
            }
        }
        if other != k {
            lemma_obj_index(s, other);
            let i = obj_index(s, other);
            if i < s.len() {
                let it = if i < m { i } else { i - 1 };
                assert(t[it] == s[i]);
                assert forall|j: int| 0 <= j < it implies (#[trigger] t[j]).0 != other by {
                    assert(t[j] == s[if j < m { j } else { j + 1 }]);
                }
                lemma_obj_index_is(t, other, it);
                let iu = if i == s.len() - 1 { m } else { i };
                assert(u[iu] == s[i]);
                assert forall|j: int| 0 <= j < iu implies (#[trigger] u[j]).0 != other by {
                    assert(u[j].0 != u[iu].0);
                }
                lemma_obj_index_is(u, other, iu);
            } else {
                assert forall|j: int| 0 <= j < t.len() implies (#[trigger] t[j]).0 != other by {
                    assert(t[j] == s[if j < m { j } else { j + 1 }]);
                }
                lemma_obj_index_is(t, other, t.len() as int);
                assert forall|j: int| 0 <= j < u.len() implies (#[trigger] u[j]).0 != other by {
                    assert(u[j] == s[if j == m { s.len() - 1 } else { j }]);
                }
                lemma_obj_index_is(u, other, u.len() as int);
            }
        }
    }
}

impl Object {
    pub fn new() -> (r: Object)
        ensures
            r@ == Entries::empty(),
            r.entries@.len() == 0,
    {
        let r = Object { entries: Vec::new() };
        assert(r@ =~= Entries::empty());
        r
    }

    /// The position of the entry named `k`, or the number of entries.
    pub(crate) fn position(&self, k: &str) -> (r: usize)
        ensures
            r == obj_index(self@, k@),
            r <= self.entries@.len(),
    {
        let mut i: usize = 0;
        while i < self.entries.len()
            invariant
                i <= self.entries@.len(),
                forall|j: int| 0 <= j < i ==> (#[trigger] self@[j]).0 != k@,
            decreases self.entries@.len() - i,
        {
            if str_eq(self.entries[i].0.as_str(), k) {
                proof {
                    lemma_obj_index_is(self@, k@, i as int);
                }
                return i;
            }
            i += 1;
        }
        proof {
            lemma_obj_index_is(self@, k@, i as int);
        }
        i
    }

    pub fn get(&self, k: &str) -> (r: Option<&Json>)
        ensures
            match r {
                Some(v) => obj_get(self@, k@) == Some(v@),
                None => obj_get(self@, k@) is None,
            },
    {
        let i = self.position(k);
        if i < self.entries.len() {
            assert(self@[i as int].1 == self.entries@[i as int].1@);
            Some(&self.entries[i].1)
        } else {
            None
        }
    }

    pub fn contains_key(&self, k: &str) -> (r: bool)
        ensures
            r == obj_has(self@, k@),
    {
        self.position(k) < self.entries.len()
    }

    /// Sets the entry named `k`, in its place if it is there, else at the end.
    pub fn insert(&mut self, k: &str, v: Json)
        ensures
            final(self)@ == obj_insert(old(self)@, k@, v@),
    {
        let i = self.position(k);
        let name = k.to_owned();
        let ghost vv = v@;
        if i < self.entries.len() {
            self.entries.set(i, (name, v));
        } else {
            self.entries.push((name, v));
        }
        assert(self@ =~= obj_insert(old(self)@, k@, vv));
    }

    /// Adds an entry at the end unless one of its name is there.
    pub fn or_insert(&mut self, k: &str, v: Json)
        ensures
            final(self)@ == obj_or_insert(old(self)@, k@, v@),
    {
        if !self.contains_key(k) {
            let name = k.to_owned();
            let ghost vv = v@;
            self.entries.push((name, v));
            assert(self@ =~= obj_or_insert(old(self)@, k@, vv));
        }
    }

    /// Removes the entry named `k`, keeping the order of the rest.
    pub fn shift_remove(&mut self, k: &str) -> (r: Option<Json>)
        ensures
            final(self)@ == obj_remove(old(self)@, k@),
            match r {
                Some(v) => obj_get(old(self)@, k@) == Some(v@),
                None => obj_get(old(self)@, k@) is None,
            },
    {
        let i = self.position(k);
        if i < self.entries.len() {
            assert(self@[i as int].1 == self.entries@[i as int].1@);
            let e = self.entries.remove(i);
            assert(self@ =~= old(self)@.remove(i as int));
            Some(e.1)
        } else {
            None
        }
    }

    /// Removes the entry named `k`; the last entry takes its place.
    pub fn swap_remove(&mut self, k: &str) -> (r: Option<Json>)
        ensures
            final(self)@ == obj_swap_remove(old(self)@, k@),
            match r {
                Some(v) => obj_get(old(self)@, k@) == Some(v@),
                None => obj_get(old(self)@, k@) is None,
            },
    {
        let i = self.position(k);
        if i < self.entries.len() {
            assert(self@[i as int].1 == self.entries@[i as int].1@);
            let e = self.entries.swap_remove(i);
            assert(self@ =~= obj_swap_remove(old(self)@, k@));
            Some(e.1)
        } else {
            None
        }
    }
}

/// The text of a string value.
pub open spec fn v_str(v: Option<JsonV>) -> Option<Seq<char>> {
    match v {
        Some(JsonV::String(s)) => Some(s),
        _ => None,
    }
}

/// The member of an object named `k`; none if `v` is no object.
pub open spec fn v_get(v: Option<JsonV>, k: Seq<char>) -> Option<JsonV> {
    match v {
        Some(JsonV::Object(s)) => obj_get(s, k),
        _ => None,
    }
}

/// The count a number value holds.
pub open spec fn v_u64(v: Option<JsonV>) -> Option<u64> {
    match v {
        Some(JsonV::Number(n)) => match number_int(n) {
            Some(i) => if 0 <= i <= u64::MAX {
                Some(i as u64)
            } else {
                None
            },
            None => None,
        },
        _ => None,
    }
}

impl Json {
    pub fn as_str(&self) -> (r: Option<&str>)
        ensures
            match r {
                Some(s) => v_str(Some(self@)) == Some(s@),
                None => v_str(Some(self@)) is None,
            },
    {
        match self {
            Json::String(s) => Some(s.as_str()),
            _ => None,
        }
    }

    pub fn get(&self, k: &str) -> (r: Option<&Json>)
        ensures
            match r {
                Some(v) => v_get(Some(self@), k@) == Some(v@),
                None => v_get(Some(self@), k@) is None,
            },
    {
        match self {
            Json::Object(o) => o.get(k),
            _ => None,
        }
    }

    pub fn as_u64(&self) -> (r: Option<u64>)
        ensures
            r == v_u64(Some(self@)),
    {
        match self {
            Json::Number(n) => number_u64(n),
            _ => None,
        }
    }
}

/// What a `serde_json` value holds.
pub uninterp spec fn value_json(v: serde_json::Value) -> JsonV;

/// What `serde_json` reads from a text; none where it is not JSON.
pub uninterp spec fn json_parsed(text: Seq<u8>) -> Option<JsonV>;

/// A value as `serde_json` writes it with lines indented by a given text per level.
pub uninterp spec fn json_pretty(v: JsonV, indent: Seq<u8>) -> Seq<u8>;

/// A value as `serde_json` writes it with lines indented by two spaces per level.
pub uninterp spec fn json_indented(v: JsonV) -> Seq<u8>;

/// A value as `serde_json` writes it on one line.
pub uninterp spec fn json_compact(v: JsonV) -> Seq<char>;

/// One level of a `serde_json` value, by reference.
pub enum Parts<'a> {
    Null,
    Bool(bool),
    Number(&'a serde_json::Number),
    String(&'a String),
    Array(&'a Vec<serde_json::Value>),
    Object(Vec<(&'a String, &'a serde_json::Value)>),
}

/// One level of a `serde_json` value to be made.
pub enum Made {
    Null,
    Bool(bool),
    Number(serde_json::Number),
    String(String),
    Array(Vec<serde_json::Value>),
    Object(Vec<(String, serde_json::Value)>),
}

pub open spec fn parts_view(p: Parts) -> JsonV {
    match p {
        Parts::Null => JsonV::Null,
        Parts::Bool(b) => JsonV::Bool(b),
        Parts::Number(n) => JsonV::Number(*n),
        Parts::String(s) => JsonV::String(s@),
        Parts::Array(v) => JsonV::Array(Seq::new(v@.len(), |i: int| value_json(v@[i]))),
        Parts::Object(o) => JsonV::Object(
            Seq::new(o@.len(), |i: int| (o@[i].0@, value_json(*o@[i].1))),
        ),
    }
}

/// The object that results from setting the entries in order.
pub open spec fn obj_from(s: Entries) -> Entries
    decreases s.len(),
{
    if s.len() == 0 {
        s
    } else {
        obj_insert(obj_from(s.drop_last()), s.last().0, s.last().1)
    }
}

pub open spec fn made_view(m: Made) -> JsonV {
    match m {
        Made::Null => JsonV::Null,
        Made::Bool(b) => JsonV::Bool(b),
        Made::Number(n) => JsonV::Number(n),
        Made::String(s) => JsonV::String(s@),
        Made::Array(v) => JsonV::Array(Seq::new(v@.len(), |i: int| value_json(v@[i]))),
        Made::Object(o) => JsonV::Object(
            obj_from(Seq::new(o@.len(), |i: int| (o@[i].0@, value_json(o@[i].1)))),
        ),
    }
}

/// Names the variant of a `serde_json::Value` and hands out its fields; an object's entries
/// come in its own order (`Map::iter`), and no two have the same key.
#[verifier::external_body]
fn take_apart<'a>(v: &'a serde_json::Value) -> (r: Parts<'a>)
    ensures
        parts_view(r) == value_json(*v),
        parts_view(r) matches JsonV::Object(s) ==> distinct(s),
{
    match v {
        serde_json::Value::Null => Parts::Null,
        serde_json::Value::Bool(b) => Parts::Bool(*b),
        serde_json::Value::Number(n) => Parts::Number(n),
        serde_json::Value::String(s) => Parts::String(s),
        serde_json::Value::Array(a) => Parts::Array(a),
        serde_json::Value::Object(o) => Parts::Object(o.iter().collect()),
    }
}

/// Makes the `serde_json::Value` of the variant named; an object is collected from its
/// entries, so that a later entry replaces an earlier one of the same key (`Map`'s
/// `FromIterator`).
#[verifier::external_body]
fn put_together(m: Made) -> (r: serde_json::Value)
    ensures
        value_json(r) == made_view(m),
{
    match m {
        Made::Null => serde_json::Value::Null,
        Made::Bool(b) => serde_json::Value::Bool(b),
        Made::Number(n) => serde_json::Value::Number(n),
        Made::String(s) => serde_json::Value::String(s),
        Made::Array(a) => serde_json::Value::Array(a),
        Made::Object(o) => serde_json::Value::Object(o.into_iter().collect()),
    }
}

/// `serde_json::from_slice` reads one value.
#[verifier::external_body]
fn read_value(text: &[u8]) -> (r: Result<serde_json::Value, serde_json::Error>)
    ensures
        match r {
            Ok(v) => json_parsed(text@) == Some(value_json(v)),
            Err(_) => json_parsed(text@) is None,
        },
{
    serde_json::from_slice(text)
}

/// Whether a text is made of spaces.
pub open spec fn spaces(b: Seq<u8>) -> bool {
    forall|i: int| 0 <= i < b.len() ==> #[trigger] b[i] == 32u8
}

/// Whether every number in `v` is an integer.
pub open spec fn integers_only(v: JsonV) -> bool
    decreases v,
{
    match v {
        JsonV::Number(n) => number_int(n) is Some,
        JsonV::Array(s) => forall|i: int| 0 <= i < s.len() ==> integers_only(#[trigger] s[i]),
        JsonV::Object(s) => forall|i: int| 0 <= i < s.len() ==> integers_only((#[trigger] s[i]).1),
        _ => true,
    }
}

/// Whether `v` nests arrays and objects at most `n` deep.
pub open spec fn nests_within(v: JsonV, n: int) -> bool
    decreases v,
{
    match v {
        JsonV::Array(s) => n > 0 && forall|i: int|
            0 <= i < s.len() ==> nests_within(#[trigger] s[i], n - 1),
        JsonV::Object(s) => n > 0 && forall|i: int|
            0 <= i < s.len() ==> nests_within((#[trigger] s[i]).1, n - 1),
        _ => true,
    }
}

/// Writes a value with `serde_json`'s `PrettyFormatter`, indented by a text per level. Where
/// that is made of spaces, reading the text back, with or without a line break after it, gives
/// the value again, as long as it nests less than 128 deep (the parser's limit) and holds no
/// fraction (whose last digit the parser may round).
#[verifier::external_body]
fn write_pretty(v: &serde_json::Value, indent: &[u8]) -> (r: Vec<u8>)
    ensures
        r@ == json_pretty(value_json(*v), indent@),
        spaces(indent@) && integers_only(value_json(*v)) && nests_within(value_json(*v), 127)
            ==> json_parsed(r@) == Some(value_json(*v)) && json_parsed(r@.push(10u8)) == Some(
            value_json(*v),
        ),
{
    let mut out = Vec::new();
    let fmt = serde_json::ser::PrettyFormatter::with_indent(indent);
    let mut ser = serde_json::Serializer::with_formatter(&mut out, fmt);
    serde::Serialize::serialize(v, &mut ser).expect("a value serialises");
    out
}

/// `serde_json::to_vec_pretty` writes a value with two spaces per level. Reading the text back
/// gives the value again, under the same conditions as for one space.
#[verifier::external_body]
fn write_indented(v: &serde_json::Value) -> (r: Vec<u8>)
    ensures
        r@ == json_indented(value_json(*v)),
        integers_only(value_json(*v)) && nests_within(value_json(*v), 127) ==> json_parsed(r@)
            == Some(value_json(*v)),
{
    serde_json::to_vec_pretty(v).expect("a value serialises")
}

/// `Value`'s `Display` writes the value on one line.
#[verifier::external_body]
fn write_compact(v: &serde_json::Value) -> (r: String)
    ensures
        r@ == json_compact(value_json(*v)),
{
    v.to_string()
}

/// No object in `v`, at any depth, has two entries of the same name.
pub open spec fn json_wf(v: JsonV) -> bool
    decreases v,
{
    match v {
        JsonV::Array(s) => forall|i: int| 0 <= i < s.len() ==> json_wf(#[trigger] s[i]),
        JsonV::Object(s) => distinct(s) && forall|i: int|
            0 <= i < s.len() ==> json_wf((#[trigger] s[i]).1),
        _ => true,
    }
}

pub proof fn lemma_wf_items(s: Seq<JsonV>)
    ensures
        json_wf(JsonV::Array(s)) <==> forall|i: int| 0 <= i < s.len() ==> json_wf(#[trigger] s[i]),
{
    let v = JsonV::Array(s);
    if json_wf(v) {
        assert forall|i: int| 0 <= i < s.len() implies json_wf(#[trigger] s[i]) by {
            assert(json_wf(v->Array_0[i]));
        }
    }
}

/// Setting an entry to a value in which no name occurs twice keeps it so.
pub proof fn lemma_wf_insert(s: Entries, k: Seq<char>, v: JsonV)
    requires
        json_wf(JsonV::Object(s)),
        json_wf(v),
    ensures
        json_wf(JsonV::Object(obj_insert(s, k, v))),
        json_wf(JsonV::Object(obj_or_insert(s, k, v))),
{
    lemma_obj_insert(s, k, v, k);
    lemma_obj_or_insert(s, k, v, k);
    lemma_obj_index(s, k);
    let t = obj_insert(s, k, v);
    assert forall|i: int| 0 <= i < t.len() implies json_wf((#[trigger] t[i]).1) by {
        assert(t[i] == (k, v) || t[i] == s[i]);
    }
    let u = obj_or_insert(s, k, v);
    assert forall|i: int| 0 <= i < u.len() implies json_wf((#[trigger] u[i]).1) by {
        assert(u[i] == (k, v) || u[i] == s[i]);
    }
}

/// Taking an entry out leaves no name twice where there was none.
pub proof fn lemma_wf_remove(s: Entries, k: Seq<char>)
    requires
        json_wf(JsonV::Object(s)),
    ensures
        json_wf(JsonV::Object(obj_remove(s, k))),
        json_wf(JsonV::Object(obj_swap_remove(s, k))),
        obj_get(s, k) matches Some(v) ==> json_wf(v),
{
    lemma_obj_remove(s, k, k);
    lemma_obj_index(s, k);
    let at = obj_index(s, k);
    let t = obj_remove(s, k);
    assert forall|i: int| 0 <= i < t.len() implies json_wf((#[trigger] t[i]).1) by {
        assert(t[i] == s[if obj_has(s, k) && i >= at { i + 1 } else { i }]);
    }
    let u = obj_swap_remove(s, k);
    assert forall|i: int| 0 <= i < u.len() implies json_wf((#[trigger] u[i]).1) by {
        assert(u[i] == s[if obj_has(s, k) && i == at { s.len() - 1 } else { i }]);
    }
}

/// `v` with every object's entries set in order, so that a name occurs once.
pub open spec fn json_normal(v: JsonV) -> JsonV
    decreases v,
{
    match v {
        JsonV::Array(s) => JsonV::Array(normal_items(s)),
        JsonV::Object(s) => JsonV::Object(obj_from(normal_entries(s))),
        _ => v,
    }
}

pub open spec fn normal_items(s: Seq<JsonV>) -> Seq<JsonV>
    decreases s,
{
    Seq::new(
        s.len(),
        |i: int|
            if 0 <= i < s.len() {
                json_normal(s[i])
            } else {
                JsonV::Null
            },
    )
}

pub open spec fn normal_entries(s: Entries) -> Entries
    decreases s,
{
    Seq::new(
        s.len(),
        |i: int|
            if 0 <= i < s.len() {
                (s[i].0, json_normal(s[i].1))
            } else {
                (Seq::empty(), JsonV::Null)
            },
    )
}

pub proof fn lemma_obj_from_distinct(s: Entries)
    requires
        distinct(s),
    ensures
        obj_from(s) == s,
    decreases s.len(),
{
    if s.len() > 0 {
        let t = s.drop_last();
        assert forall|i: int, j: int| 0 <= i < j < t.len() implies (#[trigger] t[i]).0 != (
        #[trigger] t[j]).0 by {
            assert(t[i] == s[i] && t[j] == s[j]);
        }
        lemma_obj_from_distinct(t);
        assert forall|j: int| 0 <= j < t.len() implies (#[trigger] t[j]).0 != s.last().0 by {
            assert(t[j] == s[j]);
            assert(s[j].0 != s[s.len() - 1].0);
        }
        lemma_obj_index_is(t, s.last().0, t.len() as int);
        assert(t.push(s.last()) =~= s);
    }
}

/// A value without repeated names is written as it is.
pub proof fn lemma_json_normal(v: JsonV)
    requires
        json_wf(v),
    ensures
        json_normal(v) == v,
    decreases v,
{
    match v {
        JsonV::Array(s) => {
            assert forall|i: int| 0 <= i < s.len() implies json_normal(#[trigger] s[i]) == s[i] by {
                lemma_json_normal(s[i]);
            }
            assert(normal_items(s) =~= s);
        },
        JsonV::Object(s) => {
            assert forall|i: int| 0 <= i < s.len() implies json_normal((#[trigger] s[i]).1)
                == s[i].1 by {
                lemma_json_normal(s[i].1);
            }
            assert(normal_entries(s) =~= s);
            lemma_obj_from_distinct(s);
        },
        _ => {},
    }
}

fn from_value(v: &serde_json::Value) -> (r: Json)
    ensures
        r@ == value_json(*v),
        json_wf(r@),
    decreases value_json(*v),
{
    match take_apart(v) {
        Parts::Null => Json::Null,
        Parts::Bool(b) => Json::Bool(b),
        Parts::Number(n) => Json::Number(clone_number(n)),
        Parts::String(s) => Json::String(s.clone()),
        Parts::Array(a) => {
            let ghost s = value_json(*v)->Array_0;
            let mut out: Vec<Json> = Vec::new();
            let mut i: usize = 0;
            while i < a.len()
                invariant
                    i <= a@.len(),
                    out@.len() == i,
                    value_json(*v) == JsonV::Array(s),
                    s == Seq::new(a@.len(), |i: int| value_json(a@[i])),
                    forall|j: int|
                        0 <= j < i ==> (#[trigger] out@[j])@ == s[j] && json_wf(out@[j]@),
                decreases a@.len() - i,
            {
                assert(s[i as int] == value_json(a@[i as int]));
                assert(value_json(*v)->Array_0[i as int] == value_json(a@[i as int]));
                let x = from_value(&a[i]);
                out.push(x);
                i += 1;
            }
            let r = Json::Array(out);
            assert(r@->Array_0 =~= s);
            assert forall|j: int| 0 <= j < s.len() implies json_wf(#[trigger] s[j]) by {
                assert(out@[j]@ == s[j]);
            }
            r
        },
        Parts::Object(o) => {
            let ghost s = value_json(*v)->Object_0;
            let mut out: Vec<(String, Json)> = Vec::new();
            let mut i: usize = 0;
            while i < o.len()
                invariant
                    i <= o@.len(),
                    out@.len() == i,
                    value_json(*v) == JsonV::Object(s),
                    s == Seq::new(o@.len(), |i: int| (o@[i].0@, value_json(*o@[i].1))),
                    forall|j: int|
                        0 <= j < i ==> (#[trigger] out@[j]).0@ == s[j].0 && out@[j].1@ == s[j].1
                            && json_wf(out@[j].1@),
                decreases o@.len() - i,
            {
                assert(s[i as int].1 == value_json(*o@[i as int].1));
                assert(value_json(*v)->Object_0[i as int].1 == value_json(*o@[i as int].1));
                let x = from_value(o[i].1);
                out.push((o[i].0.clone(), x));
                i += 1;
            }
            let obj = Object { entries: out };
            assert(obj@ =~= s);
            let r = Json::Object(obj);
            assert forall|j: int| 0 <= j < s.len() implies json_wf((#[trigger] s[j]).1) by {
                assert(out@[j].1@ == s[j].1);
            }
            r
        },
    }
}

fn to_value(j: &Json) -> (r: serde_json::Value)
    ensures
        value_json(r) == json_normal(j@),
    decreases j,
{
    match j {
        Json::Null => put_together(Made::Null),
        Json::Bool(b) => put_together(Made::Bool(*b)),
        Json::Number(n) => put_together(Made::Number(clone_number(n))),
        Json::String(s) => put_together(Made::String(s.clone())),
        Json::Array(v) => {
            let mut out: Vec<serde_json::Value> = Vec::new();
            let mut i: usize = 0;
            while i < v.len()
                invariant
                    i <= v@.len(),
                    out@.len() == i,
                    j matches Json::Array(w) && w == v,
                    forall|k: int|
                        0 <= k < i ==> value_json(#[trigger] out@[k]) == json_normal(v@[k]@),
                decreases v@.len() - i,
            {
                let x = to_value(&v[i]);
                out.push(x);
                i += 1;
            }
            let m = Made::Array(out);
            assert(made_view(m)->Array_0 =~= normal_items(j@->Array_0));
            put_together(m)
        },
        Json::Object(o) => {
            let mut out: Vec<(String, serde_json::Value)> = Vec::new();
            let mut i: usize = 0;
            while i < o.entries.len()
                invariant
                    i <= o.entries@.len(),
                    out@.len() == i,
                    j matches Json::Object(w) && w == o,
                    forall|k: int|
                        0 <= k < i ==> (#[trigger] out@[k]).0@ == o.entries@[k].0@ && value_json(
                            out@[k].1,
                        ) == json_normal(o.entries@[k].1@),
                decreases o.entries@.len() - i,
            {
                let x = to_value(&o.entries[i].1);
                out.push((o.entries[i].0.clone(), x));
                i += 1;
            }
            let m = Made::Object(out);
            proof {
                let u = Seq::new(out@.len(), |i: int| (out@[i].0@, value_json(out@[i].1)));
                assert(j@ == JsonV::Object(o@));
                assert(normal_entries(o@) =~= u);
            }
            put_together(m)
        },
    }
}

/// Reads a JSON text.
pub fn parse(text: &[u8]) -> (r: Result<Json, serde_json::Error>)
    ensures
        match r {
            Ok(j) => json_parsed(text@) == Some(j@) && json_wf(j@),
            Err(_) => json_parsed(text@) is None,
        },
{
    match read_value(text) {
        Ok(v) => Ok(from_value(&v)),
        Err(e) => Err(e),
    }
}

/// Writes a value with lines indented by one space per level. What it wrote reads back as
/// the value.
pub fn pretty(j: &Json) -> (r: Vec<u8>)
    ensures
        r@ == json_pretty(json_normal(j@), seq![32u8]),
        json_wf(j@) && integers_only(j@) && nests_within(j@, 127) ==> json_parsed(r@) == Some(j@)
            && json_parsed(r@.push(10u8)) == Some(j@),
{
    proof {
        if json_wf(j@) {
            lemma_json_normal(j@);
        }
    }
    let indent: Vec<u8> = vec![32];
    assert(indent@ =~= seq![32u8]);
    write_pretty(&to_value(j), indent.as_slice())
}

/// Writes a value with lines indented by two spaces per level. What it wrote reads back as
/// the value.
pub fn indented(j: &Json) -> (r: Vec<u8>)
    ensures
        r@ == json_indented(json_normal(j@)),
        json_wf(j@) && integers_only(j@) && nests_within(j@, 127) ==> json_parsed(r@) == Some(j@),
{
    proof {
        if json_wf(j@) {
            lemma_json_normal(j@);
        }
    }
    write_indented(&to_value(j))
}

/// Writes a value on one line.
pub fn compact(j: &Json) -> (r: String)
    ensures
        r@ == json_compact(json_normal(j@)),
{
    write_compact(&to_value(j))
}

} // verus!
