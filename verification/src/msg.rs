//! MessagePack values, as an embedded Neovim sends them.

use crate::text::str_eq;
use rmpv::Value;
use vstd::prelude::*;
use vstd::utf8::{decode_utf8, valid_utf8};

verus! {

/// `rmpv`'s value.
#[verifier::external_type_specification]
#[verifier::external_body]
pub struct ExValue(rmpv::Value);

/// A MessagePack value.
#[derive(Debug)]
pub enum Msg {
    Nil,
    Bool(bool),
    /// An integer, as far as it is one of each of these types.
    Int(Option<u64>, Option<i64>),
    /// A string's bytes, which may not be UTF-8.
    Text(Vec<u8>),
    Bytes(Vec<u8>),
    Array(Vec<Msg>),
    Table(Vec<(Msg, Msg)>),
    Ext(i8, Vec<u8>),
    /// A number with a fraction: whether it is a short one, and its bits.
    Real(bool, u64),
}

/// What a [`Msg`] holds.
pub enum MsgV {
    Nil,
    Bool(bool),
    Int(Option<u64>, Option<i64>),
    Text(Seq<u8>),
    Bytes(Seq<u8>),
    Array(Seq<MsgV>),
    Table(Seq<(MsgV, MsgV)>),
    Ext(i8, Seq<u8>),
    Real(bool, u64),
}

impl View for Msg {
    type V = MsgV;

    open spec fn view(&self) -> MsgV {
        msg_view(*self)
    }
}

pub open spec fn msg_view(m: Msg) -> MsgV
    decreases m,
{
    match m {
        Msg::Nil => MsgV::Nil,
        Msg::Bool(b) => MsgV::Bool(b),
        Msg::Int(u, i) => MsgV::Int(u, i),
        Msg::Text(b) => MsgV::Text(b@),
        Msg::Bytes(b) => MsgV::Bytes(b@),
        Msg::Array(a) => MsgV::Array(
            Seq::new(
                a@.len(),
                |i: int|
                    if 0 <= i < a@.len() {
                        msg_view(a@[i])
                    } else {
                        MsgV::Nil
                    },
            ),
        ),
        Msg::Table(t) => MsgV::Table(
            Seq::new(
                t@.len(),
                |i: int|
                    if 0 <= i < t@.len() {
                        (msg_view(t@[i].0), msg_view(t@[i].1))
                    } else {
                        (MsgV::Nil, MsgV::Nil)
                    },
            ),
        ),
        Msg::Ext(k, b) => MsgV::Ext(k, b@),
        Msg::Real(short, bits) => MsgV::Real(short, bits),
    }
}

pub open spec fn msg_views(v: Seq<Msg>) -> Seq<MsgV> {
    Seq::new(v.len(), |i: int| v[i]@)
}

/// What an `rmpv` value holds.
pub uninterp spec fn value_msg(v: rmpv::Value) -> MsgV;

/// One level of an `rmpv` value.
pub enum MsgParts<'a> {
    Nil,
    Bool(bool),
    Int(Option<u64>, Option<i64>),
    Text(Vec<u8>),
    Bytes(Vec<u8>),
    Array(&'a Vec<rmpv::Value>),
    Table(&'a Vec<(rmpv::Value, rmpv::Value)>),
    Ext(i8, Vec<u8>),
    Real(bool, u64),
}

pub open spec fn parts_msg(p: MsgParts) -> MsgV {
    match p {
        MsgParts::Nil => MsgV::Nil,
        MsgParts::Bool(b) => MsgV::Bool(b),
        MsgParts::Int(u, i) => MsgV::Int(u, i),
        MsgParts::Text(b) => MsgV::Text(b@),
        MsgParts::Bytes(b) => MsgV::Bytes(b@),
        MsgParts::Array(a) => MsgV::Array(Seq::new(a@.len(), |i: int| value_msg(a@[i]))),
        MsgParts::Table(t) => MsgV::Table(
            Seq::new(t@.len(), |i: int| (value_msg(t@[i].0), value_msg(t@[i].1))),
        ),
        MsgParts::Ext(k, b) => MsgV::Ext(k, b@),
        MsgParts::Real(short, bits) => MsgV::Real(short, bits),
    }
}

/// Names the variant of an `rmpv::Value` and hands out its fields.
#[verifier::external_body]
fn take_apart<'a>(v: &'a rmpv::Value) -> (r: MsgParts<'a>)
    ensures
        parts_msg(r) == value_msg(*v),
{
    match v {
        Value::Nil => MsgParts::Nil,
        Value::Boolean(b) => MsgParts::Bool(*b),
        Value::Integer(n) => MsgParts::Int(n.as_u64(), n.as_i64()),
        Value::String(s) => MsgParts::Text(s.as_bytes().to_vec()),
        Value::Binary(b) => MsgParts::Bytes(b.clone()),
        Value::Array(a) => MsgParts::Array(a),
        Value::Map(m) => MsgParts::Table(m),
        Value::Ext(k, b) => MsgParts::Ext(*k, b.clone()),
        Value::F32(x) => MsgParts::Real(true, x.to_bits() as u64),
        Value::F64(x) => MsgParts::Real(false, x.to_bits()),
    }
}

/// Takes an `rmpv` value over.
pub fn from_rmpv(v: &rmpv::Value) -> (r: Msg)
    ensures
        r@ == value_msg(*v),
    decreases value_msg(*v),
{
    match take_apart(v) {
        MsgParts::Nil => Msg::Nil,
        MsgParts::Bool(b) => Msg::Bool(b),
        MsgParts::Int(u, i) => Msg::Int(u, i),
        MsgParts::Text(b) => Msg::Text(b),
        MsgParts::Bytes(b) => Msg::Bytes(b),
        MsgParts::Array(a) => {
            let mut out: Vec<Msg> = Vec::new();
            let mut i: usize = 0;
            while i < a.len()
                invariant
                    i <= a@.len(),
                    out@.len() == i,
                    value_msg(*v) == MsgV::Array(Seq::new(a@.len(), |i: int| value_msg(a@[i]))),
                    forall|j: int| 0 <= j < i ==> (#[trigger] out@[j])@ == value_msg(a@[j]),
                decreases a@.len() - i,
            {
                assert(value_msg(*v)->Array_0[i as int] == value_msg(a@[i as int]));
                out.push(from_rmpv(&a[i]));
                i += 1;
            }
            let r = Msg::Array(out);
            assert(r@->Array_0 =~= value_msg(*v)->Array_0);
            r
        },
        MsgParts::Table(t) => {
            let mut out: Vec<(Msg, Msg)> = Vec::new();
            let mut i: usize = 0;
            while i < t.len()
                invariant
                    i <= t@.len(),
                    out@.len() == i,
                    value_msg(*v) == MsgV::Table(
                        Seq::new(t@.len(), |i: int| (value_msg(t@[i].0), value_msg(t@[i].1))),
                    ),
                    forall|j: int|
                        0 <= j < i ==> (#[trigger] out@[j]).0@ == value_msg(t@[j].0) && out@[j].1@
                            == value_msg(t@[j].1),
                decreases t@.len() - i,
            {
                assert(value_msg(*v)->Table_0[i as int].0 == value_msg(t@[i as int].0));
                assert(value_msg(*v)->Table_0[i as int].1 == value_msg(t@[i as int].1));
                let k = from_rmpv(&t[i].0);
                let x = from_rmpv(&t[i].1);
                out.push((k, x));
                i += 1;
            }
            let r = Msg::Table(out);
            assert(r@->Table_0 =~= value_msg(*v)->Table_0);
            r
        },
        MsgParts::Ext(k, b) => Msg::Ext(k, b),
        MsgParts::Real(short, bits) => Msg::Real(short, bits),
    }
}

/// The text of bytes, if they are UTF-8.
pub open spec fn utf8(b: Seq<u8>) -> Option<Seq<char>> {
    if valid_utf8(b) {
        Some(decode_utf8(b))
    } else {
        None
    }
}

/// `std::str::from_utf8` reads bytes as text if they are UTF-8.
#[verifier::external_body]
pub(crate) fn read_utf8(b: &[u8]) -> (r: Option<String>)
    ensures
        match r {
            Some(s) => utf8(b@) == Some(s@),
            None => utf8(b@) is None,
        },
{
    std::str::from_utf8(b).ok().map(str::to_string)
}

/// The text of bytes, with a replacement character for what is not UTF-8.
pub uninterp spec fn utf8_lossy(b: Seq<u8>) -> Seq<char>;

/// `String::from_utf8_lossy` reads bytes as text. What is UTF-8 comes out as it is.
#[verifier::external_body]
pub(crate) fn read_lossy(b: &[u8]) -> (r: String)
    ensures
        r@ == utf8_lossy(b@),
        utf8(b@) matches Some(s) ==> r@ == s,
{
    std::string::String::from_utf8_lossy(b).into_owned()
}

pub open spec fn m_str(v: MsgV) -> Option<Seq<char>> {
    match v {
        MsgV::Text(b) => utf8(b),
        _ => None,
    }
}

pub open spec fn m_i64(v: MsgV) -> Option<i64> {
    match v {
        MsgV::Int(_, i) => i,
        _ => None,
    }
}

pub open spec fn m_u64(v: MsgV) -> Option<u64> {
    match v {
        MsgV::Int(u, _) => u,
        _ => None,
    }
}

pub open spec fn m_bool(v: MsgV) -> Option<bool> {
    match v {
        MsgV::Bool(b) => Some(b),
        _ => None,
    }
}

/// The items of an array; none for anything else.
pub open spec fn m_items(v: MsgV) -> Seq<MsgV> {
    match v {
        MsgV::Array(a) => a,
        _ => Seq::empty(),
    }
}

/// The value of the first entry with a name, from `i` on.
pub open spec fn entry_from(t: Seq<(MsgV, MsgV)>, key: Seq<char>, i: int) -> Option<MsgV>
    decreases t.len() - i,
{
    if i >= t.len() {
        None
    } else if m_str(t[i].0) == Some(key) {
        Some(t[i].1)
    } else {
        entry_from(t, key, i + 1)
    }
}

/// The value under a name.
pub open spec fn m_get(v: MsgV, key: Seq<char>) -> Option<MsgV> {
    match v {
        MsgV::Table(t) => entry_from(t, key, 0),
        _ => None,
    }
}

pub open spec fn m_at(s: Seq<MsgV>, i: int) -> MsgV {
    if 0 <= i < s.len() {
        s[i]
    } else {
        MsgV::Nil
    }
}

impl Msg {
    pub fn as_str(&self) -> (r: Option<String>)
        ensures
            match r {
                Some(s) => m_str(self@) == Some(s@),
                None => m_str(self@) is None,
            },
    {
        match self {
            Msg::Text(b) => read_utf8(b.as_slice()),
            _ => None,
        }
    }

    pub fn is_str(&self, s: &str) -> (r: bool)
        ensures
            r == (m_str(self@) == Some(s@)),
    {
        match self.as_str() {
            Some(t) => str_eq(t.as_str(), s),
            None => false,
        }
    }

    pub fn as_i64(&self) -> (r: Option<i64>)
        ensures
            r == m_i64(self@),
    {
        match self {
            Msg::Int(_, i) => *i,
            _ => None,
        }
    }

    pub fn as_u64(&self) -> (r: Option<u64>)
        ensures
            r == m_u64(self@),
    {
        match self {
            Msg::Int(u, _) => *u,
            _ => None,
        }
    }

    pub fn as_bool(&self) -> (r: Option<bool>)
        ensures
            r == m_bool(self@),
    {
        match self {
            Msg::Bool(b) => Some(*b),
            _ => None,
        }
    }

    /// The items of an array; none for anything else.
    pub fn items(&self) -> (r: &[Msg])
        ensures
            msg_views(r@) == m_items(self@),
    {
        match self {
            Msg::Array(a) => {
                assert(msg_views(a@) =~= m_items(self@));
                a.as_slice()
            },
            _ => {
                let none: &[Msg] = &[];
                assert(msg_views(none@) =~= m_items(self@));
                none
            },
        }
    }

    /// The value under a name.
    pub fn get(&self, key: &str) -> (r: Option<&Msg>)
        ensures
            match r {
                Some(m) => m_get(self@, key@) == Some(m@),
                None => m_get(self@, key@) is None,
            },
    {
        match self {
            Msg::Table(t) => {
                let ghost s = self@->Table_0;
                let mut i: usize = 0;
                while i < t.len()
                    invariant
                        i <= t@.len(),
                        self@ == MsgV::Table(s),
                        s.len() == t@.len(),
                        forall|j: int|
                            0 <= j < s.len() ==> #[trigger] s[j] == (t@[j].0@, t@[j].1@),
                        entry_from(s, key@, 0) == entry_from(s, key@, i as int),
                    decreases t@.len() - i,
                {
                    assert(s[i as int] == (t@[i as int].0@, t@[i as int].1@));
                    if t[i].0.is_str(key) {
                        return Some(&t[i].1);
                    }
                    i += 1;
                }
                None
            },
            _ => None,
        }
    }
}

/// What a buffer's handle is written as.
pub uninterp spec fn msgpack_read(b: Seq<u8>) -> Option<MsgV>;

/// `rmpv::decode::read_value` reads one value from bytes.
#[verifier::external_body]
fn read_msgpack(b: &[u8]) -> (r: Option<rmpv::Value>)
    ensures
        match r {
            Some(v) => msgpack_read(b@) == Some(value_msg(v)),
            None => msgpack_read(b@) is None,
        },
{
    let mut rest = b;
    rmpv::decode::read_value(&mut rest).ok()
}

/// The buffer that a value names; -1 for none.
pub open spec fn handle_of(v: MsgV) -> i64 {
    let n = match v {
        MsgV::Ext(_, data) => match msgpack_read(data) {
            Some(m) => m_i64(m),
            None => None,
        },
        _ => m_i64(v),
    };
    match n {
        Some(i) => i,
        None => -1i64,
    }
}

/// What a handle's bytes were read as.
pub fn handle_read(read: Option<&Msg>) -> (r: i64)
    ensures
        r == match read {
            Some(m) => match m_i64(m@) {
                Some(i) => i,
                None => -1i64,
            },
            None => -1i64,
        },
{
    match read {
        Some(m) => match m.as_i64() {
            Some(i) => i,
            None => -1,
        },
        None => -1,
    }
}

/// A `buffer` ext value carries the handle as msgpack.
pub fn buffer_handle(v: &Msg) -> (r: i64)
    ensures
        r == handle_of(v@),
{
    match v {
        Msg::Ext(_, data) => match read_msgpack(data.as_slice()) {
            Some(value) => {
                let m = from_rmpv(&value);
                handle_read(Some(&m))
            },
            None => handle_read(None),
        },
        _ => handle_read(Some(v)),
    }
}

/// The line that a value holds.
pub open spec fn line_of(v: MsgV) -> Seq<char> {
    match v {
        MsgV::Text(b) => utf8_lossy(b),
        MsgV::Bytes(b) => utf8_lossy(b),
        _ => Seq::empty(),
    }
}

/// The lines that a value holds.
pub fn strings(v: &Msg) -> (r: Vec<String>)
    ensures
        crate::text::texts(r@) == m_items(v@).map_values(|l: MsgV| line_of(l)),
{
    let items = v.items();
    let mut out: Vec<String> = Vec::new();
    let mut i: usize = 0;
    while i < items.len()
        invariant
            i <= items@.len(),
            out@.len() == i,
            forall|j: int| 0 <= j < i ==> (#[trigger] out@[j])@ == line_of(items@[j]@),
        decreases items@.len() - i,
    {
        let line = match &items[i] {
            Msg::Text(b) => read_lossy(b.as_slice()),
            Msg::Bytes(b) => read_lossy(b.as_slice()),
            _ => {
                let none = String::new();
                assert(none@ =~= Seq::empty());
                none
            },
        };
        out.push(line);
        i += 1;
    }
    proof {
        let want = m_items(v@).map_values(|l: MsgV| line_of(l));
        assert forall|j: int| 0 <= j < want.len() implies want[j] == crate::text::texts(out@)[j] by {
            assert(msg_views(items@)[j] == items@[j]@);
            assert(out@[j]@ == line_of(items@[j]@));
        }
        assert(crate::text::texts(out@) =~= want);
    }
    out
}

} // verus!
