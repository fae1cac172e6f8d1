//! Paths as the parts that they name. Two paths are the same when their parts are, however
//! many slashes and lone dots stand between them.

use crate::text::{
    chars_of, is_less, lemma_text_total, lemma_text_trans, split, split_chars, str_eq, string_of,
    text_less, views,
};
use vstd::prelude::*;

verus! {

/// One part of a path.
pub enum PartV {
    Root,
    Current,
    Parent,
    Named(Seq<char>),
}

/// The parts that the texts between slashes name: an empty text and a lone dot name none.
pub open spec fn named_parts(s: Seq<Seq<char>>) -> Seq<PartV>
    decreases s.len(),
{
    if s.len() == 0 {
        Seq::empty()
    } else if s.last() == seq!['.', '.'] {
        named_parts(s.drop_last()).push(PartV::Parent)
    } else if s.last().len() == 0 || s.last() == seq!['.'] {
        named_parts(s.drop_last())
    } else {
        named_parts(s.drop_last()).push(PartV::Named(s.last()))
    }
}

/// What a path starts from: a slash is the root, and a leading dot of its own stands for the
/// current directory.
pub open spec fn lead(path: Seq<char>) -> Seq<PartV> {
    if path.len() > 0 && path[0] == '/' {
        seq![PartV::Root]
    } else if path.len() > 0 && path[0] == '.' && (path.len() == 1 || path[1] == '/') {
        seq![PartV::Current]
    } else {
        Seq::empty()
    }
}

/// The parts of a path.
pub open spec fn parts(path: Seq<char>) -> Seq<PartV> {
    lead(path) + named_parts(split(path, '/'))
}

/// Whether two texts are the same path.
pub open spec fn same_path(a: Seq<char>, b: Seq<char>) -> bool {
    parts(a) == parts(b)
}

pub open spec fn part_rank(p: PartV) -> int {
    match p {
        PartV::Root => 0,
        PartV::Current => 1,
        PartV::Parent => 2,
        PartV::Named(_) => 3,
    }
}

/// The order of parts: the root, the current directory, the parent, then names as text.
pub open spec fn part_less(a: PartV, b: PartV) -> bool {
    match (a, b) {
        (PartV::Named(x), PartV::Named(y)) => text_less(x, y),
        _ => part_rank(a) < part_rank(b),
    }
}

/// The order of lists of parts: by the first part in which they differ, the shorter first.
pub open spec fn parts_less(a: Seq<PartV>, b: Seq<PartV>) -> bool
    decreases a.len(),
{
    if b.len() == 0 {
        false
    } else if a.len() == 0 {
        true
    } else if a[0] != b[0] {
        part_less(a[0], b[0])
    } else {
        parts_less(a.skip(1), b.skip(1))
    }
}

/// The order of paths.
pub open spec fn path_less(a: Seq<char>, b: Seq<char>) -> bool {
    parts_less(parts(a), parts(b))
}

/// The last part of a path, if it is a name; else nothing.
pub open spec fn last_part(path: Seq<char>) -> Seq<char> {
    if parts(path).len() > 0 && parts(path).last() is Named {
        parts(path).last()->Named_0
    } else {
        Seq::empty()
    }
}

proof fn lemma_part_total(a: PartV, b: PartV)
    ensures
        part_less(a, b) || part_less(b, a) || a == b,
        !(part_less(a, b) && part_less(b, a)),
        a == b ==> !part_less(a, b),
{
    if a is Named && b is Named {
        lemma_text_total(a->Named_0, b->Named_0);
    }
}

proof fn lemma_parts_total(a: Seq<PartV>, b: Seq<PartV>)
    ensures
        parts_less(a, b) || parts_less(b, a) || a == b,
        !(parts_less(a, b) && parts_less(b, a)),
        a == b ==> !parts_less(a, b),
    decreases a.len(),
{
    if a.len() > 0 && b.len() > 0 {
        lemma_part_total(a[0], b[0]);
        if a[0] == b[0] {
            lemma_parts_total(a.skip(1), b.skip(1));
            if a.skip(1) == b.skip(1) {
                assert(a =~= seq![a[0]] + a.skip(1));
                assert(b =~= seq![b[0]] + b.skip(1));
            }
        }
    } else if a.len() == 0 && b.len() == 0 {
        assert(a =~= b);
    }
}

proof fn lemma_parts_trans(a: Seq<PartV>, b: Seq<PartV>, c: Seq<PartV>)
    ensures
        parts_less(a, b) && parts_less(b, c) ==> parts_less(a, c),
    decreases a.len(),
{
    if a.len() > 0 && b.len() > 0 && c.len() > 0 {
        lemma_part_total(a[0], b[0]);
        if a[0] is Named && b[0] is Named && c[0] is Named {
            lemma_text_trans(a[0]->Named_0, b[0]->Named_0, c[0]->Named_0);
            lemma_text_total(a[0]->Named_0, c[0]->Named_0);
        }
        lemma_parts_trans(a.skip(1), b.skip(1), c.skip(1));
    }
}

/// Of two paths one comes before the other, or they are the same.
pub proof fn path_order_is_total(a: Seq<char>, b: Seq<char>)
    ensures
        path_less(a, b) || path_less(b, a) || same_path(a, b),
        !(path_less(a, b) && path_less(b, a)),
        same_path(a, b) ==> !path_less(a, b),
{
    lemma_parts_total(parts(a), parts(b));
}

/// A path before a path that is before a third is before the third.
pub proof fn path_order_is_transitive(a: Seq<char>, b: Seq<char>, c: Seq<char>)
    ensures
        path_less(a, b) && path_less(b, c) ==> path_less(a, c),
{
    lemma_parts_trans(parts(a), parts(b), parts(c));
}

/// One part of a path, as it is held.
enum Part {
    Root,
    Current,
    Parent,
    Named(String),
}

impl View for Part {
    type V = PartV;

    closed spec fn view(&self) -> PartV {
        match *self {
            Part::Root => PartV::Root,
            Part::Current => PartV::Current,
            Part::Parent => PartV::Parent,
            Part::Named(s) => PartV::Named(s@),
        }
    }
}

spec fn part_views(v: Seq<Part>) -> Seq<PartV> {
    Seq::new(v.len(), |i: int| v[i]@)
}

fn parts_of(path: &str) -> (r: Vec<Part>)
    ensures
        part_views(r@) == parts(path@),
{
    let v = chars_of(path);
    let mut out: Vec<Part> = Vec::new();
    if v.len() > 0 && v[0] == '/' {
        out.push(Part::Root);
    } else if v.len() > 0 && v[0] == '.' && (v.len() == 1 || v[1] == '/') {
        out.push(Part::Current);
    }
    assert(part_views(out@) =~= lead(path@));
    let between = split_chars(&v, '/');
    let ghost texts = views(between@);
    let mut i: usize = 0;
    assert(texts.take(0) =~= Seq::empty());
    assert(lead(path@) + named_parts(Seq::empty()) =~= lead(path@));
    while i < between.len()
        invariant
            i <= between@.len(),
            texts == views(between@),
            part_views(out@) == lead(path@) + named_parts(texts.take(i as int)),
        decreases between@.len() - i,
    {
        let ghost before = part_views(out@);
        let ghost t = texts.take(i + 1);
        assert(t.drop_last() =~= texts.take(i as int));
        assert(t.last() == between@[i as int]@);
        let p = &between[i];
        if p.len() == 2 && p[0] == '.' && p[1] == '.' {
            assert(p@ =~= seq!['.', '.']);
            out.push(Part::Parent);
            assert(part_views(out@) =~= before.push(PartV::Parent));
        } else if p.len() == 0 || (p.len() == 1 && p[0] == '.') {
            assert(p@.len() == 1 ==> p@ =~= seq!['.']);
        } else {
            out.push(Part::Named(string_of(p)));
            assert(part_views(out@) =~= before.push(PartV::Named(p@)));
        }
        assert(part_views(out@) =~= lead(path@) + named_parts(t));
        i += 1;
    }
    assert(texts.take(texts.len() as int) =~= texts);
    out
}

fn same_part(a: &Part, b: &Part) -> (r: bool)
    ensures
        r == (a@ == b@),
{
    match (a, b) {
        (Part::Root, Part::Root) => true,
        (Part::Current, Part::Current) => true,
        (Part::Parent, Part::Parent) => true,
        (Part::Named(x), Part::Named(y)) => str_eq(x.as_str(), y.as_str()),
        _ => false,
    }
}

fn rank(p: &Part) -> (r: u8)
    ensures
        r == part_rank(p@),
{
    match p {
        Part::Root => 0,
        Part::Current => 1,
        Part::Parent => 2,
        Part::Named(_) => 3,
    }
}

fn is_part_less(a: &Part, b: &Part) -> (r: bool)
    ensures
        r == part_less(a@, b@),
{
    match (a, b) {
        (Part::Named(x), Part::Named(y)) => is_less(x.as_str(), y.as_str()),
        _ => rank(a) < rank(b),
    }
}

pub fn is_same_path(a: &str, b: &str) -> (r: bool)
    ensures
        r == same_path(a@, b@),
{
    let x = parts_of(a);
    let y = parts_of(b);
    if x.len() != y.len() {
        assert(part_views(x@).len() != part_views(y@).len());
        return false;
    }
    let mut i: usize = 0;
    while i < x.len()
        invariant
            i <= x@.len(),
            x@.len() == y@.len(),
            part_views(x@) == parts(a@),
            part_views(y@) == parts(b@),
            forall|j: int| 0 <= j < i ==> (#[trigger] x@[j])@ == y@[j]@,
        decreases x@.len() - i,
    {
        if !same_part(&x[i], &y[i]) {
            assert(part_views(x@)[i as int] != part_views(y@)[i as int]);
            return false;
        }
        i += 1;
    }
    assert(part_views(x@) =~= part_views(y@));
    true
}

pub fn is_path_less(a: &str, b: &str) -> (r: bool)
    ensures
        r == path_less(a@, b@),
{
    let x = parts_of(a);
    let y = parts_of(b);
    let ghost p = part_views(x@);
    let ghost q = part_views(y@);
    let mut i: usize = 0;
    assert(p.skip(0) =~= p);
    assert(q.skip(0) =~= q);
    while i < x.len() && i < y.len() && same_part(&x[i], &y[i])
        invariant
            i <= x@.len(),
            i <= y@.len(),
            p == part_views(x@),
            q == part_views(y@),
            parts_less(p, q) == parts_less(p.skip(i as int), q.skip(i as int)),
        decreases x@.len() - i,
    {
        assert(p.skip(i as int)[0] == x@[i as int]@);
        assert(q.skip(i as int)[0] == y@[i as int]@);
        assert(p.skip(i as int).skip(1) =~= p.skip(i + 1));
        assert(q.skip(i as int).skip(1) =~= q.skip(i + 1));
        i += 1;
    }
    if i == y.len() {
        false
    } else if i == x.len() {
        true
    } else {
        assert(p.skip(i as int)[0] == x@[i as int]@);
        assert(q.skip(i as int)[0] == y@[i as int]@);
        is_part_less(&x[i], &y[i])
    }
}

/// The last part of a path, if it is a name; else nothing.
pub fn file_name(path: &str) -> (r: String)
    ensures
        r@ == last_part(path@),
{
    let v = parts_of(path);
    assert(v@.len() > 0 ==> part_views(v@).last() == v@[v@.len() - 1]@);
    if v.len() == 0 {
        return String::new();
    }
    match &v[v.len() - 1] {
        Part::Named(s) => s.clone(),
        _ => String::new(),
    }
}

/// A path's last part is its file name: what stands after the last slash, or the whole path
/// where it has none.
pub proof fn last_part_is_the_file_name(dir: Seq<char>, name: Seq<char>)
    requires
        name.len() > 0,
        !name.contains('/'),
        name != seq!['.'],
        name != seq!['.', '.'],
    ensures
        last_part(dir.push('/') + name) == name,
        last_part(name) == name,
{
    let front = dir.push('/');
    let path = front + name;
    assert(front.drop_last() =~= dir);
    crate::text::lemma_split_append(front, '/', name);
    assert(split(front, '/').last() + name =~= name);
    let s = split(path, '/');
    assert(s.last() == name);
    assert(parts(path).last() == PartV::Named(name));
    let e = Seq::<char>::empty();
    crate::text::lemma_split_append(e, '/', name);
    assert(e + name =~= name);
    let t = split(name, '/');
    assert(t.last() =~= name);
    assert(parts(name).last() == PartV::Named(name));
}

} // verus!
