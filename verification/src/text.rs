//! Text as sequences of characters: the pieces of string handling that the rest of the
//! library is stated over.

use vstd::prelude::*;

verus! {

/// `String::push` appends one character.
pub assume_specification[ std::string::String::push ](s: &mut std::string::String, c: char)
    ensures
        final(s)@ == old(s)@.push(c),
;

/// `==` on string slices holds exactly when they have the same characters.
#[verifier::external_body]
pub(crate) fn str_eq(a: &str, b: &str) -> (r: bool)
    ensures
        r == (a@ == b@),
{
    a == b
}

/// The characters of each string.
pub open spec fn texts(v: Seq<String>) -> Seq<Seq<char>> {
    Seq::new(v.len(), |i: int| v[i]@)
}

/// The characters of each character vector.
pub open spec fn views(v: Seq<Vec<char>>) -> Seq<Seq<char>> {
    Seq::new(v.len(), |i: int| v[i]@)
}

/// Whether `s` begins with `p`.
pub open spec fn starts_with(s: Seq<char>, p: Seq<char>) -> bool {
    p.len() <= s.len() && s.take(p.len() as int) == p
}

/// What follows `p` in `s`, when `s` begins with `p`.
pub open spec fn strip_prefix(s: Seq<char>, p: Seq<char>) -> Option<Seq<char>> {
    if starts_with(s, p) {
        Some(s.skip(p.len() as int))
    } else {
        None
    }
}

/// The pieces of `s` between occurrences of `c`; always at least one.
pub open spec fn split(s: Seq<char>, c: char) -> Seq<Seq<char>>
    decreases s.len(),
{
    if s.len() == 0 {
        seq![Seq::empty()]
    } else {
        let p = split(s.drop_last(), c);
        if s.last() == c {
            p.push(Seq::empty())
        } else {
            p.drop_last().push(p.last().push(s.last()))
        }
    }
}

/// The parts in order, with `sep` between neighbours.
pub open spec fn join(parts: Seq<Seq<char>>, sep: Seq<char>) -> Seq<char>
    decreases parts.len(),
{
    if parts.len() == 0 {
        Seq::empty()
    } else if parts.len() == 1 {
        parts[0]
    } else {
        join(parts.drop_last(), sep) + sep + parts.last()
    }
}

/// The parts in order, with nothing between them.
pub open spec fn concat(parts: Seq<Seq<char>>) -> Seq<char>
    decreases parts.len(),
{
    if parts.len() == 0 {
        Seq::empty()
    } else {
        concat(parts.drop_last()) + parts.last()
    }
}

/// The lines of `s`, each with its line break; the last may lack one. Empty for no text.
pub open spec fn split_keep(s: Seq<char>) -> Seq<Seq<char>>
    decreases s.len(),
{
    if s.len() == 0 {
        Seq::empty()
    } else {
        let p = split_keep(s.drop_last());
        if s.len() == 1 || s[s.len() - 2] == '\n' {
            p.push(seq![s.last()])
        } else {
            p.drop_last().push(p.last().push(s.last()))
        }
    }
}

/// A separator of one character.
pub open spec fn one(c: char) -> Seq<char> {
    seq![c]
}

pub proof fn lemma_split_nonempty(s: Seq<char>, c: char)
    ensures
        split(s, c).len() >= 1,
    decreases s.len(),
{
    if s.len() > 0 {
        lemma_split_nonempty(s.drop_last(), c);
    }
}

/// No piece of a split holds the separator.
pub proof fn lemma_split_free(s: Seq<char>, c: char)
    ensures
        forall|i: int| 0 <= i < split(s, c).len() ==> !(#[trigger] split(s, c)[i]).contains(c),
    decreases s.len(),
{
    if s.len() > 0 {
        lemma_split_free(s.drop_last(), c);
        lemma_split_nonempty(s.drop_last(), c);
        let p = split(s.drop_last(), c);
        assert forall|i: int| 0 <= i < split(s, c).len() implies !(#[trigger] split(
            s,
            c,
        )[i]).contains(c) by {
            if s.last() == c {
                if i < p.len() {
                    assert(split(s, c)[i] == p[i]);
                }
            } else {
                if i < p.len() - 1 {
                    assert(split(s, c)[i] == p[i]);
                } else {
                    let q = p.last().push(s.last());
                    assert(split(s, c)[i] == q);
                    if q.contains(c) {
                        let j = choose|j: int| 0 <= j < q.len() && q[j] == c;
                        assert(p.last()[j] == c);
                        assert(p.last().contains(c));
                    }
                }
            }
        }
    }
}

/// Joining the pieces of a split restores the text.
pub proof fn lemma_join_split(s: Seq<char>, c: char)
    ensures
        join(split(s, c), one(c)) == s,
    decreases s.len(),
{
    if s.len() == 0 {
    } else {
        let t = s.drop_last();
        lemma_join_split(t, c);
        lemma_split_nonempty(t, c);
        let p = split(t, c);
        if s.last() == c {
            assert(p.push(Seq::empty()).drop_last() =~= p);
            assert(join(p, one(c)) + one(c) + Seq::<char>::empty() =~= s);
        } else {
            let q = p.drop_last().push(p.last().push(s.last()));
            assert(q.drop_last() =~= p.drop_last());
            if p.len() == 1 {
                assert(p.last().push(s.last()) =~= s);
            } else {
                assert(join(q, one(c)) =~= join(p, one(c)).push(s.last()));
                assert(t.push(s.last()) =~= s);
            }
        }
    }
}

pub proof fn lemma_split_append(s: Seq<char>, c: char, t: Seq<char>)
    requires
        !t.contains(c),
    ensures
        split(s + t, c) == split(s, c).drop_last().push(split(s, c).last() + t),
    decreases t.len(),
{
    lemma_split_nonempty(s, c);
    if t.len() == 0 {
        assert(s + t =~= s);
        assert(split(s, c).last() + t =~= split(s, c).last());
        assert(split(s, c).drop_last().push(split(s, c).last()) =~= split(s, c));
    } else {
        let t0 = t.drop_last();
        assert forall|x: char| t0.contains(x) implies t.contains(x) by {
            let j = choose|j: int| 0 <= j < t0.len() && t0[j] == x;
            assert(t[j] == x);
        }
        lemma_split_append(s, c, t0);
        assert((s + t).drop_last() =~= s + t0);
        assert((s + t).last() == t.last());
        assert(t.contains(t[t.len() - 1]));
        let p = split(s, c).drop_last().push(split(s, c).last() + t0);
        assert(p.drop_last() =~= split(s, c).drop_last());
        assert((split(s, c).last() + t0).push(t.last()) =~= split(s, c).last() + t);
    }
}

/// Splitting joined pieces gives the pieces back, when none holds the separator.
pub proof fn lemma_split_join(parts: Seq<Seq<char>>, c: char)
    requires
        parts.len() >= 1,
        forall|i: int| 0 <= i < parts.len() ==> !(#[trigger] parts[i]).contains(c),
    ensures
        split(join(parts, one(c)), c) == parts,
    decreases parts.len(),
{
    if parts.len() == 1 {
        let e = Seq::<char>::empty();
        assert(!parts[0].contains(c));
        lemma_split_append(e, c, parts[0]);
        assert(e + parts[0] =~= parts[0]);
        assert(split(parts[0], c) =~= parts);
    } else {
        let p = parts.drop_last();
        assert forall|i: int| 0 <= i < p.len() implies !(#[trigger] p[i]).contains(c) by {
            assert(p[i] == parts[i]);
        }
        lemma_split_join(p, c);
        let a = join(p, one(c));
        let b = a + one(c);
        assert(b.drop_last() =~= a);
        assert(split(b, c) == p.push(Seq::empty()));
        assert(!parts[parts.len() - 1].contains(c));
        lemma_split_append(b, c, parts.last());
        assert(p.push(Seq::empty()).drop_last() =~= p);
        assert(Seq::<char>::empty() + parts.last() =~= parts.last());
        assert(p.push(parts.last()) =~= parts);
    }
}

/// The lines of a text, one after the other, are the text.
pub proof fn lemma_concat_split_keep(s: Seq<char>)
    ensures
        concat(split_keep(s)) == s,
        s.len() > 0 ==> split_keep(s).len() > 0,
    decreases s.len(),
{
    if s.len() > 0 {
        let t = s.drop_last();
        lemma_concat_split_keep(t);
        let p = split_keep(t);
        if s.len() == 1 || s[s.len() - 2] == '\n' {
            assert(p.push(seq![s.last()]).drop_last() =~= p);
            assert(t + seq![s.last()] =~= s);
        } else {
            let q = p.drop_last().push(p.last().push(s.last()));
            assert(q.drop_last() =~= p.drop_last());
            assert(concat(p.drop_last()) + p.last().push(s.last()) =~= concat(p).push(s.last()));
            assert(t.push(s.last()) =~= s);
        }
    }
}

pub(crate) fn chars_of(s: &str) -> (r: Vec<char>)
    ensures
        r@ == s@,
{
    let mut v: Vec<char> = Vec::new();
    for c in it: s.chars()
        invariant
            v@ == it.seq().take(it.index()),
            it.seq() == s@,
    {
        v.push(c);
    }
    v
}

pub(crate) fn string_of(v: &Vec<char>) -> (r: String)
    ensures
        r@ == v@,
{
    let mut s = String::new();
    for i in 0..v.len()
        invariant
            s@ == v@.take(i as int),
    {
        s.push(v[i]);
    }
    s
}

/// Characters `a..b` of `v`.
pub(crate) fn substr(v: &Vec<char>, a: usize, b: usize) -> (r: Vec<char>)
    requires
        a <= b <= v@.len(),
    ensures
        r@ == v@.subrange(a as int, b as int),
{
    let mut out: Vec<char> = Vec::new();
    let mut i: usize = a;
    while i < b
        invariant
            a <= i <= b <= v@.len(),
            out@ == v@.subrange(a as int, i as int),
        decreases b - i,
    {
        out.push(v[i]);
        i += 1;
        assert(out@ =~= v@.subrange(a as int, i as int));
    }
    out
}

/// Characters of `v` from `a` on.
pub(crate) fn rest(v: &Vec<char>, a: usize) -> (r: Vec<char>)
    requires
        a <= v@.len(),
    ensures
        r@ == v@.skip(a as int),
{
    substr(v, a, v.len())
}

pub(crate) fn has_prefix(v: &Vec<char>, p: &str) -> (r: bool)
    ensures
        r == starts_with(v@, p@),
{
    let q = chars_of(p);
    if q.len() > v.len() {
        return false;
    }
    let mut i: usize = 0;
    while i < q.len()
        invariant
            i <= q@.len() <= v@.len(),
            q@ == p@,
            forall|j: int| 0 <= j < i ==> v@[j] == q@[j],
        decreases q@.len() - i,
    {
        if v[i] != q[i] {
            assert(v@.take(q@.len() as int)[i as int] != q@[i as int]);
            return false;
        }
        i += 1;
    }
    assert(v@.take(q@.len() as int) =~= q@);
    true
}

/// What follows the prefix `p`, if `v` has it.
pub(crate) fn after_prefix(v: &Vec<char>, p: &str) -> (r: Option<Vec<char>>)
    ensures
        match r {
            Some(x) => strip_prefix(v@, p@) == Some(x@),
            None => strip_prefix(v@, p@) is None,
        },
{
    if has_prefix(v, p) {
        let q = chars_of(p);
        Some(rest(v, q.len()))
    } else {
        None
    }
}

pub(crate) fn chars_eq(a: &Vec<char>, b: &Vec<char>) -> (r: bool)
    ensures
        r == (a@ == b@),
{
    if a.len() != b.len() {
        return false;
    }
    let mut i: usize = 0;
    while i < a.len()
        invariant
            i <= a@.len() == b@.len(),
            forall|j: int| 0 <= j < i ==> a@[j] == b@[j],
        decreases a@.len() - i,
    {
        if a[i] != b[i] {
            return false;
        }
        i += 1;
    }
    assert(a@ =~= b@);
    true
}

/// Whether `v` spells `s`.
pub(crate) fn is_text(v: &Vec<char>, s: &str) -> (r: bool)
    ensures
        r == (v@ == s@),
{
    chars_eq(v, &chars_of(s))
}

pub(crate) fn append_chars(v: &mut Vec<char>, s: &Vec<char>)
    ensures
        final(v)@ == old(v)@ + s@,
{
    let ghost v0 = v@;
    let mut i: usize = 0;
    while i < s.len()
        invariant
            i <= s@.len(),
            v@ == v0 + s@.take(i as int),
        decreases s@.len() - i,
    {
        v.push(s[i]);
        i += 1;
        assert(v@ =~= v0 + s@.take(i as int));
    }
    assert(s@.take(i as int) =~= s@);
}

pub(crate) fn copy_chars(v: &Vec<char>) -> (r: Vec<char>)
    ensures
        r@ == v@,
{
    substr(v, 0, v.len())
}

pub(crate) fn split_chars(v: &Vec<char>, c: char) -> (r: Vec<Vec<char>>)
    ensures
        views(r@) == split(v@, c),
        r@.len() >= 1,
{
    let mut parts: Vec<Vec<char>> = Vec::new();
    let mut cur: Vec<char> = Vec::new();
    let mut i: usize = 0;
    assert(views(parts@).push(cur@) =~= split(v@.take(0), c));
    while i < v.len()
        invariant
            i <= v@.len(),
            views(parts@).push(cur@) == split(v@.take(i as int), c),
        decreases v@.len() - i,
    {
        let x = v[i];
        let ghost p0 = views(parts@).push(cur@);
        assert(v@.take(i + 1).drop_last() =~= v@.take(i as int));
        assert(v@.take(i + 1).last() == x);
        assert(p0.drop_last() =~= views(parts@));
        if x == c {
            let ghost parts0 = parts@;
            parts.push(cur);
            assert(views(parts@) =~= p0);
            cur = Vec::new();
            assert(cur@ =~= Seq::<char>::empty());
        } else {
            cur.push(x);
        }
        i += 1;
        assert(views(parts@).push(cur@) =~= split(v@.take(i as int), c));
    }
    assert(v@.take(i as int) =~= v@);
    let ghost p0 = views(parts@).push(cur@);
    parts.push(cur);
    assert(views(parts@) =~= p0);
    parts
}

pub(crate) fn join_chars(parts: &Vec<Vec<char>>, c: char) -> (r: Vec<char>)
    ensures
        r@ == join(views(parts@), one(c)),
{
    let mut out: Vec<char> = Vec::new();
    let mut i: usize = 0;
    let ghost w = views(parts@);
    while i < parts.len()
        invariant
            i <= parts@.len(),
            w == views(parts@),
            out@ == join(w.take(i as int), one(c)),
        decreases parts@.len() - i,
    {
        let ghost o0 = out@;
        assert(w.take(i + 1).drop_last() =~= w.take(i as int));
        assert(w.take(i + 1).last() == parts@[i as int]@);
        if i > 0 {
            out.push(c);
            assert(out@ =~= o0 + one(c));
        }
        append_chars(&mut out, &parts[i]);
        if i == 0 {
            assert(out@ =~= parts@[0]@);
        }
        i += 1;
    }
    assert(w.take(i as int) =~= w);
    out
}

/// Where `c` first stands in `s`, or the length of `s`.
pub open spec fn find_char(s: Seq<char>, c: char) -> int
    decreases s.len(),
{
    if s.len() == 0 || s[0] == c {
        0
    } else {
        find_char(s.skip(1), c) + 1
    }
}

pub(crate) fn find_char_in(v: &Vec<char>, c: char) -> (r: usize)
    ensures
        r == find_char(v@, c),
        r <= v@.len(),
{
    let mut i: usize = 0;
    assert(v@.skip(0) =~= v@);
    while i < v.len() && v[i] != c
        invariant
            i <= v@.len(),
            find_char(v@, c) == find_char(v@.skip(i as int), c) + i,
        decreases v@.len() - i,
    {
        assert(v@.skip(i as int).skip(1) =~= v@.skip(i + 1));
        i += 1;
    }
    i
}

/// Unicode's white space.
pub open spec fn white(c: char) -> bool {
    ||| '\u{9}' <= c <= '\u{d}'
    ||| c == ' '
    ||| c == '\u{85}'
    ||| c == '\u{a0}'
    ||| c == '\u{1680}'
    ||| '\u{2000}' <= c <= '\u{200a}'
    ||| c == '\u{2028}'
    ||| c == '\u{2029}'
    ||| c == '\u{202f}'
    ||| c == '\u{205f}'
    ||| c == '\u{3000}'
}

pub(crate) fn is_white(c: char) -> (r: bool)
    ensures
        r == white(c),
{
    ('\u{9}' <= c && c <= '\u{d}') || c == ' ' || c == '\u{85}' || c == '\u{a0}' || c
        == '\u{1680}' || ('\u{2000}' <= c && c <= '\u{200a}') || c == '\u{2028}' || c
        == '\u{2029}' || c == '\u{202f}' || c == '\u{205f}' || c == '\u{3000}'
}

/// `s` without the white space it begins with.
pub open spec fn trimmed_start(s: Seq<char>) -> Seq<char>
    decreases s.len(),
{
    if s.len() > 0 && white(s[0]) {
        trimmed_start(s.skip(1))
    } else {
        s
    }
}

/// `s` without the white space it ends with.
pub open spec fn trimmed_end(s: Seq<char>) -> Seq<char>
    decreases s.len(),
{
    if s.len() > 0 && white(s.last()) {
        trimmed_end(s.drop_last())
    } else {
        s
    }
}

pub(crate) fn trim_start_chars(v: &Vec<char>) -> (r: Vec<char>)
    ensures
        r@ == trimmed_start(v@),
{
    let mut i: usize = 0;
    assert(v@.skip(0) =~= v@);
    while i < v.len() && is_white(v[i])
        invariant
            i <= v@.len(),
            trimmed_start(v@) == trimmed_start(v@.skip(i as int)),
        decreases v@.len() - i,
    {
        assert(v@.skip(i as int).skip(1) =~= v@.skip(i + 1));
        i += 1;
    }
    rest(v, i)
}

pub(crate) fn trim_end_chars(v: &Vec<char>) -> (r: Vec<char>)
    ensures
        r@ == trimmed_end(v@),
{
    let mut n: usize = v.len();
    assert(v@.take(n as int) =~= v@);
    while n > 0 && is_white(v[n - 1])
        invariant
            n <= v@.len(),
            trimmed_end(v@) == trimmed_end(v@.take(n as int)),
        decreases n,
    {
        assert(v@.take(n as int).drop_last() =~= v@.take(n - 1));
        n -= 1;
    }
    assert(v@.subrange(0, n as int) =~= v@.take(n as int));
    substr(v, 0, n)
}

/// The lines of `v`, each with its line break.
pub(crate) fn split_keep_chars(v: &Vec<char>) -> (r: Vec<String>)
    ensures
        texts(r@) == split_keep(v@),
{
    let mut out: Vec<String> = Vec::new();
    let mut cur: Vec<char> = Vec::new();
    let mut i: usize = 0;
    assert(v@.take(0) =~= Seq::empty());
    assert(texts(out@) =~= Seq::empty());
    while i < v.len()
        invariant
            i <= v@.len(),
            cur@.len() == 0 ==> split_keep(v@.take(i as int)) == texts(out@),
            cur@.len() > 0 ==> split_keep(v@.take(i as int)) == texts(out@).push(cur@),
            i > 0 ==> (cur@.len() == 0) == (v@[i - 1] == '\n'),
            i == 0 ==> cur@.len() == 0,
        decreases v@.len() - i,
    {
        let ghost before = v@.take(i as int);
        let ghost now = v@.take(i + 1);
        assert(now.drop_last() =~= before);
        let ghost lines = texts(out@);
        let ghost part = cur@;
        cur.push(v[i]);
        proof {
            if i > 0 {
                assert(now[now.len() - 2] == v@[i - 1]);
            }
            if part.len() == 0 {
                assert(cur@ =~= seq![v@[i as int]]);
                assert(split_keep(now) =~= lines.push(cur@));
            } else {
                assert(split_keep(before).drop_last() =~= lines);
                assert(split_keep(now) =~= lines.push(cur@));
            }
        }
        if v[i] == '\n' {
            out.push(string_of(&cur));
            assert(texts(out@) =~= lines.push(cur@));
            cur = Vec::new();
        }
        i += 1;
    }
    assert(v@.take(i as int) =~= v@);
    if cur.len() > 0 {
        let ghost lines = texts(out@);
        out.push(string_of(&cur));
        assert(texts(out@) =~= lines.push(cur@));
    }
    out
}

/// The parts from `a` up to `b`.
pub(crate) fn sub_parts(parts: &Vec<Vec<char>>, a: usize, b: usize) -> (r: Vec<Vec<char>>)
    requires
        a <= b <= parts@.len(),
    ensures
        views(r@) == views(parts@).subrange(a as int, b as int),
{
    let mut out: Vec<Vec<char>> = Vec::new();
    let mut i: usize = a;
    while i < b
        invariant
            a <= i <= b <= parts@.len(),
            out@.len() == i - a,
            forall|j: int| 0 <= j < i - a ==> (#[trigger] out@[j])@ == parts@[a + j]@,
        decreases b - i,
    {
        out.push(copy_chars(&parts[i]));
        i += 1;
    }
    assert(views(out@) =~= views(parts@).subrange(a as int, b as int));
    out
}

/// Whether `a` comes before `b` in the order of code points.
pub open spec fn text_less(a: Seq<char>, b: Seq<char>) -> bool
    decreases a.len(),
{
    if b.len() == 0 {
        false
    } else if a.len() == 0 {
        true
    } else if a[0] != b[0] {
        a[0] < b[0]
    } else {
        text_less(a.skip(1), b.skip(1))
    }
}

pub(crate) fn is_less(a: &str, b: &str) -> (r: bool)
    ensures
        r == text_less(a@, b@),
{
    let x = chars_of(a);
    let y = chars_of(b);
    let mut i: usize = 0;
    assert(x@.skip(0) =~= x@);
    assert(y@.skip(0) =~= y@);
    while i < x.len() && i < y.len() && x[i] == y[i]
        invariant
            i <= x@.len(),
            i <= y@.len(),
            text_less(x@, y@) == text_less(x@.skip(i as int), y@.skip(i as int)),
        decreases x@.len() - i,
    {
        assert(x@.skip(i as int).skip(1) =~= x@.skip(i + 1));
        assert(y@.skip(i as int).skip(1) =~= y@.skip(i + 1));
        i += 1;
    }
    if i == y.len() {
        false
    } else if i == x.len() {
        true
    } else {
        x[i] < y[i]
    }
}

/// A decimal digit.
pub open spec fn digit_char(d: int) -> char {
    if d == 0 {
        '0'
    } else if d == 1 {
        '1'
    } else if d == 2 {
        '2'
    } else if d == 3 {
        '3'
    } else if d == 4 {
        '4'
    } else if d == 5 {
        '5'
    } else if d == 6 {
        '6'
    } else if d == 7 {
        '7'
    } else if d == 8 {
        '8'
    } else {
        '9'
    }
}

/// A number in decimal, without leading zeros.
pub open spec fn decimal(n: nat) -> Seq<char>
    decreases n,
{
    if n < 10 {
        seq![digit_char(n as int)]
    } else {
        decimal(n / 10).push(digit_char((n % 10) as int))
    }
}

fn digit_of(d: u64) -> (r: char)
    requires
        d < 10,
    ensures
        r == digit_char(d as int),
{
    match d {
        0 => '0',
        1 => '1',
        2 => '2',
        3 => '3',
        4 => '4',
        5 => '5',
        6 => '6',
        7 => '7',
        8 => '8',
        _ => '9',
    }
}

pub(crate) fn decimal_chars(n: u64) -> (r: Vec<char>)
    ensures
        r@ == decimal(n as nat),
    decreases n,
{
    if n < 10 {
        let mut out: Vec<char> = Vec::new();
        out.push(digit_of(n));
        assert(out@ =~= seq![digit_char(n as int)]);
        out
    } else {
        let mut out = decimal_chars(n / 10);
        out.push(digit_of(n % 10));
        out
    }
}

/// One text after another.
pub(crate) fn cat(a: &str, b: &str) -> (r: String)
    ensures
        r@ == a@ + b@,
{
    let mut out = chars_of(a);
    append_chars(&mut out, &chars_of(b));
    string_of(&out)
}

/// Three texts, one after another.
pub(crate) fn cat3(a: &str, b: &str, c: &str) -> (r: String)
    ensures
        r@ == a@ + b@ + c@,
{
    let mut out = chars_of(a);
    append_chars(&mut out, &chars_of(b));
    append_chars(&mut out, &chars_of(c));
    string_of(&out)
}

/// Copies of the strings.
pub(crate) fn copy_strings(v: &Vec<String>) -> (r: Vec<String>)
    ensures
        texts(r@) == texts(v@),
{
    let mut out: Vec<String> = Vec::new();
    let mut i: usize = 0;
    while i < v.len()
        invariant
            i <= v@.len(),
            out@.len() == i,
            forall|j: int| 0 <= j < i ==> (#[trigger] out@[j])@ == v@[j]@,
        decreases v@.len() - i,
    {
        out.push(v[i].clone());
        i += 1;
    }
    assert(texts(out@) =~= texts(v@));
    out
}

/// The strings, with a character between them.
pub(crate) fn join_with(v: &Vec<String>, c: char) -> (r: String)
    ensures
        r@ == join(texts(v@), one(c)),
{
    let mut parts: Vec<Vec<char>> = Vec::new();
    let mut i: usize = 0;
    while i < v.len()
        invariant
            i <= v@.len(),
            parts@.len() == i,
            forall|j: int| 0 <= j < i ==> (#[trigger] parts@[j])@ == v@[j]@,
        decreases v@.len() - i,
    {
        parts.push(chars_of(v[i].as_str()));
        i += 1;
    }
    assert(views(parts@) =~= texts(v@));
    string_of(&join_chars(&parts, c))
}

/// The strings as lines.
pub(crate) fn join_lines(v: &Vec<String>) -> (r: String)
    ensures
        r@ == join(texts(v@), one('\n')),
{
    join_with(v, '\n')
}

/// An ASCII capital as a small letter, anything else as it is.
pub open spec fn small(c: char) -> char {
    if 'A' <= c <= 'Z' {
        ((c as int) + 32) as char
    } else {
        c
    }
}

pub open spec fn lowercased(s: Seq<char>) -> Seq<char> {
    s.map_values(|c: char| small(c))
}

fn small_of(c: char) -> (r: char)
    ensures
        r == small(c),
{
    if 'A' <= c && c <= 'Z' {
        let n: u8 = c as u8;
        (n + 32) as char
    } else {
        c
    }
}

pub(crate) fn to_lowercase(s: &str) -> (r: String)
    ensures
        r@ == lowercased(s@),
{
    let v = chars_of(s);
    let mut out: Vec<char> = Vec::new();
    let mut i: usize = 0;
    while i < v.len()
        invariant
            i <= v@.len(),
            out@.len() == i,
            forall|j: int| 0 <= j < i ==> #[trigger] out@[j] == small(v@[j]),
        decreases v@.len() - i,
    {
        out.push(small_of(v[i]));
        i += 1;
    }
    assert(out@ =~= lowercased(s@));
    string_of(&out)
}

/// The order of texts is total.
pub proof fn lemma_text_total(a: Seq<char>, b: Seq<char>)
    ensures
        text_less(a, b) || text_less(b, a) || a == b,
        !(text_less(a, b) && text_less(b, a)),
        a == b ==> !text_less(a, b),
    decreases a.len(),
{
    if a.len() > 0 && b.len() > 0 && a[0] == b[0] {
        lemma_text_total(a.skip(1), b.skip(1));
        if a.skip(1) == b.skip(1) {
            assert forall|i: int| 0 <= i < a.len() implies i < b.len() && a[i] == b[i] by {
                if i > 0 {
                    assert(a.skip(1)[i - 1] == a[i]);
                    assert(b.skip(1)[i - 1] == b[i]);
                }
            }
            assert(a =~= b);
        }
    } else if a.len() == 0 && b.len() == 0 {
        assert(a =~= b);
    }
}

/// The order of texts is transitive.
pub proof fn lemma_text_trans(a: Seq<char>, b: Seq<char>, c: Seq<char>)
    ensures
        text_less(a, b) && text_less(b, c) ==> text_less(a, c),
    decreases a.len(),
{
    if a.len() > 0 && b.len() > 0 && c.len() > 0 && a[0] == b[0] && b[0] == c[0] {
        lemma_text_trans(a.skip(1), b.skip(1), c.skip(1));
    }
}

pub open spec fn is_digit(c: char) -> bool {
    '0' <= c <= '9'
}

/// The number that decimal digits write.
pub open spec fn digits_value(s: Seq<char>) -> nat
    decreases s.len(),
{
    if s.len() == 0 {
        0
    } else {
        digits_value(s.drop_last()) * 10 + ((s.last() as int - '0' as int) as nat)
    }
}

pub open spec fn all_digits(s: Seq<char>) -> bool {
    forall|i: int| 0 <= i < s.len() ==> is_digit(#[trigger] s[i])
}

/// The number at most `max` that a text writes: digits, which a plus sign may precede.
pub open spec fn number_in(s: Seq<char>, max: nat) -> Option<nat> {
    let body = if s.len() > 0 && s[0] == '+' {
        s.skip(1)
    } else {
        s
    };
    if body.len() > 0 && all_digits(body) && digits_value(body) <= max {
        Some(digits_value(body))
    } else {
        None
    }
}

proof fn lemma_digits_grow(s: Seq<char>, n: int)
    requires
        0 <= n <= s.len(),
        all_digits(s),
    ensures
        digits_value(s.take(n)) <= digits_value(s),
    decreases s.len(),
{
    if n < s.len() {
        let front = s.drop_last();
        assert(all_digits(front)) by {
            assert forall|i: int| 0 <= i < front.len() implies is_digit(#[trigger] front[i]) by {
                assert(is_digit(s[i]));
            }
        }
        assert(is_digit(s[s.len() - 1]));
        lemma_digits_grow(front, n);
        assert(front.take(n) =~= s.take(n));
    } else {
        assert(s.take(n) =~= s);
    }
}

/// Reads a number at most `max`.
pub(crate) fn parse_number(v: &Vec<char>, max: u64) -> (r: Option<u64>)
    ensures
        match r {
            Some(n) => number_in(v@, max as nat) == Some(n as nat),
            None => number_in(v@, max as nat) is None,
        },
{
    let start: usize = if v.len() > 0 && v[0] == '+' {
        1
    } else {
        0
    };
    let ghost body = v@.skip(start as int);
    assert(start == 0 ==> body =~= v@);
    if start == v.len() {
        return None;
    }
    let mut i: usize = start;
    let mut n: u64 = 0;
    assert(body.take(0) =~= Seq::empty());
    while i < v.len()
        invariant
            start <= i <= v@.len(),
            body == v@.skip(start as int),
            number_in(v@, max as nat) == if body.len() > 0 && all_digits(body) && digits_value(
                body,
            ) <= max {
                Some(digits_value(body))
            } else {
                None
            },
            forall|j: int| 0 <= j < i - start ==> is_digit(#[trigger] body[j]),
            n == digits_value(body.take(i - start)),
            n <= max,
        decreases v@.len() - i,
    {
        let c = v[i];
        assert(body[i - start] == c);
        if !('0' <= c && c <= '9') {
            assert(!is_digit(body[i - start]));
            return None;
        }
        let d: u64 = c as u64 - '0' as u64;
        let ghost next = body.take(i - start + 1);
        proof {
            assert(next.drop_last() =~= body.take(i - start));
            assert(digits_value(next) == n * 10 + d);
            if all_digits(body) {
                lemma_digits_grow(body, i - start + 1);
            }
        }
        if d > max || n > (max - d) / 10 {
            return None;
        }
        n = n * 10 + d;
        i += 1;
    }
    assert(body.take(i - start) =~= body);
    Some(n)
}

/// The lines of a text each end with a line break, but for the last, and have no other.
pub proof fn kept_lines_end_with_their_break(s: Seq<char>, i: int)
    requires
        0 <= i < split_keep(s).len(),
    ensures
        split_keep(s)[i].len() > 0,
        i + 1 < split_keep(s).len() ==> split_keep(s)[i].last() == '\n',
        !split_keep(s)[i].drop_last().contains('\n'),
        s.len() > 0 && split_keep(s).last().last() == s.last(),
    decreases s.len(),
{
    if s.len() > 0 {
        let t = s.drop_last();
        let p = split_keep(t);
        lemma_concat_split_keep(t);
        if t.len() > 0 {
            kept_lines_end_with_their_break(t, p.len() - 1);
        }
        if s.len() == 1 || s[s.len() - 2] == '\n' {
            if i < p.len() {
                kept_lines_end_with_their_break(t, i);
                assert(t.last() == s[s.len() - 2]);
            } else {
                assert(seq![s.last()].drop_last() =~= Seq::empty());
            }
        } else {
            assert(t.last() == s[s.len() - 2]);
            if i < p.len() - 1 {
                kept_lines_end_with_their_break(t, i);
            } else {
                let last = p.last();
                assert(last.push(s.last()).drop_last() =~= last);
                assert(!last.contains('\n')) by {
                    assert forall|j: int| 0 <= j < last.len() implies last[j] != '\n' by {
                        if j < last.len() - 1 {
                            assert(last.drop_last().contains(last.drop_last()[j]));
                        }
                    }
                }
            }
        }
    }
}

} // verus!
