//! Terminal capability queries: what a terminal's replies say.

use crate::msg::{read_lossy, utf8_lossy};
use crate::text::{
    chars_of, decimal, is_text, join, lemma_split_join, number_in, one, parse_number, rest, split,
    split_chars, views,
};
use vstd::prelude::*;

verus! {

#[derive(Debug, PartialEq, Eq)]
pub struct Replies {
    /// Cell size in pixels (width, height), from `CSI 16 t`.
    pub cell: Option<(u16, u16)>,
    /// DA1 lists Sixel graphics (attribute 4). Inside tmux, tmux answers for itself.
    pub sixel: bool,
    /// Whether the terminal answered at all.
    pub answered: bool,
}

impl Default for Replies {
    fn default() -> (r: Self)
        ensures
            r == no_replies(false),
    {
        Replies { cell: None, sixel: false, answered: false }
    }
}

pub open spec fn no_replies(answered: bool) -> Replies {
    Replies { cell: None, sixel: false, answered }
}

/// The first byte from `i` on that ends a CSI sequence, or the length of `buf`.
pub open spec fn final_at(buf: Seq<u8>, i: int) -> int
    decreases buf.len() - i,
{
    if i >= buf.len() || 0x40 <= buf[i] <= 0x7e {
        i
    } else {
        final_at(buf, i + 1)
    }
}

/// The parameters and the final byte of each CSI sequence that is complete, from `i` on.
pub open spec fn sequences(buf: Seq<u8>, i: int) -> Seq<(Seq<u8>, u8)>
    decreases buf.len() - i,
{
    if i < 0 || i + 1 >= buf.len() {
        Seq::empty()
    } else if buf[i] == 0x1b && buf[i + 1] == 0x5b {
        let j = final_at(buf, i + 2);
        if i + 2 <= j < buf.len() {
            seq![(buf.subrange(i + 2, j), buf[j])] + sequences(buf, j + 1)
        } else {
            Seq::empty()
        }
    } else {
        sequences(buf, i + 1)
    }
}

/// The numbers among the parameters.
pub open spec fn numbers(parts: Seq<Seq<char>>) -> Seq<u16>
    decreases parts.len(),
{
    if parts.len() == 0 {
        Seq::empty()
    } else {
        let front = numbers(parts.drop_last());
        match number_in(parts.last(), 65535) {
            Some(n) => front.push(n as u16),
            None => front,
        }
    }
}

/// Whether a sequence is a DA1 reply.
pub open spec fn is_da1(params: Seq<char>, end: u8) -> bool {
    end == 0x63 && params.len() > 0 && params[0] == '?'
}

/// What one more sequence adds to the replies.
pub open spec fn replied(r: Replies, params: Seq<char>, end: u8) -> Replies {
    if end == 0x74 {
        let p = numbers(split(params, ';'));
        if p.len() == 3 && p[0] == 6 && p[2] > 0 && p[1] > 0 {
            Replies { cell: Some((p[2], p[1])), ..r }
        } else {
            r
        }
    } else if is_da1(params, end) {
        Replies { sixel: split(params.skip(1), ';').contains("4"@), ..r }
    } else {
        r
    }
}

/// What sequences say, in order.
pub open spec fn replies_of(s: Seq<(Seq<u8>, u8)>, answered: bool) -> Replies
    decreases s.len(),
{
    if s.len() == 0 {
        no_replies(answered)
    } else {
        replied(replies_of(s.drop_last(), answered), utf8_lossy(s.last().0), s.last().1)
    }
}

pub open spec fn raw_view(v: Seq<(Vec<u8>, u8)>) -> Seq<(Seq<u8>, u8)> {
    Seq::new(v.len(), |i: int| (v[i].0@, v[i].1))
}

fn subrange(buf: &[u8], a: usize, b: usize) -> (r: Vec<u8>)
    requires
        a <= b <= buf@.len(),
    ensures
        r@ == buf@.subrange(a as int, b as int),
{
    let mut out: Vec<u8> = Vec::new();
    let mut i: usize = a;
    while i < b
        invariant
            a <= i <= b <= buf@.len(),
            out@ == buf@.subrange(a as int, i as int),
        decreases b - i,
    {
        out.push(buf[i]);
        assert(out@ =~= buf@.subrange(a as int, i + 1));
        i += 1;
    }
    out
}

/// The parameters and the final byte of each CSI sequence.
fn csi_sequences(buf: &[u8]) -> (r: Vec<(Vec<u8>, u8)>)
    ensures
        raw_view(r@) == sequences(buf@, 0),
{
    let mut out: Vec<(Vec<u8>, u8)> = Vec::new();
    let mut i: usize = 0;
    assert(raw_view(out@) + sequences(buf@, 0) =~= sequences(buf@, 0));
    while buf.len() >= 2 && i < buf.len() - 1
        invariant
            i <= buf@.len(),
            raw_view(out@) + sequences(buf@, i as int) == sequences(buf@, 0),
        decreases buf@.len() - i,
    {
        if buf[i] == 0x1b && buf[i + 1] == 0x5b {
            let start = i + 2;
            let mut j: usize = start;
            while j < buf.len() && !(0x40 <= buf[j] && buf[j] <= 0x7e)
                invariant
                    start <= j <= buf@.len(),
                    final_at(buf@, start as int) == final_at(buf@, j as int),
                decreases buf@.len() - j,
            {
                j += 1;
            }
            if j >= buf.len() {
                assert(sequences(buf@, i as int) =~= Seq::empty());
                assert(raw_view(out@) =~= sequences(buf@, 0));
                return out;
            }
            let ghost before = raw_view(out@);
            let params = subrange(buf, start, j);
            let ghost pv = params@;
            out.push((params, buf[j]));
            assert(raw_view(out@) =~= before.push((pv, buf@[j as int])));
            assert(raw_view(out@) + sequences(buf@, j + 1) =~= before + sequences(
                buf@,
                i as int,
            ));
            i = j + 1;
        } else {
            i += 1;
        }
    }
    assert(sequences(buf@, i as int) =~= Seq::empty());
    assert(raw_view(out@) =~= sequences(buf@, 0));
    out
}

/// Whether any sequence is a DA1 reply.
pub open spec fn any_da1(s: Seq<(Seq<u8>, u8)>) -> bool {
    exists|i: int| 0 <= i < s.len() && is_da1(utf8_lossy(#[trigger] s[i].0), s[i].1)
}

/// Whether the DA1 reply has come. Terminals answer in order, so it is the last to wait for.
pub fn has_da1(buf: &[u8]) -> (r: bool)
    ensures
        r == any_da1(sequences(buf@, 0)),
{
    let all = csi_sequences(buf);
    let ghost s = sequences(buf@, 0);
    let mut i: usize = 0;
    while i < all.len()
        invariant
            i <= all@.len(),
            s == raw_view(all@),
            s == sequences(buf@, 0),
            forall|j: int| 0 <= j < i ==> !is_da1(utf8_lossy(#[trigger] s[j].0), s[j].1),
        decreases all@.len() - i,
    {
        assert(s[i as int] == (all@[i as int].0@, all@[i as int].1));
        let text = read_lossy(all[i].0.as_slice());
        let params = chars_of(text.as_str());
        if all[i].1 == 0x63 && params.len() > 0 && params[0] == '?' {
            assert(is_da1(utf8_lossy(s[i as int].0), s[i as int].1));
            return true;
        }
        i += 1;
    }
    false
}

fn size_params(params: &Vec<char>) -> (r: Vec<u16>)
    ensures
        r@ == numbers(split(params@, ';')),
{
    let parts = split_chars(params, ';');
    let ghost all = split(params@, ';');
    let mut out: Vec<u16> = Vec::new();
    let mut i: usize = 0;
    assert(numbers(all.take(0)) =~= Seq::empty());
    while i < parts.len()
        invariant
            i <= parts@.len(),
            all == views(parts@),
            out@ == numbers(all.take(i as int)),
        decreases parts@.len() - i,
    {
        assert(all.take(i + 1).drop_last() =~= all.take(i as int));
        assert(all.take(i + 1).last() == parts@[i as int]@);
        if let Some(n) = parse_number(&parts[i], 65535) {
            out.push(n as u16);
        }
        i += 1;
    }
    assert(all.take(i as int) =~= all);
    out
}

fn lists_sixel(params: &Vec<char>) -> (r: bool)
    requires
        params@.len() > 0,
    ensures
        r == split(params@.skip(1), ';').contains("4"@),
{
    let parts = split_chars(&rest(params, 1), ';');
    let ghost all = split(params@.skip(1), ';');
    let mut i: usize = 0;
    while i < parts.len()
        invariant
            i <= parts@.len(),
            all == views(parts@),
            all == split(params@.skip(1), ';'),
            forall|j: int| 0 <= j < i ==> #[trigger] all[j] != "4"@,
        decreases parts@.len() - i,
    {
        assert(all[i as int] == parts@[i as int]@);
        if is_text(&parts[i], "4") {
            return true;
        }
        i += 1;
    }
    false
}

/// What one more reply says.
pub fn reply(r: Replies, params: &str, end: u8) -> (out: Replies)
    ensures
        out == replied(r, params@, end),
{
    let p = chars_of(params);
    if end == 0x74 {
        let n = size_params(&p);
        if n.len() == 3 && n[0] == 6 && n[2] > 0 && n[1] > 0 {
            return Replies { cell: Some((n[2], n[1])), ..r };
        }
        return r;
    }
    if end == 0x63 && p.len() > 0 && p[0] == '?' {
        return Replies { sixel: lists_sixel(&p), ..r };
    }
    r
}

/// What a terminal's replies say.
pub fn parse(buf: &[u8]) -> (r: Replies)
    ensures
        r == replies_of(sequences(buf@, 0), buf@.len() > 0),
{
    let all = csi_sequences(buf);
    let ghost s = sequences(buf@, 0);
    let answered = buf.len() > 0;
    let mut r = Replies { cell: None, sixel: false, answered };
    let mut i: usize = 0;
    assert(s.take(0) =~= Seq::empty());
    while i < all.len()
        invariant
            i <= all@.len(),
            s == raw_view(all@),
            r == replies_of(s.take(i as int), answered),
        decreases all@.len() - i,
    {
        assert(s.take(i + 1).drop_last() =~= s.take(i as int));
        assert(s.take(i + 1).last() == s[i as int]);
        let text = read_lossy(all[i].0.as_slice());
        r = reply(r, text.as_str(), all[i].1);
        i += 1;
    }
    assert(s.take(i as int) =~= s);
    r
}

/// A terminal that says how large its cells are is believed: the height is said before the
/// width.
pub proof fn said_cell_size_is_taken(r: Replies, height: u16, width: u16)
    requires
        height > 0,
        width > 0,
    ensures
        ({
            let said = seq!['6', ';'] + decimal(height as nat) + seq![';'] + decimal(width as nat);
            let after = replied(r, said, 0x74);
            after.cell == Some((width, height)) && after.sixel == r.sixel && after.answered
                == r.answered
        }),
{
    let h = decimal(height as nat);
    let w = decimal(width as nat);
    let said = seq!['6', ';'] + h + seq![';'] + w;
    crate::compose::decimal_round_trip(height as nat);
    crate::compose::decimal_round_trip(width as nat);
    let six = seq!['6'];
    let parts = seq![six, h, w];
    assert forall|i: int| 0 <= i < parts.len() implies !(#[trigger] parts[i]).contains(';') by {
        assert forall|j: int| 0 <= j < parts[i].len() implies parts[i][j] != ';' by {
            if i > 0 {
                assert(crate::text::is_digit(parts[i][j]));
            }
        }
    }
    lemma_split_join(parts, ';');
    assert(parts.drop_last() =~= seq![six, h]);
    assert(seq![six, h].drop_last() =~= seq![six]);
    reveal_with_fuel(join, 4);
    assert(join(parts, one(';')) =~= said);
    assert(h[0] != '+' && w[0] != '+');
    assert(number_in(six, 65535) == Some(6nat)) by {
        assert(six.drop_last() =~= Seq::empty());
        assert(crate::text::digits_value(Seq::empty()) == 0);
        assert(crate::text::digits_value(six) == 6);
        assert(crate::text::is_digit(six[0]));
    }
    reveal_with_fuel(numbers, 4);
    assert(seq![six].drop_last() =~= Seq::empty());
    assert(numbers(seq![six]) =~= seq![6u16]);
    assert(numbers(seq![six, h]) =~= seq![6u16, height]);
    assert(numbers(parts) =~= seq![6u16, height, width]);
}

/// A terminal has Sixel graphics if it lists them among its attributes, and only then.
pub proof fn listed_sixel_is_taken(r: Replies, attributes: Seq<Seq<char>>)
    requires
        attributes.len() >= 1,
        forall|i: int| 0 <= i < attributes.len() ==> !(#[trigger] attributes[i]).contains(';'),
    ensures
        ({
            let after = replied(r, seq!['?'] + join(attributes, one(';')), 0x63);
            after.sixel == attributes.contains(seq!['4']) && after.cell == r.cell && after.answered
                == r.answered
        }),
{
    let list = join(attributes, one(';'));
    let said = seq!['?'] + list;
    assert(said.skip(1) =~= list);
    lemma_split_join(attributes, ';');
    reveal_strlit("4");
    assert("4"@ =~= seq!['4']);
}

/// A complete sequence is read whole, and then what follows it.
pub proof fn sequences_are_read_one_by_one(params: Seq<u8>, end: u8, rest: Seq<u8>)
    requires
        0x40 <= end <= 0x7e,
        forall|i: int| 0 <= i < params.len() ==> !(0x40 <= (#[trigger] params[i]) <= 0x7e),
    ensures
        sequences(seq![0x1bu8, 0x5bu8] + params + seq![end] + rest, 0) == seq![(params, end)]
            + sequences(rest, 0),
{
    let buf = seq![0x1bu8, 0x5bu8] + params + seq![end] + rest;
    let n = (2 + params.len()) as int;
    assert forall|i: int| 2 <= i < n implies !(0x40 <= (#[trigger] buf[i]) <= 0x7e) by {
        assert(buf[i] == params[i - 2]);
    }
    assert(buf[n] == end);
    lemma_final_at(buf, 2, n);
    assert(buf.subrange(2, n) =~= params);
    assert(buf.skip(n + 1) =~= rest);
    lemma_sequences_from(buf, n + 1);
}

proof fn lemma_final_at(buf: Seq<u8>, i: int, n: int)
    requires
        0 <= i <= n < buf.len(),
        forall|j: int| i <= j < n ==> !(0x40 <= (#[trigger] buf[j]) <= 0x7e),
        0x40 <= buf[n] <= 0x7e,
    ensures
        final_at(buf, i) == n,
    decreases n - i,
{
    if i < n {
        assert(!(0x40 <= buf[i] <= 0x7e));
        lemma_final_at(buf, i + 1, n);
    }
}

proof fn lemma_final_skip(buf: Seq<u8>, n: int, i: int)
    requires
        0 <= n <= buf.len(),
        0 <= i,
    ensures
        final_at(buf, n + i) == n + final_at(buf.skip(n), i),
    decreases buf.len() - n - i,
{
    if n + i < buf.len() && !(0x40 <= buf[n + i] <= 0x7e) {
        assert(buf.skip(n)[i] == buf[n + i]);
        lemma_final_skip(buf, n, i + 1);
    } else if n + i < buf.len() {
        assert(buf.skip(n)[i] == buf[n + i]);
    }
}

proof fn lemma_final_range(buf: Seq<u8>, i: int)
    requires
        0 <= i <= buf.len(),
    ensures
        i <= final_at(buf, i) <= buf.len(),
    decreases buf.len() - i,
{
    if i < buf.len() && !(0x40 <= buf[i] <= 0x7e) {
        lemma_final_range(buf, i + 1);
    }
}

proof fn lemma_sequences_skip(buf: Seq<u8>, n: int, i: int)
    requires
        0 <= n <= buf.len(),
        0 <= i,
    ensures
        sequences(buf, n + i) == sequences(buf.skip(n), i),
    decreases buf.len() - n - i,
{
    let t = buf.skip(n);
    if n + i + 1 < buf.len() {
        assert(t[i] == buf[n + i] && t[i + 1] == buf[n + i + 1]);
        if buf[n + i] == 0x1b && buf[n + i + 1] == 0x5b {
            lemma_final_skip(buf, n, i + 2);
            lemma_final_range(t, i + 2);
            let j = final_at(t, i + 2);
            if j < t.len() {
                assert(t[j] == buf[n + j]);
                assert(t.subrange(i + 2, j) =~= buf.subrange(n + i + 2, n + j));
                lemma_sequences_skip(buf, n, j + 1);
            }
        } else {
            lemma_sequences_skip(buf, n, i + 1);
        }
    }
}

proof fn lemma_sequences_from(buf: Seq<u8>, n: int)
    requires
        0 <= n <= buf.len(),
    ensures
        sequences(buf, n) == sequences(buf.skip(n), 0),
{
    lemma_sequences_skip(buf, n, 0);
}

/// What a terminal says is taken in the order in which it says it: nothing said leaves nothing
/// known, and what was said last of a thing counts.
pub proof fn replies_are_taken_in_order(s: Seq<(Seq<u8>, u8)>, last: (Seq<u8>, u8), answered: bool)
    ensures
        replies_of(Seq::empty(), answered).cell is None,
        !replies_of(Seq::empty(), answered).sixel,
        replies_of(s.push(last), answered) == replied(
            replies_of(s, answered),
            utf8_lossy(last.0),
            last.1,
        ),
        is_da1(utf8_lossy(last.0), last.1) ==> any_da1(s.push(last)),
        any_da1(s) ==> any_da1(s.push(last)),
        !any_da1(Seq::empty()),
{
    let t = s.push(last);
    assert(t.drop_last() =~= s);
    if is_da1(utf8_lossy(last.0), last.1) {
        assert(t[t.len() - 1] == last);
    }
    if any_da1(s) {
        let i = choose|i: int| 0 <= i < s.len() && is_da1(utf8_lossy(#[trigger] s[i].0), s[i].1);
        assert(t[i] == s[i]);
    }
}

/// Any other sequence says nothing of the cell's size or of Sixel.
pub proof fn other_sequences_say_nothing(r: Replies, params: Seq<char>, end: u8)
    requires
        end != 0x74,
        end != 0x63 || params.len() == 0 || params[0] != '?',
    ensures
        replied(r, params, end) == r,
{
}

} // verus!
