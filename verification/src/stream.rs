//! How the text of a stream builds up: carriage returns act within a line, also where the text
//! comes in pieces.

use crate::document::{lemma_list_text, multiline_list, multiline_text, raw_outputs, CellV};
use crate::executor::{
    after_cr, answered, collapsed, collapsed_line, handled, is_stream, output_handled, settled,
    stream_json, stream_name, streamed, touched, with_outputs, without_cr, ContentV, ExecV, NbV, Stdio,
};
use crate::history::{cell_at, Name};
use crate::json::{
    lemma_obj_index, lemma_obj_index_is, lemma_obj_insert, obj_get, obj_index, obj_insert, Entries,
    JsonV,
};
use crate::text::{concat, split_keep};
use vstd::prelude::*;

verus! {

/// The text up to its last line break.
pub open spec fn whole_lines(s: Seq<char>) -> Seq<char>
    decreases s.len(),
{
    if s.len() == 0 || s.last() == '\n' {
        s
    } else {
        whole_lines(s.drop_last())
    }
}

/// One more character of a stream. What follows a carriage return writes over its line.
pub open spec fn typed(s: Seq<char>, c: char) -> Seq<char> {
    if c != '\n' && c != '\r' && s.len() > 0 && s.last() == '\r' {
        whole_lines(s).push(c)
    } else {
        s.push(c)
    }
}

/// How many line breaks a text has.
pub open spec fn line_breaks(s: Seq<char>) -> nat
    decreases s.len(),
{
    if s.len() == 0 {
        0
    } else {
        line_breaks(s.drop_last()) + if s.last() == '\n' {
            1nat
        } else {
            0
        }
    }
}

/// Whether carriage returns stand at the ends of lines only.
pub open spec fn returns_end_lines(s: Seq<char>) -> bool {
    forall|i: int|
        0 <= i < s.len() - 1 && #[trigger] s[i] == '\r' ==> s[i + 1] == '\r' || s[i + 1] == '\n'
}

proof fn lemma_without_cr(s: Seq<char>)
    ensures
        without_cr(s).len() <= s.len(),
        s.len() > 0 && s.last() == '\r' ==> without_cr(s).len() < s.len(),
    decreases s.len(),
{
    if s.len() > 0 && s.last() == '\r' {
        lemma_without_cr(s.drop_last());
    }
}

proof fn lemma_after_cr(s: Seq<char>)
    requires
        !s.contains('\n'),
    ensures
        !after_cr(s).contains('\n'),
        s.len() > 0 && s.last() != '\r' ==> after_cr(s).len() > 0 && after_cr(s).last() == s.last(),
    decreases s.len(),
{
    if s.len() > 0 && s.last() != '\r' {
        assert(s.contains(s[s.len() - 1]));
        assert forall|i: int| 0 <= i < s.drop_last().len() implies s.drop_last()[i] != '\n' by {
            assert(s.contains(s[i]));
        }
        lemma_after_cr(s.drop_last());
        let a = after_cr(s.drop_last());
        assert forall|i: int| 0 <= i < after_cr(s).len() implies after_cr(s)[i] != '\n' by {
            if i < a.len() {
                assert(a.contains(a[i]));
            }
        }
    }
}

/// An unfinished line that was shown has no line break, and ends with a carriage return where
/// the line does.
proof fn lemma_shown_line(l: Seq<char>)
    requires
        l.len() > 0,
        !l.contains('\n'),
    ensures
        collapsed_line(l).len() > 0,
        !collapsed_line(l).contains('\n'),
        collapsed_line(l).last() == '\r' <==> l.last() == '\r',
{
    assert(l.contains(l[l.len() - 1]));
    let kept = without_cr(l);
    lemma_without_cr(l);
    lemma_kept_is_front(l);
    assert forall|i: int| 0 <= i < kept.len() implies kept[i] != '\n' by {
        assert(l.contains(l[i]));
    }
    lemma_after_cr(kept);
    let a = after_cr(kept);
    let r = l.skip(kept.len() as int);
    let shown = a + r;
    assert forall|i: int| 0 <= i < shown.len() implies shown[i] != '\n' by {
        if i < a.len() {
            assert(a.contains(a[i]));
        } else {
            assert(l.contains(l[i - a.len() + kept.len()]));
        }
    }
    if l.last() == '\r' {
        assert(shown.last() == r.last());
    } else {
        assert(kept == l);
        assert(r =~= Seq::empty());
        assert(shown =~= a);
    }
}

proof fn lemma_kept_is_front(l: Seq<char>)
    ensures
        without_cr(l) == l.take(without_cr(l).len() as int),
        without_cr(l).len() <= l.len(),
    decreases l.len(),
{
    if l.len() > 0 && l.last() == '\r' {
        lemma_kept_is_front(l.drop_last());
        let n = without_cr(l).len() as int;
        assert(l.drop_last().take(n) =~= l.take(n));
    } else {
        assert(l =~= l.take(l.len() as int));
    }
}

/// One more character of an unfinished line.
proof fn lemma_typed_line(l: Seq<char>, c: char)
    requires
        l.len() > 0,
        !l.contains('\n'),
    ensures
        collapsed_line(l.push(c)) == if c != '\n' && c != '\r' && l.last() == '\r' {
            seq![c]
        } else {
            collapsed_line(l).push(c)
        },
{
    assert(l.contains(l[l.len() - 1]));
    let m = l.push(c);
    let kept = without_cr(l);
    lemma_without_cr(l);
    assert(m.drop_last() =~= l);
    if c == '\n' {
    } else if c == '\r' {
        assert(without_cr(m) == kept);
        assert(after_cr(kept) + m.skip(kept.len() as int) =~= (after_cr(kept) + l.skip(
            kept.len() as int,
        )).push(c));
    } else {
        assert(without_cr(m) == m);
        assert(after_cr(m) == after_cr(l).push(c));
        assert(after_cr(m) + m.skip(m.len() as int) =~= after_cr(m));
        if l.last() == '\r' {
            assert(after_cr(m) =~= seq![c]);
        } else {
            assert(after_cr(l) + l.skip(l.len() as int) =~= after_cr(l));
        }
    }
}

/// The lines as they are shown.
spec fn shown(s: Seq<Seq<char>>) -> Seq<Seq<char>> {
    s.map_values(|l: Seq<char>| collapsed_line(l))
}

proof fn lemma_shown_push(s: Seq<Seq<char>>, l: Seq<char>)
    ensures
        concat(shown(s.push(l))) == concat(shown(s)) + collapsed_line(l),
{
    assert(shown(s.push(l)) =~= shown(s).push(collapsed_line(l)));
    assert(shown(s.push(l)).drop_last() =~= shown(s));
}

/// The lines of a text: the last is not empty and ends as the text does; an unfinished one has
/// no line break, and what is shown above it ends with one.
proof fn lemma_last_line(s: Seq<char>)
    requires
        s.len() > 0,
    ensures
        split_keep(s).len() > 0,
        split_keep(s).last().len() > 0,
        split_keep(s).last().last() == s.last(),
        s.last() == '\n' ==> collapsed(s).len() > 0 && collapsed(s).last() == '\n',
        s.last() != '\n' ==> !split_keep(s).last().contains('\n'),
        s.last() != '\n' ==> ({
            let above = concat(shown(split_keep(s).drop_last()));
            above.len() == 0 || above.last() == '\n'
        }),
    decreases s.len(),
{
    let t = s.drop_last();
    let p = split_keep(t);
    let q = split_keep(s);
    if t.len() > 0 {
        lemma_last_line(t);
        assert(t.last() == s[s.len() - 2]);
    }
    if s.len() == 1 || s[s.len() - 2] == '\n' {
        assert(q.drop_last() =~= p);
        if t.len() > 0 {
            assert(concat(shown(p)) == collapsed(t));
        } else {
            assert(shown(p) =~= Seq::empty());
        }
    } else {
        assert(q.drop_last() =~= p.drop_last());
        let l = q.last();
        if s.last() != '\n' {
            assert forall|i: int| 0 <= i < l.len() implies l[i] != '\n' by {
                if i < p.last().len() {
                    assert(p.last().contains(p.last()[i]));
                }
            }
        }
    }
    if s.last() == '\n' {
        assert(q =~= q.drop_last().push(q.last()));
        lemma_shown_push(q.drop_last(), q.last());
        assert(collapsed(s) == concat(shown(q)));
        let line = collapsed_line(q.last());
        assert(line.last() == '\n');
        assert(collapsed(s).last() == line.last());
    }
}

proof fn lemma_whole_lines(h: Seq<char>, l: Seq<char>)
    requires
        h.len() == 0 || h.last() == '\n',
        !l.contains('\n'),
    ensures
        whole_lines(h + l) == h,
    decreases l.len(),
{
    if l.len() > 0 {
        assert(l.contains(l[l.len() - 1]));
        assert((h + l).last() == l.last());
        assert((h + l).drop_last() =~= h + l.drop_last());
        assert forall|i: int| 0 <= i < l.drop_last().len() implies l.drop_last()[i] != '\n' by {
            assert(l.contains(l[i]));
        }
        lemma_whole_lines(h, l.drop_last());
    } else {
        assert(h + l =~= h);
    }
}

/// One more character is shown after what is shown already.
proof fn lemma_typed(s: Seq<char>, c: char)
    ensures
        collapsed(s.push(c)) == typed(collapsed(s), c),
{
    let t = s.push(c);
    let p = split_keep(s);
    assert(t.drop_last() =~= s);
    assert(collapsed(s) == concat(shown(p)));
    if s.len() == 0 || s.last() == '\n' {
        assert(split_keep(t) == p.push(seq![c]));
        lemma_shown_push(p, seq![c]);
        assert(collapsed(t) == concat(shown(split_keep(t))));
        let one = seq![c];
        assert(one.drop_last() =~= Seq::empty());
        assert(collapsed_line(one) =~= one) by {
            reveal_with_fuel(without_cr, 3);
            reveal_with_fuel(after_cr, 3);
            if c == '\n' {
                assert(Seq::<char>::empty().skip(0) =~= Seq::empty());
                assert(Seq::<char>::empty() + Seq::<char>::empty() =~= Seq::empty());
            } else if c == '\r' {
                assert(one.skip(0) =~= one);
            } else {
                assert(one.skip(1) =~= Seq::empty());
                assert(after_cr(one) =~= one);
            }
        }
        if s.len() > 0 {
            lemma_last_line(s);
        } else {
            assert(shown(p) =~= Seq::empty());
        }
        assert(collapsed(s) + one =~= collapsed(s).push(c));
    } else {
        lemma_last_line(s);
        let l = p.last();
        assert(p =~= p.drop_last().push(l));
        let h = concat(shown(p.drop_last()));
        lemma_shown_push(p.drop_last(), l);
        assert(split_keep(t) == p.drop_last().push(l.push(c)));
        lemma_shown_push(p.drop_last(), l.push(c));
        assert(collapsed(t) == concat(shown(split_keep(t))));
        lemma_typed_line(l, c);
        lemma_shown_line(l);
        lemma_whole_lines(h, collapsed_line(l));
        let now = h + collapsed_line(l);
        assert(now.last() == collapsed_line(l).last());
        assert(h + seq![c] =~= h.push(c));
        assert(h + collapsed_line(l).push(c) =~= now.push(c));
    }
}

proof fn lemma_whole_lines_tidy(s: Seq<char>)
    ensures
        whole_lines(s).len() <= s.len(),
        whole_lines(s) == s.take(whole_lines(s).len() as int),
        whole_lines(s).len() == 0 || whole_lines(s).last() == '\n',
        line_breaks(whole_lines(s)) == line_breaks(s),
    decreases s.len(),
{
    if s.len() == 0 || s.last() == '\n' {
        assert(s =~= s.take(s.len() as int));
    } else {
        lemma_whole_lines_tidy(s.drop_last());
        let n = whole_lines(s).len() as int;
        assert(s.drop_last().take(n) =~= s.take(n));
    }
}

/// Applying carriage returns leaves each one at the end of its line.
pub proof fn collapsing_leaves_returns_at_ends(s: Seq<char>)
    ensures
        returns_end_lines(collapsed(s)),
    decreases s.len(),
{
    if s.len() > 0 {
        let t = s.drop_last();
        let c = s.last();
        collapsing_leaves_returns_at_ends(t);
        assert(t.push(c) =~= s);
        lemma_typed(t, c);
        let o = collapsed(t);
        lemma_whole_lines_tidy(o);
        let w = whole_lines(o);
        let r = typed(o, c);
        assert forall|i: int| 0 <= i < r.len() - 1 && #[trigger] r[i] == '\r' implies r[i + 1] == '\r'
            || r[i + 1] == '\n' by {
            assert(r[i] == o[i]);
            if i + 1 < r.len() - 1 {
                assert(r[i + 1] == o[i + 1]);
            }
        }
    } else {
        assert(split_keep(s).map_values(|l: Seq<char>| collapsed_line(l)) =~= Seq::empty());
    }
}

/// Applying carriage returns keeps the number of lines.
pub proof fn collapsing_keeps_line_breaks(s: Seq<char>)
    ensures
        line_breaks(collapsed(s)) == line_breaks(s),
    decreases s.len(),
{
    if s.len() > 0 {
        let t = s.drop_last();
        let c = s.last();
        collapsing_keeps_line_breaks(t);
        assert(t.push(c) =~= s);
        lemma_typed(t, c);
        let o = collapsed(t);
        lemma_whole_lines_tidy(o);
        assert(whole_lines(o).push(c).drop_last() =~= whole_lines(o));
        assert(o.push(c).drop_last() =~= o);
    } else {
        assert(split_keep(s).map_values(|l: Seq<char>| collapsed_line(l)) =~= Seq::empty());
    }
}

/// A text whose carriage returns stand at the ends of its lines stays as it is.
pub proof fn collapsed_text_stays(s: Seq<char>)
    requires
        returns_end_lines(s),
    ensures
        collapsed(s) == s,
    decreases s.len(),
{
    if s.len() > 0 {
        let t = s.drop_last();
        let c = s.last();
        assert forall|i: int| 0 <= i < t.len() - 1 && #[trigger] t[i] == '\r' implies t[i + 1] == '\r'
            || t[i + 1] == '\n' by {
            assert(s[i] == '\r');
            assert(s[i + 1] == t[i + 1]);
        }
        collapsed_text_stays(t);
        assert(t.push(c) =~= s);
        lemma_typed(t, c);
        if t.len() > 0 {
            assert(t.last() == s[s.len() - 2]);
            assert(s[s.len() - 2 + 1] == c);
        }
    } else {
        assert(split_keep(s).map_values(|l: Seq<char>| collapsed_line(l)) =~= Seq::empty());
        assert(collapsed(s) =~= s);
    }
}

/// Carriage returns act across the border of two pieces: what was applied to the first piece
/// alone changes nothing. So applying them twice is applying them once.
pub proof fn collapsing_in_pieces(a: Seq<char>, b: Seq<char>)
    ensures
        collapsed(collapsed(a) + b) == collapsed(a + b),
        collapsed(collapsed(a)) == collapsed(a),
    decreases b.len(),
{
    collapsing_leaves_returns_at_ends(a);
    collapsed_text_stays(collapsed(a));
    if b.len() > 0 {
        let t = b.drop_last();
        let c = b.last();
        collapsing_in_pieces(a, t);
        assert((a + t).push(c) =~= a + b);
        assert((collapsed(a) + t).push(c) =~= collapsed(a) + b);
        lemma_typed(a + t, c);
        lemma_typed(collapsed(a) + t, c);
    } else {
        assert(a + b =~= a);
        assert(collapsed(a) + b =~= collapsed(a));
    }
}

proof fn lemma_insert_twice(o: Entries, k: Seq<char>, v: JsonV, w: JsonV)
    ensures
        obj_insert(obj_insert(o, k, v), k, w) == obj_insert(o, k, w),
{
    lemma_obj_index(o, k);
    let m = obj_insert(o, k, v);
    lemma_obj_index_is(m, k, obj_index(o, k));
    assert(obj_insert(m, k, w) =~= obj_insert(o, k, w));
}

/// Two pieces of one stream give the outputs that the whole text gives.
pub proof fn stream_comes_in_pieces(outputs: Seq<JsonV>, name: Seq<char>, a: Seq<char>, b: Seq<char>)
    ensures
        streamed(streamed(outputs, name, a), name, b) == streamed(outputs, name, a + b),
{
    reveal_strlit("name");
    reveal_strlit("text");
    reveal_strlit("output_type");
    assert("name"@[0] == 'n' && "text"@[0] == 't');
    assert("name"@.len() == 4 && "text"@.len() == 4 && "output_type"@.len() == 11);
    let first = streamed(outputs, name, a);
    let all = streamed(outputs, name, a + b);
    let second = streamed(first, name, b);
    if outputs.len() > 0 && is_stream(outputs.last(), name) {
        let o = outputs.last()->Object_0;
        let had = multiline_text(obj_get(o, "text"@));
        let v = multiline_list(collapsed(had + a));
        lemma_obj_insert(o, "text"@, v, "output_type"@);
        lemma_obj_insert(o, "text"@, v, "name"@);
        assert(first.last() == JsonV::Object(obj_insert(o, "text"@, v)));
        assert(is_stream(first.last(), name));
        lemma_list_text(collapsed(had + a));
        collapsing_in_pieces(had + a, b);
        assert(had + a + b =~= had + (a + b));
        lemma_insert_twice(o, "text"@, v, multiline_list(collapsed(had + (a + b))));
        assert(first.drop_last() =~= outputs.drop_last());
        assert(second =~= all);
    } else {
        let o = stream_json(name, a)->Object_0;
        assert(first.last() == stream_json(name, a));
        lemma_obj_index_is(o, "name"@, 0);
        lemma_obj_index_is(o, "output_type"@, 1);
        lemma_obj_index_is(o, "text"@, 2);
        assert(is_stream(first.last(), name));
        lemma_list_text(collapsed(a));
        collapsing_in_pieces(a, b);
        assert(first.drop_last() =~= outputs);
        assert(obj_insert(o, "text"@, multiline_list(collapsed(a + b)))
            =~= stream_json(name, a + b)->Object_0);
        assert(second =~= all);
    }
}

/// Two messages with pieces of one stream leave a session and a notebook, and tell the
/// frontend last, what one message with the whole text does. They may answer any request, or
/// none, and come at any times.
pub proof fn stream_messages_join(
    x: ExecV,
    n: NbV,
    parent: Option<Seq<char>>,
    name: Stdio,
    a: Seq<char>,
    b: Seq<char>,
    now: u64,
    later: u64,
)
    ensures
        ({
            let first = handled(x, n, parent, ContentV::Stream { name, text: a }, now);
            let second = handled(
                first.0,
                first.1,
                parent,
                ContentV::Stream { name, text: b },
                later,
            );
            second == handled(x, n, parent, ContentV::Stream { name, text: a + b }, now)
        }),
{
    if let Some(k) = answered(x, parent) {
        lemma_pieces_join(x, n, k, name, a, b);
    }
}

proof fn lemma_pieces_join(x: ExecV, n: NbV, k: Name, name: Stdio, a: Seq<char>, b: Seq<char>)
    ensures
        ({
            let first = output_handled(x, n, k, ContentV::Stream { name, text: a });
            let second = output_handled(first.0, first.1, k, ContentV::Stream { name, text: b });
            second == output_handled(x, n, k, ContentV::Stream { name, text: a + b })
        }),
{
    let s = stream_name(name);
    let (y, m) = settled(x, n, k);
    assert(!y.clear_pending.contains(k));
    let f = |c: CellV| with_outputs(c, streamed(raw_outputs(c.raw), s, a));
    let g = |c: CellV| with_outputs(c, streamed(raw_outputs(c.raw), s, b));
    let h = |c: CellV| with_outputs(c, streamed(raw_outputs(c.raw), s, a + b));
    let one = touched(m, k, f);
    let two = touched(one, k, g);
    let whole = touched(m, k, h);
    if cell_at(m.doc, k) is Some {
        let c = cell_at(m.doc, k)->0;
        let had = raw_outputs(c.raw);
        let v = JsonV::Array(streamed(had, s, a));
        lemma_obj_insert(c.raw, "outputs"@, v, "outputs"@);
        assert(cell_at(one.doc, k) == Some(f(c)));
        assert(raw_outputs(f(c).raw) == streamed(had, s, a));
        stream_comes_in_pieces(had, s, a, b);
        lemma_insert_twice(
            c.raw,
            "outputs"@,
            v,
            JsonV::Array(streamed(had, s, a + b)),
        );
        assert(g(f(c)) == h(c));
        assert(two.doc.live =~= whole.doc.live);
        assert(two.doc.tombs =~= whole.doc.tombs);
    }
}

proof fn lemma_whole_lines_none(h: Seq<char>, b: Seq<char>)
    requires
        h.len() == 0 || h.last() == '\n',
        !b.contains('\n'),
    ensures
        whole_lines(h + b) == h,
    decreases b.len(),
{
    if b.len() == 0 {
        assert(h + b =~= h);
    } else {
        assert((h + b).drop_last() =~= h + b.drop_last());
        assert(b.contains(b.last())) by {
            assert(b[b.len() - 1] == b.last());
        }
        assert forall|i: int| 0 <= i < b.drop_last().len() implies b.drop_last()[i] != '\n' by {
            assert(b.contains(b[i]));
        }
        lemma_whole_lines_none(h, b.drop_last());
    }
}

/// What is printed after a carriage return takes the place of what stood on its line; the lines
/// before it stay.
pub proof fn return_overwrites_its_line(h: Seq<char>, a: Seq<char>, b: Seq<char>)
    requires
        h.len() == 0 || h.last() == '\n',
        returns_end_lines(h),
        !a.contains('\n') && !a.contains('\r'),
        !b.contains('\n') && !b.contains('\r'),
        b.len() > 0,
    ensures
        collapsed(h + a + seq!['\r'] + b) == h + b,
        collapsed(h + a) == h + a,
    decreases b.len(),
{
    let kept = h + a;
    let start = kept + seq!['\r'];
    assert(returns_end_lines(kept)) by {
        assert forall|i: int| 0 <= i < kept.len() - 1 && #[trigger] kept[i] == '\r' implies kept[i + 1]
            == '\r' || kept[i + 1] == '\n' by {
            if i < h.len() {
                assert(h[i] == '\r');
                assert(i < h.len() - 1);
                assert(h[i + 1] == kept[i + 1]);
            } else {
                assert(a.contains(a[i - h.len()]));
            }
        }
    }
    collapsed_text_stays(kept);
    assert(returns_end_lines(start)) by {
        assert forall|i: int| 0 <= i < start.len() - 1 && #[trigger] start[i] == '\r' implies start[i
            + 1] == '\r' || start[i + 1] == '\n' by {
            assert(kept[i] == '\r');
            if i + 1 < kept.len() {
                assert(kept[i + 1] == start[i + 1]);
            }
        }
    }
    collapsed_text_stays(start);
    let c = b.last();
    let t = b.drop_last();
    assert(b.contains(c)) by {
        assert(b[b.len() - 1] == c);
    }
    assert((start + t).push(c) =~= start + b);
    lemma_typed(start + t, c);
    if t.len() == 0 {
        assert(start + t =~= start);
        let line = a + seq!['\r'];
        assert(start =~= h + line);
        assert(!line.contains('\n')) by {
            assert forall|i: int| 0 <= i < line.len() implies line[i] != '\n' by {
                if i < a.len() {
                    assert(a.contains(a[i]));
                }
            }
        }
        lemma_whole_lines_none(h, line);
        assert(h.push(c) =~= h + b);
    } else {
        assert forall|i: int| 0 <= i < t.len() implies t[i] != '\n' && t[i] != '\r' by {
            assert(b.contains(b[i]));
        }
        return_overwrites_its_line(h, a, t);
        assert((h + t).push(c) =~= h + b);
        assert((h + t).last() == t[t.len() - 1]);
    }
}

} // verus!
