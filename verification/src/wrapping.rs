//! What wrapping does to a line: every character keeps its style, every row fits, and no row
//! ends before it has to.

use crate::outputs::{
    columns_of, line_columns, wrap_char, wrap_chars, wrap_span, wrap_spans, wrapped_line, WrapV,
};
use crate::style::{LineV, SpanV, Style};
use vstd::prelude::*;

verus! {

/// Characters with their styles.
pub type Ink = Seq<(char, Style)>;

pub open spec fn inked(s: Seq<char>, style: Style) -> Ink {
    Seq::new(s.len(), |i: int| (s[i], style))
}

/// The characters of spans, each in the style of its span.
pub open spec fn spans_ink(s: Seq<SpanV>) -> Ink
    decreases s.len(),
{
    if s.len() == 0 {
        Seq::empty()
    } else {
        spans_ink(s.drop_last()) + inked(s.last().content, s.last().style)
    }
}

/// The characters of rows, one row after another.
pub open spec fn rows_ink(rows: Seq<LineV>) -> Ink
    decreases rows.len(),
{
    if rows.len() == 0 {
        Seq::empty()
    } else {
        rows_ink(rows.drop_last()) + spans_ink(rows.last().spans)
    }
}

/// The columns that characters take.
pub open spec fn ink_columns(s: Ink) -> int
    decreases s.len(),
{
    if s.len() == 0 {
        0
    } else {
        ink_columns(s.drop_last()) + columns_of(s.last().0)
    }
}

/// The characters of the row being filled.
spec fn open_row(st: WrapV, style: Style) -> Ink {
    spans_ink(st.row) + inked(st.run, style)
}

proof fn lemma_columns_push(s: Ink, x: (char, Style))
    ensures
        ink_columns(s.push(x)) == ink_columns(s) + columns_of(x.0),
{
    assert(s.push(x).drop_last() =~= s);
}

proof fn lemma_spans_push(s: Seq<SpanV>, x: SpanV)
    ensures
        spans_ink(s.push(x)) == spans_ink(s) + inked(x.content, x.style),
{
    assert(s.push(x).drop_last() =~= s);
}

proof fn lemma_rows_push(s: Seq<LineV>, x: LineV)
    ensures
        rows_ink(s.push(x)) == rows_ink(s) + spans_ink(x.spans),
{
    assert(s.push(x).drop_last() =~= s);
}

/// Whether rows fit, each ends where the next character would not fit, and all have the line's
/// style.
spec fn rows_done(rows: Seq<LineV>, next: Ink, width: int, line: Style) -> bool {
    &&& forall|i: int| 0 <= i < rows.len() ==> ink_columns(spans_ink((#[trigger] rows[i]).spans)) <= width
    &&& forall|i: int| 0 <= i < rows.len() ==> (#[trigger] rows[i]).style == line
    &&& forall|i: int|
        0 <= i < rows.len() - 1 ==> breaks_late((#[trigger] rows[i]), spans_ink(rows[i + 1].spans), width)
    &&& rows.len() > 0 ==> breaks_late(rows.last(), next, width)
}

/// Whether a row has no room for the first character of the next.
pub open spec fn breaks_late(row: LineV, next: Ink, width: int) -> bool {
    next.len() > 0 && ink_columns(spans_ink(row.spans)) + columns_of(next[0].0) > width
}

proof fn lemma_char(st: WrapV, c: char, width: int, span: Style, line: Style)
    requires
        columns_of(c) <= width,
        st.col == ink_columns(open_row(st, span)),
        st.col <= width,
        rows_done(st.rows, open_row(st, span), width, line),
    ensures
        ({
            let r = wrap_char(st, c, width, span, line);
            &&& rows_ink(r.rows) + open_row(r, span) == (rows_ink(st.rows) + open_row(st, span)).push(
                (c, span),
            )
            &&& r.col == ink_columns(open_row(r, span))
            &&& r.col <= width
            &&& rows_done(r.rows, open_row(r, span), width, line)
        }),
{
    let w = columns_of(c);
    let r = wrap_char(st, c, width, span, line);
    let now = open_row(st, span);
    if st.col + w > width && st.col > 0 {
        let last = SpanV { content: st.run, style: span };
        let l = LineV { spans: st.row.push(last), style: line };
        lemma_spans_push(st.row, last);
        lemma_rows_push(st.rows, l);
        assert(spans_ink(l.spans) == now);
        assert(spans_ink(Seq::<SpanV>::empty()) =~= Seq::empty());
        let one = open_row(r, span);
        assert(one =~= seq![(c, span)]);
        lemma_columns_push(Seq::empty(), (c, span));
        assert(Seq::<(char, Style)>::empty().push((c, span)) =~= one);
        assert(rows_ink(r.rows) + one =~= (rows_ink(st.rows) + now).push((c, span)));
        assert(r.rows == st.rows.push(l));
        assert forall|i: int| 0 <= i < r.rows.len() - 1 implies breaks_late(
            (#[trigger] r.rows[i]),
            spans_ink(r.rows[i + 1].spans),
            width,
        ) by {
            if i < st.rows.len() - 1 {
                assert(st.rows[i] == r.rows[i]);
                assert(st.rows[i + 1] == r.rows[i + 1]);
                assert(breaks_late(st.rows[i], spans_ink(st.rows[i + 1].spans), width));
            } else {
                assert(r.rows[i] == st.rows.last());
            }
        }
    } else {
        assert(open_row(r, span) =~= now.push((c, span)));
        lemma_columns_push(now, (c, span));
        assert(rows_ink(r.rows) + open_row(r, span) =~= (rows_ink(st.rows) + now).push((c, span)));
        if st.rows.len() > 0 {
            assert(now.push((c, span))[0] == now[0]);
        }
    }
}

proof fn lemma_chars(st: WrapV, s: Seq<char>, width: int, span: Style, line: Style)
    requires
        forall|i: int| 0 <= i < s.len() ==> columns_of(#[trigger] s[i]) <= width,
        st.col == ink_columns(open_row(st, span)),
        st.col <= width,
        rows_done(st.rows, open_row(st, span), width, line),
    ensures
        ({
            let r = wrap_chars(st, s, width, span, line);
            &&& rows_ink(r.rows) + open_row(r, span) == rows_ink(st.rows) + open_row(st, span) + inked(
                s,
                span,
            )
            &&& r.col == ink_columns(open_row(r, span))
            &&& r.col <= width
            &&& rows_done(r.rows, open_row(r, span), width, line)
        }),
    decreases s.len(),
{
    let all = rows_ink(st.rows) + open_row(st, span);
    if s.len() == 0 {
        assert(all + inked(s, span) =~= all);
    } else {
        let front = s.drop_last();
        assert forall|i: int| 0 <= i < front.len() implies columns_of(#[trigger] front[i]) <= width by {
            assert(columns_of(s[i]) <= width);
        }
        assert(columns_of(s[s.len() - 1]) <= width);
        lemma_chars(st, front, width, span, line);
        lemma_char(wrap_chars(st, front, width, span, line), s.last(), width, span, line);
        assert((all + inked(front, span)).push((s.last(), span)) =~= all + inked(s, span));
    }
}

spec fn all_fit(spans: Seq<SpanV>, width: int) -> bool {
    forall|i: int, j: int|
        0 <= i < spans.len() && 0 <= j < spans[i].content.len() ==> columns_of(
            #[trigger] spans[i].content[j],
        ) <= width
}

proof fn lemma_wrapped(spans: Seq<SpanV>, width: int, line: Style)
    requires
        all_fit(spans, width),
        width >= 0,
    ensures
        ({
            let st = wrap_spans(spans, width, line);
            &&& st.run.len() == 0
            &&& rows_ink(st.rows) + spans_ink(st.row) == spans_ink(spans)
            &&& st.col == ink_columns(spans_ink(st.row))
            &&& st.col <= width
            &&& rows_done(st.rows, spans_ink(st.row), width, line)
        }),
    decreases spans.len(),
{
    let st = wrap_spans(spans, width, line);
    if spans.len() == 0 {
        assert(rows_ink(st.rows) + spans_ink(st.row) =~= spans_ink(spans));
    } else {
        let front = spans.drop_last();
        let x = spans.last();
        assert(all_fit(front, width)) by {
            assert forall|i: int, j: int|
                0 <= i < front.len() && 0 <= j < front[i].content.len() implies columns_of(
                #[trigger] front[i].content[j],
            ) <= width by {
                assert(spans[i].content[j] == front[i].content[j]);
            }
        }
        lemma_wrapped(front, width, line);
        let before = wrap_spans(front, width, line);
        let fresh = WrapV { run: Seq::empty(), ..before };
        assert(open_row(fresh, x.style) =~= spans_ink(before.row));
        assert forall|j: int| 0 <= j < x.content.len() implies columns_of(#[trigger] x.content[j])
            <= width by {
            assert(spans[spans.len() - 1].content[j] == x.content[j]);
        }
        lemma_chars(fresh, x.content, width, x.style, line);
        let r = wrap_chars(fresh, x.content, width, x.style, line);
        assert(st == wrap_span(before, x, width, line));
        if r.run.len() > 0 {
            lemma_spans_push(r.row, SpanV { content: r.run, style: x.style });
        } else {
            assert(open_row(r, x.style) =~= spans_ink(r.row));
        }
        assert(spans_ink(st.row) == open_row(r, x.style));
    }
}

/// Wrapping keeps every character with its style, in order, and every row has the line's own
/// style.
pub proof fn wrapping_keeps_styles(l: LineV, width: int, i: int)
    requires
        width >= 1,
        forall|i: int, j: int|
            0 <= i < l.spans.len() && 0 <= j < l.spans[i].content.len() ==> columns_of(
                #[trigger] l.spans[i].content[j],
            ) <= width,
        0 <= i < wrapped_line(l, width).len(),
    ensures
        rows_ink(wrapped_line(l, width)) == spans_ink(l.spans),
        wrapped_line(l, width)[i].style == l.style,
{
    let rows = wrapped_line(l, width);
    if line_columns(l.spans) <= width {
        lemma_rows_push(Seq::empty(), l);
        assert(Seq::<LineV>::empty().push(l) =~= rows);
        assert(rows_ink(Seq::empty()) + spans_ink(l.spans) =~= spans_ink(l.spans));
    } else {
        assert(all_fit(l.spans, width));
        lemma_wrapped(l.spans, width, l.style);
        let st = wrap_spans(l.spans, width, l.style);
        lemma_rows_push(st.rows, LineV { spans: st.row, style: l.style });
        if i < st.rows.len() {
            assert(rows[i] == st.rows[i]);
        }
    }
}

/// A line that is too wide is broken into rows that fit, and each but the last is full: the next
/// character has no room on it. A line that fits is left alone.
pub proof fn wrapped_rows_fit(l: LineV, width: int, i: int)
    requires
        width >= 1,
        forall|i: int, j: int|
            0 <= i < l.spans.len() && 0 <= j < l.spans[i].content.len() ==> columns_of(
                #[trigger] l.spans[i].content[j],
            ) <= width,
        0 <= i < wrapped_line(l, width).len(),
    ensures
        ({
            let rows = wrapped_line(l, width);
            &&& line_columns(l.spans) <= width ==> rows == seq![l]
            &&& line_columns(l.spans) > width ==> ink_columns(spans_ink(rows[i].spans)) <= width
            &&& i + 1 < rows.len() ==> breaks_late(rows[i], spans_ink(rows[i + 1].spans), width)
        }),
{
    let rows = wrapped_line(l, width);
    if line_columns(l.spans) > width {
        assert(all_fit(l.spans, width));
        lemma_wrapped(l.spans, width, l.style);
        let st = wrap_spans(l.spans, width, l.style);
        if i < st.rows.len() {
            assert(rows[i] == st.rows[i]);
            if i + 1 < st.rows.len() {
                assert(rows[i + 1] == st.rows[i + 1]);
            }
        }
    }
}

} // verus!
