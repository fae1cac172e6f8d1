//! What outputs show: the text that a kernel sent, line by line, in the colours that it asked
//! for.

use crate::ansi::{
    ansi_line, ansi_lines, csi_end, drawn, is_control, is_final, last_shown, sgr_from, sgr_one,
    sgr_params, with_char, InkV,
};
use crate::document::{list_of, multiline_text};
use crate::json::{obj_get, v_str, Entries, JsonV};
use crate::outputs::{
    capped, elided, elision, output_block, output_blocks, picture_size, rows_text, shown_blocks,
    shown_picture, shown_pictures, size_at, strings_in, text_rows, text_total, wrapped,
    without_white, wrapped_line, wrapping_keeps_text, BlockV, MAX_TEXT_ROWS,
};
use crate::style::{
    dim_style, fg_style, no_style, patched, plain, spans_text, styled_line, Color, LineV, SpanV, Style,
};
use crate::text::{
    concat, decimal, join, lemma_join_split, lemma_split_append, lemma_split_free,
    lemma_split_nonempty, one, split, split_keep,
};
use vstd::prelude::*;

verus! {

/// Whether a text is shown as it is written: it has no escapes and no control characters.
pub open spec fn printable(s: Seq<char>) -> bool {
    forall|i: int|
        0 <= i < s.len() ==> !((#[trigger] s[i]) <= '\u{1f}' || '\u{7f}' <= s[i] <= '\u{9f}')
}

/// Whether every line of a text is shown as it is written.
pub open spec fn printable_lines(s: Seq<char>) -> bool {
    forall|i: int|
        0 <= i < s.len() && #[trigger] s[i] != '\n' ==> !(s[i] <= '\u{1f}' || '\u{7f}' <= s[i]
            <= '\u{9f}')
}

proof fn lemma_split_whole(s: Seq<char>, c: char)
    requires
        !s.contains(c),
    ensures
        split(s, c) == seq![s],
{
    lemma_split_append(Seq::empty(), c, s);
    assert(Seq::<char>::empty() + s =~= s);
    assert(split(Seq::<char>::empty(), c) =~= seq![Seq::<char>::empty()]);
    assert(seq![Seq::<char>::empty()].drop_last() =~= Seq::empty());
    assert(split(s, c) =~= seq![s]);
}

proof fn lemma_drawn_plain(s: Seq<char>, i: int, k: InkV, base: Style)
    requires
        printable(s),
        0 <= i <= s.len(),
    ensures
        ({
            let r = drawn(s, i, k, base);
            r.spans == k.spans && r.text == k.text + s.skip(i) && r.style == k.style
        }),
    decreases s.len() - i,
{
    if i < s.len() {
        assert(!is_control(s[i]));
        let now = with_char(s, i, k, base);
        assert(now.text == k.text.push(s[i]));
        if i + 1 < s.len() {
            lemma_drawn_plain(s, i + 1, now, base);
            assert(k.text.push(s[i]) + s.skip(i + 1) =~= k.text + s.skip(i));
        } else {
            assert(k.text + s.skip(i) =~= k.text.push(s[i]));
        }
    } else {
        assert(k.text + s.skip(i) =~= k.text);
    }
}

proof fn lemma_one_span(s: Seq<char>, style: Style)
    ensures
        spans_text(seq![SpanV { content: s, style }]) == s,
        spans_text(Seq::<SpanV>::empty()) == Seq::<char>::empty(),
{
    let f = |x: SpanV| x.content;
    let v = seq![SpanV { content: s, style }];
    assert(v.map_values(f) =~= seq![s]);
    assert(seq![s].drop_last() =~= Seq::empty());
    assert(concat(Seq::<Seq<char>>::empty()) + s =~= s);
    assert(Seq::<SpanV>::empty().map_values(f) =~= Seq::empty());
}

/// A line without escapes is shown as it is written, in one piece and in the style it begins
/// with.
pub proof fn plain_line_is_shown(s: Seq<char>, style: Style, base: Style)
    requires
        printable(s),
    ensures
        ({
            let (line, after) = ansi_line(s, style, base);
            &&& spans_text(line.spans) == s
            &&& after == style
            &&& line.spans.len() == if s.len() > 0 {
                1nat
            } else {
                0
            }
            &&& s.len() > 0 ==> line.spans[0].style == patched(base, style)
        }),
{
    assert(!s.contains('\r'));
    lemma_split_whole(s, '\r');
    assert(seq![s].drop_last() =~= Seq::empty());
    assert(last_shown(Seq::<Seq<char>>::empty()) == Seq::<char>::empty());
    assert(last_shown(seq![s]) =~= s);
    let start = InkV { spans: Seq::empty(), text: Seq::empty(), col: 0, style };
    lemma_drawn_plain(s, 0, start, base);
    assert(Seq::<char>::empty() + s.skip(0) =~= s);
    lemma_one_span(s, patched(base, style));
    assert(Seq::<SpanV>::empty().push(SpanV { content: s, style: patched(base, style) })
        =~= seq![SpanV { content: s, style: patched(base, style) }]);
}

proof fn lemma_lines(parts: Seq<Seq<char>>, base: Style)
    ensures
        ansi_lines(parts, base).0.len() == parts.len(),
        (forall|i: int| 0 <= i < parts.len() ==> printable(#[trigger] parts[i])) ==> ansi_lines(
            parts,
            base,
        ).1 == no_style() && forall|i: int|
            0 <= i < parts.len() ==> spans_text((#[trigger] ansi_lines(parts, base).0[i]).spans)
                == parts[i] && all_styled(
                ansi_lines(parts, base).0[i].spans,
                patched(base, no_style()),
            ),
    decreases parts.len(),
{
    if parts.len() > 0 {
        let front = parts.drop_last();
        lemma_lines(front, base);
        if forall|i: int| 0 <= i < parts.len() ==> printable(#[trigger] parts[i]) {
            assert forall|i: int| 0 <= i < front.len() implies printable(#[trigger] front[i]) by {
                assert(front[i] == parts[i]);
            }
            assert(printable(parts[parts.len() - 1]));
            plain_line_is_shown(parts.last(), no_style(), base);
            let f = ansi_lines(front, base).0;
            let all = ansi_lines(parts, base).0;
            assert forall|i: int| 0 <= i < parts.len() implies spans_text((#[trigger] all[i]).spans)
                == parts[i] && all_styled(all[i].spans, patched(base, no_style())) by {
                if i < front.len() {
                    assert(all[i] == f[i]);
                    assert(front[i] == parts[i]);
                }
            }
        }
    }
}

/// Whether all of a line is in a style.
pub open spec fn all_styled(s: Seq<SpanV>, style: Style) -> bool {
    forall|i: int| 0 <= i < s.len() ==> (#[trigger] s[i]).style == style
}

/// The texts of lines.
pub open spec fn line_texts(rows: Seq<LineV>) -> Seq<Seq<char>> {
    Seq::new(rows.len(), |i: int| spans_text(rows[i].spans))
}

/// A text without the line break it ends with.
pub open spec fn unbroken(s: Seq<char>) -> Seq<char> {
    if s.len() > 0 && s.last() == '\n' {
        s.drop_last()
    } else {
        s
    }
}

/// A text is shown line by line as it is written: its lines, joined again, are the text without
/// its last line break. All of it is in the style that it is shown in.
pub proof fn text_is_shown_line_by_line(text: Seq<char>, base: Style)
    requires
        printable_lines(text),
    ensures
        join(line_texts(text_rows(text, base)), one('\n')) == unbroken(text),
        text_rows(text, base).len() == split(unbroken(text), '\n').len(),
        forall|i: int|
            0 <= i < text_rows(text, base).len() ==> all_styled(
                (#[trigger] text_rows(text, base)[i]).spans,
                patched(base, no_style()),
            ),
{
    let t = unbroken(text);
    let parts = split(t, '\n');
    lemma_split_free(t, '\n');
    lemma_join_split(t, '\n');
    assert forall|i: int| 0 <= i < parts.len() implies printable(#[trigger] parts[i]) by {
        lemma_part_of(t, '\n', i);
        assert forall|j: int| 0 <= j < parts[i].len() implies !((#[trigger] parts[i][j]) <= '\u{1f}'
            || '\u{7f}' <= parts[i][j] <= '\u{9f}') by {
            assert(parts[i].contains(parts[i][j]));
            assert(t.contains(parts[i][j]));
            let m = choose|m: int| 0 <= m < t.len() && t[m] == parts[i][j];
            assert(text[m] == t[m]);
            assert(parts[i][j] != '\n');
        }
    }
    lemma_lines(parts, base);
    assert(line_texts(text_rows(text, base)) =~= parts);
}

/// What stands in a part of a text stands in the text.
proof fn lemma_part_of(s: Seq<char>, c: char, i: int)
    requires
        0 <= i < split(s, c).len(),
    ensures
        forall|x: char| #[trigger] split(s, c)[i].contains(x) ==> s.contains(x),
    decreases s.len(),
{
    if s.len() > 0 {
        let t = s.drop_last();
        let p = split(t, c);
        lemma_split_nonempty(t, c);
        let all = split(s, c);
        assert forall|x: char| #[trigger] all[i].contains(x) implies s.contains(x) by {
            if s.last() == c {
                if i < p.len() {
                    lemma_part_of(t, c, i);
                    assert(all[i] == p[i]);
                    assert(t.contains(x));
                    let m = choose|m: int| 0 <= m < t.len() && t[m] == x;
                    assert(s[m] == x);
                }
            } else if i < p.len() - 1 {
                lemma_part_of(t, c, i);
                assert(all[i] == p[i]);
                assert(t.contains(x));
                let m = choose|m: int| 0 <= m < t.len() && t[m] == x;
                assert(s[m] == x);
            } else {
                lemma_part_of(t, c, p.len() - 1);
                assert(all[i] == p.last().push(s.last()));
                let j = choose|j: int| 0 <= j < all[i].len() && all[i][j] == x;
                if j < p.last().len() {
                    assert(p.last()[j] == x);
                    assert(p[p.len() - 1].contains(x));
                    assert(t.contains(x));
                    let m = choose|m: int| 0 <= m < t.len() && t[m] == x;
                    assert(s[m] == x);
                } else {
                    assert(s[s.len() - 1] == x);
                }
            }
        }
    }
}

/// The lines that a block of text shows.
pub open spec fn rows_of(b: BlockV) -> Seq<LineV> {
    b->Text_0
}

/// Whether a block shows a text, line by line, in a style.
pub open spec fn spells(b: Option<BlockV>, text: Seq<char>, style: Style) -> bool {
    &&& b is Some
    &&& b->0 is Text
    &&& join(line_texts(rows_of(b->0)), one('\n')) == unbroken(text)
    &&& forall|i: int|
        0 <= i < rows_of(b->0).len() ==> all_styled((#[trigger] rows_of(b->0)[i]).spans, style)
}

/// Whether an output is of a type.
pub open spec fn is_output(o: JsonV, kind: Seq<char>) -> bool {
    o is Object && v_str(obj_get(o->Object_0, "output_type"@)) == Some(kind)
}

/// A field of an output's data.
pub open spec fn data_field(o: JsonV, mime: Seq<char>) -> Option<JsonV> {
    match obj_get(o->Object_0, "data"@) {
        Some(JsonV::Object(d)) => obj_get(d, mime),
        _ => None,
    }
}

/// Whether an output has no picture among its data.
pub open spec fn has_no_picture(o: JsonV) -> bool {
    &&& data_field(o, "image/png"@) is None
    &&& data_field(o, "image/jpeg"@) is None
    &&& data_field(o, "image/gif"@) is None
}

proof fn lemma_kinds()
    ensures
        "stream"@.len() == 6,
        "error"@.len() == 5,
        "execute_result"@.len() == 14,
        "display_data"@.len() == 12,
{
    reveal_strlit("stream");
    reveal_strlit("error");
    reveal_strlit("execute_result");
    reveal_strlit("display_data");
}

/// A result or a display without a picture shows its plain text.
pub proof fn result_shows_its_text(o: JsonV, size: (u16, u16))
    requires
        is_output(o, "execute_result"@) || is_output(o, "display_data"@),
        has_no_picture(o),
        data_field(o, "text/plain"@) is Some,
        printable_lines(multiline_text(data_field(o, "text/plain"@))),
    ensures
        spells(
            output_block(o, size),
            multiline_text(data_field(o, "text/plain"@)),
            no_style(),
        ),
{
    lemma_kinds();
    text_is_shown_line_by_line(multiline_text(data_field(o, "text/plain"@)), no_style());
    assert(patched(no_style(), no_style()) == no_style());
}

/// What a kernel writes to a stream is shown as it is written; its standard error in red.
pub proof fn stream_shows_its_text(o: JsonV, size: (u16, u16))
    requires
        is_output(o, "stream"@),
        printable_lines(multiline_text(obj_get(o->Object_0, "text"@))),
    ensures
        spells(
            output_block(o, size),
            multiline_text(obj_get(o->Object_0, "text"@)),
            if v_str(obj_get(o->Object_0, "name"@)) == Some("stderr"@) {
                fg_style(Color::LightRed)
            } else {
                no_style()
            },
        ),
{
    lemma_kinds();
    let base = if v_str(obj_get(o->Object_0, "name"@)) == Some("stderr"@) {
        fg_style(Color::LightRed)
    } else {
        no_style()
    };
    text_is_shown_line_by_line(multiline_text(obj_get(o->Object_0, "text"@)), base);
    assert(patched(base, no_style()) == base);
}

proof fn lemma_strings_in(a: Seq<JsonV>)
    requires
        forall|i: int| 0 <= i < a.len() ==> (#[trigger] a[i]) is String,
    ensures
        strings_in(a).len() == a.len(),
        forall|i: int| 0 <= i < a.len() ==> #[trigger] strings_in(a)[i] == a[i]->String_0,
    decreases a.len(),
{
    if a.len() > 0 {
        let front = a.drop_last();
        assert forall|i: int| 0 <= i < front.len() implies (#[trigger] front[i]) is String by {
            assert(front[i] == a[i]);
        }
        lemma_strings_in(front);
        assert(a[a.len() - 1] is String);
        assert forall|i: int| 0 <= i < a.len() implies #[trigger] strings_in(a)[i] == a[i]->String_0 by {
            if i < front.len() {
                assert(strings_in(a)[i] == strings_in(front)[i]);
            }
        }
    }
}

/// An error shows its traceback, entry after entry; without one, its name and value.
pub proof fn error_shows_its_traceback(o: JsonV, traceback: Seq<Seq<char>>, size: (u16, u16))
    requires
        is_output(o, "error"@),
        list_of(obj_get(o->Object_0, "traceback"@)).len() == traceback.len(),
        forall|i: int|
            0 <= i < traceback.len() ==> #[trigger] list_of(obj_get(o->Object_0, "traceback"@))[i]
                == JsonV::String(traceback[i]),
        printable_lines(join(traceback, one('\n'))),
    ensures
        traceback.len() > 0 ==> spells(
            output_block(o, size),
            join(traceback, one('\n')),
            no_style(),
        ),
        ({
            let name = v_str(obj_get(o->Object_0, "ename"@));
            let value = v_str(obj_get(o->Object_0, "evalue"@));
            name is Some && value is Some && printable_lines(name->0 + ": "@ + value->0)
                && traceback.len() == 0 ==> spells(
                output_block(o, size),
                name->0 + ": "@ + value->0,
                no_style(),
            )
        }),
{
    lemma_kinds();
    let a = list_of(obj_get(o->Object_0, "traceback"@));
    assert forall|i: int| 0 <= i < a.len() implies (#[trigger] a[i]) is String by {
        assert(a[i] == JsonV::String(traceback[i]));
    }
    lemma_strings_in(a);
    assert forall|i: int| 0 <= i < a.len() implies strings_in(a)[i] == traceback[i] by {
        assert(a[i] == JsonV::String(traceback[i]));
    }
    assert(strings_in(a) =~= traceback);
    assert(patched(no_style(), no_style()) == no_style());
    if traceback.len() > 0 {
        text_is_shown_line_by_line(join(traceback, one('\n')), no_style());
    } else {
        let name = v_str(obj_get(o->Object_0, "ename"@));
        let value = v_str(obj_get(o->Object_0, "evalue"@));
        if name is Some && value is Some && printable_lines(name->0 + ": "@ + value->0) {
            text_is_shown_line_by_line(name->0 + ": "@ + value->0, no_style());
        }
    }
}

/// A picture that can be decoded is shown, by the text that encodes it and in the size it is
/// given; of one that cannot, the reason stands where it would be.
pub proof fn picture_is_shown(o: JsonV, mime: Seq<char>, size: (u16, u16))
    requires
        is_output(o, "execute_result"@) || is_output(o, "display_data"@),
        data_field(o, mime) is Some,
        mime == "image/png"@ || (has_no_png(o) && mime == "image/jpeg"@) || (has_no_png(o)
            && data_field(o, "image/jpeg"@) is None && mime == "image/gif"@),
    ensures
        ({
            let source = multiline_text(data_field(o, mime));
            match picture_size(source) {
                Ok(_) => output_block(o, size) == Some(
                    BlockV::Image { source, cols: size.0, rows: size.1 },
                ) && shown_picture(o) == Some(source),
                Err(why) => shown_picture(o) is None && output_block(o, size) is Some
                    && output_block(o, size)->0 is Text && rows_of(output_block(o, size)->0).len()
                    == 1 && (!why.contains('\n') ==> spans_text(
                    rows_of(output_block(o, size)->0)[0].spans,
                ) == mime + " could not be decoded: "@ + why) && rows_of(output_block(o, size)->0)[0].style
                    == fg_style(Color::LightRed),
            }
        }),
{
    lemma_kinds();
    let source = multiline_text(data_field(o, mime));
    reveal_strlit("image/png");
    reveal_strlit("image/jpeg");
    reveal_strlit("image/gif");
    assert("image/png"@.len() == 9 && "image/jpeg"@.len() == 10 && "image/gif"@.len() == 9);
    assert("image/png"@[6] == 'p' && "image/gif"@[6] == 'g');
    if let Err(why) = picture_size(source) {
        if !why.contains('\n') {
            reveal_strlit(" could not be decoded: ");
            let said = mime + " could not be decoded: "@ + why;
            assert forall|i: int| 0 <= i < said.len() implies said[i] != '\n' by {
                let n = mime.len() + " could not be decoded: "@.len();
                if i >= n {
                    assert(said[i] == why[i - n]);
                    assert(why.contains(why[i - n]));
                }
            }
            lemma_styled(said, fg_style(Color::LightRed));
        }
    }
}

pub open spec fn has_no_png(o: JsonV) -> bool {
    data_field(o, "image/png"@) is None
}

proof fn lemma_one_line(s: Seq<char>)
    requires
        !s.contains('\n'),
        s.len() > 0,
    ensures
        split_keep(s) == seq![s],
    decreases s.len(),
{
    if s.len() > 1 {
        let t = s.drop_last();
        assert(!t.contains('\n')) by {
            if t.contains('\n') {
                let i = choose|i: int| 0 <= i < t.len() && t[i] == '\n';
                assert(s[i] == '\n');
            }
        }
        lemma_one_line(t);
        assert(s.contains(s[s.len() - 2]));
        assert(seq![t].drop_last() =~= Seq::empty());
        assert(split_keep(s) =~= seq![t.push(s.last())]);
        assert(t.push(s.last()) =~= s);
    } else {
        assert(s.drop_last() =~= Seq::empty());
        assert(split_keep(Seq::<char>::empty()) =~= Seq::empty());
        assert(split_keep(s) =~= seq![seq![s.last()]]);
        assert(seq![s.last()] =~= s);
    }
}

proof fn lemma_styled(s: Seq<char>, style: Style)
    requires
        !s.contains('\n'),
    ensures
        spans_text(styled_line(s, style).spans) == s,
        styled_line(s, style).style == style,
{
    lemma_one_span(s, no_style());
    let spans = styled_line(s, style).spans;
    if s.len() > 0 {
        lemma_one_line(s);
        assert(s.contains(s[s.len() - 1]));
        assert(spans =~= seq![SpanV { content: s, style: no_style() }]);
    } else {
        assert(split_keep(s) =~= Seq::empty());
        assert(spans =~= Seq::empty());
        assert(s =~= Seq::empty());
    }
}

/// Data that is neither a picture nor plain text says of what type it is; data of no type shows
/// nothing.
pub proof fn other_data_says_its_type(o: JsonV, d: Entries, size: (u16, u16))
    requires
        is_output(o, "execute_result"@) || is_output(o, "display_data"@),
        obj_get(o->Object_0, "data"@) == Some(JsonV::Object(d)),
        has_no_picture(o),
        data_field(o, "text/plain"@) is None,
        d.len() > 0 ==> !d[0].0.contains('\n'),
    ensures
        d.len() == 0 ==> output_block(o, size) is None,
        d.len() > 0 ==> output_block(o, size) is Some && output_block(o, size)->0 is Text && rows_of(
            output_block(o, size)->0,
        ).len() == 1 && spans_text(rows_of(output_block(o, size)->0)[0].spans) == "["@ + d[0].0
            + " output]"@,
{
    lemma_kinds();
    if d.len() > 0 {
        reveal_strlit("[");
        reveal_strlit(" output]");
        let said = "["@ + d[0].0 + " output]"@;
        assert forall|i: int| 0 <= i < said.len() implies said[i] != '\n' by {
            if 1 <= i <= d[0].0.len() {
                assert(said[i] == d[0].0[i - 1]);
                assert(d[0].0.contains(d[0].0[i - 1]));
            }
        }
        lemma_styled(said, dim_style());
    }
}

/// The text of blocks, one after another.
pub open spec fn blocks_text(blocks: Seq<BlockV>) -> Seq<char>
    decreases blocks.len(),
{
    if blocks.len() == 0 {
        Seq::empty()
    } else {
        blocks_text(blocks.drop_last()) + match blocks.last() {
            BlockV::Text(rows) => rows_text(rows),
            _ => Seq::empty(),
        }
    }
}

/// The text of a block.
pub open spec fn block_text(b: Option<BlockV>) -> Seq<char> {
    match b {
        Some(BlockV::Text(rows)) => rows_text(rows),
        _ => Seq::empty(),
    }
}

proof fn lemma_rows_append(a: Seq<LineV>, b: Seq<LineV>)
    ensures
        rows_text(a + b) == rows_text(a) + rows_text(b),
    decreases b.len(),
{
    if b.len() == 0 {
        assert(a + b =~= a);
        assert(rows_text(a) + rows_text(b) =~= rows_text(a));
    } else {
        lemma_rows_append(a, b.drop_last());
        assert((a + b).drop_last() =~= a + b.drop_last());
        assert((a + b).last() == b.last());
        assert(rows_text(a) + rows_text(b.drop_last()) + spans_text(b.last().spans) =~= rows_text(a)
            + (rows_text(b.drop_last()) + spans_text(b.last().spans)));
    }
}

/// Wrapping lines at a width loses no text.
pub proof fn wrapped_lines_keep_text(l: Seq<LineV>, width: int)
    ensures
        rows_text(wrapped(l, width)) == rows_text(l),
    decreases l.len(),
{
    if l.len() > 0 {
        wrapped_lines_keep_text(l.drop_last(), width);
        wrapping_keeps_text(l.last(), width);
        lemma_rows_append(wrapped(l.drop_last(), width), wrapped_line(l.last(), width));
    }
}

/// Each output is shown below those before it: its text follows theirs, its picture is one more
/// picture.
pub proof fn outputs_are_shown_in_turn(
    outputs: Seq<JsonV>,
    o: JsonV,
    sizes: Seq<(u16, u16)>,
    width: int,
)
    ensures
        ({
            let before = output_blocks(outputs, sizes, width);
            let after = output_blocks(outputs.push(o), sizes, width);
            let k = shown_pictures(outputs).len() as int;
            let b = output_block(o, size_at(sizes, k));
            &&& after.len() == before.len() + if b is Some {
                1int
            } else {
                0
            }
            &&& after.take(before.len() as int) == before
            &&& blocks_text(after) == blocks_text(before) + block_text(b)
            &&& b matches Some(BlockV::Image { .. }) ==> after.last() == b->0
        }),
{
    let all = outputs.push(o);
    assert(all.drop_last() =~= outputs);
    let before = output_blocks(outputs, sizes, width);
    let after = output_blocks(all, sizes, width);
    let k = shown_pictures(outputs).len() as int;
    let b = output_block(o, size_at(sizes, k));
    assert(after.take(before.len() as int) =~= before);
    if let Some(x) = b {
        assert(after.drop_last() =~= before);
        if let BlockV::Text(l) = x {
            wrapped_lines_keep_text(l, width);
        } else {
            assert(blocks_text(before) + Seq::<char>::empty() =~= blocks_text(before));
        }
    } else {
        assert(blocks_text(before) + Seq::<char>::empty() =~= blocks_text(before));
    }
}

/// Why a cell could not run stands under all that it shows, as it was said and in red.
pub proof fn failure_stands_last(
    outputs: Seq<JsonV>,
    error: Seq<char>,
    sizes: Seq<(u16, u16)>,
    width: int,
)
    requires
        printable(error),
    ensures
        ({
            let with = shown_blocks(outputs, Some(error), sizes, width);
            let without = shown_blocks(outputs, None, sizes, width);
            &&& with.len() == without.len() + 1
            &&& with.drop_last() == without
            &&& with.last() is Text
            &&& rows_text(rows_of(with.last())) == error
        }),
{
    assert(printable_lines(error)) by {
        assert forall|i: int| 0 <= i < error.len() && #[trigger] error[i] != '\n' implies !(error[i]
            <= '\u{1f}' || '\u{7f}' <= error[i] <= '\u{9f}') by {}
    }
    assert(error.len() > 0 ==> error.last() != '\n') by {
        if error.len() > 0 {
            assert(error[error.len() - 1] == error.last());
        }
    }
    let base = fg_style(Color::LightRed);
    let rows = text_rows(error, base);
    text_is_shown_line_by_line(error, base);
    assert(!error.contains('\n')) by {
        if error.contains('\n') {
            let i = choose|i: int| 0 <= i < error.len() && error[i] == '\n';
            assert(!(error[i] <= '\u{1f}'));
        }
    }
    lemma_split_whole(error, '\n');
    assert(rows.len() == 1);
    assert(line_texts(rows) =~= seq![spans_text(rows[0].spans)]);
    assert(join(seq![spans_text(rows[0].spans)], one('\n')) == spans_text(rows[0].spans));
    assert(rows.drop_last() =~= Seq::empty());
    assert(rows_text(rows.drop_last()) =~= Seq::empty());
    assert(rows_text(rows) =~= spans_text(rows[0].spans));
    wrapped_lines_keep_text(rows, width);
    let with = shown_blocks(outputs, Some(error), sizes, width);
    assert(with.drop_last() =~= shown_blocks(outputs, None, sizes, width));
}

/// The rows of text in blocks, one after another.
pub open spec fn flat_rows(blocks: Seq<BlockV>) -> Seq<LineV>
    decreases blocks.len(),
{
    if blocks.len() == 0 {
        Seq::empty()
    } else {
        flat_rows(blocks.drop_last()) + match blocks.last() {
            BlockV::Text(rows) => rows,
            _ => Seq::empty(),
        }
    }
}

proof fn lemma_flat_len(blocks: Seq<BlockV>)
    ensures
        flat_rows(blocks).len() == text_total(blocks),
    decreases blocks.len(),
{
    if blocks.len() > 0 {
        lemma_flat_len(blocks.drop_last());
    }
}

proof fn lemma_flat_append(a: Seq<BlockV>, b: Seq<BlockV>)
    ensures
        flat_rows(a + b) == flat_rows(a) + flat_rows(b),
    decreases b.len(),
{
    if b.len() == 0 {
        assert(a + b =~= a);
        assert(flat_rows(a) + flat_rows(b) =~= flat_rows(a));
    } else {
        lemma_flat_append(a, b.drop_last());
        assert((a + b).drop_last() =~= a + b.drop_last());
        assert((a + b).last() == b.last());
        let last = match b.last() {
            BlockV::Text(rows) => rows,
            _ => Seq::empty(),
        };
        assert(flat_rows(a) + flat_rows(b.drop_last()) + last =~= flat_rows(a) + (flat_rows(
            b.drop_last(),
        ) + last));
    }
}

/// What leaving out rows from block `i` on leaves of the rows.
proof fn lemma_elided_rows(blocks: Seq<BlockV>, i: int, drop: int, hidden: int, marked: bool)
    requires
        0 <= i <= blocks.len(),
        0 <= drop <= flat_rows(blocks.skip(i)).len(),
        !marked ==> flat_rows(blocks.skip(i)).len() > 0,
    ensures
        ({
            let r = elided(blocks, i, drop, hidden, marked);
            &&& r.len() == blocks.len()
            &&& flat_rows(r) == flat_rows(blocks.take(i)) + (if marked {
                Seq::empty()
            } else {
                seq![elision(hidden)]
            }) + flat_rows(blocks.skip(i)).skip(drop)
            &&& forall|j: int|
                0 <= j < blocks.len() ==> ((#[trigger] blocks[j]) is Text == r[j] is Text) && (!(
                blocks[j] is Text) ==> r[j] == blocks[j])
        }),
    decreases blocks.len() - i,
{
    let head = blocks.take(i);
    let tail = blocks.skip(i);
    if i >= blocks.len() || (marked && drop == 0) {
        assert(head + tail =~= blocks);
        lemma_flat_append(head, tail);
        assert(flat_rows(tail).skip(0) =~= flat_rows(tail));
        if i >= blocks.len() {
            assert(tail =~= Seq::empty());
            assert(flat_rows(tail) =~= Seq::empty());
        }
        assert(flat_rows(blocks) =~= flat_rows(head) + Seq::<LineV>::empty() + flat_rows(tail).skip(
            drop,
        ));
    } else {
        let rest = blocks.skip(i + 1);
        assert(tail =~= seq![blocks[i]] + rest);
        lemma_flat_append(seq![blocks[i]], rest);
        assert(seq![blocks[i]].drop_last() =~= Seq::empty());
        assert(flat_rows(Seq::<BlockV>::empty()) =~= Seq::empty());
        match blocks[i] {
            BlockV::Text(l) => {
                assert(flat_rows(seq![blocks[i]]) =~= l);
                let n = if drop < l.len() {
                    drop
                } else {
                    l.len() as int
                };
                let kept = l.skip(n);
                let shown = if marked {
                    kept
                } else {
                    kept.insert(0, elision(hidden))
                };
                let b = BlockV::Text(shown);
                let next = blocks.update(i, b);
                assert(next.skip(i + 1) =~= rest);
                assert(next.take(i + 1) =~= head.push(b));
                assert(head.push(b) =~= head + seq![b]);
                lemma_flat_append(head, seq![b]);
                assert(seq![b].drop_last() =~= Seq::empty());
                assert(flat_rows(seq![b]) =~= shown);
                lemma_elided_rows(next, i + 1, drop - n, hidden, true);
                let r = elided(blocks, i, drop, hidden, marked);
                let mark = if marked {
                    Seq::empty()
                } else {
                    seq![elision(hidden)]
                };
                assert(shown =~= mark + kept);
                assert((l + flat_rows(rest)).skip(drop) =~= kept + flat_rows(rest).skip(drop - n));
                assert(flat_rows(head) + (mark + kept) + Seq::<LineV>::empty() + flat_rows(
                    rest,
                ).skip(drop - n) =~= flat_rows(head) + mark + (kept + flat_rows(rest).skip(
                    drop - n,
                )));
                assert forall|j: int| 0 <= j < blocks.len() implies ((#[trigger] blocks[j]) is Text
                    == r[j] is Text) && (!(blocks[j] is Text) ==> r[j] == blocks[j]) by {
                    assert(next[j] is Text == r[j] is Text);
                }
            },
            _ => {
                assert(flat_rows(seq![blocks[i]]) =~= Seq::empty());
                assert(flat_rows(tail) =~= flat_rows(rest));
                lemma_elided_rows(blocks, i + 1, drop, hidden, marked);
                assert(blocks.take(i + 1) =~= head + seq![blocks[i]]);
                lemma_flat_append(head, seq![blocks[i]]);
                assert(flat_rows(blocks.take(i + 1)) =~= flat_rows(head));
            },
        }
    }
}

/// Of outputs with too many rows the last ones are shown, below a line that says how many are
/// not; shorter outputs are shown in full. Pictures stay where they are.
pub proof fn long_outputs_keep_their_end(blocks: Seq<BlockV>)
    requires
        flat_rows(blocks).len() <= usize::MAX,
    ensures
        ({
            let all = flat_rows(blocks);
            let shown = flat_rows(capped(blocks));
            &&& all.len() <= MAX_TEXT_ROWS ==> capped(blocks) == blocks
            &&& all.len() > MAX_TEXT_ROWS ==> {
                &&& shown.len() == MAX_TEXT_ROWS
                &&& shown.skip(1) == all.skip(all.len() - (MAX_TEXT_ROWS - 1))
                &&& spans_text(shown[0].spans) == "⋯ "@ + decimal(
                    (all.len() - (MAX_TEXT_ROWS - 1)) as nat,
                ) + " earlier rows"@
            }
            &&& capped(blocks).len() == blocks.len()
            &&& forall|j: int|
                0 <= j < blocks.len() && !((#[trigger] blocks[j]) is Text) ==> capped(blocks)[j]
                    == blocks[j]
        }),
{
    lemma_flat_len(blocks);
    let total = text_total(blocks);
    if total > MAX_TEXT_ROWS {
        let drop = total - MAX_TEXT_ROWS + 1;
        assert(blocks.skip(0) =~= blocks);
        assert(blocks.take(0) =~= Seq::empty());
        lemma_elided_rows(blocks, 0, drop, drop, false);
        let shown = flat_rows(capped(blocks));
        let mark = seq![elision(drop)];
        assert(flat_rows(blocks.take(0)) =~= Seq::empty());
        assert(shown =~= mark + flat_rows(blocks).skip(drop));
        assert(shown.skip(1) =~= flat_rows(blocks).skip(drop));
        lemma_one_span("⋯ "@ + decimal(drop as nat) + " earlier rows"@, dim_style());
        assert forall|j: int|
            0 <= j < blocks.len() && !((#[trigger] blocks[j]) is Text) implies capped(blocks)[j]
            == blocks[j] by {}
    }
}

/// A line is drawn over from its start by what follows a carriage return: only that is shown.
pub proof fn return_starts_the_line_again(a: Seq<char>, b: Seq<char>, style: Style, base: Style)
    requires
        b.len() > 0,
        !b.contains('\r'),
    ensures
        ansi_line(a + seq!['\r'] + b, style, base) == ansi_line(b, style, base),
{
    let s = a + seq!['\r'];
    lemma_split_append(s, '\r', b);
    assert(s.drop_last() =~= a);
    assert(s.last() == '\r');
    let p = split(a, '\r');
    assert(split(s, '\r') == p.push(Seq::empty()));
    assert(Seq::<char>::empty() + b =~= b);
    lemma_split_whole(b, '\r');
    let parts = split(s + b, '\r');
    assert(parts.last() == b);
    assert(seq![b].last() == b);
}

/// A colour that is asked for is in force for what follows it, and for nothing before.
pub proof fn escape_styles_what_follows(a: Seq<char>, p: Seq<char>, b: Seq<char>, style: Style, base: Style)
    requires
        printable(a),
        printable(b),
        b.len() > 0,
        forall|i: int| 0 <= i < p.len() ==> ('0' <= (#[trigger] p[i]) <= ';'),
    ensures
        ({
            let s = a + seq!['\u{1b}', '['] + p + seq!['m'] + b;
            let (line, after) = ansi_line(s, style, base);
            let asked = sgr_from(style, sgr_params(p), 0);
            &&& after == asked
            &&& line.spans.last() == SpanV { content: b, style: patched(base, asked) }
            &&& a.len() == 0 ==> line.spans.len() == 1
            &&& a.len() > 0 ==> line.spans.len() == 2 && line.spans[0] == SpanV {
                content: a,
                style: patched(base, style),
            }
        }),
{
    let s = a + seq!['\u{1b}', '['] + p + seq!['m'] + b;
    lemma_no_return(a, p, b);
    lemma_split_whole(s, '\r');
    assert(last_shown(seq![s]) == s);
    let start = InkV { spans: Seq::empty(), text: Seq::empty(), col: 0, style };
    lemma_escape(a, p, b, start, base);
    let asked = sgr_from(style, sgr_params(p), 0);
    let first = SpanV { content: a, style: patched(base, style) };
    let second = SpanV { content: b, style: patched(base, asked) };
    let spans = ansi_line(s, style, base).0.spans;
    if a.len() > 0 {
        assert(spans =~= Seq::<SpanV>::empty().push(first).push(second));
    } else {
        assert(spans =~= Seq::<SpanV>::empty().push(second));
    }
}

proof fn lemma_no_return(a: Seq<char>, p: Seq<char>, b: Seq<char>)
    requires
        printable(a),
        printable(b),
        forall|i: int| 0 <= i < p.len() ==> ('0' <= (#[trigger] p[i]) <= ';'),
    ensures
        !(a + seq!['\u{1b}', '['] + p + seq!['m'] + b).contains('\r'),
{
    let head = a + seq!['\u{1b}', '['] + p + seq!['m'];
    let s = head + b;
    let n = a.len() as int;
    if s.contains('\r') {
        let i = choose|i: int| 0 <= i < s.len() && s[i] == '\r';
        if i < n {
            assert(s[i] == a[i]);
        } else if n + 2 <= i < n + 2 + p.len() {
            assert(s[i] == p[i - n - 2]);
        } else if i >= head.len() {
            assert(s[i] == b[i - head.len()]);
        } else {
            assert(s[i] == '\u{1b}' || s[i] == '[' || s[i] == 'm');
        }
    }
}

proof fn lemma_escape(a: Seq<char>, p: Seq<char>, b: Seq<char>, start: InkV, base: Style)
    requires
        printable(a),
        printable(b),
        b.len() > 0,
        forall|i: int| 0 <= i < p.len() ==> ('0' <= (#[trigger] p[i]) <= ';'),
        start.text.len() == 0,
    ensures
        ({
            let s = a + seq!['\u{1b}', '['] + p + seq!['m'] + b;
            let done = drawn(s, 0, start, base);
            &&& done.text == b
            &&& done.style == sgr_from(start.style, sgr_params(p), 0)
            &&& done.spans == if a.len() > 0 {
                start.spans.push(SpanV { content: a, style: patched(base, start.style) })
            } else {
                start.spans
            }
        }),
{
    let head = a + seq!['\u{1b}', '['] + p + seq!['m'];
    let s = head + b;
    let n = a.len() as int;
    assert forall|j: int| 0 <= j < n implies #[trigger] s[j] == a[j] by {}
    assert forall|j: int| 0 <= j < n implies (#[trigger] s[j]) != '\u{1b}' by {
        assert(s[j] == a[j]);
    }
    lemma_drawn_prefix(s, 0, n, start, base);
    let k = advanced(s, 0, n, start, base);
    lemma_advanced_plain(s, 0, n, start, base, a);
    assert(k.text =~= a);
    assert(s[n] == '\u{1b}');
    assert(s[n + 1] == '[');
    let e = n + 2 + p.len();
    assert forall|i: int| n + 2 <= i < e implies !is_final(#[trigger] s[i]) by {
        assert(s[i] == p[i - n - 2]);
    }
    assert(s[e] == 'm');
    lemma_csi_end(s, n + 2, e);
    assert(s.subrange(n + 2, e) =~= p);
    let now = with_char(s, n, k, base);
    assert(now.text =~= Seq::empty());
    assert forall|j: int| s.len() - b.len() <= j < s.len() implies #[trigger] s[j] == b[j - (s.len()
        - b.len())] by {}
    lemma_advanced_rest(s, e + 1, now, base, b);
    assert(s.skip(e + 1) =~= b);
    assert(drawn(s, n, k, base) == drawn(s, e + 1, now, base));
    assert(now.text + b =~= b);
}

/// The line after the characters from `i` up to `n`, all plain.
spec fn advanced(s: Seq<char>, i: int, n: int, k: InkV, base: Style) -> InkV
    decreases n - i,
{
    if i >= n {
        k
    } else {
        advanced(s, i + 1, n, with_char(s, i, k, base), base)
    }
}

proof fn lemma_drawn_prefix(s: Seq<char>, i: int, n: int, k: InkV, base: Style)
    requires
        0 <= i <= n < s.len(),
        forall|j: int| i <= j < n ==> (#[trigger] s[j]) != '\u{1b}',
    ensures
        drawn(s, i, k, base) == drawn(s, n, advanced(s, i, n, k, base), base),
    decreases n - i,
{
    if i < n {
        assert(s[i] != '\u{1b}');
        lemma_drawn_prefix(s, i + 1, n, with_char(s, i, k, base), base);
    }
}

proof fn lemma_advanced_plain(s: Seq<char>, i: int, n: int, k: InkV, base: Style, a: Seq<char>)
    requires
        0 <= i <= n <= s.len(),
        n == a.len(),
        printable(a),
        forall|j: int| 0 <= j < n ==> #[trigger] s[j] == a[j],
    ensures
        advanced(s, i, n, k, base).text == k.text + s.subrange(i, n),
        advanced(s, i, n, k, base).spans == k.spans,
        advanced(s, i, n, k, base).style == k.style,
    decreases n - i,
{
    if i < n {
        assert(s[i] == a[i]);
        assert(!is_control(s[i]));
        let now = with_char(s, i, k, base);
        lemma_advanced_plain(s, i + 1, n, now, base, a);
        assert(k.text.push(s[i]) + s.subrange(i + 1, n) =~= k.text + s.subrange(i, n));
    } else {
        assert(k.text + s.subrange(i, n) =~= k.text);
    }
}

proof fn lemma_csi_end(s: Seq<char>, i: int, e: int)
    requires
        0 <= i <= e < s.len(),
        forall|j: int| i <= j < e ==> !is_final(#[trigger] s[j]),
        is_final(s[e]),
    ensures
        csi_end(s, i) == e,
    decreases e - i,
{
    if i < e {
        assert(!is_final(s[i]));
        lemma_csi_end(s, i + 1, e);
    }
}

proof fn lemma_advanced_rest(s: Seq<char>, i: int, k: InkV, base: Style, b: Seq<char>)
    requires
        0 <= i <= s.len(),
        printable(b),
        b.len() <= s.len(),
        i >= s.len() - b.len(),
        forall|j: int|
            s.len() - b.len() <= j < s.len() ==> #[trigger] s[j] == b[j - (s.len() - b.len())],
    ensures
        drawn(s, i, k, base).text == k.text + s.skip(i),
        drawn(s, i, k, base).spans == k.spans,
        drawn(s, i, k, base).style == k.style,
    decreases s.len() - i,
{
    if i < s.len() {
        assert(s[i] == b[i - (s.len() - b.len())]);
        assert(!is_control(s[i]));
        let now = with_char(s, i, k, base);
        if i + 1 < s.len() {
            lemma_advanced_rest(s, i + 1, now, base, b);
            assert(k.text.push(s[i]) + s.skip(i + 1) =~= k.text + s.skip(i));
        } else {
            assert(k.text + s.skip(i) =~= k.text.push(s[i]));
        }
    } else {
        assert(k.text + s.skip(i) =~= k.text);
    }
}

/// The eight colours and their eight light ones are sixteen, the same for text and for
/// background; each leaves all else of the style alone.
pub proof fn colors_by_number(s: Style, n: u16, m: u16)
    requires
        n < 8,
        m < 8,
    ensures
        ({
            let dark = sgr_one(s, (30 + n) as u16);
            let light = sgr_one(s, (90 + n) as u16);
            &&& dark == (Style { fg: dark.fg, ..s }) && light == (Style { fg: light.fg, ..s })
            &&& dark.fg is Some && light.fg is Some && dark.fg != light.fg
            &&& sgr_one(s, (40 + n) as u16) == (Style { bg: dark.fg, ..s })
            &&& sgr_one(s, (100 + n) as u16) == (Style { bg: light.fg, ..s })
            &&& n != m ==> sgr_one(s, (30 + m) as u16).fg != dark.fg && sgr_one(
                s,
                (90 + m) as u16,
            ).fg != light.fg
            &&& sgr_one(s, (90 + m) as u16).fg != dark.fg
            &&& sgr_one(dark, 39) == (Style { fg: None, ..s })
            &&& sgr_one(sgr_one(s, (40 + n) as u16), 49) == (Style { bg: None, ..s })
            &&& sgr_one(s, 0) == no_style()
        }),
{
}

/// Each emphasis is set and taken back by its own number.
pub proof fn emphases_by_number(s: Style)
    ensures
        sgr_one(s, 1).added.bold && !sgr_one(sgr_one(s, 1), 22).added.bold,
        sgr_one(s, 2).added.dim && !sgr_one(sgr_one(s, 2), 22).added.dim,
        sgr_one(s, 3).added.italic && !sgr_one(sgr_one(s, 3), 23).added.italic,
        sgr_one(s, 4).added.underlined && !sgr_one(sgr_one(s, 4), 24).added.underlined,
        sgr_one(s, 7).added.reversed && !sgr_one(sgr_one(s, 7), 27).added.reversed,
        sgr_one(s, 9).added.crossed_out,
        sgr_one(s, 1).fg == s.fg && sgr_one(s, 1).bg == s.bg,
{
}

/// A style laid over another shows what it sets, and what it leaves open of the other.
pub proof fn laid_over_style_shows(s: Style, over: Style)
    ensures
        over.fg is Some ==> patched(s, over).fg == over.fg,
        over.fg is None ==> patched(s, over).fg == s.fg,
        over.bg is Some ==> patched(s, over).bg == over.bg,
        over.bg is None ==> patched(s, over).bg == s.bg,
        over.added.bold ==> patched(s, over).added.bold,
        over.removed.bold && !over.added.bold ==> !patched(s, over).added.bold,
        !over.added.bold && !over.removed.bold ==> patched(s, over).added.bold == s.added.bold,
        patched(s, no_style()) == s,
        over.added == plain() && over.removed == plain() ==> patched(s, over).added == s.added,
{
}

/// White space within a picture's text does not count: the picture is what the rest decodes to.
pub proof fn white_space_in_pictures_does_not_count(a: Seq<char>, w: char, b: Seq<char>)
    requires
        crate::text::white(w),
    ensures
        picture_size(a + seq![w] + b) == picture_size(a + b),
        (forall|i: int| 0 <= i < a.len() ==> !crate::text::white(#[trigger] a[i])) ==> match crate::outputs::base64_read(
            a,
        ) {
            Ok(bytes) => picture_size(a) == crate::outputs::image_read(bytes),
            Err(why) => picture_size(a) == Err::<(u32, u32), Seq<char>>(why),
        },
{
    lemma_white_dropped(a, w, b);
    if forall|i: int| 0 <= i < a.len() ==> !crate::text::white(#[trigger] a[i]) {
        lemma_nothing_dropped(a);
    }
}

proof fn lemma_white_dropped(a: Seq<char>, w: char, b: Seq<char>)
    requires
        crate::text::white(w),
    ensures
        without_white(a + seq![w] + b) == without_white(a + b),
    decreases b.len(),
{
    let s = a + seq![w] + b;
    if b.len() == 0 {
        assert(s.drop_last() =~= a);
        assert(a + b =~= a);
    } else {
        let t = b.drop_last();
        lemma_white_dropped(a, w, t);
        assert(s.drop_last() =~= a + seq![w] + t);
        assert((a + b).drop_last() =~= a + t);
        assert(s.last() == b.last() && (a + b).last() == b.last());
    }
}

proof fn lemma_nothing_dropped(a: Seq<char>)
    requires
        forall|i: int| 0 <= i < a.len() ==> !crate::text::white(#[trigger] a[i]),
    ensures
        without_white(a) == a,
    decreases a.len(),
{
    if a.len() > 0 {
        let t = a.drop_last();
        assert forall|i: int| 0 <= i < t.len() implies !crate::text::white(#[trigger] t[i]) by {
            assert(t[i] == a[i]);
        }
        lemma_nothing_dropped(t);
        assert(!crate::text::white(a[a.len() - 1]));
        assert(t.push(a.last()) =~= a);
    }
}

/// An output of a kind that is not known says its kind.
pub proof fn unknown_output_says_its_kind(o: JsonV, kind: Seq<char>, size: (u16, u16))
    requires
        is_output(o, kind),
        kind != "stream"@,
        kind != "error"@,
        kind != "execute_result"@,
        kind != "display_data"@,
        !kind.contains('\n'),
    ensures
        output_block(o, size) is Some,
        output_block(o, size)->0 is Text,
        rows_of(output_block(o, size)->0).len() == 1,
        crate::terminal::occurs(
            spans_text(rows_of(output_block(o, size)->0)[0].spans),
            kind,
        ),
{
    lemma_kinds();
    reveal_strlit("[unsupported output: ");
    reveal_strlit("]");
    let said = "[unsupported output: "@ + kind + "]"@;
    let n = "[unsupported output: "@.len() as int;
    assert forall|i: int| 0 <= i < said.len() implies said[i] != '\n' by {
        if n <= i < n + kind.len() {
            assert(said[i] == kind[i - n]);
            assert(kind.contains(kind[i - n]));
        }
    }
    lemma_styled(said, dim_style());
    assert(said.subrange(n, n + kind.len()) =~= kind);
}

} // verus!
