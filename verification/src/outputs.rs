//! The output layer's content: what a cell's outputs look like and how many rows they need.

use crate::ansi::{ansi_lines, lines};
use crate::document::{list_of, multiline, multiline_text, opt_text, raw_outputs, Cell};
use crate::json::{json_views, v_get, v_str, Json, JsonV};
use crate::style::{
    char_columns, char_width, columns, dim_style, fg_style, lines_view, no_style, spans_text,
    spans_view, styled_line, text_width, Color, Line, LineV, Span, SpanV, Style,
};
use crate::text::{
    append_chars, cat3, chars_of, decimal, decimal_chars, is_white, join, join_lines, one, split,
    str_eq, string_of, texts, white,
};
use vstd::prelude::*;

verus! {

/// Text rows shown per cell before the head is elided.
pub const MAX_TEXT_ROWS: usize = 40;

/// Image height cap, in rows.
pub const MAX_IMAGE_ROWS: u16 = 24;

/// `image`'s decoded picture.
#[verifier::external_type_specification]
#[verifier::external_body]
pub struct ExDynamicImage(image::DynamicImage);

#[derive(Debug)]
pub enum Block {
    Text(Vec<Line>),
    /// A picture, by the text that encodes it, and its size in cells.
    Image { source: String, cols: u16, rows: u16 },
}

/// What a [`Block`] holds.
pub enum BlockV {
    Text(Seq<LineV>),
    Image { source: Seq<char>, cols: u16, rows: u16 },
}

impl View for Block {
    type V = BlockV;

    open spec fn view(&self) -> BlockV {
        match *self {
            Block::Text(l) => BlockV::Text(lines_view(l@)),
            Block::Image { source, cols, rows } => BlockV::Image { source: source@, cols, rows },
        }
    }
}

pub open spec fn blocks_view(v: Seq<Block>) -> Seq<BlockV> {
    Seq::new(v.len(), |i: int| v[i]@)
}

pub open spec fn block_rows(b: BlockV) -> int {
    match b {
        BlockV::Text(l) => l.len() as int,
        BlockV::Image { rows, .. } => rows as int,
    }
}

impl Block {
    pub fn height(&self) -> (r: usize)
        ensures
            r == block_rows(self@),
    {
        match self {
            Block::Text(l) => l.len(),
            Block::Image { rows, .. } => *rows as usize,
        }
    }
}

/// A cell's rendered outputs.
#[derive(Debug)]
pub struct OutputView {
    pub blocks: Vec<Block>,
    pub height: usize,
    /// The width the view was built for.
    pub width: u16,
}

/// A text without its white space.
pub open spec fn without_white(s: Seq<char>) -> Seq<char>
    decreases s.len(),
{
    if s.len() == 0 {
        s
    } else {
        let front = without_white(s.drop_last());
        if white(s.last()) {
            front
        } else {
            front.push(s.last())
        }
    }
}

/// The bytes that base64 encodes, or why it does not.
pub uninterp spec fn base64_read(s: Seq<char>) -> Result<Seq<u8>, Seq<char>>;

/// The size in pixels of the picture that bytes hold, or why they hold none.
pub uninterp spec fn image_read(b: Seq<u8>) -> Result<(u32, u32), Seq<char>>;

/// A picture's width and height in pixels.
pub uninterp spec fn image_size(i: image::DynamicImage) -> (u32, u32);

/// `base64`'s standard engine decodes a text, or says why it cannot.
#[verifier::external_body]
fn decode_base64(s: &str) -> (r: Result<Vec<u8>, String>)
    ensures
        match r {
            Ok(b) => base64_read(s@) == Ok::<Seq<u8>, Seq<char>>(b@),
            Err(e) => base64_read(s@) == Err::<Seq<u8>, Seq<char>>(e@),
        },
{
    let engine = &base64::engine::general_purpose::STANDARD;
    base64::Engine::decode(engine, s).map_err(|e| e.to_string())
}

/// `image::load_from_memory` decodes a picture, or says why it cannot. The bytes decide the
/// picture's size and the reason; of its pixels nothing is claimed, since a decoder may round
/// them by the instructions that the machine has. Nor is it claimed that the decoders return on
/// every malformed picture, and do not panic.
#[verifier::external_body]
fn load_image(b: &[u8]) -> (r: Result<image::DynamicImage, String>)
    ensures
        match r {
            Ok(i) => image_read(b@) == Ok::<(u32, u32), Seq<char>>(image_size(i)),
            Err(e) => image_read(b@) == Err::<(u32, u32), Seq<char>>(e@),
        },
{
    image::load_from_memory(b).map_err(|e| e.to_string())
}

/// `DynamicImage::width` and `height`.
#[verifier::external_body]
fn size_of_image(i: &image::DynamicImage) -> (r: (u32, u32))
    ensures
        r == image_size(*i),
{
    (i.width(), i.height())
}

/// The size of the picture that a text encodes, or why it encodes none.
pub open spec fn picture_size(source: Seq<char>) -> Result<(u32, u32), Seq<char>> {
    match base64_read(without_white(source)) {
        Ok(b) => image_read(b),
        Err(e) => Err(e),
    }
}

/// Decodes a picture from base64.
pub fn decode(source: &str) -> (r: Result<image::DynamicImage, String>)
    ensures
        match r {
            Ok(i) => picture_size(source@) == Ok::<(u32, u32), Seq<char>>(image_size(i)),
            Err(e) => picture_size(source@) == Err::<(u32, u32), Seq<char>>(e@),
        },
{
    let v = chars_of(source);
    let mut clean: Vec<char> = Vec::new();
    let mut i: usize = 0;
    assert(clean@ =~= without_white(v@.take(0)));
    while i < v.len()
        invariant
            i <= v@.len(),
            clean@ == without_white(v@.take(i as int)),
        decreases v@.len() - i,
    {
        assert(v@.take(i + 1).drop_last() =~= v@.take(i as int));
        assert(v@.take(i + 1).last() == v@[i as int]);
        if !is_white(v[i]) {
            clean.push(v[i]);
        }
        i += 1;
    }
    assert(v@.take(i as int) =~= v@);
    match decode_base64(string_of(&clean).as_str()) {
        Ok(b) => load_image(b.as_slice()),
        Err(e) => Err(e),
    }
}

pub open spec fn size_view(r: Result<(u32, u32), String>) -> Result<(u32, u32), Seq<char>> {
    match r {
        Ok(s) => Ok(s),
        Err(e) => Err(e@),
    }
}

/// The sizes of pictures seen, so that re-rendering does not re-decode.
#[derive(Debug)]
pub struct Images {
    pub decoded: Vec<(String, Result<(u32, u32), String>)>,
}

impl Default for Images {
    fn default() -> (r: Self)
        ensures
            r.wf(),
    {
        Images { decoded: Vec::new() }
    }
}

impl Images {
    /// What is remembered is what decoding gives.
    pub open spec fn wf(&self) -> bool {
        forall|i: int|
            0 <= i < self.decoded@.len() ==> size_view((#[trigger] self.decoded@[i]).1)
                == picture_size(self.decoded@[i].0@)
    }

    /// The size of the picture that a text encodes, or why it encodes none.
    pub fn get(&mut self, source: &str) -> (r: Result<(u32, u32), String>)
        requires
            old(self).wf(),
        ensures
            final(self).wf(),
            size_view(r) == picture_size(source@),
    {
        let mut i: usize = 0;
        while i < self.decoded.len()
            invariant
                self.wf(),
                i <= self.decoded@.len(),
            decreases self.decoded@.len() - i,
        {
            if str_eq(self.decoded[i].0.as_str(), source) {
                return match &self.decoded[i].1 {
                    Ok(s) => Ok(*s),
                    Err(e) => Err(e.clone()),
                };
            }
            i += 1;
        }
        let size = match decode(source) {
            Ok(image) => Ok(size_of_image(&image)),
            Err(e) => Err(e),
        };
        let copy = match &size {
            Ok(s) => Ok(*s),
            Err(e) => Err(e.clone()),
        };
        self.decoded.push((source.to_string(), copy));
        size
    }
}

/// Text as a terminal shows it, without the line break it ends with.
pub open spec fn text_rows(text: Seq<char>, base: Style) -> Seq<LineV> {
    ansi_lines(
        split(
            if text.len() > 0 && text.last() == '\n' {
                text.drop_last()
            } else {
                text
            },
            '\n',
        ),
        base,
    ).0
}

fn text_block(text: &str, base: Style) -> (r: Vec<Line>)
    ensures
        lines_view(r@) == text_rows(text@, base),
{
    let mut v = chars_of(text);
    if v.len() > 0 && v[v.len() - 1] == '\n' {
        let _ = v.pop();
        assert(v@ =~= text@.drop_last());
    }
    lines(string_of(&v).as_str(), base)
}

/// The columns that a line takes.
pub open spec fn line_columns(spans: Seq<SpanV>) -> nat
    decreases spans.len(),
{
    if spans.len() == 0 {
        0
    } else {
        line_columns(spans.drop_last()) + columns(spans.last().content)
    }
}

/// A line being wrapped: the rows done, the spans of the next, the text of its last span, and
/// its column.
pub struct WrapV {
    pub rows: Seq<LineV>,
    pub row: Seq<SpanV>,
    pub run: Seq<char>,
    pub col: int,
}

pub open spec fn columns_of(c: char) -> int {
    match char_columns(c) {
        Some(w) => w as int,
        None => 0,
    }
}

/// One more character: on this row if it fits, or if the row is empty, else on the next.
pub open spec fn wrap_char(st: WrapV, c: char, width: int, span: Style, line: Style) -> WrapV {
    let w = columns_of(c);
    if st.col + w > width && st.col > 0 {
        WrapV {
            rows: st.rows.push(
                LineV { spans: st.row.push(SpanV { content: st.run, style: span }), style: line },
            ),
            row: Seq::empty(),
            run: seq![c],
            col: w,
        }
    } else {
        WrapV { run: st.run.push(c), col: st.col + w, ..st }
    }
}

pub open spec fn wrap_chars(st: WrapV, s: Seq<char>, width: int, span: Style, line: Style) -> WrapV
    decreases s.len(),
{
    if s.len() == 0 {
        st
    } else {
        wrap_char(wrap_chars(st, s.drop_last(), width, span, line), s.last(), width, span, line)
    }
}

/// One more span.
pub open spec fn wrap_span(st: WrapV, span: SpanV, width: int, line: Style) -> WrapV {
    let r = wrap_chars(
        WrapV { run: Seq::empty(), ..st },
        span.content,
        width,
        span.style,
        line,
    );
    if r.run.len() > 0 {
        WrapV {
            row: r.row.push(SpanV { content: r.run, style: span.style }),
            run: Seq::empty(),
            ..r
        }
    } else {
        r
    }
}

pub open spec fn wrap_spans(spans: Seq<SpanV>, width: int, line: Style) -> WrapV
    decreases spans.len(),
{
    if spans.len() == 0 {
        WrapV { rows: Seq::empty(), row: Seq::empty(), run: Seq::empty(), col: 0 }
    } else {
        wrap_span(wrap_spans(spans.drop_last(), width, line), spans.last(), width, line)
    }
}

/// The rows of a line at `width` columns.
pub open spec fn wrapped_line(l: LineV, width: int) -> Seq<LineV> {
    if line_columns(l.spans) <= width {
        seq![l]
    } else {
        let st = wrap_spans(l.spans, width, l.style);
        st.rows.push(LineV { spans: st.row, style: l.style })
    }
}

pub open spec fn at_least_one(width: u16) -> int {
    if width > 1 {
        width as int
    } else {
        1
    }
}

/// The rows of lines at `width` columns.
pub open spec fn wrapped(l: Seq<LineV>, width: int) -> Seq<LineV>
    decreases l.len(),
{
    if l.len() == 0 {
        Seq::empty()
    } else {
        wrapped(l.drop_last(), width) + wrapped_line(l.last(), width)
    }
}

fn fits(line: &Line, width: usize) -> (r: bool)
    ensures
        r == (line_columns(line@.spans) <= width),
{
    let ghost all = line@.spans;
    let mut left: usize = width;
    let mut i: usize = 0;
    assert(all.take(0) =~= Seq::empty());
    while i < line.spans.len()
        invariant
            i <= line.spans@.len(),
            all == spans_view(line.spans@),
            line_columns(all.take(i as int)) + left == width,
        decreases line.spans@.len() - i,
    {
        assert(all.take(i + 1).drop_last() =~= all.take(i as int));
        assert(all.take(i + 1).last() == line.spans@[i as int]@);
        let w = text_width(line.spans[i].content.as_str());
        if w > left {
            proof {
                lemma_columns_grow(all, i + 1);
            }
            return false;
        }
        left -= w;
        i += 1;
    }
    assert(all.take(i as int) =~= all);
    true
}

proof fn lemma_columns_grow(spans: Seq<SpanV>, n: int)
    requires
        0 <= n <= spans.len(),
    ensures
        line_columns(spans.take(n)) <= line_columns(spans),
    decreases spans.len(),
{
    if n < spans.len() {
        lemma_columns_grow(spans.drop_last(), n);
        assert(spans.drop_last().take(n) =~= spans.take(n));
    } else {
        assert(spans.take(n) =~= spans);
    }
}

/// A line being wrapped.
struct Wrapper {
    rows: Vec<Line>,
    row: Vec<Span>,
    run: Vec<char>,
    col: usize,
}

impl Wrapper {
    spec fn seen(&self) -> WrapV {
        WrapV {
            rows: lines_view(self.rows@),
            row: spans_view(self.row@),
            run: self.run@,
            col: self.col as int,
        }
    }

    fn put(&mut self, c: char, width: usize, span: Style, line: Style)
        ensures
            final(self).seen() == wrap_char(old(self).seen(), c, width as int, span, line),
    {
        let w = match char_width(c) {
            Some(w) => w,
            None => 0,
        };
        if self.col > 0 && (w > width || self.col > width - w) {
            let ghost rows = lines_view(self.rows@);
            let ghost row = spans_view(self.row@);
            let ghost run = self.run@;
            let mut spans: Vec<Span> = Vec::new();
            std::mem::swap(&mut spans, &mut self.row);
            spans.push(Span { content: string_of(&self.run), style: span });
            assert(spans_view(spans@) =~= row.push(SpanV { content: run, style: span }));
            let l = Line { spans, style: line };
            let ghost lv = l@;
            self.rows.push(l);
            assert(lines_view(self.rows@) =~= rows.push(lv));
            assert(spans_view(self.row@) =~= Seq::empty());
            self.run = Vec::new();
            self.run.push(c);
            assert(self.run@ =~= seq![c]);
            self.col = w;
        } else {
            self.run.push(c);
            self.col = self.col + w;
        }
    }

    fn put_span(&mut self, span: &Span, width: usize, line: Style)
        ensures
            final(self).seen() == wrap_span(old(self).seen(), span@, width as int, line),
    {
        let s = chars_of(span.content.as_str());
        let ghost start = WrapV { run: Seq::empty(), ..self.seen() };
        self.run = Vec::new();
        assert(self.run@ =~= Seq::empty());
        let mut i: usize = 0;
        assert(s@.take(0) =~= Seq::empty());
        while i < s.len()
            invariant
                i <= s@.len(),
                s@ == span.content@,
                self.seen() == wrap_chars(
                    start,
                    s@.take(i as int),
                    width as int,
                    span.style,
                    line,
                ),
            decreases s@.len() - i,
        {
            assert(s@.take(i + 1).drop_last() =~= s@.take(i as int));
            assert(s@.take(i + 1).last() == s@[i as int]);
            self.put(s[i], width, span.style, line);
            i += 1;
        }
        assert(s@.take(i as int) =~= s@);
        if self.run.len() > 0 {
            let ghost row = spans_view(self.row@);
            let ghost run = self.run@;
            self.row.push(Span { content: string_of(&self.run), style: span.style });
            assert(spans_view(self.row@) =~= row.push(
                SpanV { content: run, style: span.style },
            ));
            self.run = Vec::new();
            assert(self.run@ =~= Seq::empty());
        }
    }
}

fn wrap_one(line: &Line, width: usize) -> (r: Vec<Line>)
    ensures
        lines_view(r@) == wrapped_line(line@, width as int),
{
    if fits(line, width) {
        let mut out: Vec<Line> = Vec::new();
        out.push(line.clone());
        assert(lines_view(out@) =~= seq![line@]);
        return out;
    }
    let ghost all = line@.spans;
    let mut w = Wrapper { rows: Vec::new(), row: Vec::new(), run: Vec::new(), col: 0 };
    let mut i: usize = 0;
    assert(lines_view(w.rows@) =~= Seq::empty());
    assert(spans_view(w.row@) =~= Seq::empty());
    assert(w.run@ =~= Seq::empty());
    assert(all.take(0) =~= Seq::empty());
    while i < line.spans.len()
        invariant
            i <= line.spans@.len(),
            all == spans_view(line.spans@),
            w.seen() == wrap_spans(all.take(i as int), width as int, line.style),
        decreases line.spans@.len() - i,
    {
        assert(all.take(i + 1).drop_last() =~= all.take(i as int));
        assert(all.take(i + 1).last() == line.spans@[i as int]@);
        w.put_span(&line.spans[i], width, line.style);
        i += 1;
    }
    assert(all.take(i as int) =~= all);
    let ghost rows = lines_view(w.rows@);
    let last = Line { spans: w.row, style: line.style };
    let ghost lv = last@;
    let mut out = w.rows;
    out.push(last);
    assert(lines_view(out@) =~= rows.push(lv));
    out
}

/// Wraps lines at `width` columns, as Neovim's `wrap` does without `linebreak`.
pub fn wrap(l: &Vec<Line>, width: u16) -> (r: Vec<Line>)
    ensures
        lines_view(r@) == wrapped(lines_view(l@), at_least_one(width)),
{
    let width = if width > 1 {
        width as usize
    } else {
        1
    };
    let ghost all = lines_view(l@);
    let mut out: Vec<Line> = Vec::new();
    let mut i: usize = 0;
    assert(lines_view(out@) =~= wrapped(all.take(0), width as int));
    while i < l.len()
        invariant
            i <= l@.len(),
            all == lines_view(l@),
            lines_view(out@) == wrapped(all.take(i as int), width as int),
        decreases l@.len() - i,
    {
        assert(all.take(i + 1).drop_last() =~= all.take(i as int));
        assert(all.take(i + 1).last() == l@[i as int]@);
        let mut rows = wrap_one(&l[i], width);
        let ghost before = lines_view(out@);
        let ghost more = lines_view(rows@);
        out.append(&mut rows);
        assert(lines_view(out@) =~= before + more);
        i += 1;
    }
    assert(all.take(i as int) =~= all);
    out
}

pub open spec fn text_of(o: JsonV, key: Seq<char>) -> Option<Seq<char>> {
    v_str(v_get(Some(o), key))
}

pub open spec fn or_text(t: Option<Seq<char>>, other: Seq<char>) -> Seq<char> {
    match t {
        Some(s) => s,
        None => other,
    }
}

/// The strings among values.
pub open spec fn strings_in(a: Seq<JsonV>) -> Seq<Seq<char>>
    decreases a.len(),
{
    if a.len() == 0 {
        Seq::empty()
    } else {
        let front = strings_in(a.drop_last());
        match a.last() {
            JsonV::String(s) => front.push(s),
            _ => front,
        }
    }
}

/// What an error shows: its traceback, or its name and value.
pub open spec fn error_text(o: JsonV) -> Seq<char> {
    let tb = strings_in(list_of(v_get(Some(o), "traceback"@)));
    if tb.len() == 0 {
        or_text(text_of(o, "ename"@), "Error"@) + ": "@ + or_text(text_of(o, "evalue"@), ""@)
    } else {
        join(tb, one('\n'))
    }
}

/// The data of an output.
pub open spec fn data_of(o: JsonV) -> JsonV {
    match v_get(Some(o), "data"@) {
        Some(d) => d,
        None => JsonV::Null,
    }
}

/// The picture in data, if any: its media type and the text that encodes it.
pub open spec fn picture_in(data: JsonV) -> Option<(Seq<char>, Seq<char>)> {
    if v_get(Some(data), "image/png"@) is Some {
        Some(("image/png"@, multiline_text(v_get(Some(data), "image/png"@))))
    } else if v_get(Some(data), "image/jpeg"@) is Some {
        Some(("image/jpeg"@, multiline_text(v_get(Some(data), "image/jpeg"@))))
    } else if v_get(Some(data), "image/gif"@) is Some {
        Some(("image/gif"@, multiline_text(v_get(Some(data), "image/gif"@))))
    } else {
        None
    }
}

pub open spec fn kind_of(o: JsonV) -> Seq<char> {
    or_text(text_of(o, "output_type"@), ""@)
}

pub open spec fn shows_data(o: JsonV) -> bool {
    kind_of(o) == "execute_result"@ || kind_of(o) == "display_data"@
}

/// The text that encodes the picture an output shows, if it shows one that can be decoded.
pub open spec fn shown_picture(o: JsonV) -> Option<Seq<char>> {
    if kind_of(o) != "stream"@ && kind_of(o) != "error"@ && shows_data(o) {
        match picture_in(data_of(o)) {
            Some((_, source)) => if picture_size(source) is Ok {
                Some(source)
            } else {
                None
            },
            None => None,
        }
    } else {
        None
    }
}

/// What an output's data shows: a picture (`size` in cells), or why it is not shown; else text;
/// else that there is something.
pub open spec fn data_block(data: JsonV, size: (u16, u16)) -> Option<BlockV> {
    match picture_in(data) {
        Some((mime, source)) => match picture_size(source) {
            Ok(_) => Some(BlockV::Image { source, cols: size.0, rows: size.1 }),
            Err(e) => Some(
                BlockV::Text(
                    seq![
                        styled_line(
                            mime + " could not be decoded: "@ + e,
                            fg_style(Color::LightRed),
                        ),
                    ],
                ),
            ),
        },
        None => match v_get(Some(data), "text/plain"@) {
            Some(t) => Some(BlockV::Text(text_rows(multiline_text(Some(t)), no_style()))),
            None => match data {
                JsonV::Object(o) => if o.len() > 0 {
                    Some(
                        BlockV::Text(
                            seq![styled_line("["@ + o[0].0 + " output]"@, dim_style())],
                        ),
                    )
                } else {
                    None
                },
                _ => None,
            },
        },
    }
}

/// What an output shows.
pub open spec fn output_block(o: JsonV, size: (u16, u16)) -> Option<BlockV> {
    let kind = kind_of(o);
    if kind == "stream"@ {
        Some(
            BlockV::Text(
                text_rows(
                    multiline_text(v_get(Some(o), "text"@)),
                    if text_of(o, "name"@) == Some("stderr"@) {
                        fg_style(Color::LightRed)
                    } else {
                        no_style()
                    },
                ),
            ),
        )
    } else if kind == "error"@ {
        Some(BlockV::Text(text_rows(error_text(o), no_style())))
    } else if shows_data(o) {
        data_block(data_of(o), size)
    } else {
        Some(
            BlockV::Text(
                seq![styled_line("[unsupported output: "@ + kind + "]"@, dim_style())],
            ),
        )
    }
}

/// The texts that encode the pictures that outputs show.
pub open spec fn shown_pictures(outputs: Seq<JsonV>) -> Seq<Seq<char>>
    decreases outputs.len(),
{
    if outputs.len() == 0 {
        Seq::empty()
    } else {
        let front = shown_pictures(outputs.drop_last());
        match shown_picture(outputs.last()) {
            Some(source) => front.push(source),
            None => front,
        }
    }
}

pub open spec fn size_at(sizes: Seq<(u16, u16)>, i: int) -> (u16, u16) {
    if 0 <= i < sizes.len() {
        sizes[i]
    } else {
        (1, 1)
    }
}

/// What outputs show, wrapped at `width` columns. `sizes` has the sizes of the pictures shown.
pub open spec fn output_blocks(outputs: Seq<JsonV>, sizes: Seq<(u16, u16)>, width: int) -> Seq<
    BlockV,
>
    decreases outputs.len(),
{
    if outputs.len() == 0 {
        Seq::empty()
    } else {
        let front = output_blocks(outputs.drop_last(), sizes, width);
        let k = shown_pictures(outputs.drop_last()).len() as int;
        match output_block(outputs.last(), size_at(sizes, k)) {
            Some(b) => front.push(wrapped_block(b, width)),
            None => front,
        }
    }
}

pub open spec fn wrapped_block(b: BlockV, width: int) -> BlockV {
    match b {
        BlockV::Text(l) => BlockV::Text(wrapped(l, width)),
        _ => b,
    }
}

/// The rows of text in blocks.
pub open spec fn text_total(blocks: Seq<BlockV>) -> int
    decreases blocks.len(),
{
    if blocks.len() == 0 {
        0
    } else {
        text_total(blocks.drop_last()) + match blocks.last() {
            BlockV::Text(l) => l.len() as int,
            _ => 0,
        }
    }
}

/// The line that stands for rows left out.
pub open spec fn elision(hidden: int) -> LineV {
    LineV {
        spans: seq![
            SpanV {
                content: "⋯ "@ + decimal(hidden as nat) + " earlier rows"@,
                style: dim_style(),
            },
        ],
        style: no_style(),
    }
}

/// Blocks without the first `drop` rows of text, from block `i` on. The first block of text
/// says how many rows are hidden.
pub open spec fn elided(blocks: Seq<BlockV>, i: int, drop: int, hidden: int, marked: bool) -> Seq<
    BlockV,
>
    decreases blocks.len() - i,
{
    if i < 0 || i >= blocks.len() || (marked && drop == 0) {
        blocks
    } else {
        match blocks[i] {
            BlockV::Text(l) => {
                let n = if drop < l.len() {
                    drop
                } else {
                    l.len() as int
                };
                let rest = l.skip(n);
                let shown = if marked {
                    rest
                } else {
                    rest.insert(0, elision(hidden))
                };
                elided(
                    blocks.update(i, BlockV::Text(shown)),
                    i + 1,
                    drop - n,
                    hidden,
                    true,
                )
            },
            _ => elided(blocks, i + 1, drop, hidden, marked),
        }
    }
}

/// Blocks with at most `MAX_TEXT_ROWS` rows of text: the last ones, for long-running output the
/// latest lines matter most. (More rows than a machine can count are left alone.)
pub open spec fn capped(blocks: Seq<BlockV>) -> Seq<BlockV> {
    let total = text_total(blocks);
    if total <= MAX_TEXT_ROWS || total > usize::MAX {
        blocks
    } else {
        let drop = total - MAX_TEXT_ROWS + 1;
        elided(blocks, 0, drop, drop, false)
    }
}

pub open spec fn rows_total(blocks: Seq<BlockV>) -> int
    decreases blocks.len(),
{
    if blocks.len() == 0 {
        0
    } else {
        rows_total(blocks.drop_last()) + block_rows(blocks.last())
    }
}

/// What a cell shows under its box: its outputs, then why the last run could not happen.
pub open spec fn shown_blocks(
    outputs: Seq<JsonV>,
    error: Option<Seq<char>>,
    sizes: Seq<(u16, u16)>,
    width: int,
) -> Seq<BlockV> {
    let blocks = capped(output_blocks(outputs, sizes, width));
    match error {
        Some(e) => blocks.push(
            BlockV::Text(wrapped(text_rows(e, fg_style(Color::LightRed)), width)),
        ),
        None => blocks,
    }
}

fn text_or(o: &Json, key: &str, other: &str) -> (r: String)
    ensures
        r@ == or_text(text_of(o@, key@), other@),
{
    match o.get(key) {
        Some(v) => match v.as_str() {
            Some(s) => s.to_string(),
            None => other.to_string(),
        },
        None => other.to_string(),
    }
}

fn error_string(o: &Json) -> (r: String)
    ensures
        r@ == error_text(o@),
{
    let mut tb: Vec<String> = Vec::new();
    let ghost all = list_of(v_get(Some(o@), "traceback"@));
    assert(texts(tb@) =~= strings_in(all.take(0)));
    match o.get("traceback") {
        Some(Json::Array(a)) => {
            let mut i: usize = 0;
            while i < a.len()
                invariant
                    i <= a@.len(),
                    all.len() == a@.len(),
                    forall|j: int| 0 <= j < all.len() ==> #[trigger] all[j] == a@[j]@,
                    texts(tb@) == strings_in(all.take(i as int)),
                decreases a@.len() - i,
            {
                let ghost before = texts(tb@);
                assert(all.take(i + 1).drop_last() =~= all.take(i as int));
                assert(all.take(i + 1).last() == a@[i as int]@);
                if let Json::String(s) = &a[i] {
                    tb.push(s.clone());
                    assert(texts(tb@) =~= before.push(s@));
                }
                i += 1;
            }
            assert(all.take(i as int) =~= all);
        },
        _ => {
            assert(all =~= Seq::empty());
            assert(all.take(0) =~= all);
        },
    }
    assert(texts(tb@).len() == tb@.len());
    if tb.len() == 0 {
        let name = text_or(o, "ename", "Error");
        let value = text_or(o, "evalue", "");
        cat3(name.as_str(), ": ", value.as_str())
    } else {
        join_lines(&tb)
    }
}

fn find_picture(data: &Json) -> (r: Option<(&'static str, String)>)
    ensures
        match r {
            Some((mime, source)) => picture_in(data@) == Some((mime@, source@)),
            None => picture_in(data@) is None,
        },
{
    if let Some(v) = data.get("image/png") {
        return Some(("image/png", multiline(Some(v))));
    }
    if let Some(v) = data.get("image/jpeg") {
        return Some(("image/jpeg", multiline(Some(v))));
    }
    if let Some(v) = data.get("image/gif") {
        return Some(("image/gif", multiline(Some(v))));
    }
    None
}

fn one_line(l: Line) -> (r: Block)
    ensures
        r@ == BlockV::Text(seq![l@]),
{
    let mut v: Vec<Line> = Vec::new();
    v.push(l);
    assert(lines_view(v@) =~= seq![l@]);
    Block::Text(v)
}

fn build_data(data: &Json, size: (u16, u16), images: &mut Images) -> (r: Option<Block>)
    requires
        old(images).wf(),
    ensures
        final(images).wf(),
        match r {
            Some(b) => data_block(data@, size) == Some(b@),
            None => data_block(data@, size) is None,
        },
{
    if let Some((mime, source)) = find_picture(data) {
        return match images.get(source.as_str()) {
            Ok(_) => Some(Block::Image { source, cols: size.0, rows: size.1 }),
            Err(e) => {
                let text = cat3(mime, " could not be decoded: ", e.as_str());
                Some(one_line(Line::styled(text, Style::of_fg(Color::LightRed))))
            },
        };
    }
    if let Some(t) = data.get("text/plain") {
        return Some(Block::Text(text_block(multiline(Some(t)).as_str(), Style::default())));
    }
    match data {
        Json::Object(o) => {
            assert(data@ == JsonV::Object(o@));
            if o.entries.len() > 0 {
                assert(o@[0].0 == o.entries@[0].0@);
                let text = cat3("[", o.entries[0].0.as_str(), " output]");
                Some(one_line(Line::styled(text, Style::dim())))
            } else {
                None
            }
        },
        _ => None,
    }
}

fn build_output(o: &Json, size: (u16, u16), images: &mut Images) -> (r: Option<Block>)
    requires
        old(images).wf(),
    ensures
        final(images).wf(),
        match r {
            Some(b) => output_block(o@, size) == Some(b@),
            None => output_block(o@, size) is None,
        },
{
    let kind = text_or(o, "output_type", "");
    if str_eq(kind.as_str(), "stream") {
        let err = match o.get("name") {
            Some(v) => match v.as_str() {
                Some(n) => str_eq(n, "stderr"),
                None => false,
            },
            None => false,
        };
        let base = if err {
            Style::of_fg(Color::LightRed)
        } else {
            Style::default()
        };
        return Some(Block::Text(text_block(multiline(o.get("text")).as_str(), base)));
    }
    if str_eq(kind.as_str(), "error") {
        return Some(Block::Text(text_block(error_string(o).as_str(), Style::default())));
    }
    if str_eq(kind.as_str(), "execute_result") || str_eq(kind.as_str(), "display_data") {
        return match o.get("data") {
            Some(d) => build_data(d, size, images),
            None => build_data(&Json::Null, size, images),
        };
    }
    let text = cat3("[unsupported output: ", kind.as_str(), "]");
    Some(one_line(Line::styled(text, Style::dim())))
}

fn has_picture(o: &Json, images: &mut Images) -> (r: Option<(String, (u32, u32))>)
    requires
        old(images).wf(),
    ensures
        final(images).wf(),
        match r {
            Some((source, size)) => shown_picture(o@) == Some(source@) && picture_size(source@)
                == Ok::<(u32, u32), Seq<char>>(size),
            None => shown_picture(o@) is None,
        },
{
    let kind = text_or(o, "output_type", "");
    if str_eq(kind.as_str(), "stream") || str_eq(kind.as_str(), "error") {
        return None;
    }
    if !(str_eq(kind.as_str(), "execute_result") || str_eq(kind.as_str(), "display_data")) {
        return None;
    }
    let found = match o.get("data") {
        Some(d) => find_picture(d),
        None => find_picture(&Json::Null),
    };
    match found {
        Some((_, source)) => match images.get(source.as_str()) {
            Ok(size) => Some((source, size)),
            Err(_) => None,
        },
        None => None,
    }
}

/// The pictures that a cell's outputs show: the text that encodes each, and its size in pixels.
pub fn pictures(cell: &Cell, images: &mut Images) -> (r: Vec<(String, (u32, u32))>)
    requires
        old(images).wf(),
    ensures
        final(images).wf(),
        Seq::new(r@.len(), |i: int| r@[i].0@) == shown_pictures(raw_outputs(cell.raw@)),
        forall|i: int|
            0 <= i < r@.len() ==> picture_size((#[trigger] r@[i]).0@) == Ok::<
                (u32, u32),
                Seq<char>,
            >(r@[i].1),
{
    let outputs = cell.outputs();
    let ghost all = raw_outputs(cell.raw@);
    let mut out: Vec<(String, (u32, u32))> = Vec::new();
    let mut i: usize = 0;
    assert(Seq::new(out@.len(), |i: int| out@[i].0@) =~= shown_pictures(all.take(0)));
    while i < outputs.len()
        invariant
            i <= outputs@.len(),
            all == json_views(outputs@),
            images.wf(),
            Seq::new(out@.len(), |i: int| out@[i].0@) == shown_pictures(all.take(i as int)),
            forall|j: int|
                0 <= j < out@.len() ==> picture_size((#[trigger] out@[j]).0@) == Ok::<
                    (u32, u32),
                    Seq<char>,
                >(out@[j].1),
        decreases outputs@.len() - i,
    {
        assert(all.take(i + 1).drop_last() =~= all.take(i as int));
        assert(all.take(i + 1).last() == outputs@[i as int]@);
        let ghost before = Seq::new(out@.len(), |i: int| out@[i].0@);
        if let Some((source, size)) = has_picture(&outputs[i], images) {
            let ghost sv = source@;
            out.push((source, size));
            assert(Seq::new(out@.len(), |i: int| out@[i].0@) =~= before.push(sv));
        }
        i += 1;
    }
    assert(all.take(i as int) =~= all);
    out
}

fn wrap_block(b: Block, width: u16) -> (r: Block)
    ensures
        r@ == wrapped_block(b@, at_least_one(width)),
{
    match b {
        Block::Text(l) => Block::Text(wrap(&l, width)),
        Block::Image { source, cols, rows } => Block::Image { source, cols, rows },
    }
}

fn elision_line(hidden: usize) -> (r: Line)
    ensures
        r@ == elision(hidden as int),
{
    let mut text = chars_of("⋯ ");
    append_chars(&mut text, &decimal_chars(hidden as u64));
    append_chars(&mut text, &chars_of(" earlier rows"));
    let mut spans: Vec<Span> = Vec::new();
    spans.push(Span { content: string_of(&text), style: Style::dim() });
    let r = Line { spans, style: Style::default() };
    assert(r@.spans =~= elision(hidden as int).spans);
    r
}

pub open spec fn opt_line(l: Option<Line>) -> Seq<LineV> {
    match l {
        Some(l) => seq![l@],
        None => Seq::empty(),
    }
}

/// Lines without the first `n`, with another line in front if given.
fn drop_lines(l: &Vec<Line>, n: usize, first: Option<Line>) -> (r: Vec<Line>)
    requires
        n <= l@.len(),
    ensures
        lines_view(r@) == opt_line(first) + lines_view(l@).skip(n as int),
{
    let mut out: Vec<Line> = Vec::new();
    let ghost head = opt_line(first);
    if let Some(f) = first {
        out.push(f);
    }
    let ghost all = lines_view(l@);
    assert(lines_view(out@) =~= head);
    let mut i: usize = n;
    assert(head + all.subrange(n as int, n as int) =~= head);
    while i < l.len()
        invariant
            n <= i <= l@.len(),
            all == lines_view(l@),
            lines_view(out@) == head + all.subrange(n as int, i as int),
        decreases l@.len() - i,
    {
        let ghost before = lines_view(out@);
        out.push(l[i].clone());
        assert(lines_view(out@) =~= before.push(all[i as int]));
        assert(head + all.subrange(n as int, i + 1) =~= (head + all.subrange(
            n as int,
            i as int,
        )).push(all[i as int]));
        i += 1;
    }
    assert(lines_view(out@) =~= head + all.skip(n as int));
    out
}

/// Keeps the last `MAX_TEXT_ROWS` text (display) rows of a cell, eliding the head: for
/// long-running output the latest lines matter most.
fn cap_text(blocks: &mut Vec<Block>)
    ensures
        blocks_view(final(blocks)@) == capped(blocks_view(old(blocks)@)),
{
    let ghost before = blocks_view(blocks@);
    let mut total: usize = 0;
    let mut i: usize = 0;
    assert(before.take(0) =~= Seq::empty());
    while i < blocks.len()
        invariant
            i <= blocks@.len(),
            before == blocks_view(blocks@),
            before == blocks_view(old(blocks)@),
            total == text_total(before.take(i as int)),
        decreases blocks@.len() - i,
    {
        assert(before.take(i + 1).drop_last() =~= before.take(i as int));
        assert(before.take(i + 1).last() == blocks@[i as int]@);
        proof {
            lemma_total_grows(before, i + 1);
        }
        if let Block::Text(l) = &blocks[i] {
            if l.len() > usize::MAX - total {
                return;
            }
            total = total + l.len();
        }
        i += 1;
    }
    assert(before.take(i as int) =~= before);
    if total <= MAX_TEXT_ROWS {
        return;
    }
    let hidden = total - MAX_TEXT_ROWS + 1;
    let mut drop = hidden;
    let mut marked = false;
    i = 0;
    while i < blocks.len() && !(marked && drop == 0)
        invariant
            i <= blocks@.len(),
            blocks@.len() == before.len(),
            elided(blocks_view(blocks@), i as int, drop as int, hidden as int, marked) == elided(
                before,
                0,
                hidden as int,
                hidden as int,
                false,
            ),
        decreases blocks@.len() - i,
    {
        let ghost now = blocks_view(blocks@);
        assert(now[i as int] == blocks@[i as int]@);
        let mut changed: Option<Vec<Line>> = None;
        if let Block::Text(l) = &blocks[i] {
            let n = if drop < l.len() {
                drop
            } else {
                l.len()
            };
            let first = if marked {
                None
            } else {
                Some(elision_line(hidden))
            };
            let kept = drop_lines(l, n, first);
            assert(lines_view(kept@) =~= if marked {
                lines_view(l@).skip(n as int)
            } else {
                lines_view(l@).skip(n as int).insert(0, elision(hidden as int))
            });
            changed = Some(kept);
            drop = drop - n;
            marked = true;
        }
        if let Some(l) = changed {
            let ghost lv = BlockV::Text(lines_view(l@));
            blocks.set(i, Block::Text(l));
            assert(blocks_view(blocks@) =~= now.update(i as int, lv));
        }
        i += 1;
    }
    assert(elided(blocks_view(blocks@), i as int, drop as int, hidden as int, marked)
        == blocks_view(blocks@));
}

proof fn lemma_total_grows(blocks: Seq<BlockV>, n: int)
    requires
        0 <= n <= blocks.len(),
    ensures
        0 <= text_total(blocks.take(n)) <= text_total(blocks),
    decreases blocks.len(),
{
    if n < blocks.len() {
        lemma_total_grows(blocks.drop_last(), n);
        assert(blocks.drop_last().take(n) =~= blocks.take(n));
    } else {
        assert(blocks.take(n) =~= blocks);
        if blocks.len() > 0 {
            lemma_total_grows(blocks.drop_last(), blocks.len() - 1);
            assert(blocks.drop_last().take(blocks.len() - 1) =~= blocks.drop_last());
        }
    }
}

/// The columns that a picture may take of a given width: it leaves two, and takes at least one.
pub fn picture_columns(width: u16) -> (r: u16)
    ensures
        r == if width < 3 {
            1
        } else {
            width - 2
        },
{
    if width < 3 {
        1
    } else {
        width - 2
    }
}

/// Builds the view of a cell's outputs for a given width. `sizes` has the sizes in cells of the
/// pictures that the outputs show.
pub fn build(cell: &Cell, width: u16, sizes: &Vec<(u16, u16)>, images: &mut Images) -> (r:
    OutputView)
    requires
        old(images).wf(),
    ensures
        final(images).wf(),
        r.width == width,
        blocks_view(r.blocks@) == shown_blocks(
            raw_outputs(cell.raw@),
            opt_text(cell.runtime.error),
            sizes@,
            at_least_one(width),
        ),
        r.height == {
            let n = rows_total(blocks_view(r.blocks@));
            if n <= usize::MAX {
                n
            } else {
                usize::MAX as int
            }
        },
{
    let outputs = cell.outputs();
    let ghost all = raw_outputs(cell.raw@);
    let ghost w = at_least_one(width);
    let mut blocks: Vec<Block> = Vec::new();
    let mut shown: usize = 0;
    let mut i: usize = 0;
    assert(blocks_view(blocks@) =~= output_blocks(all.take(0), sizes@, w));
    assert(shown_pictures(all.take(0)) =~= Seq::empty());
    while i < outputs.len()
        invariant
            i <= outputs@.len(),
            all == json_views(outputs@),
            w == at_least_one(width),
            images.wf(),
            shown == shown_pictures(all.take(i as int)).len(),
            shown <= i,
            blocks_view(blocks@) == output_blocks(all.take(i as int), sizes@, w),
        decreases outputs@.len() - i,
    {
        assert(all.take(i + 1).drop_last() =~= all.take(i as int));
        assert(all.take(i + 1).last() == outputs@[i as int]@);
        let ghost before = blocks_view(blocks@);
        let size = if shown < sizes.len() {
            sizes[shown]
        } else {
            (1, 1)
        };
        if let Some(b) = build_output(&outputs[i], size, images) {
            let b = wrap_block(b, width);
            let ghost bv = b@;
            blocks.push(b);
            assert(blocks_view(blocks@) =~= before.push(bv));
        }
        if has_picture(&outputs[i], images).is_some() {
            shown += 1;
        }
        i += 1;
    }
    assert(all.take(i as int) =~= all);
    cap_text(&mut blocks);
    // Why the last run could not happen: after the outputs, never elided.
    if let Some(e) = &cell.runtime.error {
        let ghost before = blocks_view(blocks@);
        let b = Block::Text(
            wrap(&text_block(e.as_str(), Style::of_fg(Color::LightRed)), width),
        );
        let ghost bv = b@;
        blocks.push(b);
        assert(blocks_view(blocks@) =~= before.push(bv));
    }
    let height = total_height(&blocks);
    OutputView { blocks, height, width }
}

fn total_height(blocks: &Vec<Block>) -> (r: usize)
    ensures
        r == {
            let n = rows_total(blocks_view(blocks@));
            if n <= usize::MAX {
                n
            } else {
                usize::MAX as int
            }
        },
{
    let ghost all = blocks_view(blocks@);
    let mut n: usize = 0;
    let mut i: usize = 0;
    assert(all.take(0) =~= Seq::empty());
    while i < blocks.len()
        invariant
            i <= blocks@.len(),
            all == blocks_view(blocks@),
            n == rows_total(all.take(i as int)),
        decreases blocks@.len() - i,
    {
        assert(all.take(i + 1).drop_last() =~= all.take(i as int));
        assert(all.take(i + 1).last() == blocks@[i as int]@);
        let h = blocks[i].height();
        if h > usize::MAX - n {
            proof {
                lemma_rows_grow(all, i + 1);
            }
            return usize::MAX;
        }
        n = n + h;
        i += 1;
    }
    assert(all.take(i as int) =~= all);
    n
}

pub proof fn lemma_rows_grow(blocks: Seq<BlockV>, n: int)
    requires
        0 <= n <= blocks.len(),
    ensures
        0 <= rows_total(blocks.take(n)) <= rows_total(blocks),
    decreases blocks.len(),
{
    if n < blocks.len() {
        lemma_rows_grow(blocks.drop_last(), n);
        assert(blocks.drop_last().take(n) =~= blocks.take(n));
    } else {
        assert(blocks.take(n) =~= blocks);
        if blocks.len() > 0 {
            lemma_rows_grow(blocks.drop_last(), blocks.len() - 1);
            assert(blocks.drop_last().take(blocks.len() - 1) =~= blocks.drop_last());
        }
    }
}

proof fn lemma_total_update(blocks: Seq<BlockV>, i: int, b: BlockV)
    requires
        0 <= i < blocks.len(),
    ensures
        text_total(blocks.update(i, b)) == text_total(blocks) - text_of_block(blocks[i])
            + text_of_block(b),
    decreases blocks.len(),
{
    let t = blocks.update(i, b);
    if i < blocks.len() - 1 {
        lemma_total_update(blocks.drop_last(), i, b);
        assert(t.drop_last() =~= blocks.drop_last().update(i, b));
    } else {
        assert(t.drop_last() =~= blocks.drop_last());
    }
}

pub open spec fn text_of_block(b: BlockV) -> int {
    match b {
        BlockV::Text(l) => l.len() as int,
        _ => 0,
    }
}

/// The rows of text from block `i` on.
spec fn text_from(blocks: Seq<BlockV>, i: int) -> int {
    text_total(blocks) - text_total(blocks.take(i))
}

proof fn lemma_elided(blocks: Seq<BlockV>, i: int, drop: int, hidden: int, marked: bool)
    requires
        0 <= i <= blocks.len(),
        0 <= drop <= text_from(blocks, i),
        marked || drop > 0,
    ensures
        text_total(elided(blocks, i, drop, hidden, marked)) == text_total(blocks) - drop + if marked {
            0int
        } else {
            1
        },
    decreases blocks.len() - i,
{
    if i < blocks.len() && !(marked && drop == 0) {
        assert(blocks.take(i + 1).drop_last() =~= blocks.take(i));
        assert(blocks.take(i + 1).last() == blocks[i]);
        lemma_total_grows(blocks, i + 1);
        match blocks[i] {
            BlockV::Text(l) => {
                let n = if drop < l.len() {
                    drop
                } else {
                    l.len() as int
                };
                let rest = l.skip(n);
                let shown = if marked {
                    rest
                } else {
                    rest.insert(0, elision(hidden))
                };
                let t = blocks.update(i, BlockV::Text(shown));
                lemma_total_update(blocks, i, BlockV::Text(shown));
                assert(t.take(i + 1).drop_last() =~= blocks.take(i));
                assert(t.take(i + 1).last() == BlockV::Text(shown));
                lemma_elided(t, i + 1, drop - n, hidden, true);
            },
            _ => {
                lemma_elided(blocks, i + 1, drop, hidden, marked);
            },
        }
    } else if i == blocks.len() {
        assert(blocks.take(i) =~= blocks);
    }
}

/// Long output shows `MAX_TEXT_ROWS` rows of text, the line that says how many are hidden
/// among them; other output shows all its rows.
pub proof fn capped_output_fits(blocks: Seq<BlockV>)
    requires
        text_total(blocks) <= usize::MAX,
    ensures
        text_total(capped(blocks)) == if text_total(blocks) <= MAX_TEXT_ROWS {
            text_total(blocks)
        } else {
            MAX_TEXT_ROWS as int
        },
{
    let total = text_total(blocks);
    if total > MAX_TEXT_ROWS {
        let drop = total - MAX_TEXT_ROWS + 1;
        assert(blocks.take(0) =~= Seq::empty());
        lemma_elided(blocks, 0, drop, drop, false);
    }
}

/// The text of rows, one after another.
pub open spec fn rows_text(rows: Seq<LineV>) -> Seq<char>
    decreases rows.len(),
{
    if rows.len() == 0 {
        Seq::empty()
    } else {
        rows_text(rows.drop_last()) + spans_text(rows.last().spans)
    }
}

spec fn wrap_text(st: WrapV) -> Seq<char> {
    rows_text(st.rows) + spans_text(st.row) + st.run
}

proof fn lemma_spans_push(s: Seq<SpanV>, x: SpanV)
    ensures
        spans_text(s.push(x)) == spans_text(s) + x.content,
{
    let f = |x: SpanV| x.content;
    assert(s.push(x).map_values(f).drop_last() =~= s.map_values(f));
    assert(s.push(x).map_values(f).last() == x.content);
}

proof fn lemma_rows_push(s: Seq<LineV>, x: LineV)
    ensures
        rows_text(s.push(x)) == rows_text(s) + spans_text(x.spans),
{
    assert(s.push(x).drop_last() =~= s);
}

proof fn lemma_no_spans()
    ensures
        spans_text(Seq::empty()) == Seq::<char>::empty(),
{
    assert(Seq::<SpanV>::empty().map_values(|x: SpanV| x.content) =~= Seq::empty());
}

proof fn lemma_wrap_char(st: WrapV, c: char, width: int, span: Style, line: Style)
    ensures
        wrap_text(wrap_char(st, c, width, span, line)) == wrap_text(st).push(c),
{
    let w = columns_of(c);
    if st.col + w > width && st.col > 0 {
        let last = SpanV { content: st.run, style: span };
        let l = LineV { spans: st.row.push(last), style: line };
        lemma_spans_push(st.row, last);
        lemma_rows_push(st.rows, l);
        lemma_no_spans();
        assert(wrap_text(wrap_char(st, c, width, span, line)) =~= wrap_text(st).push(c));
    } else {
        assert(wrap_text(wrap_char(st, c, width, span, line)) =~= wrap_text(st).push(c));
    }
}

proof fn lemma_wrap_chars(st: WrapV, s: Seq<char>, width: int, span: Style, line: Style)
    ensures
        wrap_text(wrap_chars(st, s, width, span, line)) == wrap_text(st) + s,
    decreases s.len(),
{
    if s.len() == 0 {
        assert(wrap_text(st) + s =~= wrap_text(st));
    } else {
        lemma_wrap_chars(st, s.drop_last(), width, span, line);
        lemma_wrap_char(
            wrap_chars(st, s.drop_last(), width, span, line),
            s.last(),
            width,
            span,
            line,
        );
        assert((wrap_text(st) + s.drop_last()).push(s.last()) =~= wrap_text(st) + s);
    }
}

proof fn lemma_wrap_spans(spans: Seq<SpanV>, width: int, line: Style)
    ensures
        wrap_text(wrap_spans(spans, width, line)) == spans_text(spans),
        wrap_spans(spans, width, line).run.len() == 0,
    decreases spans.len(),
{
    if spans.len() == 0 {
        lemma_no_spans();
        assert(spans =~= Seq::empty());
    } else {
        let front = spans.drop_last();
        lemma_wrap_spans(front, width, line);
        let st = wrap_spans(front, width, line);
        let x = spans.last();
        let fresh = WrapV { run: Seq::empty(), ..st };
        assert(st.run =~= Seq::empty());
        lemma_wrap_chars(fresh, x.content, width, x.style, line);
        let r = wrap_chars(fresh, x.content, width, x.style, line);
        lemma_spans_push(front, x);
        assert(front.push(x) =~= spans);
        if r.run.len() > 0 {
            lemma_spans_push(r.row, SpanV { content: r.run, style: x.style });
            assert(wrap_text(wrap_span(st, x, width, line)) =~= wrap_text(r));
        }
    }
}

/// Wrapping a line loses no text and adds none.
pub proof fn wrapping_keeps_text(l: LineV, width: int)
    ensures
        rows_text(wrapped_line(l, width)) == spans_text(l.spans),
{
    if line_columns(l.spans) <= width {
        lemma_rows_push(Seq::empty(), l);
        assert(Seq::<LineV>::empty().push(l) =~= seq![l]);
        assert(rows_text(Seq::empty()) + spans_text(l.spans) =~= spans_text(l.spans));
    } else {
        lemma_wrap_spans(l.spans, width, l.style);
        let st = wrap_spans(l.spans, width, l.style);
        lemma_rows_push(st.rows, LineV { spans: st.row, style: l.style });
        assert(st.run =~= Seq::empty());
        assert(wrap_text(st) =~= rows_text(st.rows) + spans_text(st.row));
    }
}

} // verus!
