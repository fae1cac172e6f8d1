//! Styled text, and how wide it is.

use crate::text::{chars_of, concat, split_keep, split_keep_chars, string_of, texts};
use vstd::prelude::*;

verus! {

#[derive(Clone, Copy, Debug, PartialEq, Eq, Structural)]
pub enum Color {
    Reset,
    Black,
    Red,
    Green,
    Yellow,
    Blue,
    Magenta,
    Cyan,
    Gray,
    DarkGray,
    LightRed,
    LightGreen,
    LightYellow,
    LightBlue,
    LightMagenta,
    LightCyan,
    White,
    Rgb(u8, u8, u8),
    Indexed(u8),
}

/// A set of emphases.
#[derive(Clone, Copy, Debug, PartialEq, Eq, Structural)]
pub struct Emphasis {
    pub bold: bool,
    pub dim: bool,
    pub italic: bool,
    pub underlined: bool,
    pub reversed: bool,
    pub crossed_out: bool,
}

pub open spec fn plain() -> Emphasis {
    Emphasis {
        bold: false,
        dim: false,
        italic: false,
        underlined: false,
        reversed: false,
        crossed_out: false,
    }
}

pub open spec fn both(a: Emphasis, b: Emphasis) -> Emphasis {
    Emphasis {
        bold: a.bold || b.bold,
        dim: a.dim || b.dim,
        italic: a.italic || b.italic,
        underlined: a.underlined || b.underlined,
        reversed: a.reversed || b.reversed,
        crossed_out: a.crossed_out || b.crossed_out,
    }
}

pub open spec fn but(a: Emphasis, b: Emphasis) -> Emphasis {
    Emphasis {
        bold: a.bold && !b.bold,
        dim: a.dim && !b.dim,
        italic: a.italic && !b.italic,
        underlined: a.underlined && !b.underlined,
        reversed: a.reversed && !b.reversed,
        crossed_out: a.crossed_out && !b.crossed_out,
    }
}

impl Emphasis {
    pub fn none() -> (r: Emphasis)
        ensures
            r == plain(),
    {
        Emphasis {
            bold: false,
            dim: false,
            italic: false,
            underlined: false,
            reversed: false,
            crossed_out: false,
        }
    }

    pub fn with(self, other: Emphasis) -> (r: Emphasis)
        ensures
            r == both(self, other),
    {
        Emphasis {
            bold: self.bold || other.bold,
            dim: self.dim || other.dim,
            italic: self.italic || other.italic,
            underlined: self.underlined || other.underlined,
            reversed: self.reversed || other.reversed,
            crossed_out: self.crossed_out || other.crossed_out,
        }
    }

    pub fn without(self, other: Emphasis) -> (r: Emphasis)
        ensures
            r == but(self, other),
    {
        Emphasis {
            bold: self.bold && !other.bold,
            dim: self.dim && !other.dim,
            italic: self.italic && !other.italic,
            underlined: self.underlined && !other.underlined,
            reversed: self.reversed && !other.reversed,
            crossed_out: self.crossed_out && !other.crossed_out,
        }
    }
}

/// Colours and emphases to set, and emphases to take away.
#[derive(Clone, Copy, Debug, PartialEq, Eq, Structural)]
pub struct Style {
    pub fg: Option<Color>,
    pub bg: Option<Color>,
    pub underline_color: Option<Color>,
    pub added: Emphasis,
    pub removed: Emphasis,
}

/// A style that changes nothing.
pub open spec fn no_style() -> Style {
    Style { fg: None, bg: None, underline_color: None, added: plain(), removed: plain() }
}

pub open spec fn fg_style(c: Color) -> Style {
    Style { fg: Some(c), ..no_style() }
}

pub open spec fn dim_style() -> Style {
    Style { added: Emphasis { dim: true, ..plain() }, ..no_style() }
}

pub open spec fn or_color(a: Option<Color>, b: Option<Color>) -> Option<Color> {
    match a {
        Some(c) => Some(c),
        None => b,
    }
}

/// `over` applied on top of `s`.
pub open spec fn patched(s: Style, over: Style) -> Style {
    Style {
        fg: or_color(over.fg, s.fg),
        bg: or_color(over.bg, s.bg),
        underline_color: or_color(over.underline_color, s.underline_color),
        added: both(but(s.added, over.removed), over.added),
        removed: both(but(s.removed, over.added), over.removed),
    }
}

pub open spec fn emphasized(s: Style, e: Emphasis) -> Style {
    Style { added: both(s.added, e), removed: but(s.removed, e), ..s }
}

pub open spec fn relieved(s: Style, e: Emphasis) -> Style {
    Style { added: but(s.added, e), removed: both(s.removed, e), ..s }
}

impl Default for Style {
    fn default() -> (r: Self)
        ensures
            r == no_style(),
    {
        Style {
            fg: None,
            bg: None,
            underline_color: None,
            added: Emphasis::none(),
            removed: Emphasis::none(),
        }
    }
}

fn color_or(a: Option<Color>, b: Option<Color>) -> (r: Option<Color>)
    ensures
        r == or_color(a, b),
{
    match a {
        Some(c) => Some(c),
        None => b,
    }
}

impl Style {
    pub fn of_fg(c: Color) -> (r: Style)
        ensures
            r == fg_style(c),
    {
        Style { fg: Some(c), ..Style::default() }
    }

    pub fn dim() -> (r: Style)
        ensures
            r == dim_style(),
    {
        Style { added: Emphasis { dim: true, ..Emphasis::none() }, ..Style::default() }
    }

    pub fn patch(self, over: Style) -> (r: Style)
        ensures
            r == patched(self, over),
    {
        Style {
            fg: color_or(over.fg, self.fg),
            bg: color_or(over.bg, self.bg),
            underline_color: color_or(over.underline_color, self.underline_color),
            added: self.added.without(over.removed).with(over.added),
            removed: self.removed.without(over.added).with(over.removed),
        }
    }

    pub fn add_emphasis(self, e: Emphasis) -> (r: Style)
        ensures
            r == emphasized(self, e),
    {
        Style { added: self.added.with(e), removed: self.removed.without(e), ..self }
    }

    pub fn remove_emphasis(self, e: Emphasis) -> (r: Style)
        ensures
            r == relieved(self, e),
    {
        Style { added: self.added.without(e), removed: self.removed.with(e), ..self }
    }
}

/// Text in one style.
#[derive(Debug, PartialEq, Eq)]
pub struct Span {
    pub content: String,
    pub style: Style,
}

/// What a [`Span`] holds.
pub struct SpanV {
    pub content: Seq<char>,
    pub style: Style,
}

impl View for Span {
    type V = SpanV;

    open spec fn view(&self) -> SpanV {
        SpanV { content: self.content@, style: self.style }
    }
}

/// A line of text.
#[derive(Debug, PartialEq, Eq)]
pub struct Line {
    pub spans: Vec<Span>,
    pub style: Style,
}

/// What a [`Line`] holds.
pub struct LineV {
    pub spans: Seq<SpanV>,
    pub style: Style,
}

pub open spec fn spans_view(v: Seq<Span>) -> Seq<SpanV> {
    Seq::new(v.len(), |i: int| v[i]@)
}

impl View for Line {
    type V = LineV;

    open spec fn view(&self) -> LineV {
        LineV { spans: spans_view(self.spans@), style: self.style }
    }
}

pub open spec fn lines_view(v: Seq<Line>) -> Seq<LineV> {
    Seq::new(v.len(), |i: int| v[i]@)
}

impl Clone for Line {
    fn clone(&self) -> (r: Self)
        ensures
            r@ == self@,
    {
        let mut spans: Vec<Span> = Vec::new();
        let mut i: usize = 0;
        while i < self.spans.len()
            invariant
                i <= self.spans@.len(),
                spans@.len() == i,
                forall|j: int| 0 <= j < i ==> (#[trigger] spans@[j])@ == self.spans@[j]@,
            decreases self.spans@.len() - i,
        {
            spans.push(
                Span { content: self.spans[i].content.clone(), style: self.spans[i].style },
            );
            i += 1;
        }
        assert(spans_view(spans@) =~= spans_view(self.spans@));
        Line { spans, style: self.style }
    }
}

/// The text of spans.
pub open spec fn spans_text(s: Seq<SpanV>) -> Seq<char> {
    concat(s.map_values(|x: SpanV| x.content))
}

/// A line of text without its line break.
pub open spec fn bare(l: Seq<char>) -> Seq<char> {
    if l.len() > 0 && l.last() == '\n' {
        let t = l.drop_last();
        if t.len() > 0 && t.last() == '\r' {
            t.drop_last()
        } else {
            t
        }
    } else {
        l
    }
}

/// A line of plain spans, one for each line of `text`, in a style of its own.
pub open spec fn styled_line(text: Seq<char>, style: Style) -> LineV {
    LineV {
        spans: split_keep(text).map_values(
            |l: Seq<char>| SpanV { content: bare(l), style: no_style() },
        ),
        style,
    }
}

impl Line {
    pub fn styled(text: String, style: Style) -> (r: Line)
        ensures
            r@ == styled_line(text@, style),
    {
        let parts = split_keep_chars(&chars_of(text.as_str()));
        let ghost all = split_keep(text@);
        let mut spans: Vec<Span> = Vec::new();
        let mut i: usize = 0;
        while i < parts.len()
            invariant
                i <= parts@.len(),
                all == texts(parts@),
                spans@.len() == i,
                forall|j: int|
                    0 <= j < i ==> (#[trigger] spans@[j])@ == (SpanV {
                        content: bare(all[j]),
                        style: no_style(),
                    }),
            decreases parts@.len() - i,
        {
            let mut l = chars_of(parts[i].as_str());
            assert(all[i as int] == l@);
            if l.len() > 0 && l[l.len() - 1] == '\n' {
                let _ = l.pop();
                if l.len() > 0 && l[l.len() - 1] == '\r' {
                    let _ = l.pop();
                }
            }
            assert(l@ =~= bare(all[i as int]));
            spans.push(Span { content: string_of(&l), style: Style::default() });
            i += 1;
        }
        assert(spans_view(spans@) =~= styled_line(text@, style).spans);
        Line { spans, style }
    }
}

/// The columns that a text takes.
pub uninterp spec fn columns(s: Seq<char>) -> nat;

/// The columns that a character takes; none for a control character.
pub uninterp spec fn char_columns(c: char) -> Option<usize>;

/// `unicode_width`'s `UnicodeWidthStr::width`: the columns that a text takes.
#[verifier::external_body]
pub(crate) fn text_width(s: &str) -> (r: usize)
    ensures
        r == columns(s@),
{
    unicode_width::UnicodeWidthStr::width(s)
}

/// `unicode_width`'s `UnicodeWidthChar::width`: the columns that a character takes.
#[verifier::external_body]
pub(crate) fn char_width(c: char) -> (r: Option<usize>)
    ensures
        r == char_columns(c),
{
    unicode_width::UnicodeWidthChar::width(c)
}

} // verus!
