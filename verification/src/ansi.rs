//! ANSI SGR text (tracebacks, coloured stream output) as styled lines.

use crate::style::{
    emphasized, lines_view, no_style, patched, plain, relieved, spans_view, Color, Emphasis, Line,
    LineV, Span, SpanV, Style,
};
use crate::text::{
    chars_of, copy_chars, number_in, parse_number, split, split_chars, string_of, substr, views,
};
use vstd::prelude::*;

verus! {

pub open spec fn basic_color(n: int) -> Color {
    if n == 0 {
        Color::Black
    } else if n == 1 {
        Color::Red
    } else if n == 2 {
        Color::Green
    } else if n == 3 {
        Color::Yellow
    } else if n == 4 {
        Color::Blue
    } else if n == 5 {
        Color::Magenta
    } else if n == 6 {
        Color::Cyan
    } else if n == 7 {
        Color::Gray
    } else if n == 8 {
        Color::DarkGray
    } else if n == 9 {
        Color::LightRed
    } else if n == 10 {
        Color::LightGreen
    } else if n == 11 {
        Color::LightYellow
    } else if n == 12 {
        Color::LightBlue
    } else if n == 13 {
        Color::LightMagenta
    } else if n == 14 {
        Color::LightCyan
    } else {
        Color::White
    }
}

/// What one parameter does to a style, colours given by more parameters left out.
pub open spec fn sgr_one(s: Style, p: u16) -> Style {
    if p == 0 {
        no_style()
    } else if p == 1 {
        emphasized(s, Emphasis { bold: true, ..plain() })
    } else if p == 2 {
        emphasized(s, Emphasis { dim: true, ..plain() })
    } else if p == 3 {
        emphasized(s, Emphasis { italic: true, ..plain() })
    } else if p == 4 {
        emphasized(s, Emphasis { underlined: true, ..plain() })
    } else if p == 7 {
        emphasized(s, Emphasis { reversed: true, ..plain() })
    } else if p == 9 {
        emphasized(s, Emphasis { crossed_out: true, ..plain() })
    } else if p == 22 {
        relieved(s, Emphasis { bold: true, dim: true, ..plain() })
    } else if p == 23 {
        relieved(s, Emphasis { italic: true, ..plain() })
    } else if p == 24 {
        relieved(s, Emphasis { underlined: true, ..plain() })
    } else if p == 27 {
        relieved(s, Emphasis { reversed: true, ..plain() })
    } else if 30 <= p <= 37 {
        Style { fg: Some(basic_color(p - 30)), ..s }
    } else if 90 <= p <= 97 {
        Style { fg: Some(basic_color(p - 90 + 8)), ..s }
    } else if 40 <= p <= 47 {
        Style { bg: Some(basic_color(p - 40)), ..s }
    } else if 100 <= p <= 107 {
        Style { bg: Some(basic_color(p - 100 + 8)), ..s }
    } else if p == 39 {
        Style { fg: None, ..s }
    } else if p == 49 {
        Style { bg: None, ..s }
    } else {
        s
    }
}

/// The colour that the parameters from `i` on give, and where the next parameter stands.
pub open spec fn sgr_color(p: Seq<u16>, i: int) -> (Option<Color>, int) {
    if i + 1 < p.len() && p[i + 1] == 5 {
        (
            if i + 2 < p.len() {
                Some(Color::Indexed(p[i + 2] as u8))
            } else {
                None
            },
            i + 3,
        )
    } else if i + 1 < p.len() && p[i + 1] == 2 {
        (
            if i + 4 < p.len() {
                Some(Color::Rgb(p[i + 2] as u8, p[i + 3] as u8, p[i + 4] as u8))
            } else {
                None
            },
            i + 5,
        )
    } else {
        (None, i + 1)
    }
}

/// What the parameters from `i` on do to a style.
pub open spec fn sgr_from(s: Style, p: Seq<u16>, i: int) -> Style
    decreases p.len() - i,
{
    if i < 0 || i >= p.len() {
        s
    } else if p[i] == 38 || p[i] == 48 {
        let (color, next) = sgr_color(p, i);
        let after = match color {
            Some(c) => if p[i] == 38 {
                Style { fg: Some(c), ..s }
            } else {
                Style { bg: Some(c), ..s }
            },
            None => s,
        };
        if i < next < p.len() {
            sgr_from(after, p, next)
        } else {
            after
        }
    } else {
        sgr_from(sgr_one(s, p[i]), p, i + 1)
    }
}

/// The parameters of a sequence; what is no number counts as zero.
pub open spec fn sgr_params(seq: Seq<char>) -> Seq<u16> {
    if seq.len() == 0 {
        seq![0u16]
    } else {
        split(seq, ';').map_values(
            |p: Seq<char>|
                match number_in(p, 65535) {
                    Some(n) => n as u16,
                    None => 0,
                },
        )
    }
}

pub open spec fn is_final(c: char) -> bool {
    '@' <= c <= '~'
}

/// The first character from `i` on that ends a CSI sequence, or the length of `s`.
pub open spec fn csi_end(s: Seq<char>, i: int) -> int
    decreases s.len() - i,
{
    if i >= s.len() || is_final(s[i]) {
        i
    } else {
        csi_end(s, i + 1)
    }
}

/// Where what follows an OSC begins: after BEL or ST.
pub open spec fn osc_end(s: Seq<char>, i: int) -> int
    decreases s.len() - i,
{
    if i >= s.len() {
        i
    } else if s[i] == '\u{7}' {
        i + 1
    } else if s[i] == '\u{1b}' && i + 1 < s.len() && s[i + 1] == '\\' {
        i + 2
    } else {
        osc_end(s, i + 1)
    }
}

pub open spec fn is_control(c: char) -> bool {
    c <= '\u{1f}' || '\u{7f}' <= c <= '\u{9f}'
}

/// A line on its way: the spans done, the text of the next, its column past the last tab stop,
/// and its style.
pub struct InkV {
    pub spans: Seq<SpanV>,
    pub text: Seq<char>,
    pub col: int,
    pub style: Style,
}

/// The text so far made a span.
pub open spec fn inked(k: InkV, base: Style) -> InkV {
    if k.text.len() > 0 {
        InkV {
            spans: k.spans.push(SpanV { content: k.text, style: patched(base, k.style) }),
            text: Seq::empty(),
            ..k
        }
    } else {
        k
    }
}

pub open spec fn blanks(n: int) -> Seq<char> {
    Seq::new(
        if n > 0 {
            n as nat
        } else {
            0
        },
        |i: int| ' ',
    )
}

/// Where the character after the one at `i`, and what belongs to it, begins.
pub open spec fn after_char(s: Seq<char>, i: int) -> int {
    if s[i] == '\u{1b}' {
        if i + 1 < s.len() && s[i + 1] == '[' {
            csi_end(s, i + 2) + 1
        } else if i + 1 < s.len() && s[i + 1] == ']' {
            osc_end(s, i + 2)
        } else {
            i + 2
        }
    } else {
        i + 1
    }
}

/// The line after the character at `i`, and what belongs to it.
pub open spec fn with_char(s: Seq<char>, i: int, k: InkV, base: Style) -> InkV {
    let c = s[i];
    if c == '\u{1b}' {
        let e = csi_end(s, i + 2);
        if i + 1 < s.len() && s[i + 1] == '[' && e < s.len() && s[e] == 'm' {
            let done = inked(k, base);
            InkV { style: sgr_from(k.style, sgr_params(s.subrange(i + 2, e)), 0), ..done }
        } else {
            k
        }
    } else if c == '\t' {
        InkV { text: k.text + blanks(8 - k.col), col: 0, ..k }
    } else if is_control(c) {
        k
    } else {
        InkV { text: k.text.push(c), col: (k.col + 1) % 8, ..k }
    }
}

/// The line after all characters from `i` on.
pub open spec fn drawn(s: Seq<char>, i: int, k: InkV, base: Style) -> InkV
    decreases s.len() - i,
{
    if i < 0 || i >= s.len() {
        k
    } else {
        let next = after_char(s, i);
        let now = with_char(s, i, k, base);
        if i < next < s.len() {
            drawn(s, next, now, base)
        } else {
            now
        }
    }
}

/// The last part between carriage returns that is not empty, as a terminal would show it.
pub open spec fn last_shown(parts: Seq<Seq<char>>) -> Seq<char>
    decreases parts.len(),
{
    if parts.len() == 0 {
        Seq::empty()
    } else if parts.last().len() > 0 {
        parts.last()
    } else {
        last_shown(parts.drop_last())
    }
}

/// One line of text, and the style that the next begins with.
pub open spec fn ansi_line(raw: Seq<char>, style: Style, base: Style) -> (LineV, Style) {
    let shown = last_shown(split(raw, '\r'));
    let start = InkV { spans: Seq::empty(), text: Seq::empty(), col: 0, style };
    let k = inked(drawn(shown, 0, start, base), base);
    (LineV { spans: k.spans, style: no_style() }, k.style)
}

/// Lines of text, and the style after them.
pub open spec fn ansi_lines(parts: Seq<Seq<char>>, base: Style) -> (Seq<LineV>, Style)
    decreases parts.len(),
{
    if parts.len() == 0 {
        (Seq::empty(), no_style())
    } else {
        let front = ansi_lines(parts.drop_last(), base);
        let (line, style) = ansi_line(parts.last(), front.1, base);
        (front.0.push(line), style)
    }
}

fn basic(n: u16) -> (r: Color)
    ensures
        r == basic_color(n as int),
{
    match n {
        0 => Color::Black,
        1 => Color::Red,
        2 => Color::Green,
        3 => Color::Yellow,
        4 => Color::Blue,
        5 => Color::Magenta,
        6 => Color::Cyan,
        7 => Color::Gray,
        8 => Color::DarkGray,
        9 => Color::LightRed,
        10 => Color::LightGreen,
        11 => Color::LightYellow,
        12 => Color::LightBlue,
        13 => Color::LightMagenta,
        14 => Color::LightCyan,
        _ => Color::White,
    }
}

fn apply_one(s: Style, p: u16) -> (r: Style)
    ensures
        r == sgr_one(s, p),
{
    let none = Emphasis::none();
    if p == 0 {
        Style::default()
    } else if p == 1 {
        s.add_emphasis(Emphasis { bold: true, ..none })
    } else if p == 2 {
        s.add_emphasis(Emphasis { dim: true, ..none })
    } else if p == 3 {
        s.add_emphasis(Emphasis { italic: true, ..none })
    } else if p == 4 {
        s.add_emphasis(Emphasis { underlined: true, ..none })
    } else if p == 7 {
        s.add_emphasis(Emphasis { reversed: true, ..none })
    } else if p == 9 {
        s.add_emphasis(Emphasis { crossed_out: true, ..none })
    } else if p == 22 {
        s.remove_emphasis(Emphasis { bold: true, dim: true, ..none })
    } else if p == 23 {
        s.remove_emphasis(Emphasis { italic: true, ..none })
    } else if p == 24 {
        s.remove_emphasis(Emphasis { underlined: true, ..none })
    } else if p == 27 {
        s.remove_emphasis(Emphasis { reversed: true, ..none })
    } else if 30 <= p && p <= 37 {
        Style { fg: Some(basic(p - 30)), ..s }
    } else if 90 <= p && p <= 97 {
        Style { fg: Some(basic(p - 90 + 8)), ..s }
    } else if 40 <= p && p <= 47 {
        Style { bg: Some(basic(p - 40)), ..s }
    } else if 100 <= p && p <= 107 {
        Style { bg: Some(basic(p - 100 + 8)), ..s }
    } else if p == 39 {
        Style { fg: None, ..s }
    } else if p == 49 {
        Style { bg: None, ..s }
    } else {
        s
    }
}

fn low(n: u16) -> (r: u8)
    ensures
        r == n as u8,
{
    #[verifier::truncate]
    (n as u8)
}

fn apply_sgr(style: Style, params: &Vec<u16>) -> (r: Style)
    ensures
        r == sgr_from(style, params@, 0),
{
    let mut s = style;
    let mut i: usize = 0;
    let n = params.len();
    while i < n
        invariant
            n == params@.len(),
            sgr_from(s, params@, i as int) == sgr_from(style, params@, 0),
        decreases n - i,
    {
        let p = params[i];
        if p == 38 || p == 48 {
            let mut color: Option<Color> = None;
            let mut step: usize = 1;
            if n - i > 1 && params[i + 1] == 5 {
                step = 3;
                if n - i > 2 {
                    color = Some(Color::Indexed(low(params[i + 2])));
                }
            } else if n - i > 1 && params[i + 1] == 2 {
                step = 5;
                if n - i > 4 {
                    color = Some(
                        Color::Rgb(
                            low(params[i + 2]),
                            low(params[i + 3]),
                            low(params[i + 4]),
                        ),
                    );
                }
            }
            if let Some(c) = color {
                if p == 38 {
                    s = Style { fg: Some(c), ..s };
                } else {
                    s = Style { bg: Some(c), ..s };
                }
            }
            if step >= n - i {
                assert(sgr_from(s, params@, i + step) == s);
                return s;
            }
            i = i + step;
        } else {
            s = apply_one(s, p);
            i += 1;
        }
    }
    s
}

fn parse_params(seq: &Vec<char>) -> (r: Vec<u16>)
    ensures
        r@ == sgr_params(seq@),
{
    let mut out: Vec<u16> = Vec::new();
    if seq.len() == 0 {
        out.push(0);
        assert(out@ =~= seq![0u16]);
        return out;
    }
    let parts = split_chars(seq, ';');
    let ghost all = split(seq@, ';');
    let mut i: usize = 0;
    while i < parts.len()
        invariant
            i <= parts@.len(),
            all == views(parts@),
            out@.len() == i,
            forall|j: int|
                0 <= j < i ==> #[trigger] out@[j] == match number_in(all[j], 65535) {
                    Some(n) => n as u16,
                    None => 0,
                },
        decreases parts@.len() - i,
    {
        assert(all[i as int] == parts@[i as int]@);
        match parse_number(&parts[i], 65535) {
            Some(n) => {
                out.push(n as u16);
            },
            None => {
                out.push(0);
            },
        }
        i += 1;
    }
    assert(out@ =~= sgr_params(seq@));
    out
}

fn find_csi_end(s: &Vec<char>, from: usize) -> (r: usize)
    requires
        from <= s@.len(),
    ensures
        r == csi_end(s@, from as int),
        from <= r <= s@.len(),
{
    let mut i: usize = from;
    while i < s.len() && !('@' <= s[i] && s[i] <= '~')
        invariant
            from <= i <= s@.len(),
            csi_end(s@, from as int) == csi_end(s@, i as int),
        decreases s@.len() - i,
    {
        i += 1;
    }
    i
}

fn find_osc_end(s: &Vec<char>, from: usize) -> (r: usize)
    requires
        from <= s@.len(),
    ensures
        r == osc_end(s@, from as int),
        from <= r <= s@.len(),
{
    let mut i: usize = from;
    while i < s.len()
        invariant
            from <= i <= s@.len(),
            osc_end(s@, from as int) == osc_end(s@, i as int),
        decreases s@.len() - i,
    {
        if s[i] == '\u{7}' {
            return i + 1;
        }
        if s[i] == '\u{1b}' && s.len() - i > 1 && s[i + 1] == '\\' {
            return i + 2;
        }
        i += 1;
    }
    i
}

/// A line on its way.
struct Ink {
    spans: Vec<Span>,
    text: Vec<char>,
    col: usize,
    style: Style,
}

impl Ink {
    spec fn seen(&self) -> InkV {
        InkV {
            spans: spans_view(self.spans@),
            text: self.text@,
            col: self.col as int,
            style: self.style,
        }
    }

    /// Makes the text so far a span.
    fn ink(&mut self, base: Style)
        requires
            old(self).col < 8,
        ensures
            final(self).seen() == inked(old(self).seen(), base),
            final(self).col < 8,
    {
        if self.text.len() > 0 {
            let ghost before = spans_view(self.spans@);
            let content = string_of(&self.text);
            let style = base.patch(self.style);
            let ghost cv = content@;
            self.spans.push(Span { content, style });
            assert(spans_view(self.spans@) =~= before.push(SpanV { content: cv, style }));
            self.text = Vec::new();
            assert(self.text@ =~= Seq::empty());
        }
    }

    fn tab(&mut self)
        requires
            old(self).col < 8,
        ensures
            final(self).seen() == (InkV {
                text: old(self).text@ + blanks(8 - old(self).col),
                col: 0,
                ..old(self).seen()
            }),
    {
        let n = 8 - self.col;
        let mut j: usize = 0;
        let ghost before = self.text@;
        assert(before + blanks(0) =~= before);
        while j < n
            invariant
                j <= n,
                self.text@ == before + blanks(j as int),
                self.spans == old(self).spans,
                self.style == old(self).style,
            decreases n - j,
        {
            self.text.push(' ');
            assert(before + blanks(j + 1) =~= (before + blanks(j as int)).push(' '));
            j += 1;
        }
        self.col = 0;
    }

    /// Takes the character at `i`, and what belongs to it. Returns where the next begins.
    fn take(&mut self, s: &Vec<char>, i: usize, base: Style) -> (r: usize)
        requires
            i < s@.len(),
            old(self).col < 8,
        ensures
            final(self).seen() == with_char(s@, i as int, old(self).seen(), base),
            final(self).col < 8,
            i < r <= s@.len(),
            r < s@.len() ==> r == after_char(s@, i as int),
            r == s@.len() ==> after_char(s@, i as int) >= s@.len(),
    {
        let c = s[i];
        let more = s.len() - i > 1;
        if c == '\u{1b}' {
            if more && s[i + 1] == '[' {
                let e = find_csi_end(s, i + 2);
                if e < s.len() {
                    if s[e] == 'm' {
                        let params = parse_params(&substr(s, i + 2, e));
                        let style = apply_sgr(self.style, &params);
                        self.ink(base);
                        self.style = style;
                    }
                    e + 1
                } else {
                    e
                }
            } else if more && s[i + 1] == ']' {
                find_osc_end(s, i + 2)
            } else if more {
                i + 2
            } else {
                i + 1
            }
        } else {
            if c == '\t' {
                self.tab();
            } else if !(c <= '\u{1f}' || ('\u{7f}' <= c && c <= '\u{9f}')) {
                self.text.push(c);
                self.col = (self.col + 1) % 8;
            }
            i + 1
        }
    }
}

/// Parses one line with ANSI escapes.
fn parse_line(shown: &Vec<char>, style: Style, base: Style) -> (r: (Line, Style))
    ensures
        ({
            let start = InkV { spans: Seq::empty(), text: Seq::empty(), col: 0, style };
            let k = inked(drawn(shown@, 0, start, base), base);
            r.0@ == (LineV { spans: k.spans, style: no_style() }) && r.1 == k.style
        }),
{
    let ghost start = InkV { spans: Seq::empty(), text: Seq::empty(), col: 0, style };
    let mut ink = Ink { spans: Vec::new(), text: Vec::new(), col: 0, style };
    let mut i: usize = 0;
    assert(spans_view(ink.spans@) =~= Seq::empty());
    assert(ink.text@ =~= Seq::empty());
    while i < shown.len()
        invariant
            i <= shown@.len(),
            ink.col < 8,
            drawn(shown@, i as int, ink.seen(), base) == drawn(shown@, 0, start, base),
        decreases shown@.len() - i,
    {
        let ghost k = ink.seen();
        let next = ink.take(shown, i, base);
        assert(drawn(shown@, i as int, k, base) == drawn(shown@, next as int, ink.seen(), base));
        i = next;
    }
    ink.ink(base);
    (Line { spans: ink.spans, style: Style::default() }, ink.style)
}

fn shown_part(raw: &Vec<char>) -> (r: Vec<char>)
    ensures
        r@ == last_shown(split(raw@, '\r')),
{
    let parts = split_chars(raw, '\r');
    let ghost all = split(raw@, '\r');
    let mut n: usize = parts.len();
    assert(all.take(n as int) =~= all);
    while n > 0
        invariant
            n <= parts@.len(),
            all == views(parts@),
            all == split(raw@, '\r'),
            last_shown(all) == last_shown(all.take(n as int)),
        decreases n,
    {
        assert(all.take(n as int).last() == parts@[n - 1]@);
        assert(all.take(n as int).drop_last() =~= all.take(n - 1));
        if parts[n - 1].len() > 0 {
            return copy_chars(&parts[n - 1]);
        }
        n -= 1;
    }
    Vec::new()
}

/// Parses text with ANSI escapes into lines. Carriage returns overwrite from the line start
/// and tabs expand to 8 columns; other control sequences are dropped.
pub fn lines(text: &str, base: Style) -> (r: Vec<Line>)
    ensures
        lines_view(r@) == ansi_lines(split(text@, '\n'), base).0,
{
    let parts = split_chars(&chars_of(text), '\n');
    let ghost all = split(text@, '\n');
    let mut out: Vec<Line> = Vec::new();
    let mut style = Style::default();
    let mut i: usize = 0;
    assert(lines_view(out@) =~= Seq::empty());
    assert(all.take(0) =~= Seq::empty());
    while i < parts.len()
        invariant
            i <= parts@.len(),
            all == views(parts@),
            (lines_view(out@), style) == ansi_lines(all.take(i as int), base),
        decreases parts@.len() - i,
    {
        assert(all.take(i + 1).drop_last() =~= all.take(i as int));
        assert(all.take(i + 1).last() == parts@[i as int]@);
        let ghost before = lines_view(out@);
        let shown = shown_part(&parts[i]);
        let (line, next) = parse_line(&shown, style, base);
        let ghost lv = line@;
        out.push(line);
        assert(lines_view(out@) =~= before.push(lv));
        style = next;
        i += 1;
    }
    assert(all.take(i as int) =~= all);
    out
}

} // verus!
