//! What is drawn around the editor windows: the header, and each cell's box, gutter and status.

use crate::adapter::CellKind;
use crate::app::{selected_name, App};
use crate::compose::{rgb, rgb_of, Run};
use crate::document::{opt_text, raw_kind, raw_source, Cell, CellV, ExecState};
use crate::executor::KernelStatus;
use crate::history::{cell_at, Name};
use crate::json::{obj_get, v_u64};
use crate::key::CellKey;
use crate::layout::{larger, smaller, Block, Geometry};
use crate::path::{file_name, last_part};
use crate::style::{
    columns, emphasized, no_style, plain, spans_view, text_width, Color, Emphasis, Span, SpanV,
    Style,
};
use crate::text::{
    append_chars, cat, cat3, chars_of, decimal, decimal_chars, str_eq, string_of, substr,
};
use crate::ui::{HeaderItem, Mode, ModeV};
use vstd::prelude::*;

verus! {

/// Colours by the name of what they are for.
#[derive(Debug)]
pub struct Theme {
    pub colors: Vec<(String, Option<u32>)>,
}

/// What a [`Theme`] holds.
pub type Colors = Seq<(Seq<char>, Option<u32>)>;

impl View for Theme {
    type V = Colors;

    open spec fn view(&self) -> Colors {
        Seq::new(self.colors@.len(), |i: int| (self.colors@[i].0@, self.colors@[i].1))
    }
}

/// The colour under a name, among the first `n`; the last one counts.
pub open spec fn color_upto(t: Colors, name: Seq<char>, n: int) -> Option<Color>
    decreases n,
{
    if n <= 0 {
        None
    } else if t[n - 1].0 == name {
        match t[n - 1].1 {
            Some(c) => Some(rgb_of(c)),
            None => None,
        }
    } else {
        color_upto(t, name, n - 1)
    }
}

pub open spec fn color_named(t: Colors, name: Seq<char>) -> Option<Color> {
    color_upto(t, name, t.len() as int)
}

pub open spec fn or_reset(c: Option<Color>) -> Color {
    match c {
        Some(c) => c,
        None => Color::Reset,
    }
}

pub open spec fn bold() -> Emphasis {
    Emphasis { bold: true, ..plain() }
}

/// A style with a colour of the theme, or the terminal's own.
pub open spec fn themed(t: Colors, name: Seq<char>) -> Style {
    Style { fg: Some(or_reset(color_named(t, name))), ..no_style() }
}

impl Theme {
    pub fn color(&self, name: &str) -> (r: Option<Color>)
        ensures
            r == color_named(self@, name@),
    {
        let mut n: usize = self.colors.len();
        while n > 0
            invariant
                n <= self.colors@.len(),
                color_named(self@, name@) == color_upto(self@, name@, n as int),
            decreases n,
        {
            assert(self@[n - 1] == (self.colors@[n - 1].0@, self.colors@[n - 1].1));
            if str_eq(self.colors[n - 1].0.as_str(), name) {
                return match self.colors[n - 1].1 {
                    Some(c) => Some(rgb(c)),
                    None => None,
                };
            }
            n -= 1;
        }
        None
    }

    fn style(&self, name: &str) -> (r: Style)
        ensures
            r == themed(self@, name@),
    {
        let fg = match self.color(name) {
            Some(c) => c,
            None => Color::Reset,
        };
        Style { fg: Some(fg), ..Style::default() }
    }

    fn bold_style(&self, name: &str) -> (r: Style)
        ensures
            r == emphasized(themed(self@, name@), bold()),
    {
        self.style(name).add_emphasis(Emphasis { bold: true, ..Emphasis::none() })
    }
}

/// How the kernel's state is shown: a word and a sign.
pub open spec fn state_shown(s: KernelStatus) -> (Seq<char>, Seq<char>) {
    match s {
        KernelStatus::Starting => ("starting"@, "◌"@),
        KernelStatus::Idle => ("idle"@, "○"@),
        KernelStatus::Busy => ("busy"@, "●"@),
        KernelStatus::Restarting => ("restarting"@, "◌"@),
        KernelStatus::Dead => ("dead"@, "◌"@),
    }
}

fn state_text(s: KernelStatus) -> (r: (&'static str, &'static str))
    ensures
        (r.0@, r.1@) == state_shown(s),
{
    match s {
        KernelStatus::Starting => ("starting", "◌"),
        KernelStatus::Idle => ("idle", "○"),
        KernelStatus::Busy => ("busy", "●"),
        KernelStatus::Restarting => ("restarting", "◌"),
        KernelStatus::Dead => ("dead", "◌"),
    }
}

pub open spec fn mode_shown(m: ModeV) -> Seq<char> {
    match m {
        ModeV::Nav => "NAV"@,
        ModeV::Edit(_) => "EDIT"@,
        ModeV::Other => ""@,
    }
}

/// The keys typed toward an action.
pub open spec fn partial_shown(a: &App) -> Seq<char> {
    (match a.ui.nav.count {
        Some(n) => decimal(n as nat),
        None => Seq::empty(),
    }) + (match a.ui.nav.pending {
        Some(c) => seq![c],
        None => Seq::empty(),
    })
}

/// A text with a space on each side.
pub open spec fn spaced(s: Seq<char>) -> Seq<char> {
    " "@ + s + " "@
}

fn space(s: &str) -> (r: String)
    ensures
        r@ == spaced(s@),
{
    cat3(" ", s, " ")
}

/// The kernel's part of the header.
pub open spec fn kernel_shown(a: &App, t: Colors) -> SpanV {
    let error = emphasized(themed(t, "error"@), bold());
    match a.kernel_cmd {
        None => SpanV { content: " no kernel "@, style: error },
        Some(c) => if a.kernel_error is Some {
            SpanV { content: spaced(c.display_name@ + " ✗ failed"@), style: error }
        } else {
            let s = state_shown(a.executor.status);
            SpanV {
                content: spaced(c.display_name@ + " "@ + s.1 + " "@ + s.0),
                style: themed(t, "dim"@),
            }
        },
    }
}

/// A part of the header, marked if it is selected.
pub open spec fn marked(s: SpanV, item: HeaderItem, selected: Option<HeaderItem>, t: Colors) -> SpanV {
    if selected == Some(item) {
        SpanV {
            style: emphasized(
                themed(t, "nav"@),
                Emphasis { bold: true, reversed: true, ..plain() },
            ),
            ..s
        }
    } else {
        s
    }
}

/// The header: the file's name, the mode and the keys typed, the kernel, and the last message.
pub open spec fn header_shown(a: &App, t: Colors) -> Seq<SpanV> {
    let title = emphasized(themed(t, "header"@), bold());
    let name = SpanV { content: spaced(last_part(a.nb.path@)), style: title };
    let mode = SpanV {
        content: spaced(mode_shown(a.ui.mode@) + " "@ + partial_shown(a)),
        style: title,
    };
    let parts = seq![
        marked(name, HeaderItem::Name, a.ui.header, t),
        mode,
        marked(kernel_shown(a, t), HeaderItem::Kernel, a.ui.header, t),
    ];
    match a.ui.message {
        Some(m) => parts.push(SpanV { content: " "@ + m@, style: themed(t, "dim"@) }),
        None => parts,
    }
}

fn mark(s: Span, item: HeaderItem, selected: Option<HeaderItem>, t: &Theme) -> (r: Span)
    ensures
        r@ == marked(s@, item, selected, t@),
{
    let here = match selected {
        Some(i) => i == item,
        None => false,
    };
    if here {
        let e = Emphasis { bold: true, reversed: true, ..Emphasis::none() };
        Span { content: s.content, style: t.style("nav").add_emphasis(e) }
    } else {
        s
    }
}

impl App {
    fn kernel_span(&self, t: &Theme) -> (r: Span)
        ensures
            r@ == kernel_shown(self, t@),
    {
        match &self.kernel_cmd {
            None => Span { content: " no kernel ".to_string(), style: t.bold_style("error") },
            Some(c) => if self.kernel_error.is_some() {
                let text = cat(c.display_name.as_str(), " ✗ failed");
                Span { content: space(text.as_str()), style: t.bold_style("error") }
            } else {
                let (state, sign) = state_text(self.executor.status());
                let front = cat3(c.display_name.as_str(), " ", sign);
                let text = cat3(front.as_str(), " ", state);
                Span { content: space(text.as_str()), style: t.style("dim") }
            },
        }
    }

    /// The header line.
    pub fn header(&self, t: &Theme) -> (r: Vec<Span>)
        ensures
            spans_view(r@) == header_shown(self, t@),
    {
        let name = file_name(self.nb.path.as_str());
        let title = t.bold_style("header");
        let mode = match self.ui.mode {
            Mode::Nav => "NAV",
            Mode::Edit(_) => "EDIT",
            Mode::Other => "",
        };
        let keys = cat3(mode, " ", self.ui.nav.partial().as_str());
        let first = mark(
            Span { content: space(name.as_str()), style: title },
            HeaderItem::Name,
            self.ui.header,
            t,
        );
        let second = Span { content: space(keys.as_str()), style: title };
        let third = mark(self.kernel_span(t), HeaderItem::Kernel, self.ui.header, t);
        let mut out = vec![first, second, third];
        if let Some(m) = &self.ui.message {
            out.push(Span { content: cat(" ", m.as_str()), style: t.style("dim") });
        }
        assert(spans_view(out@) =~= header_shown(self, t@));
        out
    }
}

/// How to go on from here: the way to the key list, after a warning when tmux keeps keys back.
pub open spec fn hint_shown(a: &App, t: Colors) -> Option<Seq<SpanV>> {
    let text = match a.ui.mode@ {
        ModeV::Nav => Some(
            if a.ui.header is None {
                " ? help "@
            } else {
                " h l select · <CR> open · ? help "@
            },
        ),
        ModeV::Edit(_) => Some(" <Esc><Esc> to cells "@),
        ModeV::Other => None,
    };
    let warning = SpanV {
        content: " ⚠ tmux: Shift/Ctrl+Enter off"@,
        style: emphasized(themed(t, "running"@), bold()),
    };
    match text {
        None => None,
        Some(s) => {
            let hint = SpanV { content: s, style: themed(t, "dim"@) };
            Some(
                if a.tmux_keys_missing {
                    seq![warning, hint]
                } else {
                    seq![hint]
                },
            )
        },
    }
}

impl App {
    /// The hint at the header's right end.
    pub fn hint(&self, t: &Theme) -> (r: Option<Vec<Span>>)
        ensures
            match r {
                Some(v) => hint_shown(self, t@) == Some(spans_view(v@)),
                None => hint_shown(self, t@) is None,
            },
    {
        let text = match self.ui.mode {
            Mode::Nav => if self.ui.header.is_none() {
                " ? help "
            } else {
                " h l select · <CR> open · ? help "
            },
            Mode::Edit(_) => " <Esc><Esc> to cells ",
            Mode::Other => {
                return None;
            },
        };
        let hint = Span { content: text.to_string(), style: t.style("dim") };
        let mut out: Vec<Span> = Vec::new();
        if self.tmux_keys_missing {
            out.push(
                Span {
                    content: " ⚠ tmux: Shift/Ctrl+Enter off".to_string(),
                    style: t.bold_style("running"),
                },
            );
        }
        out.push(hint);
        assert(spans_view(out@) =~= hint_shown(self, t@)->0);
        Some(out)
    }
}

/// The columns of spans.
pub open spec fn spans_columns(s: Seq<SpanV>) -> int
    decreases s.len(),
{
    if s.len() == 0 {
        0
    } else {
        spans_columns(s.drop_last()) + columns(s.last().content)
    }
}

/// The columns of a line, as the terminal counts them.
pub fn line_width(line: &Vec<Span>) -> (r: u16)
    ensures
        r == spans_columns(spans_view(line@)) % 65536,
{
    let ghost v = spans_view(line@);
    let mut sum: u128 = 0;
    let mut i: usize = 0;
    assert(v.take(0) =~= Seq::empty());
    while i < line.len()
        invariant
            i <= line.len(),
            v == spans_view(line@),
            sum == spans_columns(v.take(i as int)),
            sum <= i as int * 0xffff_ffff_ffff_ffffint,
        decreases line@.len() - i,
    {
        assert(v.take(i + 1).drop_last() =~= v.take(i as int));
        assert(v.take(i + 1).last() == line@[i as int]@);
        let w = text_width(line[i].content.as_str());
        assert(i as int * 0xffff_ffff_ffff_ffffint + 0xffff_ffff_ffff_ffffint == (i + 1)
            * 0xffff_ffff_ffff_ffffint) by (nonlinear_arith);
        assert((i + 1) * 0xffff_ffff_ffff_ffffint <= 0xffff_ffff_ffff_ffffint
            * 0xffff_ffff_ffff_ffffint) by (nonlinear_arith)
            requires
                i + 1 <= 0xffff_ffff_ffff_ffff,
        ;
        sum += w as u128;
        i += 1;
    }
    assert(v.take(i as int) =~= v);
    (sum % 65536) as u16
}

/// Where the hint goes, and how wide it is: at the right end of the header's row, or cut off
/// after the header, which always stays visible.
pub open spec fn hint_place(col: int, width: int, header: int, hint: int) -> Option<(int, int)> {
    if width <= header {
        None
    } else if hint <= width - header {
        Some((col + width - hint, hint))
    } else {
        Some((col + header, width - header))
    }
}

/// A place for a line: where it begins, and how many columns it may take.
#[derive(Clone, Copy, Debug, PartialEq, Eq, Structural)]
pub struct LinePlace {
    pub x: u16,
    pub y: u16,
    pub width: u16,
}

/// Where the header and the hint go in their row.
pub open spec fn header_places(
    col: u16,
    row: u16,
    width: u16,
    header: Seq<SpanV>,
    hint: Option<Seq<SpanV>>,
) -> (LinePlace, Option<LinePlace>) {
    (
        LinePlace { x: col, y: row, width },
        match hint {
            Some(h) => match hint_place(
                col as int,
                width as int,
                spans_columns(header) % 65536,
                spans_columns(h) % 65536,
            ) {
                Some((x, w)) => Some(LinePlace { x: x as u16, y: row, width: w as u16 }),
                None => None,
            },
            None => None,
        },
    )
}

/// Where the header's row is drawn: the notebook's name, mode and kernel state at the left, and
/// the hint at the right. When the screen is narrow, the header stays visible, and the hint
/// gives way.
pub fn draw_header(
    col: u16,
    row: u16,
    width: u16,
    header: &Vec<Span>,
    hint: Option<&Vec<Span>>,
) -> (r: (LinePlace, Option<LinePlace>))
    requires
        col + width <= u16::MAX,
    ensures
        r == header_places(
            col,
            row,
            width,
            spans_view(header@),
            match hint {
                Some(h) => Some(spans_view(h@)),
                None => None,
            },
        ),
{
    let first = LinePlace { x: col, y: row, width };
    let header_width = line_width(header);
    if let Some(h) = hint {
        let hint_width = line_width(h);
        if width > header_width {
            let remaining = width - header_width;
            let second = if hint_width <= remaining {
                LinePlace { x: col + width - hint_width, y: row, width: hint_width }
            } else {
                LinePlace { x: col + header_width, y: row, width: remaining }
            };
            return (first, Some(second));
        }
    }
    (first, None)
}

/// A code cell's status: a text and its colour.
pub type StatusV = Option<(Seq<char>, Option<Color>)>;

/// A code cell's execution count for the gutter, and its status for the box's top border.
/// `time` says how long the last run took.
pub open spec fn status_shown(c: CellV, t: Colors, time: Seq<char>) -> (Seq<char>, StatusV) {
    let n = v_u64(obj_get(c.raw, "execution_count"@));
    let stale = raw_kind(c.raw) == CellKind::Code && raw_source(c.raw) != c.runtime.baseline
        && n is Some;
    let edited = if stale {
        " · edited"@
    } else {
        Seq::empty()
    };
    let count = "["@ + (match n {
        Some(n) => decimal(n as nat),
        None => " "@,
    }) + "]"@;
    match c.runtime.state {
        ExecState::Queued => ("[*]"@, Some(("queued"@ + edited, color_named(t, "queued"@)))),
        ExecState::Running => ("[*]"@, Some(("running"@ + edited, color_named(t, "running"@)))),
        ExecState::Done => (
            count,
            Some(
                (
                    "✓"@ + time + edited,
                    color_named(
                        t,
                        if stale {
                            "stale"@
                        } else {
                            "ok"@
                        },
                    ),
                ),
            ),
        ),
        ExecState::Error => (count, Some(("✗"@ + edited, color_named(t, "error"@)))),
        ExecState::Idle => (
            count,
            if stale {
                Some(("edited"@, color_named(t, "stale"@)))
            } else {
                None
            },
        ),
    }
}

pub open spec fn status_view(s: Option<(String, Option<Color>)>) -> StatusV {
    match s {
        Some(x) => Some((x.0@, x.1)),
        None => None,
    }
}

fn cell_status(c: &Cell, t: &Theme, time: &str) -> (r: (String, Option<(String, Option<Color>)>))
    ensures
        (r.0@, status_view(r.1)) == status_shown(c@, t@, time@),
{
    let n = c.execution_count();
    let stale = c.is_stale() && n.is_some();
    let edited = if stale {
        " · edited".to_string()
    } else {
        let none = String::new();
        assert(none@ =~= Seq::empty());
        none
    };
    let number = match n {
        Some(n) => string_of(&decimal_chars(n)),
        None => " ".to_string(),
    };
    let count = cat3("[", number.as_str(), "]");
    match c.runtime.state {
        ExecState::Queued => (
            "[*]".to_string(),
            Some((cat("queued", edited.as_str()), t.color("queued"))),
        ),
        ExecState::Running => (
            "[*]".to_string(),
            Some((cat("running", edited.as_str()), t.color("running"))),
        ),
        ExecState::Done => {
            let color = if stale {
                t.color("stale")
            } else {
                t.color("ok")
            };
            (count, Some((cat3("✓", time, edited.as_str()), color)))
        },
        ExecState::Error => (count, Some((cat("✗", edited.as_str()), t.color("error")))),
        ExecState::Idle => (
            count,
            if stale {
                Some(("edited".to_string(), t.color("stale")))
            } else {
                None
            },
        ),
    }
}

/// How one block is drawn, beyond its geometry.
#[derive(Debug)]
pub struct Decoration {
    pub border: Option<Color>,
    pub bold: bool,
    pub gutter: String,
    pub status: Option<(String, Option<Color>)>,
    pub label: Option<String>,
    pub dim: Option<Color>,
}

/// What a [`Decoration`] holds.
pub struct DecorationV {
    pub border: Option<Color>,
    pub bold: bool,
    pub gutter: Seq<char>,
    pub status: StatusV,
    pub label: Option<Seq<char>>,
    pub dim: Option<Color>,
}

impl View for Decoration {
    type V = DecorationV;

    open spec fn view(&self) -> DecorationV {
        DecorationV {
            border: self.border,
            bold: self.bold,
            gutter: self.gutter@,
            status: status_view(self.status),
            label: opt_text(self.label),
            dim: self.dim,
        }
    }
}

/// How a cell's block is drawn: its border says whether it is edited or selected.
pub open spec fn decorated(a: &App, key: Name, kind: CellKind, t: Colors, time: Seq<char>) -> DecorationV {
    let active = a.ui.mode@ == ModeV::Edit(key);
    let selected = a.ui.mode@ is Nav && a.ui.header is None && selected_name(a) == Some(key);
    let status = match cell_at(a.nb.doc(), key) {
        Some(c) if kind == CellKind::Code => status_shown(c, t, time),
        _ => (Seq::empty(), None),
    };
    DecorationV {
        border: color_named(
            t,
            if active {
                "edit"@
            } else if selected {
                "nav"@
            } else {
                "border"@
            },
        ),
        bold: active || selected,
        gutter: status.0,
        status: status.1,
        label: match kind {
            CellKind::Code => None,
            CellKind::Markdown => Some("markdown"@),
            CellKind::Raw => Some("raw"@),
        },
        dim: color_named(t, "dim"@),
    }
}

impl App {
    /// How a block is drawn. `time` says how long the cell's last run took.
    pub fn decoration(&self, b: &Block, t: &Theme, time: &str) -> (r: Decoration)
        ensures
            r@ == decorated(self, b.key@, b.kind, t@, time@),
    {
        let active = match &self.ui.mode {
            Mode::Edit(k) => k.same(&b.key),
            _ => false,
        };
        let on_it = match self.selected_key() {
            Some(k) => k.same(&b.key),
            None => false,
        };
        let selected = self.ui.mode.is_nav() && self.ui.header.is_none() && on_it;
        let border = if active {
            t.color("edit")
        } else if selected {
            t.color("nav")
        } else {
            t.color("border")
        };
        let none = String::new();
        assert(none@ =~= Seq::empty());
        let (gutter, status) = if b.kind == CellKind::Code {
            match self.nb.cell(&b.key) {
                Some(c) => cell_status(c, t, time),
                None => (none, None),
            }
        } else {
            (none, None)
        };
        let label = match b.kind {
            CellKind::Code => None,
            CellKind::Markdown => Some("markdown".to_string()),
            CellKind::Raw => Some("raw".to_string()),
        };
        Decoration { border, bold: active || selected, gutter, status, label, dim: t.color("dim") }
    }
}

/// A text to draw.
#[derive(Debug, PartialEq, Eq)]
pub struct Put {
    pub x: u16,
    pub y: u16,
    pub text: String,
    pub style: Style,
}

/// What a [`Put`] holds.
pub struct PutV {
    pub x: int,
    pub y: int,
    pub text: Seq<char>,
    pub style: Style,
}

impl View for Put {
    type V = PutV;

    open spec fn view(&self) -> PutV {
        PutV { x: self.x as int, y: self.y as int, text: self.text@, style: self.style }
    }
}

pub open spec fn puts_view(v: Seq<Put>) -> Seq<PutV> {
    Seq::new(v.len(), |i: int| v[i]@)
}

/// The screen row of a document row, if it is in view.
pub open spec fn screen_row(g: Geometry, scroll: int, row: int) -> Option<int> {
    if scroll <= row < scroll + g.rows() {
        Some(g.top_row() + row - scroll)
    } else {
        None
    }
}

pub open spec fn border_style(d: DecorationV, base: Style) -> Style {
    let c = match d.border {
        Some(c) => Style { fg: Some(c), ..base },
        None => base,
    };
    if d.bold {
        emphasized(c, bold())
    } else {
        c
    }
}

pub open spec fn colored(c: Option<Color>, base: Style) -> Style {
    match c {
        Some(c) => Style { fg: Some(c), ..base },
        None => base,
    }
}

/// A text so many times.
pub open spec fn repeated(s: Seq<char>, n: int) -> Seq<char>
    decreases n,
{
    if n <= 0 {
        Seq::empty()
    } else {
        repeated(s, n - 1) + s
    }
}

/// A horizontal border between two corners.
pub open spec fn rule(left: Seq<char>, right: Seq<char>, width: int) -> Seq<char> {
    left + repeated("─"@, width - 2) + right
}

/// The top border, with the cell's label and status on it.
pub open spec fn top_puts(g: Geometry, y: int, d: DecorationV, base: Style) -> Seq<PutV> {
    let bx = g.box_at().0;
    let bw = g.box_at().1;
    let dim = colored(d.dim, base);
    let first = seq![
        PutV { x: bx, y, text: rule("╭"@, "╮"@, bw), style: border_style(d, base) },
    ];
    let second = match d.label {
        Some(l) => first.push(PutV { x: bx + 2, y, text: spaced(l), style: dim }),
        None => first,
    };
    match d.status {
        Some((text, color)) => {
            let s = spaced(text);
            let x = larger(bx + bw - (2 + s.len()), bx + 2);
            let style = match color {
                Some(c) => colored(Some(c), base),
                None => dim,
            };
            second.push(PutV { x, y, text: s, style })
        },
        None => second,
    }
}

/// The sides of the box in row `row` of the editor, and the gutter beside the first.
pub open spec fn side_puts(g: Geometry, y: int, row: int, d: DecorationV, base: Style) -> Seq<PutV> {
    let bx = g.box_at().0;
    let bw = g.box_at().1;
    let style = border_style(d, base);
    let sides = seq![
        PutV { x: bx, y, text: "│"@, style },
        PutV { x: bx + bw - 1, y, text: "│"@, style },
    ];
    if row == 0 && d.gutter.len() > 0 {
        sides.push(
            PutV {
                x: larger(bx - (d.gutter.len() + 1), g.viewport.col as int),
                y,
                text: d.gutter,
                style: colored(d.dim, base),
            },
        )
    } else {
        sides
    }
}

/// The sides of the first `n` rows of the editor.
pub open spec fn sides_upto(
    g: Geometry,
    top: int,
    scroll: int,
    d: DecorationV,
    base: Style,
    n: int,
) -> Seq<PutV>
    decreases n,
{
    if n <= 0 {
        Seq::empty()
    } else {
        let front = sides_upto(g, top, scroll, d, base, n - 1);
        match screen_row(g, scroll, top + n) {
            Some(y) => front + side_puts(g, y, n - 1, d, base),
            None => front,
        }
    }
}

/// A cell's box and gutter, as far as they are in view.
pub open spec fn box_puts(g: Geometry, b: Block, scroll: int, d: DecorationV, base: Style) -> Seq<PutV> {
    let above = match screen_row(g, scroll, b.top as int) {
        Some(y) => top_puts(g, y, d, base),
        None => Seq::empty(),
    };
    let sides = sides_upto(g, b.top as int, scroll, d, base, b.lines as int);
    let below = match screen_row(g, scroll, b.top + b.lines + 1) {
        Some(y) => seq![
            PutV {
                x: g.box_at().0,
                y,
                text: rule("╰"@, "╯"@, g.box_at().1),
                style: border_style(d, base),
            },
        ],
        None => Seq::empty(),
    };
    above + sides + below
}

fn on_screen(g: &Geometry, scroll: usize, row: usize) -> (r: Option<u16>)
    requires
        g.rows_fit(),
    ensures
        match r {
            Some(y) => screen_row(*g, scroll as int, row as int) == Some(y as int),
            None => screen_row(*g, scroll as int, row as int) is None,
        },
{
    if row >= scroll && row - scroll < g.area_height() {
        Some(g.area_top() + (row - scroll) as u16)
    } else {
        None
    }
}

fn border_of(d: &Decoration, base: Style) -> (r: Style)
    ensures
        r == border_style(d@, base),
{
    let c = color_on(d.border, base);
    if d.bold {
        c.add_emphasis(Emphasis { bold: true, ..Emphasis::none() })
    } else {
        c
    }
}

fn color_on(c: Option<Color>, base: Style) -> (r: Style)
    ensures
        r == colored(c, base),
{
    match c {
        Some(c) => Style { fg: Some(c), ..base },
        None => base,
    }
}

fn rule_text(left: &str, right: &str, width: u16) -> (r: String)
    requires
        width >= 2,
    ensures
        r@ == rule(left@, right@, width as int),
{
    let dash = chars_of("─");
    let mut line: Vec<char> = Vec::new();
    let mut n: u16 = 0;
    assert(line@ =~= repeated(dash@, 0));
    while n < width - 2
        invariant
            n <= width - 2,
            width >= 2,
            line@ == repeated(dash@, n as int),
        decreases width - n,
    {
        append_chars(&mut line, &dash);
        n += 1;
    }
    cat3(left, string_of(&line).as_str(), right)
}

fn paint_top(out: &mut Vec<Put>, g: &Geometry, y: u16, d: &Decoration, base: Style)
    requires
        g.wf(),
    ensures
        puts_view(final(out)@) == puts_view(old(out)@) + top_puts(*g, y as int, d@, base),
{
    let ghost before = puts_view(out@);
    let (bx, bw) = g.box_x();
    let dim = color_on(d.dim, base);
    out.push(Put { x: bx, y, text: rule_text("╭", "╮", bw), style: border_of(d, base) });
    if let Some(label) = &d.label {
        out.push(Put { x: bx + 2, y, text: space(label.as_str()), style: dim });
    }
    if let Some(s) = &d.status {
        let text = space(s.0.as_str());
        let len = chars_of(text.as_str()).len();
        let end = (bx + bw) as usize;
        let x: u16 = if end >= 4 + bx as usize && len <= end - 4 - bx as usize {
            (end - 2 - len) as u16
        } else {
            bx + 2
        };
        let style = match s.1 {
            Some(c) => color_on(Some(c), base),
            None => dim,
        };
        out.push(Put { x, y, text, style });
    }
    assert(puts_view(out@) =~= before + top_puts(*g, y as int, d@, base));
}

fn paint_sides(out: &mut Vec<Put>, g: &Geometry, y: u16, row: usize, d: &Decoration, base: Style)
    requires
        g.wf(),
    ensures
        puts_view(final(out)@) == puts_view(old(out)@) + side_puts(
            *g,
            y as int,
            row as int,
            d@,
            base,
        ),
{
    let ghost before = puts_view(out@);
    let (bx, bw) = g.box_x();
    let style = border_of(d, base);
    out.push(Put { x: bx, y, text: "│".to_string(), style });
    out.push(Put { x: bx + bw - 1, y, text: "│".to_string(), style });
    let len = chars_of(d.gutter.as_str()).len();
    if row == 0 && len > 0 {
        let left = g.viewport.col;
        let x: u16 = if len < (bx - left) as usize {
            (bx as usize - len - 1) as u16
        } else {
            left
        };
        out.push(Put { x, y, text: d.gutter.clone(), style: color_on(d.dim, base) });
    }
    assert(puts_view(out@) =~= before + side_puts(*g, y as int, row as int, d@, base));
}

/// A cell's box, gutter label and status, as far as they are in view; the box's interior is the
/// editor window's.
pub fn draw_block(g: &Geometry, b: &Block, scroll: usize, d: &Decoration, base: Style) -> (r: Vec<Put>)
    requires
        g.wf(),
        b.top + b.lines + 1 <= usize::MAX,
    ensures
        puts_view(r@) == box_puts(*g, *b, scroll as int, d@, base),
{
    let mut out: Vec<Put> = Vec::new();
    assert(puts_view(out@) =~= Seq::empty());
    let ghost above = match screen_row(*g, scroll as int, b.top as int) {
        Some(y) => top_puts(*g, y, d@, base),
        None => Seq::empty(),
    };
    if let Some(y) = on_screen(g, scroll, b.top) {
        paint_top(&mut out, g, y, d, base);
    }
    assert(puts_view(out@) =~= above);
    let mut n: usize = 0;
    assert(above =~= above + sides_upto(*g, b.top as int, scroll as int, d@, base, 0));
    while n < b.lines
        invariant
            g.wf(),
            n <= b.lines,
            b.top + b.lines + 1 <= usize::MAX,
            puts_view(out@) == above + sides_upto(
                *g,
                b.top as int,
                scroll as int,
                d@,
                base,
                n as int,
            ),
        decreases b.lines - n,
    {
        let ghost so_far = puts_view(out@);
        let ghost front = sides_upto(*g, b.top as int, scroll as int, d@, base, n as int);
        if let Some(y) = on_screen(g, scroll, b.top + 1 + n) {
            paint_sides(&mut out, g, y, n, d, base);
            assert(above + (front + side_puts(*g, y as int, n as int, d@, base)) =~= (above
                + front) + side_puts(*g, y as int, n as int, d@, base));
        }
        n += 1;
    }
    let ghost most = puts_view(out@);
    if let Some(y) = on_screen(g, scroll, b.top + b.lines + 1) {
        let (bx, bw) = g.box_x();
        let put = Put { x: bx, y, text: rule_text("╰", "╯", bw), style: border_of(d, base) };
        out.push(put);
        assert(puts_view(out@) =~= most + seq![put@]);
    }
    assert(puts_view(out@) =~= box_puts(*g, *b, scroll as int, d@, base));
    out
}

/// The rows of a cell's outputs that are in view.
pub open spec fn outputs_run(g: Geometry, b: Block, scroll: int) -> Option<Run> {
    let first = b.top + b.lines + 2;
    let from = larger(first, scroll);
    let to = smaller(first + b.outputs, scroll + g.rows());
    if b.outputs > 0 && from < to {
        Some(
            Run {
                slot: 0,
                top: (g.top_row() + from - scroll) as u16,
                len: (to - from) as u16,
                x0: (g.box_at().0 + 1) as u16,
                x1: (g.box_at().0 + g.box_at().1 - 1) as u16,
                offset: (from - first) as usize,
            },
        )
    } else {
        None
    }
}

/// The rows of a cell's outputs that are in view.
pub fn outputs_region(g: &Geometry, b: &Block, scroll: usize) -> (r: Option<Run>)
    requires
        g.wf(),
        b.rows() + b.top <= usize::MAX,
    ensures
        r == outputs_run(*g, *b, scroll as int),
        r matches Some(run) ==> run.top + run.len <= u16::MAX && run.offset + run.len <= b.outputs,
{
    let first = b.top + b.lines + 2;
    let end = first + b.outputs;
    let area = g.area_height();
    let from = if first > scroll {
        first
    } else {
        scroll
    };
    let to = if end > scroll && end - scroll > area {
        scroll + area
    } else {
        end
    };
    if b.outputs == 0 || from >= to {
        return None;
    }
    let (x, w) = g.inner_x();
    Some(
        Run {
            slot: 0,
            top: g.area_top() + (from - scroll) as u16,
            len: (to - from) as u16,
            x0: x,
            x1: x + w,
            offset: from - first,
        },
    )
}

fn cut_to(s: &str, n: usize) -> (r: String)
    ensures
        r@ == first_chars(s@, n as int),
{
    let v = chars_of(s);
    if v.len() <= n {
        s.to_string()
    } else {
        let cut = substr(&v, 0, n);
        assert(cut@ =~= s@.take(n as int));
        string_of(&cut)
    }
}

/// Something drawn: a text, or a cell's outputs in a part of the screen.
#[derive(Debug)]
pub enum Paint {
    Text(Put),
    Outputs(CellKey, Run),
}

/// What a [`Paint`] holds.
pub enum PaintV {
    Text(PutV),
    Outputs(Name, Run),
}

impl View for Paint {
    type V = PaintV;

    open spec fn view(&self) -> PaintV {
        match self {
            Paint::Text(p) => PaintV::Text(p@),
            Paint::Outputs(k, r) => PaintV::Outputs(k@, *r),
        }
    }
}

pub open spec fn paints_view(v: Seq<Paint>) -> Seq<PaintV> {
    Seq::new(v.len(), |i: int| v[i]@)
}

pub open spec fn texts_painted(v: Seq<PutV>) -> Seq<PaintV> {
    Seq::new(v.len(), |i: int| PaintV::Text(v[i]))
}

/// A block with its outputs.
pub open spec fn block_paints(
    a: &App,
    g: Geometry,
    b: Block,
    scroll: int,
    t: Colors,
    time: Seq<char>,
    base: Style,
) -> Seq<PaintV> {
    let d = decorated(a, b.key@, b.kind, t, time);
    let box_part = texts_painted(box_puts(g, b, scroll, d, base));
    match outputs_run(g, b, scroll) {
        Some(run) => box_part.push(PaintV::Outputs(b.key@, run)),
        None => box_part,
    }
}

/// The first `n` blocks with their outputs.
pub open spec fn blocks_paints(
    a: &App,
    g: Geometry,
    blocks: Seq<Block>,
    scroll: int,
    t: Colors,
    times: Seq<String>,
    base: Style,
    n: int,
) -> Seq<PaintV>
    decreases n,
{
    if n <= 0 {
        Seq::empty()
    } else {
        blocks_paints(a, g, blocks, scroll, t, times, base, n - 1) + block_paints(
            a,
            g,
            blocks[n - 1],
            scroll,
            t,
            times[n - 1]@,
            base,
        )
    }
}

/// At most the first `n` characters.
pub open spec fn first_chars(s: Seq<char>, n: int) -> Seq<char> {
    if s.len() <= n {
        s
    } else {
        s.take(n)
    }
}

/// What an empty notebook shows, as far as the cells' width goes.
pub open spec fn empty_paint(g: Geometry, t: Colors) -> PaintV {
    PaintV::Text(
        PutV {
            x: g.box_at().0 + 1,
            y: g.top_row(),
            text: first_chars("empty notebook: o adds a cell"@, g.box_at().1 - 2),
            style: themed(t, "dim"@),
        },
    )
}

/// The notebook's part of the screen, below the header.
pub open spec fn notebook_paints(a: &App, t: Colors, times: Seq<String>, base: Style) -> Seq<PaintV> {
    match a.ui.geometry {
        None => Seq::empty(),
        Some(g) => {
            let first = if a.nb.doc().order.len() == 0 {
                seq![empty_paint(g, t)]
            } else {
                Seq::empty()
            };
            match a.ui.shown {
                Some((l, scroll)) => first + blocks_paints(
                    a,
                    g,
                    l.blocks@,
                    scroll as int,
                    t,
                    times,
                    base,
                    l.blocks@.len() as int,
                ),
                None => first,
            }
        },
    }
}

fn paint_texts(out: &mut Vec<Paint>, puts: Vec<Put>)
    ensures
        paints_view(final(out)@) == paints_view(old(out)@) + texts_painted(puts_view(puts@)),
{
    let ghost before = paints_view(out@);
    let ghost all = puts@;
    let ghost whole = texts_painted(puts_view(all));
    assert(before + whole.take(0) =~= before);
    for p in it: puts
        invariant
            it.seq() == all,
            whole == texts_painted(puts_view(all)),
            paints_view(out@) == before + whole.take(it.index() as int),
    {
        let ghost n = it.index() as int;
        let ghost so_far = out@;
        assert(whole[n] == PaintV::Text(p@));
        out.push(Paint::Text(p));
        assert(paints_view(out@) =~= paints_view(so_far).push(whole[n]));
        assert(whole.take(n + 1) =~= whole.take(n).push(whole[n]));
        assert(paints_view(out@) =~= before + whole.take(n + 1));
    }
    assert(whole.take(all.len() as int) =~= whole);
}

impl App {
    fn paint_block(
        &self,
        out: &mut Vec<Paint>,
        g: &Geometry,
        b: &Block,
        scroll: usize,
        t: &Theme,
        time: &str,
        base: Style,
    )
        requires
            g.wf(),
            b.top + b.rows() <= usize::MAX,
        ensures
            paints_view(final(out)@) == paints_view(old(out)@) + block_paints(
                self,
                *g,
                *b,
                scroll as int,
                t@,
                time@,
                base,
            ),
    {
        let ghost before = paints_view(out@);
        let d = self.decoration(b, t, time);
        paint_texts(out, draw_block(g, b, scroll, &d, base));
        if let Some(run) = outputs_region(g, b, scroll) {
            let ghost so_far = out@;
            out.push(Paint::Outputs(b.key.clone(), run));
            assert(paints_view(out@) =~= paints_view(so_far).push(PaintV::Outputs(b.key@, run)));
        }
        assert(paints_view(out@) =~= before + block_paints(
            self,
            *g,
            *b,
            scroll as int,
            t@,
            time@,
            base,
        ));
    }

    /// What is drawn below the header, around the editor windows. `times` says how long each
    /// cell's last run took, in the order of the blocks on screen; `base` is the style of the
    /// screen.
    pub fn draw(&self, t: &Theme, times: &Vec<String>, base: Style) -> (r: Vec<Paint>)
        requires
            self.wf(),
            self.ui.shown matches Some(s) ==> times@.len() == s.0.blocks@.len(),
        ensures
            paints_view(r@) == notebook_paints(self, t@, times@, base),
    {
        let mut out: Vec<Paint> = Vec::new();
        assert(paints_view(out@) =~= Seq::empty());
        let g = match self.ui.geometry {
            Some(g) => g,
            None => {
                return out;
            },
        };
        if self.nb.order.len() == 0 {
            let (x, w) = g.inner_x();
            out.push(
                Paint::Text(
                    Put {
                        x,
                        y: g.area_top(),
                        text: cut_to("empty notebook: o adds a cell", w as usize),
                        style: t.style("dim"),
                    },
                ),
            );
        }
        let ghost first = if self.nb.doc().order.len() == 0 {
            seq![empty_paint(g, t@)]
        } else {
            Seq::empty()
        };
        assert(paints_view(out@) =~= first);
        if let Some(s) = &self.ui.shown {
            let layout = &s.0;
            let scroll = s.1;
            let ghost blocks = layout.blocks@;
            let mut i: usize = 0;
            assert(first =~= first + blocks_paints(
                self,
                g,
                blocks,
                scroll as int,
                t@,
                times@,
                base,
                0,
            ));
            while i < layout.blocks.len()
                invariant
                    i <= layout.blocks@.len(),
                    blocks == layout.blocks@,
                    layout.wf(),
                    g.wf(),
                    times@.len() == blocks.len(),
                    paints_view(out@) == first + blocks_paints(
                        self,
                        g,
                        blocks,
                        scroll as int,
                        t@,
                        times@,
                        base,
                        i as int,
                    ),
                decreases layout.blocks@.len() - i,
            {
                proof {
                    layout.lemma_block(i as int);
                }
                let ghost so_far = paints_view(out@);
                self.paint_block(
                    &mut out,
                    &g,
                    &layout.blocks[i],
                    scroll,
                    t,
                    times[i].as_str(),
                    base,
                );
                assert(paints_view(out@) =~= first + blocks_paints(
                    self,
                    g,
                    blocks,
                    scroll as int,
                    t@,
                    times@,
                    base,
                    i + 1,
                ));
                i += 1;
            }
        }
        out
    }
}

/// When the screen is narrow, the hint gives way: it never covers the header, and it stays in
/// the row.
pub proof fn hint_gives_way(col: int, width: int, header: int, hint: int)
    requires
        col >= 0,
        width >= 0,
        header >= 0,
        hint >= 0,
    ensures
        match hint_place(col, width, header, hint) {
            Some((x, w)) => col + header <= x && x + w <= col + width && w <= hint,
            None => width <= header,
        },
{
}

} // verus!
