//! The typed redraw event stream. Only the `ext_linegrid` and `ext_hlstate` subset in use is
//! decoded; everything else is ignored.

use crate::msg::{
    m_at, m_bool, m_get, m_i64, m_items, m_str, m_u64, msg_views, Msg, MsgV,
};
use crate::text::{str_eq, texts};
use vstd::prelude::*;

verus! {

#[derive(Debug, PartialEq)]
pub struct HlAttr {
    pub fg: Option<u32>,
    pub bg: Option<u32>,
    pub sp: Option<u32>,
    pub bold: bool,
    pub italic: bool,
    pub underline: bool,
    pub undercurl: bool,
    pub strikethrough: bool,
    pub reverse: bool,
    /// Semantic highlight names this attribute came from (`ext_hlstate` info).
    pub names: Vec<String>,
}

/// What an [`HlAttr`] holds.
pub struct HlV {
    pub fg: Option<u32>,
    pub bg: Option<u32>,
    pub sp: Option<u32>,
    pub bold: bool,
    pub italic: bool,
    pub underline: bool,
    pub undercurl: bool,
    pub strikethrough: bool,
    pub reverse: bool,
    pub names: Seq<Seq<char>>,
}

impl View for HlAttr {
    type V = HlV;

    open spec fn view(&self) -> HlV {
        HlV {
            fg: self.fg,
            bg: self.bg,
            sp: self.sp,
            bold: self.bold,
            italic: self.italic,
            underline: self.underline,
            undercurl: self.undercurl,
            strikethrough: self.strikethrough,
            reverse: self.reverse,
            names: texts(self.names@),
        }
    }
}

impl Default for HlAttr {
    fn default() -> (r: Self)
        ensures
            r@ == (HlV {
                fg: None,
                bg: None,
                sp: None,
                bold: false,
                italic: false,
                underline: false,
                undercurl: false,
                strikethrough: false,
                reverse: false,
                names: Seq::empty(),
            }),
    {
        let r = HlAttr {
            fg: None,
            bg: None,
            sp: None,
            bold: false,
            italic: false,
            underline: false,
            undercurl: false,
            strikethrough: false,
            reverse: false,
            names: Vec::new(),
        };
        assert(r@.names =~= Seq::empty());
        r
    }
}

#[derive(Clone, Copy, Debug, PartialEq, Eq, Structural)]
pub enum CursorShape {
    Block,
    Horizontal,
    Vertical,
}

#[derive(Debug, PartialEq, Eq)]
pub struct ModeInfo {
    pub name: String,
    pub shape: CursorShape,
    pub percentage: u8,
}

/// What a [`ModeInfo`] holds.
pub struct ModeV {
    pub name: Seq<char>,
    pub shape: CursorShape,
    pub percentage: u8,
}

impl View for ModeInfo {
    type V = ModeV;

    open spec fn view(&self) -> ModeV {
        ModeV { name: self.name@, shape: self.shape, percentage: self.percentage }
    }
}

#[derive(Debug, PartialEq, Eq)]
pub struct LineCell {
    pub text: String,
    pub hl: Option<u32>,
    pub repeat: usize,
}

/// What a [`LineCell`] holds.
pub struct LineCellV {
    pub text: Seq<char>,
    pub hl: Option<u32>,
    pub repeat: usize,
}

impl View for LineCell {
    type V = LineCellV;

    open spec fn view(&self) -> LineCellV {
        LineCellV { text: self.text@, hl: self.hl, repeat: self.repeat }
    }
}

pub open spec fn line_cells(v: Seq<LineCell>) -> Seq<LineCellV> {
    Seq::new(v.len(), |i: int| v[i]@)
}

pub open spec fn modes_view(v: Seq<ModeInfo>) -> Seq<ModeV> {
    Seq::new(v.len(), |i: int| v[i]@)
}

#[derive(Debug, PartialEq)]
pub enum RedrawEvent {
    GridResize { grid: u64, width: usize, height: usize },
    GridLine { grid: u64, row: usize, col: usize, cells: Vec<LineCell> },
    GridScroll { grid: u64, top: usize, bot: usize, left: usize, right: usize, rows: i64 },
    GridClear { grid: u64 },
    GridCursorGoto { grid: u64, row: usize, col: usize },
    HlAttrDefine { id: u32, attr: HlAttr },
    DefaultColors { fg: Option<u32>, bg: Option<u32>, sp: Option<u32> },
    ModeInfoSet { modes: Vec<ModeInfo> },
    ModeChange { mode: String, index: usize },
    BusyStart,
    BusyStop,
    SetTitle(String),
    Flush,
}

/// What a [`RedrawEvent`] says.
pub enum RedrawV {
    GridResize { grid: u64, width: usize, height: usize },
    GridLine { grid: u64, row: usize, col: usize, cells: Seq<LineCellV> },
    GridScroll { grid: u64, top: usize, bot: usize, left: usize, right: usize, rows: i64 },
    GridClear { grid: u64 },
    GridCursorGoto { grid: u64, row: usize, col: usize },
    HlAttrDefine { id: u32, attr: HlV },
    DefaultColors { fg: Option<u32>, bg: Option<u32>, sp: Option<u32> },
    ModeInfoSet { modes: Seq<ModeV> },
    ModeChange { mode: Seq<char>, index: usize },
    BusyStart,
    BusyStop,
    SetTitle(Seq<char>),
    Flush,
}

impl View for RedrawEvent {
    type V = RedrawV;

    open spec fn view(&self) -> RedrawV {
        match *self {
            RedrawEvent::GridResize { grid, width, height } => RedrawV::GridResize {
                grid,
                width,
                height,
            },
            RedrawEvent::GridLine { grid, row, col, cells } => RedrawV::GridLine {
                grid,
                row,
                col,
                cells: line_cells(cells@),
            },
            RedrawEvent::GridScroll { grid, top, bot, left, right, rows } => RedrawV::GridScroll {
                grid,
                top,
                bot,
                left,
                right,
                rows,
            },
            RedrawEvent::GridClear { grid } => RedrawV::GridClear { grid },
            RedrawEvent::GridCursorGoto { grid, row, col } => RedrawV::GridCursorGoto {
                grid,
                row,
                col,
            },
            RedrawEvent::HlAttrDefine { id, attr } => RedrawV::HlAttrDefine { id, attr: attr@ },
            RedrawEvent::DefaultColors { fg, bg, sp } => RedrawV::DefaultColors { fg, bg, sp },
            RedrawEvent::ModeInfoSet { modes } => RedrawV::ModeInfoSet {
                modes: modes_view(modes@),
            },
            RedrawEvent::ModeChange { mode, index } => RedrawV::ModeChange { mode: mode@, index },
            RedrawEvent::BusyStart => RedrawV::BusyStart,
            RedrawEvent::BusyStop => RedrawV::BusyStop,
            RedrawEvent::SetTitle(t) => RedrawV::SetTitle(t@),
            RedrawEvent::Flush => RedrawV::Flush,
        }
    }
}

pub open spec fn redraws_view(v: Seq<RedrawEvent>) -> Seq<RedrawV> {
    Seq::new(v.len(), |i: int| v[i]@)
}

/// A number that is not negative; 0 for anything else.
pub open spec fn count_of(v: MsgV) -> u64 {
    match m_u64(v) {
        Some(u) => u,
        None => match m_i64(v) {
            Some(i) => if i > 0 {
                i as u64
            } else {
                0
            },
            None => 0,
        },
    }
}

/// A colour, if the value is one.
pub open spec fn color_of(v: MsgV) -> Option<u32> {
    match m_i64(v) {
        Some(i) => if i >= 0 {
            Some(i as u32)
        } else {
            None
        },
        None => None,
    }
}

pub open spec fn flag_of(v: MsgV, key: Seq<char>) -> bool {
    match m_get(v, key) {
        Some(b) => m_bool(b) == Some(true),
        None => false,
    }
}

pub open spec fn color_at(v: MsgV, key: Seq<char>) -> Option<u32> {
    match m_get(v, key) {
        Some(c) => color_of(c),
        None => None,
    }
}

/// The highlight names in the items of a highlight's info.
pub open spec fn names_of(items: Seq<MsgV>) -> Seq<Seq<char>>
    decreases items.len(),
{
    if items.len() == 0 {
        Seq::empty()
    } else {
        let front = names_of(items.drop_last());
        match m_get(items.last(), "hi_name"@) {
            Some(n) => match m_str(n) {
                Some(s) => front.push(s),
                None => front,
            },
            None => front,
        }
    }
}

pub open spec fn attr_of(rgb: MsgV, info: MsgV) -> HlV {
    HlV {
        fg: color_at(rgb, "foreground"@),
        bg: color_at(rgb, "background"@),
        sp: color_at(rgb, "special"@),
        bold: flag_of(rgb, "bold"@),
        italic: flag_of(rgb, "italic"@),
        underline: flag_of(rgb, "underline"@) || flag_of(rgb, "underdouble"@) || flag_of(
            rgb,
            "underdotted"@,
        ) || flag_of(rgb, "underdashed"@),
        undercurl: flag_of(rgb, "undercurl"@),
        strikethrough: flag_of(rgb, "strikethrough"@),
        reverse: flag_of(rgb, "reverse"@),
        names: names_of(m_items(info)),
    }
}

/// A cell of a line: a text, which may be followed by a highlight and a count.
pub open spec fn line_cell_of(v: MsgV) -> LineCellV {
    let c = m_items(v);
    LineCellV {
        text: match m_str(m_at(c, 0)) {
            Some(s) => s,
            None => " "@,
        },
        hl: if c.len() > 1 {
            Some(count_of(c[1]) as u32)
        } else {
            None
        },
        repeat: if c.len() > 2 {
            count_of(c[2]) as usize
        } else {
            1
        },
    }
}

pub open spec fn text_or(v: Option<MsgV>, other: Seq<char>) -> Seq<char> {
    match v {
        Some(m) => match m_str(m) {
            Some(s) => s,
            None => other,
        },
        None => other,
    }
}

pub open spec fn mode_of(m: MsgV) -> ModeV {
    let shape = text_or(m_get(m, "cursor_shape"@), ""@);
    ModeV {
        name: text_or(m_get(m, "name"@), ""@),
        shape: if shape == "horizontal"@ {
            CursorShape::Horizontal
        } else if shape == "vertical"@ {
            CursorShape::Vertical
        } else {
            CursorShape::Block
        },
        percentage: match m_get(m, "cell_percentage"@) {
            Some(v) => count_of(v) as u8,
            None => 100,
        },
    }
}

/// The event that one call of the event named `name` means. None for a name not in use.
pub open spec fn call_event(name: Seq<char>, call: MsgV) -> Option<RedrawV> {
    let a = m_items(call);
    let grid = count_of(m_at(a, 0));
    if name == "grid_resize"@ {
        Some(
            RedrawV::GridResize {
                grid,
                width: count_of(m_at(a, 1)) as usize,
                height: count_of(m_at(a, 2)) as usize,
            },
        )
    } else if name == "grid_line"@ {
        Some(
            RedrawV::GridLine {
                grid,
                row: count_of(m_at(a, 1)) as usize,
                col: count_of(m_at(a, 2)) as usize,
                cells: m_items(m_at(a, 3)).map_values(|c: MsgV| line_cell_of(c)),
            },
        )
    } else if name == "grid_scroll"@ {
        Some(
            RedrawV::GridScroll {
                grid,
                top: count_of(m_at(a, 1)) as usize,
                bot: count_of(m_at(a, 2)) as usize,
                left: count_of(m_at(a, 3)) as usize,
                right: count_of(m_at(a, 4)) as usize,
                rows: match m_i64(m_at(a, 5)) {
                    Some(i) => i,
                    None => 0,
                },
            },
        )
    } else if name == "grid_clear"@ {
        Some(RedrawV::GridClear { grid })
    } else if name == "grid_cursor_goto"@ {
        Some(
            RedrawV::GridCursorGoto {
                grid,
                row: count_of(m_at(a, 1)) as usize,
                col: count_of(m_at(a, 2)) as usize,
            },
        )
    } else if name == "hl_attr_define"@ {
        Some(
            RedrawV::HlAttrDefine { id: grid as u32, attr: attr_of(m_at(a, 1), m_at(a, 3)) },
        )
    } else if name == "default_colors_set"@ {
        Some(
            RedrawV::DefaultColors {
                fg: color_of(m_at(a, 0)),
                bg: color_of(m_at(a, 1)),
                sp: color_of(m_at(a, 2)),
            },
        )
    } else if name == "mode_info_set"@ {
        Some(
            RedrawV::ModeInfoSet {
                modes: m_items(m_at(a, 1)).map_values(|m: MsgV| mode_of(m)),
            },
        )
    } else if name == "mode_change"@ {
        Some(
            RedrawV::ModeChange {
                mode: text_or(Some(m_at(a, 0)), ""@),
                index: count_of(m_at(a, 1)) as usize,
            },
        )
    } else if name == "busy_start"@ {
        Some(RedrawV::BusyStart)
    } else if name == "busy_stop"@ {
        Some(RedrawV::BusyStop)
    } else if name == "set_title"@ {
        Some(RedrawV::SetTitle(text_or(Some(m_at(a, 0)), ""@)))
    } else if name == "flush"@ {
        Some(RedrawV::Flush)
    } else {
        None
    }
}

/// The events of the calls in a batch after its name, up to the `n`th item.
pub open spec fn batch_upto(items: Seq<MsgV>, name: Seq<char>, n: int) -> Seq<RedrawV>
    decreases n,
{
    if n <= 1 {
        Seq::empty()
    } else {
        let front = batch_upto(items, name, n - 1);
        match call_event(name, items[n - 1]) {
            Some(e) => front.push(e),
            None => front,
        }
    }
}

/// The events of a batch `[name, args...]`.
pub open spec fn batch_events(batch: MsgV) -> Seq<RedrawV> {
    let items = m_items(batch);
    match m_str(m_at(items, 0)) {
        Some(name) => batch_upto(items, name, items.len() as int),
        None => Seq::empty(),
    }
}

/// The events of all batches, in order.
pub open spec fn events_of(args: Seq<MsgV>) -> Seq<RedrawV>
    decreases args.len(),
{
    if args.len() == 0 {
        Seq::empty()
    } else {
        events_of(args.drop_last()) + batch_events(args.last())
    }
}

fn u(v: &Msg) -> (r: u64)
    ensures
        r == count_of(v@),
{
    match v.as_u64() {
        Some(n) => n,
        None => match v.as_i64() {
            Some(n) => if n > 0 {
                n as u64
            } else {
                0
            },
            None => 0,
        },
    }
}

fn color(v: &Msg) -> (r: Option<u32>)
    ensures
        r == color_of(v@),
{
    match v.as_i64() {
        Some(c) => if c >= 0 {
            Some(
                #[verifier::truncate]
                (c as u32),
            )
        } else {
            None
        },
        None => None,
    }
}

fn arg<'a>(a: &'a [Msg], n: usize) -> (r: &'a Msg)
    ensures
        r@ == m_at(msg_views(a@), n as int),
{
    if n < a.len() {
        assert(msg_views(a@)[n as int] == a@[n as int]@);
        &a[n]
    } else {
        &Msg::Nil
    }
}

fn flag(rgb: &Msg, key: &str) -> (r: bool)
    ensures
        r == flag_of(rgb@, key@),
{
    match rgb.get(key) {
        Some(v) => match v.as_bool() {
            Some(b) => b,
            None => false,
        },
        None => false,
    }
}

fn color_named(rgb: &Msg, key: &str) -> (r: Option<u32>)
    ensures
        r == color_at(rgb@, key@),
{
    match rgb.get(key) {
        Some(v) => color(v),
        None => None,
    }
}

fn parse_attr(rgb: &Msg, info: &Msg) -> (r: HlAttr)
    ensures
        r@ == attr_of(rgb@, info@),
{
    let items = info.items();
    let ghost all = m_items(info@);
    let mut names: Vec<String> = Vec::new();
    let mut i: usize = 0;
    assert(texts(names@) =~= names_of(all.take(0)));
    while i < items.len()
        invariant
            i <= items@.len(),
            all == msg_views(items@),
            texts(names@) == names_of(all.take(i as int)),
        decreases items@.len() - i,
    {
        let ghost before = texts(names@);
        assert(all.take(i + 1).drop_last() =~= all.take(i as int));
        assert(all.take(i + 1).last() == items@[i as int]@);
        if let Some(n) = items[i].get("hi_name") {
            if let Some(s) = n.as_str() {
                let ghost sv = s@;
                names.push(s);
                assert(texts(names@) =~= before.push(sv));
            }
        }
        i += 1;
    }
    assert(all.take(i as int) =~= all);
    HlAttr {
        fg: color_named(rgb, "foreground"),
        bg: color_named(rgb, "background"),
        sp: color_named(rgb, "special"),
        bold: flag(rgb, "bold"),
        italic: flag(rgb, "italic"),
        underline: flag(rgb, "underline") || flag(rgb, "underdouble") || flag(rgb, "underdotted")
            || flag(rgb, "underdashed"),
        undercurl: flag(rgb, "undercurl"),
        strikethrough: flag(rgb, "strikethrough"),
        reverse: flag(rgb, "reverse"),
        names,
    }
}

fn string_or(v: Option<&Msg>, other: &str) -> (r: String)
    ensures
        r@ == text_or(
            match v {
                Some(m) => Some(m@),
                None => None,
            },
            other@,
        ),
{
    match v {
        Some(m) => match m.as_str() {
            Some(s) => s,
            None => other.to_string(),
        },
        None => other.to_string(),
    }
}

fn parse_line_cell(v: &Msg) -> (r: LineCell)
    ensures
        r@ == line_cell_of(v@),
{
    let c = v.items();
    assert(m_items(v@).len() == c@.len());
    LineCell {
        text: string_or(Some(arg(c, 0)), " "),
        hl: if c.len() > 1 {
            Some(
                #[verifier::truncate]
                (u(arg(c, 1)) as u32),
            )
        } else {
            None
        },
        repeat: if c.len() > 2 {
            #[verifier::truncate]
            (u(arg(c, 2)) as usize)
        } else {
            1
        },
    }
}

fn parse_line_cells(v: &Msg) -> (r: Vec<LineCell>)
    ensures
        line_cells(r@) == m_items(v@).map_values(|c: MsgV| line_cell_of(c)),
{
    let items = v.items();
    let mut out: Vec<LineCell> = Vec::new();
    let mut i: usize = 0;
    while i < items.len()
        invariant
            i <= items@.len(),
            out@.len() == i,
            forall|j: int| 0 <= j < i ==> (#[trigger] out@[j])@ == line_cell_of(items@[j]@),
        decreases items@.len() - i,
    {
        out.push(parse_line_cell(&items[i]));
        i += 1;
    }
    proof {
        let want = m_items(v@).map_values(|c: MsgV| line_cell_of(c));
        assert forall|j: int| 0 <= j < want.len() implies line_cells(out@)[j] == want[j] by {
            assert(msg_views(items@)[j] == items@[j]@);
            assert(out@[j]@ == line_cell_of(items@[j]@));
        }
        assert(line_cells(out@) =~= want);
    }
    out
}

fn parse_mode(m: &Msg) -> (r: ModeInfo)
    ensures
        r@ == mode_of(m@),
{
    let shape = string_or(m.get("cursor_shape"), "");
    ModeInfo {
        name: string_or(m.get("name"), ""),
        shape: if str_eq(shape.as_str(), "horizontal") {
            CursorShape::Horizontal
        } else if str_eq(shape.as_str(), "vertical") {
            CursorShape::Vertical
        } else {
            CursorShape::Block
        },
        percentage: match m.get("cell_percentage") {
            Some(v) =>
            #[verifier::truncate]
            (u(v) as u8),
            None => 100,
        },
    }
}

fn parse_modes(v: &Msg) -> (r: Vec<ModeInfo>)
    ensures
        modes_view(r@) == m_items(v@).map_values(|m: MsgV| mode_of(m)),
{
    let items = v.items();
    let mut out: Vec<ModeInfo> = Vec::new();
    let mut i: usize = 0;
    while i < items.len()
        invariant
            i <= items@.len(),
            out@.len() == i,
            forall|j: int| 0 <= j < i ==> (#[trigger] out@[j])@ == mode_of(items@[j]@),
        decreases items@.len() - i,
    {
        out.push(parse_mode(&items[i]));
        i += 1;
    }
    proof {
        let want = m_items(v@).map_values(|m: MsgV| mode_of(m));
        assert forall|j: int| 0 <= j < want.len() implies modes_view(out@)[j] == want[j] by {
            assert(msg_views(items@)[j] == items@[j]@);
            assert(out@[j]@ == mode_of(items@[j]@));
        }
        assert(modes_view(out@) =~= want);
    }
    out
}

fn size(v: &Msg) -> (r: usize)
    ensures
        r == count_of(v@) as usize,
{
    #[verifier::truncate]
    (u(v) as usize)
}

fn parse_call(name: &str, call: &Msg) -> (r: Option<RedrawEvent>)
    ensures
        match r {
            Some(e) => call_event(name@, call@) == Some(e@),
            None => call_event(name@, call@) is None,
        },
{
    let a = call.items();
    let grid = u(arg(a, 0));
    let ev = if str_eq(name, "grid_resize") {
        RedrawEvent::GridResize { grid, width: size(arg(a, 1)), height: size(arg(a, 2)) }
    } else if str_eq(name, "grid_line") {
        RedrawEvent::GridLine {
            grid,
            row: size(arg(a, 1)),
            col: size(arg(a, 2)),
            cells: parse_line_cells(arg(a, 3)),
        }
    } else if str_eq(name, "grid_scroll") {
        RedrawEvent::GridScroll {
            grid,
            top: size(arg(a, 1)),
            bot: size(arg(a, 2)),
            left: size(arg(a, 3)),
            right: size(arg(a, 4)),
            rows: match arg(a, 5).as_i64() {
                Some(i) => i,
                None => 0,
            },
        }
    } else if str_eq(name, "grid_clear") {
        RedrawEvent::GridClear { grid }
    } else if str_eq(name, "grid_cursor_goto") {
        RedrawEvent::GridCursorGoto { grid, row: size(arg(a, 1)), col: size(arg(a, 2)) }
    } else if str_eq(name, "hl_attr_define") {
        RedrawEvent::HlAttrDefine {
            id: #[verifier::truncate]
            (grid as u32),
            attr: parse_attr(arg(a, 1), arg(a, 3)),
        }
    } else if str_eq(name, "default_colors_set") {
        RedrawEvent::DefaultColors {
            fg: color(arg(a, 0)),
            bg: color(arg(a, 1)),
            sp: color(arg(a, 2)),
        }
    } else if str_eq(name, "mode_info_set") {
        RedrawEvent::ModeInfoSet { modes: parse_modes(arg(a, 1)) }
    } else if str_eq(name, "mode_change") {
        RedrawEvent::ModeChange {
            mode: string_or(Some(arg(a, 0)), ""),
            index: size(arg(a, 1)),
        }
    } else if str_eq(name, "busy_start") {
        RedrawEvent::BusyStart
    } else if str_eq(name, "busy_stop") {
        RedrawEvent::BusyStop
    } else if str_eq(name, "set_title") {
        RedrawEvent::SetTitle(string_or(Some(arg(a, 0)), ""))
    } else if str_eq(name, "flush") {
        RedrawEvent::Flush
    } else {
        return None;
    };
    Some(ev)
}

fn parse_batch(batch: &Msg, out: &mut Vec<RedrawEvent>)
    ensures
        redraws_view(final(out)@) == redraws_view(old(out)@) + batch_events(batch@),
{
    let ghost before = redraws_view(out@);
    let items = batch.items();
    let ghost all = m_items(batch@);
    assert(all == msg_views(items@));
    let name = match arg(items, 0).as_str() {
        Some(n) => n,
        None => {
            assert(before + Seq::empty() =~= before);
            return;
        },
    };
    assert(all.len() >= 1);
    let mut i: usize = 1;
    assert(before + batch_upto(all, name@, 1) =~= before);
    while i < items.len()
        invariant
            1 <= i <= items@.len(),
            all == msg_views(items@),
            redraws_view(out@) == before + batch_upto(all, name@, i as int),
        decreases items@.len() - i,
    {
        assert(all[i as int] == items@[i as int]@);
        if let Some(e) = parse_call(name.as_str(), &items[i]) {
            let ghost ev = e@;
            let ghost now = redraws_view(out@);
            out.push(e);
            assert(redraws_view(out@) =~= now.push(ev));
            assert(before + batch_upto(all, name@, i as int).push(ev) =~= now.push(ev));
        }
        i += 1;
    }
}

/// Decodes one `redraw` notification's arguments: a list of `[name, args...]` batches.
pub fn parse(args: &[Msg]) -> (r: Vec<RedrawEvent>)
    ensures
        redraws_view(r@) == events_of(msg_views(args@)),
{
    let ghost all = msg_views(args@);
    let mut out: Vec<RedrawEvent> = Vec::new();
    let mut i: usize = 0;
    assert(redraws_view(out@) =~= events_of(all.take(0)));
    while i < args.len()
        invariant
            i <= args@.len(),
            all == msg_views(args@),
            redraws_view(out@) == events_of(all.take(i as int)),
        decreases args@.len() - i,
    {
        assert(all.take(i + 1).drop_last() =~= all.take(i as int));
        assert(all.take(i + 1).last() == args@[i as int]@);
        parse_batch(&args[i], &mut out);
        i += 1;
    }
    assert(all.take(i as int) =~= all);
    out
}

} // verus!
