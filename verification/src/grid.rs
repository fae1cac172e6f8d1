//! The grid model: Neovim's single composed global grid.

use crate::redraw::{line_cells, HlAttr, LineCell, LineCellV, ModeInfo, RedrawEvent, RedrawV};
use crate::text::{
    after_prefix, append_chars, chars_of, concat, number_in, parse_number, string_of,
    strip_prefix, texts,
};
use std::collections::HashMap;
use vstd::prelude::*;
use vstd::std_specs::hash::*;

verus! {

broadcast use vstd::std_specs::hash::group_hash_axioms;

/// Prefix of the placeholder highlight groups.
pub const SLOT_PREFIX: &'static str = "NbvOutputSlot";

#[derive(Debug, PartialEq, Eq)]
pub struct GridCell {
    /// One grapheme, or empty for the right half of a double-width character.
    pub text: String,
    pub hl: u32,
}

/// What a [`GridCell`] holds.
pub struct GridCellV {
    pub text: Seq<char>,
    pub hl: u32,
}

impl View for GridCell {
    type V = GridCellV;

    open spec fn view(&self) -> GridCellV {
        GridCellV { text: self.text@, hl: self.hl }
    }
}

/// A cell with nothing in it.
pub open spec fn blank() -> GridCellV {
    GridCellV { text: " "@, hl: 0 }
}

impl Default for GridCell {
    fn default() -> (r: Self)
        ensures
            r@ == blank(),
    {
        GridCell { text: " ".to_string(), hl: 0 }
    }
}

impl Clone for GridCell {
    fn clone(&self) -> (r: Self)
        ensures
            r@ == self@,
    {
        GridCell { text: self.text.clone(), hl: self.hl }
    }
}

#[derive(Debug)]
pub struct Grid {
    pub width: usize,
    pub height: usize,
    /// The rows, one after another.
    pub cells: Vec<GridCell>,
    pub cursor: (usize, usize),
    pub hl: HashMap<u32, HlAttr>,
    /// hl id → output slot, for placeholder highlights.
    pub slots: HashMap<u32, u16>,
    pub default_fg: Option<u32>,
    pub default_bg: Option<u32>,
    pub modes: Vec<ModeInfo>,
    pub mode: usize,
    pub mode_name: String,
    pub busy: bool,
    pub title: Option<String>,
}

impl Default for Grid {
    fn default() -> (r: Self)
        ensures
            r.wf(),
            r.width == 0 && r.height == 0,
            r.cursor == (0usize, 0usize),
            r.hl@ == Map::<u32, HlAttr>::empty(),
            r.slots@ == Map::<u32, u16>::empty(),
            r.default_fg is None && r.default_bg is None && r.title is None,
            r.modes@.len() == 0 && r.mode == 0 && r.mode_name@.len() == 0 && !r.busy,
    {
        Grid {
            width: 0,
            height: 0,
            cells: Vec::new(),
            cursor: (0, 0),
            hl: HashMap::new(),
            slots: HashMap::new(),
            default_fg: None,
            default_bg: None,
            modes: Vec::new(),
            mode: 0,
            mode_name: String::new(),
            busy: false,
            title: None,
        }
    }
}

/// Where a cell stands among all cells.
pub open spec fn flat(width: int, row: int, col: int) -> int {
    row * width + col
}

proof fn lemma_flat(width: int, height: int, row: int, col: int)
    requires
        0 <= row < height,
        0 <= col < width,
    ensures
        0 <= flat(width, row, col) < width * height,
        0 <= row * width <= flat(width, row, col),
        row * width + width <= width * height,
{
    assert(row * width + width <= width * height) by (nonlinear_arith)
        requires
            0 <= row < height,
            0 <= width,
    ;
    assert(0 <= row * width) by (nonlinear_arith)
        requires
            0 <= row,
            0 <= width,
    ;
}

proof fn lemma_flat_injective(width: int, r1: int, c1: int, r2: int, c2: int)
    requires
        0 <= c1 < width,
        0 <= c2 < width,
        flat(width, r1, c1) == flat(width, r2, c2),
    ensures
        r1 == r2,
        c1 == c2,
{
    assert(r1 == r2) by (nonlinear_arith)
        requires
            0 <= c1 < width,
            0 <= c2 < width,
            r1 * width + c1 == r2 * width + c2,
    ;
}

/// The cells of a line written out: each repeated, in the highlight given last.
pub open spec fn spread(cells: Seq<LineCellV>) -> Seq<GridCellV>
    decreases cells.len(),
{
    if cells.len() == 0 {
        Seq::empty()
    } else {
        let c = cells.last();
        let hl = last_hl(cells);
        spread(cells.drop_last()) + Seq::new(
            c.repeat as nat,
            |i: int| GridCellV { text: c.text, hl },
        )
    }
}

/// The highlight given last.
pub open spec fn last_hl(cells: Seq<LineCellV>) -> u32
    decreases cells.len(),
{
    if cells.len() == 0 {
        0
    } else {
        match cells.last().hl {
            Some(h) => h,
            None => last_hl(cells.drop_last()),
        }
    }
}

/// The slot that a highlight name stands for.
pub open spec fn slot_named(name: Seq<char>) -> Option<u16> {
    match strip_prefix(name, SLOT_PREFIX@) {
        Some(s) => match number_in(s, 65535) {
            Some(n) => Some(n as u16),
            None => None,
        },
        None => None,
    }
}

/// The slot that the first of the names to stand for one stands for.
pub open spec fn slot_of(names: Seq<Seq<char>>, i: int) -> Option<u16>
    decreases names.len() - i,
{
    if i >= names.len() {
        None
    } else {
        match slot_named(names[i]) {
            Some(s) => Some(s),
            None => slot_of(names, i + 1),
        }
    }
}

pub open spec fn least(a: int, b: int) -> int {
    if a < b {
        a
    } else {
        b
    }
}

/// The row that scrolling moves into `row`, if it moves one.
pub open spec fn scroll_source(top: int, bot: int, rows: int, row: int) -> Option<int> {
    if rows > 0 && top <= row < bot - rows {
        Some(row + rows)
    } else if rows < 0 && top - rows <= row < bot {
        Some(row + rows)
    } else {
        None
    }
}

/// Whether an event can be applied to a grid of this size: a grid fits in memory, and a
/// region that scrolls has its left edge in the grid and not right of its right edge.
pub open spec fn applicable(ev: RedrawV, width: int, height: int) -> bool {
    match ev {
        RedrawV::GridResize { width, height, .. } => width * height <= usize::MAX,
        RedrawV::GridScroll { top, bot, left, right, rows, .. } => {
            &&& rows > i64::MIN
            &&& rows < 0 ==> top - rows <= usize::MAX
            &&& left <= least(right as int, width) || forall|row: int|
                scroll_source(top as int, least(bot as int, height), rows as int, row) is None
        },
        _ => true,
    }
}

impl Grid {
    /// There is a cell for every place.
    pub open spec fn wf(&self) -> bool {
        self.cells@.len() == self.width * self.height
    }

    pub open spec fn at(&self, row: int, col: int) -> GridCellV {
        self.cells@[flat(self.width as int, row, col)]@
    }

    /// Everything but the cells and their number is as in `other`.
    pub open spec fn same_but_cells(&self, other: &Grid) -> bool {
        &&& self.cursor == other.cursor
        &&& self.hl@ == other.hl@
        &&& self.slots@ == other.slots@
        &&& self.default_fg == other.default_fg
        &&& self.default_bg == other.default_bg
        &&& self.modes@ == other.modes@
        &&& self.mode == other.mode
        &&& self.mode_name@ == other.mode_name@
        &&& self.busy == other.busy
        &&& self.title == other.title
    }

    pub fn cell(&self, row: usize, col: usize) -> (r: &GridCell)
        requires
            self.wf(),
            row < self.height,
            col < self.width,
        ensures
            r@ == self.at(row as int, col as int),
    {
        proof {
            lemma_flat(self.width as int, self.height as int, row as int, col as int);
        }
        assert(self.cells.len() == self.cells@.len());
        &self.cells[row * self.width + col]
    }

    /// The output slot a cell's highlight resolves to, if it is a placeholder.
    pub fn slot_at(&self, row: usize, col: usize) -> (r: Option<u16>)
        requires
            self.wf(),
            row < self.height,
            col < self.width,
        ensures
            ({
                let hl = self.at(row as int, col as int).hl;
                match r {
                    Some(s) => self.slots@.dom().contains(hl) && self.slots@[hl] == s,
                    None => !self.slots@.dom().contains(hl),
                }
            }),
    {
        let hl = self.cell(row, col).hl;
        match self.slots.get(&hl) {
            Some(s) => Some(*s),
            None => None,
        }
    }

    pub fn attr(&self, hl: u32) -> (r: Option<&HlAttr>)
        ensures
            match r {
                Some(a) => self.hl@.dom().contains(hl) && self.hl@[hl] == *a,
                None => !self.hl@.dom().contains(hl),
            },
    {
        self.hl.get(&hl)
    }

    pub fn row_text(&self, row: usize) -> (r: String)
        requires
            self.wf(),
            row < self.height,
        ensures
            r@ == concat(Seq::new(self.width as nat, |c: int| self.at(row as int, c).text)),
    {
        let mut out: Vec<char> = Vec::new();
        let ghost all = Seq::new(self.width as nat, |c: int| self.at(row as int, c).text);
        let mut c: usize = 0;
        assert(all.take(0) =~= Seq::empty());
        while c < self.width
            invariant
                self.wf(),
                row < self.height,
                c <= self.width,
                all == Seq::new(self.width as nat, |c: int| self.at(row as int, c).text),
                out@ == concat(all.take(c as int)),
            decreases self.width - c,
        {
            assert(all.take(c + 1).drop_last() =~= all.take(c as int));
            assert(all.take(c + 1).last() == self.at(row as int, c as int).text);
            append_chars(&mut out, &chars_of(self.cell(row, c).text.as_str()));
            c += 1;
        }
        assert(all.take(c as int) =~= all);
        string_of(&out)
    }

    fn blank_cells(n: usize) -> (r: Vec<GridCell>)
        ensures
            r@.len() == n,
            forall|i: int| 0 <= i < n ==> (#[trigger] r@[i])@ == blank(),
    {
        let mut out: Vec<GridCell> = Vec::new();
        let mut i: usize = 0;
        while i < n
            invariant
                i <= n,
                out@.len() == i,
                forall|j: int| 0 <= j < i ==> (#[trigger] out@[j])@ == blank(),
            decreases n - i,
        {
            out.push(GridCell::default());
            i += 1;
        }
        out
    }

    fn write_line(&mut self, row: usize, col: usize, cells: &Vec<LineCell>)
        requires
            old(self).wf(),
            row < old(self).height,
        ensures
            final(self).wf(),
            final(self).width == old(self).width,
            final(self).height == old(self).height,
            final(self).same_but_cells(old(self)),
            forall|r: int, c: int|
                0 <= r < old(self).height && 0 <= c < old(self).width ==>
                    #[trigger] final(self).at(r, c) == if r == row && col <= c < col + spread(line_cells(cells@)).len() {
                    spread(line_cells(cells@))[c - col]
                } else {
                    old(self).at(r, c)
                },
    {
        let ghost all = line_cells(cells@);
        let ghost w = self.width as int;
        let mut c: usize = col;
        let mut hl: u32 = 0;
        let mut i: usize = 0;
        // The number of cells written out so far, whether they fit or not.
        let ghost mut done: int = 0;
        assert(spread(all.take(0)) =~= Seq::empty());
        while i < cells.len()
            invariant
                i <= cells@.len(),
                all == line_cells(cells@),
                self.wf(),
                self.width == old(self).width,
                self.height == old(self).height,
                self.same_but_cells(old(self)),
                row < self.height,
                w == self.width,
                done == spread(all.take(i as int)).len(),
                hl == last_hl(all.take(i as int)),
                c == if col + done <= w {
                    col + done
                } else if col <= w {
                    w
                } else {
                    col as int
                },
                forall|r: int, x: int|
                    0 <= r < self.height && 0 <= x < self.width ==> #[trigger] self.at(r, x)
                        == if r == row && col <= x < col + done {
                        spread(all.take(i as int))[x - col]
                    } else {
                        old(self).at(r, x)
                    },
            decreases cells@.len() - i,
        {
            let ghost before = spread(all.take(i as int));
            let ghost now = spread(all.take(i + 1));
            assert(all.take(i + 1).drop_last() =~= all.take(i as int));
            assert(all.take(i + 1).last() == cells@[i as int]@);
            if let Some(h) = cells[i].hl {
                hl = h;
            }
            let ghost v = GridCellV { text: cells@[i as int].text@, hl };
            let mut k: usize = 0;
            while k < cells[i].repeat && c < self.width
                invariant
                    i < cells@.len(),
                    k <= cells@[i as int].repeat,
                    self.wf(),
                    self.width == old(self).width,
                    self.height == old(self).height,
                    self.same_but_cells(old(self)),
                    row < self.height,
                    w == self.width,
                    v == (GridCellV { text: cells@[i as int].text@, hl }),
                    now == before + Seq::new(cells@[i as int].repeat as nat, |i: int| v),
                    done == before.len(),
                    c == if col + done + k <= w {
                        col + done + k
                    } else if col <= w {
                        w
                    } else {
                        col as int
                    },
                    c < w ==> c == col + done + k,
                    forall|r: int, x: int|
                        0 <= r < self.height && 0 <= x < self.width ==> #[trigger] self.at(r, x)
                            == if r == row && col <= x < col + done + k {
                            now[x - col]
                        } else {
                            old(self).at(r, x)
                        },
                decreases cells@[i as int].repeat - k,
            {
                proof {
                    lemma_flat(w, self.height as int, row as int, c as int);
                }
                assert(self.cells.len() == self.cells@.len());
                let at = row * self.width + c;
                let ghost prev = *self;
                self.cells.set(at, GridCell { text: cells[i].text.clone(), hl });
                proof {
                    assert(now[c - col] == v);
                    assert forall|r: int, x: int|
                        0 <= r < self.height && 0 <= x < self.width implies #[trigger] self.at(r, x)
                        == if r == row && col <= x < col + done + k + 1 {
                        now[x - col]
                    } else {
                        old(self).at(r, x)
                    } by {
                        lemma_flat(w, self.height as int, r, x);
                        assert(prev.at(r, x) == if r == row && col <= x < col + done + k {
                            now[x - col]
                        } else {
                            old(self).at(r, x)
                        });
                        if flat(w, r, x) == flat(w, row as int, c as int) {
                            lemma_flat_injective(w, r, x, row as int, c as int);
                        }
                    }
                }
                c += 1;
                k += 1;
            }
            proof {
                done = done + cells@[i as int].repeat;
                assert(done == now.len());
            }
            i += 1;
        }
        assert(all.take(i as int) =~= all);
    }

    /// Copies columns of one row over another row.
    fn copy_row(&mut self, from: usize, to: usize, left: usize, right: usize)
        requires
            old(self).wf(),
            from < old(self).height,
            to < old(self).height,
            from != to,
            right <= old(self).width,
        ensures
            final(self).wf(),
            final(self).width == old(self).width,
            final(self).height == old(self).height,
            final(self).same_but_cells(old(self)),
            forall|r: int, c: int|
                0 <= r < old(self).height && 0 <= c < old(self).width ==>
                    #[trigger] final(self).at(r, c) == if r == to && left <= c < right {
                    old(self).at(from as int, c)
                } else {
                    old(self).at(r, c)
                },
    {
        let ghost w = self.width as int;
        let ghost h = self.height as int;
        let mut c: usize = left;
        while c < right
            invariant
                self.wf(),
                self.width == old(self).width,
                self.height == old(self).height,
                self.same_but_cells(old(self)),
                from < self.height,
                to < self.height,
                from != to,
                w == self.width,
                h == self.height,
                left <= c,
                right <= self.width,
                forall|r: int, x: int|
                    0 <= r < h && 0 <= x < w ==> #[trigger] self.at(r, x) == if r == to && left
                        <= x < c && x < right {
                        old(self).at(from as int, x)
                    } else {
                        old(self).at(r, x)
                    },
            decreases right - c,
        {
            proof {
                lemma_flat(w, h, from as int, c as int);
                lemma_flat(w, h, to as int, c as int);
            }
            assert(self.cells.len() == self.cells@.len());
            let ghost prev = *self;
            let cell = self.cells[from * self.width + c].clone();
            assert(cell@ == prev.at(from as int, c as int));
            self.cells.set(to * self.width + c, cell);
            assert forall|r: int, x: int| 0 <= r < h && 0 <= x < w implies #[trigger] self.at(r, x)
                == if r == to && left <= x < c + 1 && x < right {
                old(self).at(from as int, x)
            } else {
                old(self).at(r, x)
            } by {
                lemma_flat(w, h, r, x);
                assert(prev.at(r, x) == if r == to && left <= x < c && x < right {
                    old(self).at(from as int, x)
                } else {
                    old(self).at(r, x)
                });
                if flat(w, r, x) == flat(w, to as int, c as int) {
                    lemma_flat_injective(w, r, x, to as int, c as int);
                }
            }
            c += 1;
        }
    }

    fn scroll(&mut self, top: usize, bot: usize, left: usize, right: usize, rows: i64)
        requires
            old(self).wf(),
            rows > i64::MIN,
            rows < 0 ==> top - rows <= usize::MAX,
        ensures
            final(self).wf(),
            final(self).width == old(self).width,
            final(self).height == old(self).height,
            final(self).same_but_cells(old(self)),
            forall|r: int, c: int|
                0 <= r < old(self).height && 0 <= c < old(self).width ==>
                    #[trigger] final(self).at(r, c) == scrolled(
                    old(self),
                    top as int,
                    bot as int,
                    left as int,
                    right as int,
                    rows as int,
                    r,
                    c,
                ),
    {
        let bot = if bot < self.height {
            bot
        } else {
            self.height
        };
        let right = if right < self.width {
            right
        } else {
            self.width
        };
        if rows > 0 && (rows as u64) < (bot as u64) {
            let n = rows as usize;
            let mut r: usize = top;
            while r < bot - n
                invariant
                    self.wf(),
                    self.width == old(self).width,
                    self.height == old(self).height,
                    self.same_but_cells(old(self)),
                    n == rows,
                    0 < n < bot,
                    bot <= self.height,
                    right <= self.width,
                    top <= r,
                    forall|y: int, c: int|
                        0 <= y < self.height && 0 <= c < self.width ==> #[trigger] self.at(y, c)
                            == if top <= y < r && y < bot - n && left <= c < right {
                            old(self).at(y + n, c)
                        } else {
                            old(self).at(y, c)
                        },
                decreases bot - n - r,
            {
                self.copy_row(r + n, r, left, right);
                r += 1;
            }
        } else if rows < 0 {
            let n = (-rows) as usize;
            let mut r: usize = bot;
            while r > top + n
                invariant
                    self.wf(),
                    self.width == old(self).width,
                    self.height == old(self).height,
                    self.same_but_cells(old(self)),
                    n == -rows,
                    n > 0,
                    top + n <= usize::MAX,
                    r <= bot <= self.height,
                    right <= self.width,
                    forall|y: int, c: int|
                        0 <= y < self.height && 0 <= c < self.width ==> #[trigger] self.at(y, c)
                            == if r <= y < bot && top + n <= y && left <= c < right {
                            old(self).at(y - n, c)
                        } else {
                            old(self).at(y, c)
                        },
                decreases r,
            {
                r -= 1;
                self.copy_row(r - n, r, left, right);
            }
        }
    }

    /// Applies an event. Returns true on `flush`, the only point at which the grid is
    /// consistent and may be rendered.
    pub fn apply(&mut self, ev: RedrawEvent) -> (r: bool)
        requires
            old(self).wf(),
            applicable(ev@, old(self).width as int, old(self).height as int),
        ensures
            final(self).wf(),
            r == (ev@ is Flush),
            applied_to(old(self), final(self), ev),
    {
        match ev {
            RedrawEvent::GridResize { width, height, .. } => {
                self.width = width;
                self.height = height;
                self.cells = Grid::blank_cells(width * height);
                proof {
                    assert forall|r: int, c: int| 0 <= r < height && 0 <= c < width implies
                        #[trigger] self.at(r, c) == blank() by {
                        lemma_flat(width as int, height as int, r, c);
                    }
                }
            },
            RedrawEvent::GridClear { .. } => {
                self.cells = Grid::blank_cells(self.cells.len());
                proof {
                    assert forall|r: int, c: int|
                        0 <= r < self.height && 0 <= c < self.width implies #[trigger] self.at(r, c)
                        == blank() by {
                        lemma_flat(self.width as int, self.height as int, r, c);
                    }
                }
            },
            RedrawEvent::GridLine { row, col, cells, .. } => {
                if row < self.height {
                    self.write_line(row, col, &cells);
                }
            },
            RedrawEvent::GridScroll { top, bot, left, right, rows, .. } => {
                self.scroll(top, bot, left, right, rows);
            },
            RedrawEvent::GridCursorGoto { row, col, .. } => {
                self.cursor = (row, col);
            },
            RedrawEvent::HlAttrDefine { id, attr } => {
                match find_slot(&attr.names) {
                    Some(s) => {
                        let _ = self.slots.insert(id, s);
                    },
                    None => {
                        let _ = self.slots.remove(&id);
                    },
                }
                let _ = self.hl.insert(id, attr);
            },
            RedrawEvent::DefaultColors { fg, bg, .. } => {
                self.default_fg = fg;
                self.default_bg = bg;
            },
            RedrawEvent::ModeInfoSet { modes } => {
                self.modes = modes;
            },
            RedrawEvent::ModeChange { mode, index } => {
                self.mode = index;
                self.mode_name = mode;
            },
            RedrawEvent::BusyStart => {
                self.busy = true;
            },
            RedrawEvent::BusyStop => {
                self.busy = false;
            },
            RedrawEvent::SetTitle(t) => {
                self.title = Some(t);
            },
            RedrawEvent::Flush => {
                return true;
            },
        }
        false
    }
}

/// What stands at a place after scrolling.
pub open spec fn scrolled(
    g: &Grid,
    top: int,
    bot: int,
    left: int,
    right: int,
    rows: int,
    row: int,
    col: int,
) -> GridCellV {
    match scroll_source(top, least(bot, g.height as int), rows, row) {
        Some(from) => if left <= col < least(right, g.width as int) {
            g.at(from, col)
        } else {
            g.at(row, col)
        },
        None => g.at(row, col),
    }
}

impl Grid {
    /// Whether an event can be applied.
    pub fn accepts(&self, ev: &RedrawEvent) -> (r: bool)
        ensures
            r == applicable(ev@, self.width as int, self.height as int),
    {
        match ev {
            RedrawEvent::GridResize { width, height, .. } => width.checked_mul(*height).is_some(),
            RedrawEvent::GridScroll { top, bot, left, right, rows, .. } => {
                if *rows == i64::MIN {
                    return false;
                }
                let by: i128 = if *rows < 0 {
                    -(*rows as i128)
                } else {
                    *rows as i128
                };
                if *rows < 0 && *top as i128 + by > usize::MAX as i128 {
                    return false;
                }
                let bottom = if *bot < self.height {
                    *bot
                } else {
                    self.height
                };
                let edge = if *right < self.width {
                    *right
                } else {
                    self.width
                };
                let still = *rows == 0 || *top as i128 + by >= bottom as i128;
                proof {
                    let t = *top as int;
                    let b = least(*bot as int, self.height as int);
                    let n = *rows as int;
                    if !still {
                        if n > 0 {
                            assert(scroll_source(t, b, n, t) is Some);
                        } else {
                            assert(scroll_source(t, b, n, t - n) is Some);
                        }
                    }
                }
                *left <= edge || still
            },
            _ => true,
        }
    }
}

/// What an event makes of a grid.
pub open spec fn applied_to(old: &Grid, new: &Grid, ev: RedrawEvent) -> bool {
    match ev {
        RedrawEvent::GridResize { width, height, .. } => {
            &&& new.width == width && new.height == height
            &&& new.same_but_cells(old)
            &&& forall|r: int, c: int|
                0 <= r < height && 0 <= c < width ==> #[trigger] new.at(r, c) == blank()
        },
        RedrawEvent::GridClear { .. } => {
            &&& new.width == old.width && new.height == old.height
            &&& new.same_but_cells(old)
            &&& forall|r: int, c: int|
                0 <= r < old.height && 0 <= c < old.width ==> #[trigger] new.at(r, c) == blank()
        },
        RedrawEvent::GridLine { row, col, cells, .. } => {
            let out = spread(line_cells(cells@));
            &&& new.width == old.width && new.height == old.height
            &&& new.same_but_cells(old)
            &&& forall|r: int, c: int|
                0 <= r < old.height && 0 <= c < old.width ==> #[trigger] new.at(r, c) == if r == row
                    && col <= c < col + out.len() {
                    out[c - col]
                } else {
                    old.at(r, c)
                }
        },
        RedrawEvent::GridScroll { top, bot, left, right, rows, .. } => {
            &&& new.width == old.width && new.height == old.height
            &&& new.same_but_cells(old)
            &&& forall|r: int, c: int|
                0 <= r < old.height && 0 <= c < old.width ==> #[trigger] new.at(r, c) == scrolled(
                    old,
                    top as int,
                    bot as int,
                    left as int,
                    right as int,
                    rows as int,
                    r,
                    c,
                )
        },
        RedrawEvent::GridCursorGoto { row, col, .. } => *new == (Grid { cursor: (row, col), ..*old }),
        RedrawEvent::HlAttrDefine { id, attr } => {
            &&& *new == (Grid { hl: new.hl, slots: new.slots, ..*old })
            &&& new.hl@ == old.hl@.insert(id, attr)
            &&& new.slots@ == match slot_of(attr@.names, 0) {
                Some(s) => old.slots@.insert(id, s),
                None => old.slots@.remove(id),
            }
        },
        RedrawEvent::DefaultColors { fg, bg, .. } => *new == (Grid {
            default_fg: fg,
            default_bg: bg,
            ..*old
        }),
        RedrawEvent::ModeInfoSet { modes } => *new == (Grid { modes, ..*old }),
        RedrawEvent::ModeChange { mode, index } => *new == (Grid {
            mode: index,
            mode_name: mode,
            ..*old
        }),
        RedrawEvent::BusyStart => *new == (Grid { busy: true, ..*old }),
        RedrawEvent::BusyStop => *new == (Grid { busy: false, ..*old }),
        RedrawEvent::SetTitle(t) => *new == (Grid { title: Some(t), ..*old }),
        RedrawEvent::Flush => *new == *old,
    }
}

fn find_slot(names: &Vec<String>) -> (r: Option<u16>)
    ensures
        r == slot_of(texts(names@), 0),
{
    let ghost all = texts(names@);
    let mut i: usize = 0;
    while i < names.len()
        invariant
            i <= names@.len(),
            all == texts(names@),
            slot_of(all, 0) == slot_of(all, i as int),
        decreases names@.len() - i,
    {
        assert(all[i as int] == names@[i as int]@);
        if let Some(s) = after_prefix(&chars_of(names[i].as_str()), SLOT_PREFIX) {
            if let Some(n) = parse_number(&s, 65535) {
                return Some(n as u16);
            }
        }
        i += 1;
    }
    None
}

} // verus!
