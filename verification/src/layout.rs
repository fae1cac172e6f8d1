//! The notebook view's geometry: a vertical list of cell blocks, scrolled within the home
//! window. Each block is a bordered box around the cell's editor window, then its outputs:
//!
//! ```text
//!  [12] ╭──────────────────── ✓ 0.12s ╮
//!       │import numpy as np            │   ← the cell's Neovim window
//!       ╰──────────────────────────────╯
//!        array([0, 1, 2])                  ← outputs, drawn by nbv
//! ```

use crate::adapter::CellKind;
use crate::key::CellKey;
use vstd::prelude::*;

verus! {

/// Columns left of the box, for the execution count.
pub const GUTTER: u16 = 7;

/// The narrowest editor window.
pub const MIN_EDITOR: u16 = 8;

/// The part of the screen that the notebook is shown in.
#[derive(Clone, Copy, Debug, PartialEq, Eq, Structural)]
pub struct Viewport {
    pub row: u16,
    pub col: u16,
    pub width: u16,
    pub height: u16,
}

/// Where a cell's editor window goes.
#[derive(Debug, PartialEq, Eq)]
pub struct EditorRect {
    pub key: CellKey,
    pub row: u16,
    pub col: u16,
    pub width: u16,
    pub height: u16,
    /// The first line shown; 0 leaves it to the editor.
    pub topline: usize,
}

/// What an [`EditorRect`] holds.
pub struct RectV {
    pub key: Seq<char>,
    pub row: int,
    pub col: int,
    pub width: int,
    pub height: int,
    pub topline: int,
}

impl View for EditorRect {
    type V = RectV;

    open spec fn view(&self) -> RectV {
        RectV {
            key: self.key@,
            row: self.row as int,
            col: self.col as int,
            width: self.width as int,
            height: self.height as int,
            topline: self.topline as int,
        }
    }
}

pub open spec fn rects_view(v: Seq<EditorRect>) -> Seq<RectV> {
    Seq::new(v.len(), |i: int| v[i]@)
}

/// One cell's block, in document rows.
#[derive(Debug, PartialEq, Eq)]
pub struct Block {
    pub key: CellKey,
    pub kind: CellKind,
    /// First row: the top border.
    pub top: usize,
    /// Editor lines (at least one).
    pub lines: usize,
    /// Output rows.
    pub outputs: usize,
}

impl Clone for Block {
    fn clone(&self) -> (r: Self)
        ensures
            r.key@ == self.key@,
            r.kind == self.kind,
            r.top == self.top,
            r.lines == self.lines,
            r.outputs == self.outputs,
    {
        Block {
            key: self.key.clone(),
            kind: self.kind,
            top: self.top,
            lines: self.lines,
            outputs: self.outputs,
        }
    }
}

/// The box, the outputs, and a blank row after outputs.
pub open spec fn rows_of(lines: int, outputs: int) -> int {
    lines + 2 + outputs + if outputs > 0 {
        1int
    } else {
        0
    }
}

impl Block {
    pub open spec fn rows(&self) -> int {
        rows_of(self.lines as int, self.outputs as int)
    }

    /// Top border, lines, bottom border.
    pub fn box_height(&self) -> (r: usize)
        requires
            self.lines + 2 <= usize::MAX,
        ensures
            r == self.lines + 2,
    {
        self.lines + 2
    }

    /// The box, the outputs, and a blank row after outputs.
    pub fn height(&self) -> (r: usize)
        requires
            self.rows() <= usize::MAX,
        ensures
            r == self.rows(),
    {
        let blank: usize = if self.outputs > 0 {
            1
        } else {
            0
        };
        self.box_height() + self.outputs + blank
    }
}

/// Where things go on screen for one viewport.
#[derive(Clone, Copy, Debug, PartialEq, Eq, Structural)]
pub struct Geometry {
    pub viewport: Viewport,
}

pub open spec fn smaller(a: int, b: int) -> int {
    if a < b {
        a
    } else {
        b
    }
}

pub open spec fn larger(a: int, b: int) -> int {
    if a > b {
        a
    } else {
        b
    }
}

impl Geometry {
    /// The cell area ends on a row that has a number.
    pub open spec fn rows_fit(&self) -> bool {
        self.top_row() + self.rows() <= u16::MAX
    }

    /// The viewport's end and the column after the box's first one have a number.
    pub open spec fn columns_fit(&self) -> bool {
        &&& self.viewport.col < u16::MAX
        &&& self.viewport.col + self.viewport.width <= u16::MAX
    }

    /// What is drawn around the cells stays within the rows and columns of a screen: the
    /// narrowest box may end beyond the viewport.
    pub open spec fn wf(&self) -> bool {
        &&& self.rows_fit()
        &&& self.columns_fit()
        &&& self.box_at().0 + self.box_at().1 <= u16::MAX
    }

    pub open spec fn top_row(&self) -> int {
        self.viewport.row + 1
    }

    pub open spec fn rows(&self) -> int {
        larger(self.viewport.height - 1, 0)
    }

    pub open spec fn box_at(&self) -> (int, int) {
        let x = self.viewport.col + smaller(GUTTER as int, self.viewport.width as int / 4);
        (x, larger(self.viewport.col + self.viewport.width - (x + 1), MIN_EDITOR + 2))
    }

    /// Whether what is drawn around the notebook stays within what a screen can have.
    pub fn fits(&self) -> (r: bool)
        ensures
            r == self.wf(),
    {
        let bottom = self.viewport.row as u32 + self.viewport.height as u32;
        let right = self.viewport.col as u32 + self.viewport.width as u32;
        if self.viewport.row == 65535 || bottom > 65535 || self.viewport.col == 65535 || right > 65535 {
            return false;
        }
        let (x, w) = self.box_x();
        x as u32 + w as u32 <= 65535
    }

    /// The first screen row of the cell area (below the header row).
    pub fn area_top(&self) -> (r: u16)
        requires
            self.viewport.row < u16::MAX,
        ensures
            r == self.top_row(),
    {
        self.viewport.row + 1
    }

    pub fn area_height(&self) -> (r: usize)
        ensures
            r == self.rows(),
    {
        if self.viewport.height > 0 {
            (self.viewport.height - 1) as usize
        } else {
            0
        }
    }

    /// The box's left column and width.
    pub fn box_x(&self) -> (r: (u16, u16))
        requires
            self.columns_fit(),
        ensures
            (r.0 as int, r.1 as int) == self.box_at(),
    {
        let v = self.viewport;
        let quarter = v.width / 4;
        let x = v.col + if GUTTER < quarter {
            GUTTER
        } else {
            quarter
        };
        let end = v.col + v.width;
        let w = if end > x + 1 {
            end - (x + 1)
        } else {
            0
        };
        (
            x,
            if w > MIN_EDITOR + 2 {
                w
            } else {
                MIN_EDITOR + 2
            },
        )
    }

    /// The editor window's (and the outputs') left column and width.
    pub fn inner_x(&self) -> (r: (u16, u16))
        requires
            self.columns_fit(),
        ensures
            r.0 == self.box_at().0 + 1,
            r.1 == self.box_at().1 - 2,
    {
        let (x, w) = self.box_x();
        (x + 1, w - 2)
    }
}

/// A cell to lay out: its key and type, its number of lines, and its rows of outputs.
pub struct Item {
    pub key: CellKey,
    pub kind: CellKind,
    pub lines: usize,
    pub outputs: usize,
}

/// The rows that cells take.
pub open spec fn stack_rows(items: Seq<Item>) -> int
    decreases items.len(),
{
    if items.len() == 0 {
        0
    } else {
        stack_rows(items.drop_last()) + rows_of(
            larger(items.last().lines as int, 1),
            items.last().outputs as int,
        )
    }
}

/// The rows that blocks take.
pub open spec fn blocks_rows(blocks: Seq<Block>) -> int
    decreases blocks.len(),
{
    if blocks.len() == 0 {
        0
    } else {
        blocks_rows(blocks.drop_last()) + blocks.last().rows()
    }
}

#[derive(Debug, PartialEq, Eq)]
pub struct Layout {
    pub blocks: Vec<Block>,
    pub total: usize,
}

impl Default for Layout {
    fn default() -> (r: Self)
        ensures
            r.wf(),
            r.blocks@.len() == 0,
    {
        Layout { blocks: Vec::new(), total: 0 }
    }
}

proof fn lemma_blocks_rows(blocks: Seq<Block>, i: int)
    requires
        0 <= i <= blocks.len(),
    ensures
        0 <= blocks_rows(blocks.take(i)) <= blocks_rows(blocks),
    decreases blocks.len(),
{
    if i < blocks.len() {
        lemma_blocks_rows(blocks.drop_last(), i);
        assert(blocks.drop_last().take(i) =~= blocks.take(i));
    } else {
        assert(blocks.take(i) =~= blocks);
        if blocks.len() > 0 {
            lemma_blocks_rows(blocks.drop_last(), blocks.len() - 1);
            assert(blocks.drop_last().take(blocks.len() - 1) =~= blocks.drop_last());
        }
    }
}

impl Layout {
    /// Each block begins where the one before it ends, the last ends at `total`, and every
    /// block has a line.
    pub open spec fn wf(&self) -> bool {
        &&& self.total == blocks_rows(self.blocks@)
        &&& forall|i: int|
            0 <= i < self.blocks@.len() ==> (#[trigger] self.blocks@[i]).top == blocks_rows(
                self.blocks@.take(i),
            ) && self.blocks@[i].lines >= 1
    }

    pub proof fn lemma_block(&self, i: int)
        requires
            self.wf(),
            0 <= i < self.blocks@.len(),
        ensures
            self.blocks@[i].top + self.blocks@[i].rows() <= self.total,
            i + 1 < self.blocks@.len() ==> self.blocks@[i].top + self.blocks@[i].rows()
                == self.blocks@[i + 1].top,
    {
        let b = self.blocks@;
        lemma_blocks_rows(b, i + 1);
        assert(b.take(i + 1).drop_last() =~= b.take(i));
        assert(b.take(i + 1).last() == b[i]);
        if i + 1 < b.len() {
            assert(b[i + 1].top == blocks_rows(b.take(i + 1)));
        }
    }

    /// Lays out cells, in order.
    pub fn new(cells: &Vec<Item>) -> (r: Layout)
        requires
            stack_rows(cells@) <= usize::MAX,
        ensures
            r.wf(),
            r.total == stack_rows(cells@),
            r.blocks@.len() == cells@.len(),
            forall|i: int|
                0 <= i < cells@.len() ==> {
                    let b = #[trigger] r.blocks@[i];
                    &&& b.key@ == cells@[i].key@
                    &&& b.kind == cells@[i].kind
                    &&& b.top == stack_rows(cells@.take(i))
                    &&& b.lines == larger(cells@[i].lines as int, 1)
                    &&& b.outputs == cells@[i].outputs
                },
    {
        let mut blocks: Vec<Block> = Vec::new();
        let mut top: usize = 0;
        let mut i: usize = 0;
        assert(cells@.take(0) =~= Seq::empty());
        while i < cells.len()
            invariant
                i <= cells@.len(),
                stack_rows(cells@) <= usize::MAX,
                blocks@.len() == i,
                top == stack_rows(cells@.take(i as int)),
                top == blocks_rows(blocks@),
                forall|j: int|
                    0 <= j < i ==> {
                        let b = #[trigger] blocks@[j];
                        &&& b.key@ == cells@[j].key@
                        &&& b.kind == cells@[j].kind
                        &&& b.top == stack_rows(cells@.take(j))
                        &&& b.top == blocks_rows(blocks@.take(j))
                        &&& b.lines == larger(cells@[j].lines as int, 1)
                        &&& b.outputs == cells@[j].outputs
                    },
            decreases cells@.len() - i,
        {
            let lines = if cells[i].lines > 1 {
                cells[i].lines
            } else {
                1
            };
            proof {
                assert(cells@.take(i + 1).drop_last() =~= cells@.take(i as int));
                assert(cells@.take(i + 1).last() == cells@[i as int]);
                lemma_stack_rows(cells@, i + 1);
            }
            let b = Block {
                key: cells[i].key.clone(),
                kind: cells[i].kind,
                top,
                lines,
                outputs: cells[i].outputs,
            };
            let ghost before = blocks@;
            top = top + b.height();
            blocks.push(b);
            proof {
                assert(blocks@.drop_last() =~= before);
                assert forall|j: int| 0 <= j < i + 1 implies {
                    let b = #[trigger] blocks@[j];
                    &&& b.key@ == cells@[j].key@
                    &&& b.kind == cells@[j].kind
                    &&& b.top == stack_rows(cells@.take(j))
                    &&& b.top == blocks_rows(blocks@.take(j))
                    &&& b.lines == larger(cells@[j].lines as int, 1)
                    &&& b.outputs == cells@[j].outputs
                } by {
                    assert(blocks@.take(j) =~= before.take(j));
                    if j < i {
                        assert(blocks@[j] == before[j]);
                    } else {
                        assert(before.take(j) =~= before);
                    }
                }
            }
            i += 1;
        }
        assert(cells@.take(i as int) =~= cells@);
        Layout { blocks, total: top }
    }

    pub fn index_of(&self, key: &CellKey) -> (r: Option<usize>)
        ensures
            match r {
                Some(i) => {
                    &&& i < self.blocks@.len() && self.blocks@[i as int].key@ == key@
                    &&& forall|j: int| 0 <= j < i ==> (#[trigger] self.blocks@[j]).key@ != key@
                },
                None => forall|j: int|
                    0 <= j < self.blocks@.len() ==> (#[trigger] self.blocks@[j]).key@ != key@,
            },
    {
        let mut i: usize = 0;
        while i < self.blocks.len()
            invariant
                i <= self.blocks@.len(),
                forall|j: int| 0 <= j < i ==> (#[trigger] self.blocks@[j]).key@ != key@,
            decreases self.blocks@.len() - i,
        {
            if self.blocks[i].key.same(key) {
                return Some(i);
            }
            i += 1;
        }
        None
    }

    /// The largest useful scroll offset: the last block's end at the bottom of the area.
    pub fn max_scroll(&self, area: usize) -> (r: usize)
        ensures
            r == larger(self.total - area, 0),
    {
        if self.total > area {
            self.total - area
        } else {
            0
        }
    }

    /// The rows of block `i` that have to be in view.
    pub open spec fn wanted(&self, i: int, whole_box: bool) -> int {
        if whole_box {
            self.blocks@[i].lines + 2
        } else {
            self.blocks@[i].rows()
        }
    }

    /// The offset that brings block `i` into view.
    pub open spec fn revealed(&self, scroll: int, area: int, i: int, whole_box: bool) -> int {
        if 0 <= i < self.blocks@.len() {
            let top = self.blocks@[i].top as int;
            let end = top + smaller(self.wanted(i, whole_box), area);
            let moved = if top < scroll {
                top
            } else if end > scroll + area {
                end - area
            } else {
                scroll
            };
            smaller(moved, larger(self.total - area, 0))
        } else {
            scroll
        }
    }

    /// The scroll offset that brings block `i` into view, moving as little as possible. A
    /// block taller than the area shows its top. With `whole_box`, only the box counts (an
    /// edited cell must be fully visible; its outputs need not be).
    pub fn bring_into_view(&self, scroll: usize, area: usize, i: usize, whole_box: bool) -> (r: usize)
        requires
            self.wf(),
        ensures
            r == self.revealed(scroll as int, area as int, i as int, whole_box),
    {
        if i >= self.blocks.len() {
            return scroll;
        }
        proof {
            self.lemma_block(i as int);
        }
        let b = &self.blocks[i];
        let len = if whole_box {
            b.box_height()
        } else {
            b.height()
        };
        let shown = if len < area {
            len
        } else {
            area
        };
        let end = b.top + shown;
        let moved = if b.top < scroll {
            b.top
        } else if end > area && end - area > scroll {
            end - area
        } else {
            scroll
        };
        // The block ends by `total`, so it stays in view at the largest useful offset.
        let most = self.max_scroll(area);
        if moved < most {
            moved
        } else {
            most
        }
    }

    /// A block that is brought into view is in view: all the rows wanted, or the top ones if
    /// they are more than the area. A block in view stays where it is, unless the view is past
    /// the end.
    pub proof fn revealed_is_in_view(&self, scroll: int, area: int, i: int, whole_box: bool)
        requires
            self.wf(),
            scroll >= 0,
            area >= 0,
            0 <= i < self.blocks@.len(),
        ensures
            ({
                let top = self.blocks@[i].top as int;
                let shown = smaller(self.wanted(i, whole_box), area);
                let r = self.revealed(scroll, area, i, whole_box);
                &&& 0 <= r <= top
                &&& top + shown <= r + area
                &&& scroll <= top && top + shown <= scroll + area && scroll <= larger(
                    self.total - area,
                    0,
                ) ==> r == scroll
            }),
    {
        self.lemma_block(i);
    }

    /// The editor window of block `i`, if any row of it is visible.
    pub open spec fn editor_of(
        &self,
        g: Geometry,
        scroll: int,
        active: Option<Seq<char>>,
        i: int,
    ) -> Option<RectV> {
        let b = self.blocks@[i];
        let body = b.top + 1;
        let from = larger(body, scroll);
        let to = smaller(body + b.lines, scroll + g.rows());
        if from >= to {
            None
        } else {
            Some(
                RectV {
                    key: b.key@,
                    row: g.top_row() + (from - scroll),
                    col: g.box_at().0 + 1,
                    width: g.box_at().1 - 2,
                    height: to - from,
                    topline: if active == Some(b.key@) {
                        if to - from >= b.lines {
                            1
                        } else {
                            0
                        }
                    } else {
                        from - body + 1
                    },
                },
            )
        }
    }

    /// The editor windows of the first `n` blocks.
    pub open spec fn editors_upto(
        &self,
        g: Geometry,
        scroll: int,
        active: Option<Seq<char>>,
        n: int,
    ) -> Seq<RectV>
        decreases n,
    {
        if n <= 0 {
            Seq::empty()
        } else {
            let front = self.editors_upto(g, scroll, active, n - 1);
            match self.editor_of(g, scroll, active, n - 1) {
                Some(r) => front.push(r),
                None => front,
            }
        }
    }

    /// The editor windows for the blocks visible at `scroll`: each window shows the visible
    /// rows of its cell, scrolled with `topline`. The active cell's window is left to scroll
    /// itself when it is clipped, so Neovim keeps its cursor in view.
    pub fn editors(&self, g: &Geometry, scroll: usize, active: Option<&CellKey>) -> (r: Vec<
        EditorRect,
    >)
        requires
            self.wf(),
            g.rows_fit(),
            g.columns_fit(),
        ensures
            rects_view(r@) == self.editors_upto(
                *g,
                scroll as int,
                match active {
                    Some(k) => Some(k@),
                    None => None,
                },
                self.blocks@.len() as int,
            ),
    {
        let area = g.area_height();
        let (col, width) = g.inner_x();
        let ghost who = match active {
            Some(k) => Some(k@),
            None => None,
        };
        let mut out: Vec<EditorRect> = Vec::new();
        let mut i: usize = 0;
        assert(rects_view(out@) =~= Seq::empty());
        while i < self.blocks.len()
            invariant
                self.wf(),
                g.rows_fit(),
                g.columns_fit(),
                i <= self.blocks@.len(),
                area == g.rows(),
                col == g.box_at().0 + 1,
                width == g.box_at().1 - 2,
                who == match active {
                    Some(k) => Some(k@),
                    None => None,
                },
                rects_view(out@) == self.editors_upto(*g, scroll as int, who, i as int),
            decreases self.blocks@.len() - i,
        {
            proof {
                self.lemma_block(i as int);
            }
            let ghost before = rects_view(out@);
            let b = &self.blocks[i];
            let body = b.top + 1;
            let end = body + b.lines;
            let from = if body > scroll {
                body
            } else {
                scroll
            };
            let to = if end > scroll && end - scroll > area {
                scroll + area
            } else {
                end
            };
            if from < to {
                let height = to - from;
                let is_active = match active {
                    Some(k) => k.same(&b.key),
                    None => false,
                };
                let topline = if is_active {
                    if height >= b.lines {
                        1
                    } else {
                        0
                    }
                } else {
                    from - body + 1
                };
                let rect = EditorRect {
                    key: b.key.clone(),
                    row: g.area_top() + (from - scroll) as u16,
                    col,
                    width,
                    height: height as u16,
                    topline,
                };
                let ghost rv = rect@;
                out.push(rect);
                assert(self.editor_of(*g, scroll as int, who, i as int) == Some(rv));
                assert(rects_view(out@) =~= before.push(rv));
            }
            i += 1;
        }
        out
    }

    /// Editor windows stay in the cell area, have a row at least, and do not overlap.
    pub proof fn editors_stay_in_area(
        &self,
        g: Geometry,
        scroll: int,
        active: Option<Seq<char>>,
        n: int,
        i: int,
    )
        requires
            self.wf(),
            scroll >= 0,
            0 <= n <= self.blocks@.len(),
            0 <= i < self.editors_upto(g, scroll, active, n).len(),
        ensures
            ({
                let e = self.editors_upto(g, scroll, active, n);
                &&& g.top_row() <= e[i].row
                &&& e[i].height >= 1
                &&& e[i].row + e[i].height <= g.top_row() + g.rows()
                &&& i + 1 < e.len() ==> e[i].row + e[i].height <= e[i + 1].row
                &&& n < self.blocks@.len() ==> e[i].row + e[i].height <= g.top_row() + larger(
                    self.blocks@[n].top - scroll,
                    0,
                )
            }),
        decreases n,
    {
        let e = self.editors_upto(g, scroll, active, n);
        if n > 0 {
            let front = self.editors_upto(g, scroll, active, n - 1);
            self.lemma_block(n - 1);
            if i < front.len() {
                self.editors_stay_in_area(g, scroll, active, n - 1, i);
                assert(e[i] == front[i]);
            }
        }
    }

    /// Whether block `i` covers a document row.
    pub open spec fn covers(&self, i: int, row: int) -> bool {
        self.blocks@[i].top <= row < self.blocks@[i].top + self.blocks@[i].rows()
    }

    /// The block at a screen row.
    #[verifier::spinoff_prover]
    #[verifier::rlimit(40)]
    pub fn at_row(&self, g: &Geometry, scroll: usize, row: u16) -> (r: Option<usize>)
        requires
            self.wf(),
            g.rows_fit(),
        ensures
            ({
                let inside = g.top_row() <= row < g.top_row() + g.rows();
                let at = row - g.top_row() + scroll;
                match r {
                    Some(i) => inside && i < self.blocks@.len() && self.covers(i as int, at),
                    None => !inside || forall|i: int|
                        0 <= i < self.blocks@.len() ==> !#[trigger] self.covers(i, at),
                }
            }),
    {
        let top = g.area_top();
        if row < top {
            return None;
        }
        if row >= top + g.area_height() as u16 {
            return None;
        }
        let offset = (row - top) as usize;
        let mut i: usize = 0;
        while i < self.blocks.len()
            invariant
                self.wf(),
                i <= self.blocks@.len(),
                offset == row - g.top_row(),
                g.top_row() <= row < g.top_row() + g.rows(),
                forall|j: int|
                    0 <= j < i ==> !#[trigger] self.covers(j, row - g.top_row() + scroll),
            decreases self.blocks@.len() - i,
        {
            proof {
                self.lemma_block(i as int);
            }
            let b = &self.blocks[i];
            let end = b.top + b.height();
            // Compared without adding the offset to the scroll, which may be any number.
            let reaches = b.top <= scroll || b.top - scroll <= offset;
            let before_end = end > scroll && end - scroll > offset;
            if reaches && before_end {
                assert(self.covers(i as int, row - g.top_row() + scroll));
                return Some(i);
            }
            i += 1;
        }
        None
    }

    /// No row belongs to two blocks.
    pub proof fn blocks_do_not_overlap(&self, i: int, j: int, row: int)
        requires
            self.wf(),
            0 <= i < j < self.blocks@.len(),
            self.covers(i, row),
        ensures
            !self.covers(j, row),
        decreases j - i,
    {
        self.lemma_block(i);
        if i + 1 < j {
            self.lemma_later(i + 1, j);
        }
    }

    proof fn lemma_later(&self, i: int, j: int)
        requires
            self.wf(),
            0 <= i <= j < self.blocks@.len(),
        ensures
            self.blocks@[i].top <= self.blocks@[j].top,
        decreases j - i,
    {
        if i < j {
            self.lemma_block(i);
            self.lemma_later(i + 1, j);
        }
    }
}

proof fn lemma_stack_rows(items: Seq<Item>, i: int)
    requires
        0 <= i <= items.len(),
    ensures
        0 <= stack_rows(items.take(i)) <= stack_rows(items),
    decreases items.len(),
{
    if i < items.len() {
        lemma_stack_rows(items.drop_last(), i);
        assert(items.drop_last().take(i) =~= items.take(i));
    } else {
        assert(items.take(i) =~= items);
        if items.len() > 0 {
            lemma_stack_rows(items.drop_last(), items.len() - 1);
            assert(items.drop_last().take(items.len() - 1) =~= items.drop_last());
        }
    }
}

/// Whether the rows that cells take can be counted.
pub fn stack_fits(items: &Vec<Item>) -> (r: bool)
    ensures
        r == (stack_rows(items@) <= usize::MAX),
{
    let mut total: usize = 0;
    let mut i: usize = 0;
    assert(items@.take(0) =~= Seq::empty());
    while i < items.len()
        invariant
            i <= items@.len(),
            total == stack_rows(items@.take(i as int)),
        decreases items@.len() - i,
    {
        let lines = if items[i].lines > 1 {
            items[i].lines
        } else {
            1
        };
        let outputs = items[i].outputs;
        let between: usize = if outputs > 0 {
            3
        } else {
            2
        };
        proof {
            assert(items@.take(i + 1).drop_last() =~= items@.take(i as int));
            assert(items@.take(i + 1).last() == items@[i as int]);
            lemma_stack_rows(items@, i + 1);
        }
        if lines > usize::MAX - total {
            return false;
        }
        let more = total + lines;
        if outputs > usize::MAX - more {
            return false;
        }
        let most = more + outputs;
        if between > usize::MAX - most {
            return false;
        }
        total = most + between;
        i += 1;
    }
    assert(items@.take(i as int) =~= items@);
    true
}

} // verus!
