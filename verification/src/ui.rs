//! What is on screen: the mode, the selection, the scroll offset and the layouts, and what the
//! frontend has to do about them.

use crate::call::{args_view, request, resize, text_arg, Arg, ArgV, Call, CallV};
use crate::history::{lemma_pos, pos, Name};
use crate::kernel::{CommandV, KernelCommand};
use crate::key::CellKey;
use crate::keys::{mouse, mouse_mods, mouse_names, MouseButton, MouseEvent, MouseEventKind};
use crate::layout::{
    larger, rects_view, smaller, stack_rows, Block, EditorRect, Geometry, Item, Layout, RectV,
};
use crate::nav::{nothing_typed, Nav};
use crate::notebook::Notebook;
use crate::document::opt_text;
use crate::projection::opt_key;
use crate::text::{cat, str_eq, texts};
use vstd::prelude::*;

verus! {

/// Where keys go.
#[derive(Debug, PartialEq, Eq)]
pub enum Mode {
    /// Navigation keys act on cells.
    Nav,
    /// A cell's window has focus; keys go to Neovim.
    Edit(CellKey),
    /// Some other window has focus; keys go to Neovim.
    Other,
}

/// What a [`Mode`] holds.
pub enum ModeV {
    Nav,
    Edit(Name),
    Other,
}

impl View for Mode {
    type V = ModeV;

    open spec fn view(&self) -> ModeV {
        match self {
            Mode::Nav => ModeV::Nav,
            Mode::Edit(k) => ModeV::Edit(k@),
            Mode::Other => ModeV::Other,
        }
    }
}

impl Mode {
    pub fn same(&self, other: &Mode) -> (r: bool)
        ensures
            r == (self@ == other@),
    {
        match (self, other) {
            (Mode::Nav, Mode::Nav) => true,
            (Mode::Edit(a), Mode::Edit(b)) => a.same(b),
            (Mode::Other, Mode::Other) => true,
            _ => false,
        }
    }

    pub fn is_nav(&self) -> (r: bool)
        ensures
            r == (self@ is Nav),
    {
        match self {
            Mode::Nav => true,
            _ => false,
        }
    }

    pub fn is_edit(&self) -> (r: bool)
        ensures
            r == (self@ is Edit),
    {
        match self {
            Mode::Edit(_) => true,
            _ => false,
        }
    }
}

/// What can be selected in the header, above the first cell.
#[derive(Clone, Copy, Debug, PartialEq, Eq, Structural)]
pub enum HeaderItem {
    /// The notebook's file name: `<CR>` renames the file.
    Name,
    /// The kernel: `<CR>` picks another.
    Kernel,
}

/// What the frontend has to do.
pub enum Effect {
    /// A request to Neovim.
    Call(Call),
    /// Lay the notebook out: [`Ui::lay_out`].
    LayOut,
    /// Scroll by rows: [`Ui::scroll_by`].
    ScrollBy(i64),
    /// Bring Neovim's cell buffers up to date with the notebook.
    Sync,
    /// Mark the notebook's buffer modified.
    SetModified,
    /// Give a cell's window focus.
    Enter { seq: u64, key: CellKey, insert: bool },
    /// Give the notebook's window focus.
    Leave { seq: u64 },
    /// Place the editor windows.
    Place { seq: u64, active: Option<CellKey>, rects: Vec<EditorRect> },
    /// Tell Neovim that the notebook has another path.
    Renamed,
    /// The language of code cells.
    SetLanguage(Option<String>),
    /// Forget how a cell's outputs were drawn.
    ForgetView(CellKey),
    /// Forget how all outputs were drawn.
    ForgetViews,
    /// Forget the images sent to the terminal.
    ForgetImages,
    /// Clear the terminal.
    ClearTerminal,
    /// Start a kernel, after looking whether its Python has ipykernel.
    Start { generation: u64, cmd: KernelCommand },
    /// Shut the kernel down, without waiting for it.
    Shutdown,
    /// Send the kernel a request.
    Send(jupyter_protocol::JupyterMessage),
    /// Interrupt the kernel.
    Interrupt,
    /// Answer the kernel's request for input.
    AnswerInput(String),
    /// Run the command that installs ipykernel.
    Install { generation: u64, argv: Vec<String> },
    /// Look for the kernels that can be picked.
    FindKernels,
    /// Rename the notebook's file.
    Rename(String),
    /// Write the file of remembered kernels.
    Remember(Vec<u8>),
    /// List every key, with what tmux has to be told if it keeps keys back.
    Help { tmux: bool },
}

/// What an [`Effect`] holds.
pub enum EffectV {
    Call(CallV),
    LayOut,
    ScrollBy(int),
    Sync,
    SetModified,
    Enter { seq: u64, key: Name, insert: bool },
    Leave { seq: u64 },
    Place { seq: u64, active: Option<Name>, rects: Seq<RectV> },
    Renamed,
    SetLanguage(Option<Seq<char>>),
    ForgetView(Name),
    ForgetViews,
    ForgetImages,
    ClearTerminal,
    Start { generation: u64, cmd: CommandV },
    Shutdown,
    Send(jupyter_protocol::JupyterMessage),
    Interrupt,
    AnswerInput(Seq<char>),
    Install { generation: u64, argv: Seq<Seq<char>> },
    FindKernels,
    Rename(Seq<char>),
    Remember(Seq<u8>),
    Help { tmux: bool },
}

impl View for Effect {
    type V = EffectV;

    open spec fn view(&self) -> EffectV {
        match self {
            Effect::Call(c) => EffectV::Call(c@),
            Effect::LayOut => EffectV::LayOut,
            Effect::ScrollBy(n) => EffectV::ScrollBy(*n as int),
            Effect::Sync => EffectV::Sync,
            Effect::SetModified => EffectV::SetModified,
            Effect::Enter { seq, key, insert } => EffectV::Enter {
                seq: *seq,
                key: key@,
                insert: *insert,
            },
            Effect::Leave { seq } => EffectV::Leave { seq: *seq },
            Effect::Place { seq, active, rects } => EffectV::Place {
                seq: *seq,
                active: opt_key(*active),
                rects: rects_view(rects@),
            },
            Effect::Renamed => EffectV::Renamed,
            Effect::SetLanguage(l) => EffectV::SetLanguage(opt_text(*l)),
            Effect::ForgetView(k) => EffectV::ForgetView(k@),
            Effect::ForgetViews => EffectV::ForgetViews,
            Effect::ForgetImages => EffectV::ForgetImages,
            Effect::ClearTerminal => EffectV::ClearTerminal,
            Effect::Start { generation, cmd } => EffectV::Start {
                generation: *generation,
                cmd: cmd@,
            },
            Effect::Shutdown => EffectV::Shutdown,
            Effect::Send(m) => EffectV::Send(*m),
            Effect::Interrupt => EffectV::Interrupt,
            Effect::AnswerInput(s) => EffectV::AnswerInput(s@),
            Effect::Install { generation, argv } => EffectV::Install {
                generation: *generation,
                argv: texts(argv@),
            },
            Effect::FindKernels => EffectV::FindKernels,
            Effect::Rename(s) => EffectV::Rename(s@),
            Effect::Remember(b) => EffectV::Remember(b@),
            Effect::Help { tmux } => EffectV::Help { tmux: *tmux },
        }
    }
}

pub open spec fn effects_view(v: Seq<Effect>) -> Seq<EffectV> {
    Seq::new(v.len(), |i: int| v[i]@)
}

/// What is on screen.
pub struct Ui {
    pub mode: Mode,
    /// The number of the latest focus change asked for.
    pub focus_seq: u64,
    pub selected: usize,
    /// The header item selected in navigation mode, instead of a cell.
    pub header: Option<HeaderItem>,
    pub scroll: usize,
    pub geometry: Option<Geometry>,
    pub nav: Nav,
    /// Keys go to Neovim until it returns to Normal mode after this mode-change count.
    pub forward_since: Option<u64>,
    /// Whether the next layout should scroll the selected cell into view.
    pub follow: bool,
    pub layout_seq: u64,
    /// The last editor placement sent, to skip identical ones.
    pub last_sent: Option<(Option<CellKey>, Vec<EditorRect>)>,
    /// Layouts sent and not yet on screen, with their scroll offsets.
    pub sent: Vec<(u64, Layout, usize)>,
    /// The layout that Neovim has on screen.
    pub shown: Option<(Layout, usize)>,
    pub relayout: bool,
    pub draw: bool,
    /// Whether the notebook's buffer has been marked modified since the last write.
    pub dirty: bool,
    pub quit: bool,
    pub message: Option<String>,
    /// What the frontend has to do, in order.
    pub effects: Vec<Effect>,
}

/// A placement of editor windows.
pub open spec fn placement_view(p: Option<(Option<CellKey>, Vec<EditorRect>)>) -> Option<
    (Option<Name>, Seq<RectV>),
> {
    match p {
        Some(x) => Some((opt_key(x.0), rects_view(x.1@))),
        None => None,
    }
}

/// What a [`Ui`] holds.
pub struct UiV {
    pub mode: ModeV,
    pub focus_seq: int,
    pub selected: int,
    pub header: Option<HeaderItem>,
    pub scroll: int,
    pub geometry: Option<Geometry>,
    pub nav: Nav,
    pub forward_since: Option<u64>,
    pub follow: bool,
    pub layout_seq: int,
    pub last_sent: Option<(Option<Name>, Seq<RectV>)>,
    pub sent: Seq<(u64, Layout, usize)>,
    pub shown: Option<(Layout, usize)>,
    pub relayout: bool,
    pub draw: bool,
    pub dirty: bool,
    pub quit: bool,
    pub message: Option<Seq<char>>,
    pub effects: Seq<EffectV>,
}

impl View for Ui {
    type V = UiV;

    open spec fn view(&self) -> UiV {
        UiV {
            mode: self.mode@,
            focus_seq: self.focus_seq as int,
            selected: self.selected as int,
            header: self.header,
            scroll: self.scroll as int,
            geometry: self.geometry,
            nav: self.nav,
            forward_since: self.forward_since,
            follow: self.follow,
            layout_seq: self.layout_seq as int,
            last_sent: placement_view(self.last_sent),
            sent: self.sent@,
            shown: self.shown,
            relayout: self.relayout,
            draw: self.draw,
            dirty: self.dirty,
            quit: self.quit,
            message: opt_text(self.message),
            effects: effects_view(self.effects@),
        }
    }
}

pub open spec fn ui_start() -> UiV {
    UiV {
        mode: ModeV::Nav,
        focus_seq: 0,
        selected: 0,
        header: None,
        scroll: 0,
        geometry: None,
        nav: nothing_typed(),
        forward_since: None,
        follow: false,
        layout_seq: 0,
        last_sent: None,
        sent: Seq::empty(),
        shown: None,
        relayout: false,
        draw: true,
        dirty: false,
        quit: false,
        message: None,
        effects: Seq::empty(),
    }
}

/// One more thing to do.
pub open spec fn doing(u: UiV, e: EffectV) -> UiV {
    UiV { effects: u.effects.push(e), ..u }
}

/// Cell `i` of `len` selected, or the last.
pub open spec fn selecting(u: UiV, i: int, len: int) -> UiV {
    UiV {
        header: None,
        selected: smaller(i, larger(len - 1, 0)),
        follow: true,
        relayout: true,
        ..u
    }
}

/// The document changed: the buffer is marked modified, once.
pub open spec fn dirtied(u: UiV) -> UiV {
    if u.dirty {
        u
    } else {
        doing(UiV { dirty: true, ..u }, EffectV::SetModified)
    }
}

/// The structure changed: the buffers, the selection and the screen follow.
pub open spec fn restructured(u: UiV, focus: Option<int>) -> UiV {
    let s = doing(u, EffectV::Sync);
    let d = dirtied(
        UiV {
            selected: match focus {
                Some(i) => i,
                None => s.selected,
            },
            ..s
        },
    );
    UiV { last_sent: None, follow: true, relayout: true, ..d }
}

/// A cell's window given focus. The layout goes first, so that the window exists and accepts
/// focus when the request arrives.
pub open spec fn entering(u: UiV, key: Name, insert: bool, at: Option<int>) -> UiV {
    let seq = u.focus_seq + 1;
    let e = UiV {
        focus_seq: seq,
        header: None,
        selected: match at {
            Some(i) => i,
            None => u.selected,
        },
        mode: ModeV::Edit(key),
        ..u
    };
    doing(
        doing(e, EffectV::LayOut),
        EffectV::Enter { seq: seq as u64, key, insert },
    )
}

/// The notebook's window given focus.
pub open spec fn leaving(u: UiV) -> UiV {
    let seq = u.focus_seq + 1;
    let l = doing(
        UiV { focus_seq: seq, mode: ModeV::Nav, ..u },
        EffectV::Leave { seq: seq as u64 },
    );
    UiV { relayout: true, ..l }
}

/// A message for the header.
pub open spec fn saying(u: UiV, text: Seq<char>) -> UiV {
    UiV { message: Some(text), draw: true, ..u }
}

impl Ui {
    /// Layouts are well formed, and the screen's rows and columns can be counted.
    pub open spec fn wf(&self) -> bool {
        &&& self.geometry matches Some(g) ==> g.wf()
        &&& self.shown matches Some(s) ==> s.0.wf()
        &&& forall|i: int| 0 <= i < self.sent@.len() ==> (#[trigger] self.sent@[i]).1.wf()
    }

    /// There are numbers left for a few more focus changes and layouts.
    pub open spec fn counts(&self) -> bool {
        self.focus_seq < u64::MAX - 2 && self.layout_seq < u64::MAX
    }

    pub fn new() -> (r: Ui)
        ensures
            r@ == ui_start(),
            r.wf(),
    {
        let r = Ui {
            mode: Mode::Nav,
            focus_seq: 0,
            selected: 0,
            header: None,
            scroll: 0,
            geometry: None,
            nav: Nav::default(),
            forward_since: None,
            follow: false,
            layout_seq: 0,
            last_sent: None,
            sent: Vec::new(),
            shown: None,
            relayout: false,
            draw: true,
            dirty: false,
            quit: false,
            message: None,
            effects: Vec::new(),
        };
        assert(r@.effects =~= Seq::empty());
        assert(r@.sent =~= Seq::empty());
        r
    }

    /// Hands out what there is to do.
    pub fn take_effects(&mut self) -> (r: Vec<Effect>)
        ensures
            r@ == old(self).effects@,
            final(self)@ == (UiV { effects: Seq::empty(), ..old(self)@ }),
            old(self).wf() ==> final(self).wf(),
    {
        let mut out: Vec<Effect> = Vec::new();
        std::mem::swap(&mut self.effects, &mut out);
        assert(self@.effects =~= Seq::empty());
        out
    }

    pub fn do_next(&mut self, e: Effect)
        ensures
            final(self)@ == doing(old(self)@, e@),
            old(self).wf() ==> final(self).wf(),
    {
        self.effects.push(e);
        assert(self@.effects =~= old(self)@.effects.push(e@));
    }

    /// Selects a cell.
    pub fn select(&mut self, i: usize, len: usize)
        ensures
            final(self)@ == selecting(old(self)@, i as int, len as int),
            old(self).wf() ==> final(self).wf(),
    {
        let last: usize = if len > 0 {
            len - 1
        } else {
            0
        };
        self.header = None;
        self.selected = if i < last {
            i
        } else {
            last
        };
        self.follow = true;
        self.relayout = true;
    }

    /// The document changed: marks the buffer modified, so quitting without saving is refused,
    /// and `:x` writes, as for any buffer.
    pub fn mark_dirty(&mut self)
        ensures
            final(self)@ == dirtied(old(self)@),
            old(self).wf() ==> final(self).wf(),
    {
        if !self.dirty {
            self.dirty = true;
            self.do_next(Effect::SetModified);
        }
    }

    /// Brings the buffers, the selection and the screen up to date after a structural change.
    pub fn structure_changed(&mut self, focus: Option<usize>)
        ensures
            final(self)@ == restructured(
                old(self)@,
                match focus {
                    Some(i) => Some(i as int),
                    None => None,
                },
            ),
            old(self).wf() ==> final(self).wf(),
    {
        self.do_next(Effect::Sync);
        if let Some(i) = focus {
            self.selected = i;
        }
        self.mark_dirty();
        self.last_sent = None;
        self.follow = true;
        self.relayout = true;
    }

    /// Gives a cell's window focus; the cell stands at `at`, if anywhere.
    pub fn enter(&mut self, key: &CellKey, insert: bool, at: Option<usize>)
        requires
            old(self).focus_seq < u64::MAX,
        ensures
            final(self)@ == entering(
                old(self)@,
                key@,
                insert,
                match at {
                    Some(i) => Some(i as int),
                    None => None,
                },
            ),
            old(self).wf() ==> final(self).wf(),
    {
        self.focus_seq += 1;
        self.header = None;
        if let Some(i) = at {
            self.selected = i;
        }
        self.mode = Mode::Edit(key.clone());
        self.do_next(Effect::LayOut);
        let seq = self.focus_seq;
        self.do_next(Effect::Enter { seq, key: key.clone(), insert });
    }

    /// Gives the notebook's window focus.
    pub fn leave(&mut self)
        requires
            old(self).focus_seq < u64::MAX,
        ensures
            final(self)@ == leaving(old(self)@),
            old(self).wf() ==> final(self).wf(),
    {
        self.focus_seq += 1;
        self.mode = Mode::Nav;
        let seq = self.focus_seq;
        self.do_next(Effect::Leave { seq });
        self.relayout = true;
    }

    /// Shows a message in the header.
    pub fn say(&mut self, text: String)
        ensures
            final(self)@ == saying(old(self)@, text@),
            old(self).wf() ==> final(self).wf(),
    {
        self.message = Some(text);
        self.draw = true;
    }
}

/// The keys of blocks.
pub open spec fn block_names(l: Layout) -> Seq<Name> {
    Seq::new(l.blocks@.len(), |i: int| l.blocks@[i].key@)
}

/// A layout of cells, one under another.
pub open spec fn stacked(items: Seq<Item>, l: Layout) -> bool {
    &&& l.wf()
    &&& l.total == stack_rows(items)
    &&& l.blocks@.len() == items.len()
    &&& forall|i: int|
        0 <= i < items.len() ==> {
            let b = #[trigger] l.blocks@[i];
            &&& b.key@ == items[i].key@
            &&& b.kind == items[i].kind
            &&& b.top == stack_rows(items.take(i))
            &&& b.lines == larger(items[i].lines as int, 1)
            &&& b.outputs == items[i].outputs
        }
}

/// The cell being edited.
pub open spec fn active_of(m: ModeV) -> Option<Name> {
    match m {
        ModeV::Edit(k) => Some(k),
        _ => None,
    }
}

/// The scroll offset of a layout: the edited cell's box stays in view as it grows, and a cell
/// newly selected comes into view.
pub open spec fn scroll_for(u: UiV, l: Layout, area: int, selected: int) -> int {
    let moved = match u.mode {
        ModeV::Edit(k) => {
            let i = pos(block_names(l), k);
            if i < l.blocks@.len() {
                l.revealed(u.scroll, area, i, true)
            } else {
                u.scroll
            }
        },
        _ => if u.follow {
            l.revealed(u.scroll, area, selected, false)
        } else {
            u.scroll
        },
    };
    smaller(moved, larger(l.total - area, 0))
}

/// The screen with a layout: the editor windows are placed, unless they stay where they are.
pub open spec fn laid_out(u: UiV, l: Layout) -> UiV {
    match u.geometry {
        None => UiV { relayout: false, ..u },
        Some(g) => {
            let selected = smaller(u.selected, larger(l.blocks@.len() - 1, 0));
            let scroll = scroll_for(u, l, g.rows(), selected);
            let active = active_of(u.mode);
            let rects = l.editors_upto(g, scroll, active, l.blocks@.len() as int);
            let base = UiV { relayout: false, follow: false, selected, scroll, draw: true, ..u };
            if u.last_sent == Some((active, rects)) {
                if u.sent.len() > 0 {
                    UiV {
                        sent: u.sent.drop_last().push((u.sent.last().0, l, scroll as usize)),
                        ..base
                    }
                } else {
                    UiV { shown: Some((l, scroll as usize)), ..base }
                }
            } else {
                let seq = (u.layout_seq + 1) as u64;
                doing(
                    UiV {
                        layout_seq: u.layout_seq + 1,
                        sent: u.sent.push((seq, l, scroll as usize)),
                        last_sent: Some((active, rects)),
                        ..base
                    },
                    EffectV::Place { seq, active, rects },
                )
            }
        },
    }
}

fn same_rects(a: &Vec<EditorRect>, b: &Vec<EditorRect>) -> (r: bool)
    ensures
        r == (rects_view(a@) == rects_view(b@)),
{
    if a.len() != b.len() {
        assert(rects_view(a@).len() != rects_view(b@).len());
        return false;
    }
    let mut i: usize = 0;
    while i < a.len()
        invariant
            i <= a@.len(),
            a@.len() == b@.len(),
            forall|j: int| 0 <= j < i ==> (#[trigger] a@[j])@ == b@[j]@,
        decreases a@.len() - i,
    {
        let x = &a[i];
        let y = &b[i];
        if !x.key.same(&y.key) || x.row != y.row || x.col != y.col || x.width != y.width || x.height
            != y.height || x.topline != y.topline {
            assert(rects_view(a@)[i as int] != rects_view(b@)[i as int]);
            return false;
        }
        i += 1;
    }
    assert(rects_view(a@) =~= rects_view(b@));
    true
}

fn same_key(a: &Option<CellKey>, b: &Option<CellKey>) -> (r: bool)
    ensures
        r == (opt_key(*a) == opt_key(*b)),
{
    match (a, b) {
        (Some(x), Some(y)) => x.same(y),
        (None, None) => true,
        _ => false,
    }
}

fn copy_rects(v: &Vec<EditorRect>) -> (r: Vec<EditorRect>)
    ensures
        rects_view(r@) == rects_view(v@),
{
    let mut out: Vec<EditorRect> = Vec::new();
    let mut i: usize = 0;
    while i < v.len()
        invariant
            i <= v@.len(),
            out@.len() == i,
            forall|j: int| 0 <= j < i ==> (#[trigger] out@[j])@ == v@[j]@,
        decreases v@.len() - i,
    {
        let x = &v[i];
        out.push(
            EditorRect {
                key: x.key.clone(),
                row: x.row,
                col: x.col,
                width: x.width,
                height: x.height,
                topline: x.topline,
            },
        );
        i += 1;
    }
    assert(rects_view(out@) =~= rects_view(v@));
    out
}

fn min_of(a: usize, b: usize) -> (r: usize)
    ensures
        r == smaller(a as int, b as int),
{
    if a < b {
        a
    } else {
        b
    }
}

impl Ui {
    /// The cell being edited.
    pub fn active(&self) -> (r: Option<CellKey>)
        ensures
            opt_key(r) == active_of(self.mode@),
    {
        match &self.mode {
            Mode::Edit(k) => Some(k.clone()),
            _ => None,
        }
    }

    /// Where a layout is scrolled to.
    fn scroll_to(&self, layout: &Layout, area: usize) -> (r: usize)
        requires
            layout.wf(),
        ensures
            r == scroll_for(self@, *layout, area as int, self.selected as int),
    {
        let moved = match &self.mode {
            Mode::Edit(k) => {
                let ghost names = block_names(*layout);
                proof {
                    lemma_pos(names, k@);
                }
                match layout.index_of(k) {
                    Some(i) => {
                        assert(names[i as int] == k@);
                        assert(pos(names, k@) == i) by {
                            let m = pos(names, k@);
                            if m < i {
                                assert(layout.blocks@[m].key@ == k@);
                            }
                        }
                        layout.bring_into_view(self.scroll, area, i, true)
                    },
                    None => {
                        assert(pos(names, k@) >= names.len()) by {
                            let m = pos(names, k@);
                            if m < names.len() {
                                assert(layout.blocks@[m].key@ == names[m]);
                            }
                        }
                        self.scroll
                    },
                }
            },
            _ => if self.follow {
                layout.bring_into_view(self.scroll, area, self.selected, false)
            } else {
                self.scroll
            },
        };
        min_of(moved, layout.max_scroll(area))
    }

    /// Whether the editor windows were last sent to these places.
    fn is_sent(&self, active: &Option<CellKey>, rects: &Vec<EditorRect>) -> (r: bool)
        ensures
            r == (self@.last_sent == Some((opt_key(*active), rects_view(rects@)))),
    {
        match &self.last_sent {
            Some(p) => same_key(&p.0, active) && same_rects(&p.1, rects),
            None => false,
        }
    }

    /// Lays out the notebook, and sends Neovim the editor windows' places, if they changed.
    pub fn lay_out(&mut self, items: &Vec<Item>)
        requires
            old(self).wf(),
            old(self).layout_seq < u64::MAX,
            stack_rows(items@) <= usize::MAX,
        ensures
            final(self).wf(),
            exists|l: Layout| #[trigger]
                stacked(items@, l) && final(self)@ == laid_out(old(self)@, l),
    {
        let layout = Layout::new(items);
        assert(stacked(items@, layout));
        self.place(layout);
    }

    fn place(&mut self, layout: Layout)
        requires
            old(self).wf(),
            old(self).layout_seq < u64::MAX,
            layout.wf(),
        ensures
            final(self).wf(),
            final(self)@ == laid_out(old(self)@, layout),
    {
        let ghost l = layout;
        let g = match self.geometry {
            Some(g) => g,
            None => {
                self.relayout = false;
                return;
            },
        };
        let area = g.area_height();
        let last: usize = if layout.blocks.len() > 0 {
            layout.blocks.len() - 1
        } else {
            0
        };
        self.selected = min_of(self.selected, last);
        let scroll = self.scroll_to(&layout, area);
        self.scroll = scroll;
        self.follow = false;
        self.relayout = false;
        self.draw = true;
        let active = self.active();
        let rects = layout.editors(&g, scroll, active.as_ref());
        if self.is_sent(&active, &rects) {
            // The windows stay put; what is drawn around them can change with them.
            if let Some(p) = self.sent.pop() {
                self.sent.push((p.0, layout, scroll));
                assert(self@.sent =~= old(self)@.sent.drop_last().push((p.0, l, scroll)));
            } else {
                self.shown = Some((layout, scroll));
            }
        } else {
            self.layout_seq += 1;
            let seq = self.layout_seq;
            self.sent.push((seq, layout, scroll));
            let copy = copy_rects(&rects);
            let who = active.clone();
            self.last_sent = Some((active, rects));
            self.do_next(Effect::Place { seq, active: who, rects: copy });
        }
    }
}

/// Whether any row of a block's box is in view.
pub open spec fn box_visible(b: Block, scroll: int, area: int) -> bool {
    b.top + b.lines + 2 > scroll && b.top < scroll + area
}

/// The first block from `i` on whose box is in view.
pub open spec fn first_visible(l: Layout, scroll: int, area: int, i: int) -> Option<int>
    decreases l.blocks@.len() - i,
{
    if i >= l.blocks@.len() {
        None
    } else if box_visible(l.blocks@[i], scroll, area) {
        Some(i)
    } else {
        first_visible(l, scroll, area, i + 1)
    }
}

/// The last of the first `n` blocks whose box is in view.
pub open spec fn last_visible(l: Layout, scroll: int, area: int, n: int) -> Option<int>
    decreases n,
{
    if n <= 0 {
        None
    } else if box_visible(l.blocks@[n - 1], scroll, area) {
        Some(n - 1)
    } else {
        last_visible(l, scroll, area, n - 1)
    }
}

/// The view scrolled, with the selection kept on screen.
pub open spec fn scrolled_by(u: UiV, l: Layout, rows: int) -> UiV {
    match u.geometry {
        None => u,
        Some(g) => {
            let area = g.rows();
            let scroll = smaller(larger(u.scroll + rows, 0), larger(l.total - area, 0));
            let n = l.blocks@.len() as int;
            let pick = if rows > 0 {
                first_visible(l, scroll, area, 0)
            } else {
                last_visible(l, scroll, area, n)
            };
            let stays = u.selected < n && box_visible(l.blocks@[u.selected], scroll, area);
            UiV {
                scroll,
                selected: if stays || pick is None {
                    u.selected
                } else {
                    pick->0
                },
                relayout: true,
                ..u
            }
        },
    }
}

fn visible(l: &Layout, i: usize, scroll: usize, area: usize) -> (r: bool)
    requires
        l.wf(),
        i < l.blocks@.len(),
        scroll + area <= usize::MAX,
    ensures
        r == box_visible(l.blocks@[i as int], scroll as int, area as int),
{
    proof {
        l.lemma_block(i as int);
    }
    let b = &l.blocks[i];
    b.top + b.lines + 2 > scroll && b.top < scroll + area
}

impl Ui {
    /// Scrolls the view by `rows`, keeping the selection on screen.
    pub fn scroll_by(&mut self, rows: i64, items: &Vec<Item>)
        requires
            old(self).wf(),
            stack_rows(items@) <= usize::MAX,
        ensures
            final(self).wf(),
            exists|l: Layout| #[trigger]
                stacked(items@, l) && final(self)@ == scrolled_by(old(self)@, l, rows as int),
    {
        let layout = Layout::new(items);
        assert(stacked(items@, layout));
        let g = match self.geometry {
            Some(g) => g,
            None => {
                return;
            },
        };
        let area = g.area_height();
        let most = layout.max_scroll(area);
        let target: i128 = self.scroll as i128 + rows as i128;
        let scroll: usize = if target < 0 {
            0
        } else if target < most as i128 {
            target as usize
        } else {
            most
        };
        assert(scroll + area <= usize::MAX) by {
            assert(most <= larger(layout.total - area, 0));
            assert(area < u16::MAX);
        }
        self.scroll = scroll;
        let stays = self.selected < layout.blocks.len() && visible(
            &layout,
            self.selected,
            scroll,
            area,
        );
        if !stays {
            let n = layout.blocks.len();
            if rows > 0 {
                let mut i: usize = 0;
                while i < n && !visible(&layout, i, scroll, area)
                    invariant
                        i <= n,
                        n == layout.blocks@.len(),
                        layout.wf(),
                        scroll + area <= usize::MAX,
                        first_visible(layout, scroll as int, area as int, 0) == first_visible(
                            layout,
                            scroll as int,
                            area as int,
                            i as int,
                        ),
                    decreases n - i,
                {
                    i += 1;
                }
                if i < n {
                    self.selected = i;
                }
            } else {
                let mut i: usize = n;
                while i > 0 && !visible(&layout, i - 1, scroll, area)
                    invariant
                        i <= n,
                        n == layout.blocks@.len(),
                        layout.wf(),
                        scroll + area <= usize::MAX,
                        last_visible(layout, scroll as int, area as int, n as int)
                            == last_visible(layout, scroll as int, area as int, i as int),
                    decreases i,
                {
                    i -= 1;
                }
                if i > 0 {
                    self.selected = i - 1;
                }
            }
        }
        self.relayout = true;
        assert(self@ == scrolled_by(old(self)@, layout, rows as int));
    }
}

/// What has focus in Neovim.
#[derive(Debug, PartialEq, Eq)]
pub enum Focus {
    /// The notebook's window.
    Home,
    Cell(CellKey),
    Other,
}

/// What a [`Focus`] holds, as the mode it gives.
pub open spec fn mode_of(f: Focus) -> ModeV {
    match f {
        Focus::Home => ModeV::Nav,
        Focus::Cell(k) => ModeV::Edit(k@),
        Focus::Other => ModeV::Other,
    }
}

/// Neovim's focus moved. A change that predates the latest one asked for is superseded by it.
pub open spec fn focused(u: UiV, seq: int, mode: ModeV, at: Option<int>) -> UiV {
    if seq < u.focus_seq {
        u
    } else {
        let s = UiV {
            selected: match at {
                Some(i) if mode is Edit => i,
                _ => u.selected,
            },
            ..u
        };
        if mode == u.mode {
            s
        } else {
            UiV { mode, relayout: true, ..s }
        }
    }
}

/// The layouts still to come, and the one on screen, once Neovim has drawn layout `seq`.
pub open spec fn drawn_layouts(
    sent: Seq<(u64, Layout, usize)>,
    shown: Option<(Layout, usize)>,
    seq: u64,
) -> (Seq<(u64, Layout, usize)>, Option<(Layout, usize)>)
    decreases sent.len(),
{
    if sent.len() == 0 || sent[0].0 > seq {
        (sent, shown)
    } else {
        drawn_layouts(
            sent.skip(1),
            if sent[0].0 == seq {
                Some((sent[0].1, sent[0].2))
            } else {
                shown
            },
            seq,
        )
    }
}

impl Ui {
    /// Neovim's focus moved, by a change with this number; a cell stands at `at`, if anywhere.
    pub fn focus_changed(&mut self, seq: u64, focus: Focus, at: Option<usize>)
        ensures
            final(self)@ == focused(
                old(self)@,
                seq as int,
                mode_of(focus),
                match at {
                    Some(i) => Some(i as int),
                    None => None,
                },
            ),
            old(self).wf() ==> final(self).wf(),
    {
        if seq < self.focus_seq {
            return;
        }
        let mode = match focus {
            Focus::Home => Mode::Nav,
            Focus::Cell(k) => {
                if let Some(i) = at {
                    self.selected = i;
                }
                Mode::Edit(k)
            },
            Focus::Other => Mode::Other,
        };
        if !mode.same(&self.mode) {
            self.mode = mode;
            self.relayout = true;
        }
    }

    /// Neovim has drawn layout `seq`, or says what went wrong.
    pub fn layout_done(&mut self, seq: u64, error: Option<&str>)
        requires
            old(self).wf(),
        ensures
            final(self).wf(),
            ({
                let drawn = drawn_layouts(old(self)@.sent, old(self)@.shown, seq);
                final(self)@ == (UiV {
                    sent: drawn.0,
                    shown: drawn.1,
                    message: match error {
                        Some(e) => Some("layout: "@ + e@),
                        None => old(self)@.message,
                    },
                    draw: true,
                    ..old(self)@
                })
            }),
    {
        let ghost whole = drawn_layouts(self@.sent, self@.shown, seq);
        while self.sent.len() > 0 && self.sent[0].0 <= seq
            invariant
                self.wf(),
                drawn_layouts(self.sent@, self.shown, seq) == whole,
                self@ == (UiV { sent: self.sent@, shown: self.shown, ..old(self)@ }),
            decreases self.sent@.len(),
        {
            let ghost before = self.sent@;
            let (s, layout, scroll) = self.sent.remove(0);
            assert(self.sent@ =~= before.skip(1));
            if s == seq {
                self.shown = Some((layout, scroll));
            }
        }
        if let Some(e) = error {
            self.message = Some(cat("layout: ", e));
        }
        self.draw = true;
    }

    /// The part of the screen for the notebook.
    pub fn viewport_changed(&mut self, g: Geometry)
        requires
            g.wf(),
        ensures
            final(self)@ == (if old(self)@.geometry == Some(g) {
                old(self)@
            } else {
                UiV { geometry: Some(g), relayout: true, ..old(self)@ }
            }),
            old(self).wf() ==> final(self).wf(),
    {
        let same = match self.geometry {
            Some(was) => was == g,
            None => false,
        };
        if !same {
            self.geometry = Some(g);
            self.relayout = true;
        }
    }
}

/// Whether a command handed to Neovim is still under way: it is until Neovim has changed its
/// mode twice and is back in Normal mode.
pub open spec fn under_way(u: UiV, mode_name: Seq<char>, changes: u64) -> bool {
    u.forward_since matches Some(since) && !(mode_name == "normal"@ && changes >= since + 2)
}

impl Ui {
    /// Whether keys typed in navigation mode belong to Neovim: its command line, a prompt, or a
    /// `:` command handed over that Neovim has not finished.
    pub fn forwarding(&mut self, mode_name: &str, changes: u64) -> (r: bool)
        ensures
            r == (under_way(old(self)@, mode_name@, changes) || mode_name@ != "normal"@),
            final(self)@ == (UiV {
                forward_since: if under_way(old(self)@, mode_name@, changes) {
                    old(self)@.forward_since
                } else {
                    None
                },
                ..old(self)@
            }),
            old(self).wf() ==> final(self).wf(),
    {
        let normal = str_eq(mode_name, "normal");
        if let Some(since) = self.forward_since {
            if normal && changes as u128 >= since as u128 + 2 {
                self.forward_since = None;
            } else {
                return true;
            }
        }
        !normal
    }
}

/// The mouse event sent on to Neovim.
pub open spec fn mouse_call(m: MouseEvent) -> CallV {
    let names = mouse_names(m.kind);
    CallV {
        method: "nvim_input_mouse"@,
        args: seq![
            ArgV::Text(names.0),
            ArgV::Text(names.1),
            ArgV::Text(mouse_mods(m.modifiers)),
            ArgV::Count(0),
            ArgV::Count(m.row as nat),
            ArgV::Count(m.column as nat),
        ],
    }
}

fn forward_mouse(m: MouseEvent) -> (r: Call)
    ensures
        r@ == mouse_call(m),
{
    let (button, action, modifier, row, col) = mouse(m);
    let args = vec![
        text_arg(button),
        text_arg(action),
        Arg::Text(modifier),
        Arg::Count(0),
        Arg::Count(row as u64),
        Arg::Count(col as u64),
    ];
    assert(args_view(args@) =~= mouse_call(m).args);
    request("nvim_input_mouse", args)
}

/// The first block from `i` on that covers a document row.
pub open spec fn cover_from(l: Layout, row: int, i: int) -> Option<int>
    decreases l.blocks@.len() - i,
{
    if i >= l.blocks@.len() {
        None
    } else if l.covers(i, row) {
        Some(i)
    } else {
        cover_from(l, row, i + 1)
    }
}

/// The cell at a screen row.
pub open spec fn cell_at_row(l: Layout, g: Geometry, scroll: int, row: int) -> Option<Name> {
    if g.top_row() <= row < g.top_row() + g.rows() {
        match cover_from(l, row - g.top_row() + scroll, 0) {
            Some(i) => Some(l.blocks@[i].key@),
            None => None,
        }
    } else {
        None
    }
}

proof fn lemma_cover(l: Layout, row: int, i: int, found: Option<int>)
    requires
        l.wf(),
        0 <= i <= l.blocks@.len(),
        match found {
            Some(n) => i <= n < l.blocks@.len() && l.covers(n, row),
            None => forall|j: int| 0 <= j < l.blocks@.len() ==> !#[trigger] l.covers(j, row),
        },
    ensures
        cover_from(l, row, i) == found,
    decreases l.blocks@.len() - i,
{
    if i < l.blocks@.len() {
        match found {
            Some(n) => {
                if i < n {
                    if l.covers(i, row) {
                        l.blocks_do_not_overlap(i, n, row);
                    }
                    lemma_cover(l, row, i + 1, found);
                }
            },
            None => {
                assert(!l.covers(i, row));
                lemma_cover(l, row, i + 1, found);
            },
        }
    }
}

/// Whether a place on screen is in a cell's editor window.
pub open spec fn in_window(r: RectV, key: Name, row: int, col: int) -> bool {
    r.key == key && r.row <= row < r.row + r.height && r.col <= col < r.col + r.width
}

pub open spec fn in_editor(l: Layout, g: Geometry, scroll: int, key: Name, row: int, col: int) -> bool {
    let rects = l.editors_upto(g, scroll, None, l.blocks@.len() as int);
    exists|i: int| 0 <= i < rects.len() && in_window(#[trigger] rects[i], key, row, col)
}

/// Where a cell stands in the order, if anywhere.
pub open spec fn place_of(order: Seq<Name>, k: Name) -> Option<int> {
    if pos(order, k) < order.len() {
        Some(pos(order, k))
    } else {
        None
    }
}

/// A mouse event. Over the notebook the wheel scrolls, and the left button enters a cell's
/// editor or selects the cell; all else goes to Neovim.
pub open spec fn moused(u: UiV, m: MouseEvent, order: Seq<Name>) -> UiV {
    let forwarded = |u: UiV| doing(u, EffectV::Call(mouse_call(m)));
    match (u.geometry, u.shown) {
        (Some(g), Some((l, scroll))) => {
            let hit = cell_at_row(l, g, scroll as int, m.row as int);
            if u.mode is Nav && m.kind == MouseEventKind::ScrollDown {
                doing(u, EffectV::ScrollBy(3))
            } else if u.mode is Nav && m.kind == MouseEventKind::ScrollUp {
                doing(u, EffectV::ScrollBy(-3))
            } else if m.kind == MouseEventKind::Down(MouseButton::Left) && hit is Some {
                let key = hit->0;
                if in_editor(l, g, scroll as int, key, m.row as int, m.column as int) {
                    // Positions the cursor, once the window has focus.
                    forwarded(
                        if u.mode == ModeV::Edit(key) {
                            u
                        } else {
                            entering(u, key, false, place_of(order, key))
                        },
                    )
                } else {
                    let at = match place_of(order, key) {
                        Some(i) => i,
                        None => u.selected,
                    };
                    selecting(
                        if u.mode is Edit {
                            leaving(u)
                        } else {
                            u
                        },
                        at,
                        order.len() as int,
                    )
                }
            } else if u.mode is Nav && hit is Some {
                u
            } else {
                forwarded(u)
            }
        },
        _ => forwarded(u),
    }
}

impl Ui {
    pub fn on_mouse(&mut self, m: MouseEvent, nb: &Notebook)
        requires
            old(self).wf(),
            old(self).counts(),
        ensures
            final(self).wf(),
            final(self)@ == moused(old(self)@, m, nb.doc().order),
    {
        let nav = self.mode.is_nav();
        let (hit, inside) = match (self.geometry, &self.shown) {
            (Some(g), Some(s)) => {
                let layout = &s.0;
                let scroll = s.1;
                let at = layout.at_row(&g, scroll, m.row);
                proof {
                    let row = m.row - g.top_row() + scroll;
                    if g.top_row() <= m.row < g.top_row() + g.rows() {
                        lemma_cover(
                            *layout,
                            row,
                            0,
                            match at {
                                Some(i) => Some(i as int),
                                None => None,
                            },
                        );
                    }
                }
                match at {
                    Some(i) => {
                        let key = layout.blocks[i].key.clone();
                        let rects = layout.editors(&g, scroll, None);
                        let inside = within(&rects, &key, m.row, m.column);
                        (Some(key), inside)
                    },
                    None => (None, false),
                }
            },
            _ => {
                self.do_next(Effect::Call(forward_mouse(m)));
                return;
            },
        };
        if nav && m.kind == MouseEventKind::ScrollDown {
            self.do_next(Effect::ScrollBy(3));
            return;
        }
        if nav && m.kind == MouseEventKind::ScrollUp {
            self.do_next(Effect::ScrollBy(-3));
            return;
        }
        if m.kind == MouseEventKind::Down(MouseButton::Left) {
            if let Some(key) = &hit {
                let editing = match &self.mode {
                    Mode::Edit(k) => k.same(key),
                    _ => false,
                };
                let at = nb.index_of(key);
                if inside {
                    if !editing {
                        self.enter(key, false, at);
                    }
                    self.do_next(Effect::Call(forward_mouse(m)));
                } else {
                    let i = match at {
                        Some(i) => i,
                        None => self.selected,
                    };
                    if self.mode.is_edit() {
                        self.leave();
                    }
                    self.select(i, nb.order.len());
                }
                return;
            }
        }
        if nav && hit.is_some() {
            return;
        }
        self.do_next(Effect::Call(forward_mouse(m)));
    }

    /// The terminal has another size.
    pub fn on_resize(&mut self, width: u16, height: u16)
        ensures
            final(self)@ == resized(old(self)@, width, height),
            old(self).wf() ==> final(self).wf(),
    {
        self.do_next(Effect::Call(resize(width as usize, height as usize)));
        self.do_next(Effect::ForgetViews);
        self.do_next(Effect::ForgetImages);
        self.relayout = true;
    }

    /// The terminal gained or lost focus. A reattached client of tmux may be another terminal,
    /// so image data is sent again.
    pub fn on_focus(&mut self, gained: bool, tmux: bool)
        ensures
            final(self)@ == refocused(old(self)@, gained, tmux),
            old(self).wf() ==> final(self).wf(),
    {
        let args = vec![Arg::Bool(gained)];
        assert(args_view(args@) =~= seq![ArgV::Bool(gained)]);
        self.do_next(Effect::Call(request("nvim_ui_set_focus", args)));
        if gained && tmux {
            self.do_next(Effect::ForgetImages);
            self.do_next(Effect::ClearTerminal);
            self.draw = true;
        }
    }

    /// Text pasted into the terminal: Neovim's, unless navigation has the keys.
    pub fn on_paste(&mut self, text: &str, mode_name: &str, changes: u64)
        ensures
            final(self)@ == pasted_into(old(self)@, text@, mode_name@, changes),
            old(self).wf() ==> final(self).wf(),
    {
        if !self.mode.is_nav() || self.forwarding(mode_name, changes) {
            let args = vec![text_arg(text), Arg::Bool(true), Arg::Int(-1)];
            assert(args_view(args@) =~= seq![
                ArgV::Text(text@),
                ArgV::Bool(true),
                ArgV::Int(-1),
            ]);
            self.do_next(Effect::Call(request("nvim_paste", args)));
        }
    }
}

fn within(rects: &Vec<EditorRect>, key: &CellKey, row: u16, col: u16) -> (r: bool)
    ensures
        r == exists|i: int|
            0 <= i < rects@.len() && in_window(
                #[trigger] rects_view(rects@)[i],
                key@,
                row as int,
                col as int,
            ),
{
    let mut i: usize = 0;
    while i < rects.len()
        invariant
            i <= rects@.len(),
            forall|j: int|
                0 <= j < i ==> !in_window(
                    #[trigger] rects_view(rects@)[j],
                    key@,
                    row as int,
                    col as int,
                ),
        decreases rects@.len() - i,
    {
        let r = &rects[i];
        if r.key.same(key) && r.row <= row && row - r.row < r.height && r.col <= col && col - r.col
            < r.width {
            assert(in_window(rects_view(rects@)[i as int], key@, row as int, col as int));
            return true;
        }
        i += 1;
    }
    false
}

/// A selection is a cell, wherever there are any.
pub proof fn selection_is_a_cell(u: UiV, i: int, len: int)
    requires
        i >= 0,
        len > 0,
    ensures
        0 <= selecting(u, i, len).selected < len,
        i < len ==> selecting(u, i, len).selected == i,
{
}

/// The edited cell stays in view: a layout shows its whole box, or as much of it as there is
/// room for.
pub proof fn edited_cell_stays_in_view(u: UiV, l: Layout, g: Geometry, k: Name, i: int)
    requires
        l.wf(),
        u.geometry == Some(g),
        u.mode == ModeV::Edit(k),
        u.scroll >= 0,
        pos(block_names(l), k) == i,
        0 <= i < l.blocks@.len(),
    ensures
        ({
            let scroll = laid_out(u, l).scroll;
            let top = l.blocks@[i].top as int;
            let shown = smaller(l.blocks@[i].lines + 2, g.rows());
            scroll <= top && top + shown <= scroll + g.rows()
        }),
{
    l.revealed_is_in_view(u.scroll, g.rows(), i, true);
    l.lemma_block(i);
}

/// A cell newly selected comes into view, outputs included as far as there is room.
pub proof fn selected_cell_comes_into_view(u: UiV, l: Layout, g: Geometry)
    requires
        l.wf(),
        u.geometry == Some(g),
        !(u.mode is Edit),
        u.follow,
        u.scroll >= 0,
        0 <= u.selected < l.blocks@.len(),
    ensures
        ({
            let scroll = laid_out(u, l).scroll;
            let b = l.blocks@[u.selected];
            let shown = smaller(b.rows(), g.rows());
            scroll <= b.top && b.top + shown <= scroll + g.rows()
        }),
{
    l.revealed_is_in_view(u.scroll, g.rows(), u.selected, false);
    l.lemma_block(u.selected);
}

/// The document is marked modified once, however often it changes before it is written.
pub proof fn marked_once(u: UiV)
    ensures
        dirtied(u).dirty,
        dirtied(dirtied(u)) == dirtied(u),
{
}

/// The terminal has another size: Neovim is asked for it, and everything is drawn anew.
pub open spec fn resized(u: UiV, width: u16, height: u16) -> UiV {
    let call = CallV {
        method: "nvim_ui_try_resize"@,
        args: seq![ArgV::Count(width as nat), ArgV::Count(height as nat)],
    };
    let v = doing(u, EffectV::Call(call));
    UiV { relayout: true, ..doing(doing(v, EffectV::ForgetViews), EffectV::ForgetImages) }
}

/// The terminal gained or lost focus.
pub open spec fn refocused(u: UiV, gained: bool, tmux: bool) -> UiV {
    let call = CallV { method: "nvim_ui_set_focus"@, args: seq![ArgV::Bool(gained)] };
    let v = doing(u, EffectV::Call(call));
    if gained && tmux {
        UiV { draw: true, ..doing(doing(v, EffectV::ForgetImages), EffectV::ClearTerminal) }
    } else {
        v
    }
}

/// Text was pasted into the terminal.
pub open spec fn pasted_into(u: UiV, text: Seq<char>, mode_name: Seq<char>, changes: u64) -> UiV {
    let busy = under_way(u, mode_name, changes);
    let cleared = UiV {
        forward_since: if busy {
            u.forward_since
        } else {
            None
        },
        ..u
    };
    let call = CallV {
        method: "nvim_paste"@,
        args: seq![ArgV::Text(text), ArgV::Bool(true), ArgV::Int(-1)],
    };
    if !(u.mode is Nav) {
        doing(u, EffectV::Call(call))
    } else if busy || mode_name != "normal"@ {
        doing(cleared, EffectV::Call(call))
    } else {
        cleared
    }
}

/// Pasted text goes to Neovim whole, once, while a cell is edited; in navigation mode it goes
/// nowhere, unless Neovim asks for something.
pub proof fn pasted_text_goes_to_the_cell(u: UiV, text: Seq<char>, mode_name: Seq<char>, changes: u64)
    ensures
        ({
            let v = pasted_into(u, text, mode_name, changes);
            let n = u.effects.len() as int;
            &&& !(u.mode is Nav) || mode_name != "normal"@ ==> {
                &&& v.effects.len() == n + 1
                &&& v.effects.take(n) == u.effects
                &&& v.effects[n] is Call
                &&& v.effects[n]->Call_0.method == "nvim_paste"@
                &&& v.effects[n]->Call_0.args[0] == ArgV::Text(text)
            }
            &&& u.mode is Nav && mode_name == "normal"@ && u.forward_since is None ==> v.effects
                == u.effects
            &&& v.mode == u.mode
            &&& v.selected == u.selected
        }),
{
    let v = pasted_into(u, text, mode_name, changes);
    if v.effects.len() == u.effects.len() + 1 {
        assert(v.effects.take(u.effects.len() as int) =~= u.effects);
    }
}

/// Neovim gets the terminal's new size and its focus. After a new size, and after focus comes
/// back to a tmux client, pictures are sent again.
pub proof fn neovim_follows_the_terminal(u: UiV, width: u16, height: u16, gained: bool, tmux: bool)
    ensures
        ({
            let n = u.effects.len() as int;
            let r = resized(u, width, height);
            let f = refocused(u, gained, tmux);
            &&& r.effects[n] is Call
            &&& r.effects[n]->Call_0.args == seq![
                ArgV::Count(width as nat),
                ArgV::Count(height as nat),
            ]
            &&& r.effects.contains(EffectV::ForgetImages)
            &&& r.relayout
            &&& f.effects[n] is Call
            &&& f.effects[n]->Call_0.args == seq![ArgV::Bool(gained)]
            &&& gained && tmux ==> f.effects.contains(EffectV::ForgetImages) && f.draw
            &&& !(gained && tmux) ==> f.effects.len() == n + 1
        }),
{
    let n = u.effects.len() as int;
    let r = resized(u, width, height);
    let f = refocused(u, gained, tmux);
    assert(r.effects[n + 2] == EffectV::ForgetImages);
    if gained && tmux {
        assert(f.effects[n + 1] == EffectV::ForgetImages);
    }
}

} // verus!
