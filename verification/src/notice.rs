//! What the companion, nbv's side in Neovim, reports.

use crate::app::text_in;
use crate::document::opt_text;
use crate::key::CellKey;
use crate::layout::{Geometry, Viewport};
use crate::msg::{m_bool, m_get, m_str, m_u64, Msg, MsgV};
use crate::paint::{Colors, Theme};
use crate::text::str_eq;
use crate::ui::Focus;
use vstd::prelude::*;

verus! {

/// A report, read.
pub enum Notice {
    /// Focus went to a window, after the request for focus numbered `seq`.
    Focus { seq: u64, focus: Focus },
    /// The editor windows stand where layout `seq` puts them, or why they do not.
    LayoutDone { seq: u64, error: Option<String> },
    /// The place that Neovim leaves for the notebook.
    Viewport(Geometry),
    Theme(Theme),
    /// The rows that cells take, in windows of a width.
    Rows { width: u16, rows: Vec<(String, usize)> },
    /// A command that the user gave.
    Command { action: String, args: Msg },
    Nothing,
}

/// A count under a name; none counts as zero.
pub open spec fn count_in(args: MsgV, name: Seq<char>) -> u64 {
    match m_get(args, name) {
        Some(v) => match m_u64(v) {
            Some(n) => n,
            None => 0,
        },
        None => 0,
    }
}

/// A count under a name, as far as a screen reaches.
pub open spec fn cells_in(args: MsgV, name: Seq<char>) -> u16 {
    if count_in(args, name) <= u16::MAX {
        count_in(args, name) as u16
    } else {
        u16::MAX
    }
}

/// Whether focus went where the report says: to a cell, to the notebook's own window, or
/// elsewhere.
pub open spec fn focus_in(args: MsgV, f: Focus) -> bool {
    match text_in(args, "key"@) {
        Some(k) => f matches Focus::Cell(c) && c@ == k,
        None => if m_get(args, "home"@) is Some && m_bool(m_get(args, "home"@)->0) == Some(true) {
            f is Home
        } else {
            f is Other
        },
    }
}

pub open spec fn viewport_in(args: MsgV) -> Viewport {
    Viewport {
        row: cells_in(args, "row"@),
        col: cells_in(args, "col"@),
        width: cells_in(args, "width"@),
        height: cells_in(args, "height"@),
    }
}

pub open spec fn entries_of(v: MsgV) -> Seq<(MsgV, MsgV)> {
    match v {
        MsgV::Table(t) => t,
        _ => Seq::empty(),
    }
}

/// A colour, if a value is one.
pub open spec fn color_of(v: MsgV) -> Option<u32> {
    match m_u64(v) {
        Some(n) => if n <= u32::MAX {
            Some(n as u32)
        } else {
            None
        },
        None => None,
    }
}

/// The colours among the first `n` entries, by their names.
pub open spec fn colors_upto(t: Seq<(MsgV, MsgV)>, n: int) -> Colors
    decreases n,
{
    if n <= 0 {
        Seq::empty()
    } else {
        let front = colors_upto(t, n - 1);
        match m_str(t[n - 1].0) {
            Some(name) => front.push((name, color_of(t[n - 1].1))),
            None => front,
        }
    }
}

/// The counts of rows among the first `n` entries, by the cells' keys.
pub open spec fn rows_upto(t: Seq<(MsgV, MsgV)>, n: int) -> Seq<(Seq<char>, int)>
    decreases n,
{
    if n <= 0 {
        Seq::empty()
    } else {
        let front = rows_upto(t, n - 1);
        match (m_str(t[n - 1].0), m_u64(t[n - 1].1)) {
            (Some(k), Some(rows)) => if rows <= usize::MAX {
                front.push((k, rows as int))
            } else {
                front
            },
            _ => front,
        }
    }
}

pub open spec fn rows_view(v: Seq<(String, usize)>) -> Seq<(Seq<char>, int)> {
    Seq::new(v.len(), |i: int| (v[i].0@, v[i].1 as int))
}

/// The entries under a name.
pub open spec fn table_in(args: MsgV, name: Seq<char>) -> Seq<(MsgV, MsgV)> {
    match m_get(args, name) {
        Some(v) => entries_of(v),
        None => Seq::empty(),
    }
}

/// Whether a report is read as it stands. A viewport that no screen can have is no news.
pub open spec fn noticed(action: Seq<char>, args: MsgV, r: Notice) -> bool {
    if action == "focus"@ {
        r matches Notice::Focus { seq, focus } && seq == count_in(args, "seq"@) && focus_in(
            args,
            focus,
        )
    } else if action == "layout_done"@ {
        r matches Notice::LayoutDone { seq, error } && seq == count_in(args, "seq"@) && opt_text(
            error,
        ) == text_in(args, "error"@)
    } else if action == "viewport"@ {
        let g = Geometry { viewport: viewport_in(args) };
        if g.wf() {
            r == Notice::Viewport(g)
        } else {
            r is Nothing
        }
    } else if action == "theme"@ {
        r matches Notice::Theme(t) && t@ == colors_upto(
            entries_of(args),
            entries_of(args).len() as int,
        )
    } else if action == "rows"@ {
        let t = table_in(args, "rows"@);
        r matches Notice::Rows { width, rows } && width == cells_in(args, "width"@) && rows_view(
            rows@,
        ) == rows_upto(t, t.len() as int)
    } else {
        r matches Notice::Command { action: a, args: x } && a@ == action && x@ == args
    }
}

fn count(args: &Msg, name: &str) -> (r: u64)
    ensures
        r == count_in(args@, name@),
{
    match args.get(name) {
        Some(v) => match v.as_u64() {
            Some(n) => n,
            None => 0,
        },
        None => 0,
    }
}

fn cells(args: &Msg, name: &str) -> (r: u16)
    ensures
        r == cells_in(args@, name@),
{
    let n = count(args, name);
    if n <= 65535 {
        n as u16
    } else {
        65535
    }
}

fn words(args: &Msg, name: &str) -> (r: Option<String>)
    ensures
        opt_text(r) == text_in(args@, name@),
{
    match args.get(name) {
        Some(v) => v.as_str(),
        None => None,
    }
}

fn focus(args: &Msg) -> (r: Focus)
    ensures
        focus_in(args@, r),
{
    match words(args, "key") {
        Some(k) => Focus::Cell(CellKey::new(k.as_str())),
        None => match args.get("home") {
            Some(v) => match v.as_bool() {
                Some(true) => Focus::Home,
                _ => Focus::Other,
            },
            None => Focus::Other,
        },
    }
}

fn viewport(args: &Msg) -> (r: Option<Geometry>)
    ensures
        ({
            let g = Geometry { viewport: viewport_in(args@) };
            r == if g.wf() {
                Some(g)
            } else {
                None
            }
        }),
{
    let v = Viewport {
        row: cells(args, "row"),
        col: cells(args, "col"),
        width: cells(args, "width"),
        height: cells(args, "height"),
    };
    let g = Geometry { viewport: v };
    if g.fits() {
        Some(g)
    } else {
        None
    }
}

fn colors(args: &Msg) -> (r: Theme)
    ensures
        r@ == colors_upto(entries_of(args@), entries_of(args@).len() as int),
{
    let mut out: Vec<(String, Option<u32>)> = Vec::new();
    match args {
        Msg::Table(t) => {
            let ghost s = args@->Table_0;
            let mut i: usize = 0;
            while i < t.len()
                invariant
                    i <= t@.len(),
                    args@ == MsgV::Table(s),
                    s.len() == t@.len(),
                    forall|j: int| 0 <= j < s.len() ==> #[trigger] s[j] == (t@[j].0@, t@[j].1@),
                    (Theme { colors: out })@ =~= colors_upto(s, i as int),
                decreases t@.len() - i,
            {
                assert(s[i as int] == (t@[i as int].0@, t@[i as int].1@));
                let ghost before = (Theme { colors: out })@;
                if let Some(name) = t[i].0.as_str() {
                    let color = match t[i].1.as_u64() {
                        Some(n) => if n <= 0xffff_ffff {
                            Some(n as u32)
                        } else {
                            None
                        },
                        None => None,
                    };
                    let ghost shown = name@;
                    out.push((name, color));
                    assert((Theme { colors: out })@ =~= before.push((shown, color)));
                }
                i += 1;
            }
        },
        _ => {
            assert((Theme { colors: out })@ =~= Seq::empty());
        },
    }
    Theme { colors: out }
}

fn rows(args: &Msg) -> (r: Vec<(String, usize)>)
    ensures
        ({
            let t = table_in(args@, "rows"@);
            rows_view(r@) == rows_upto(t, t.len() as int)
        }),
{
    let mut out: Vec<(String, usize)> = Vec::new();
    assert(rows_view(out@) =~= Seq::empty());
    if let Some(v) = args.get("rows") {
        if let Msg::Table(t) = v {
            let ghost s = v@->Table_0;
            let mut i: usize = 0;
            while i < t.len()
                invariant
                    i <= t@.len(),
                    v@ == MsgV::Table(s),
                    s.len() == t@.len(),
                    forall|j: int| 0 <= j < s.len() ==> #[trigger] s[j] == (t@[j].0@, t@[j].1@),
                    rows_view(out@) =~= rows_upto(s, i as int),
                decreases t@.len() - i,
            {
                assert(s[i as int] == (t@[i as int].0@, t@[i as int].1@));
                let ghost before = rows_view(out@);
                if let (Some(k), Some(n)) = (t[i].0.as_str(), t[i].1.as_u64()) {
                    if n <= usize::MAX as u64 {
                        let ghost key = k@;
                        out.push((k, n as usize));
                        assert(rows_view(out@) =~= before.push((key, n as int)));
                    }
                }
                i += 1;
            }
        }
    }
    out
}

/// Reads a report: an action and its arguments.
pub fn read(action: String, args: Msg) -> (r: Notice)
    ensures
        noticed(action@, args@, r),
{
    if str_eq(action.as_str(), "focus") {
        Notice::Focus { seq: count(&args, "seq"), focus: focus(&args) }
    } else if str_eq(action.as_str(), "layout_done") {
        Notice::LayoutDone { seq: count(&args, "seq"), error: words(&args, "error") }
    } else if str_eq(action.as_str(), "viewport") {
        match viewport(&args) {
            Some(g) => Notice::Viewport(g),
            None => Notice::Nothing,
        }
    } else if str_eq(action.as_str(), "theme") {
        Notice::Theme(colors(&args))
    } else if str_eq(action.as_str(), "rows") {
        Notice::Rows { width: cells(&args, "width"), rows: rows(&args) }
    } else {
        Notice::Command { action, args }
    }
}

/// The rows that cells were seen to take.
#[derive(Debug)]
pub struct Measured {
    pub rows: Vec<(String, u16, usize)>,
}

/// What a [`Measured`] holds, the latest last.
pub type Measures = Seq<(Seq<char>, u16, int)>;

impl View for Measured {
    type V = Measures;

    open spec fn view(&self) -> Measures {
        Seq::new(
            self.rows@.len(),
            |i: int| (self.rows@[i].0@, self.rows@[i].1, self.rows@[i].2 as int),
        )
    }
}

/// The place of a cell's measure; past the end if there is none.
pub open spec fn measure_at(m: Measures, key: Seq<char>) -> int
    decreases m.len(),
{
    if m.len() == 0 {
        0
    } else if m[0].0 == key {
        0
    } else {
        1 + measure_at(m.skip(1), key)
    }
}

/// A cell's rows in windows of a width, if they were measured there last.
pub open spec fn measured(m: Measures, key: Seq<char>, width: u16) -> Option<int> {
    let i = measure_at(m, key);
    if i < m.len() && m[i].1 == width {
        Some(m[i].2)
    } else {
        None
    }
}

/// One more measure; it takes the place of an earlier one of the same cell.
pub open spec fn with_measure(m: Measures, key: Seq<char>, width: u16, rows: int) -> Measures {
    let i = measure_at(m, key);
    if i < m.len() {
        m.update(i, (key, width, rows))
    } else {
        m.push((key, width, rows))
    }
}

/// More measures, one after another.
pub open spec fn with_measures(m: Measures, width: u16, rows: Seq<(Seq<char>, int)>) -> Measures
    decreases rows.len(),
{
    if rows.len() == 0 {
        m
    } else {
        with_measure(
            with_measures(m, width, rows.drop_last()),
            rows.last().0,
            width,
            rows.last().1,
        )
    }
}

proof fn lemma_measure_at(m: Measures, key: Seq<char>, i: int)
    requires
        0 <= i <= m.len(),
        forall|j: int| 0 <= j < i ==> (#[trigger] m[j]).0 != key,
        i < m.len() ==> m[i].0 == key,
    ensures
        measure_at(m, key) == i,
    decreases i,
{
    if i > 0 {
        assert(m[0].0 != key);
        let rest = m.skip(1);
        assert forall|j: int| 0 <= j < i - 1 implies (#[trigger] rest[j]).0 != key by {
            assert(rest[j] == m[j + 1]);
        }
        lemma_measure_at(rest, key, i - 1);
    }
}

impl Measured {
    pub fn new() -> (r: Measured)
        ensures
            r@ == Seq::<(Seq<char>, u16, int)>::empty(),
    {
        let r = Measured { rows: Vec::new() };
        assert(r@ =~= Seq::empty());
        r
    }

    fn position(&self, key: &str) -> (r: usize)
        ensures
            r == measure_at(self@, key@),
            r <= self.rows@.len(),
    {
        let mut i: usize = 0;
        while i < self.rows.len()
            invariant
                i <= self.rows@.len(),
                forall|j: int| 0 <= j < i ==> (#[trigger] self@[j]).0 != key@,
            decreases self.rows@.len() - i,
        {
            assert(self@[i as int].0 == self.rows@[i as int].0@);
            if str_eq(self.rows[i].0.as_str(), key) {
                proof {
                    lemma_measure_at(self@, key@, i as int);
                }
                return i;
            }
            i += 1;
        }
        proof {
            lemma_measure_at(self@, key@, i as int);
        }
        i
    }

    /// The rows that a cell takes in windows of a width, if that is what was measured last.
    pub fn get(&self, key: &CellKey, width: u16) -> (r: Option<usize>)
        ensures
            match r {
                Some(n) => measured(self@, key@, width) == Some(n as int),
                None => measured(self@, key@, width) is None,
            },
    {
        let i = self.position(key.as_str());
        if i < self.rows.len() && self.rows[i].1 == width {
            Some(self.rows[i].2)
        } else {
            None
        }
    }

    /// Takes in the rows that cells take in windows of a width.
    pub fn note(&mut self, width: u16, rows: Vec<(String, usize)>)
        ensures
            final(self)@ == with_measures(old(self)@, width, rows_view(rows@)),
    {
        let ghost all = rows_view(rows@);
        let ghost start = self@;
        assert(all.take(0) =~= Seq::empty());
        for (key, n) in it: rows
            invariant
                all == rows_view(rows@),
                it.seq() == rows@,
                self@ == with_measures(start, width, all.take(it.index() as int)),
        {
            let ghost i = it.index();
            let ghost before = self@;
            let at = self.position(key.as_str());
            let ghost name = key@;
            assert(all[i as int] == (name, n as int));
            assert(all.take(i + 1).drop_last() =~= all.take(i as int));
            if at < self.rows.len() {
                self.rows.set(at, (key, width, n));
                assert(self@ =~= before.update(at as int, (name, width, n as int)));
            } else {
                self.rows.push((key, width, n));
                assert(self@ =~= before.push((name, width, n as int)));
            }
        }
        assert(all.take(all.len() as int) =~= all);
    }
}

proof fn lemma_measure_found(m: Measures, key: Seq<char>)
    ensures
        0 <= measure_at(m, key) <= m.len(),
        measure_at(m, key) < m.len() ==> m[measure_at(m, key)].0 == key,
        forall|j: int| 0 <= j < measure_at(m, key) ==> (#[trigger] m[j]).0 != key,
    decreases m.len(),
{
    if m.len() > 0 && m[0].0 != key {
        let rest = m.skip(1);
        lemma_measure_found(rest, key);
        assert forall|j: int| 0 <= j < measure_at(m, key) implies (#[trigger] m[j]).0 != key by {
            if j > 0 {
                assert(m[j] == rest[j - 1]);
            }
        }
    }
}

/// A cell's rows are what was measured last, in windows of that width and no other; no other
/// cell's change.
pub proof fn latest_measure_counts(
    m: Measures,
    key: Seq<char>,
    width: u16,
    rows: int,
    other: Seq<char>,
    w: u16,
)
    ensures
        measured(with_measure(m, key, width, rows), key, w) == if w == width {
            Some(rows)
        } else {
            None
        },
        other != key ==> measured(with_measure(m, key, width, rows), other, w) == measured(
            m,
            other,
            w,
        ),
{
    let t = with_measure(m, key, width, rows);
    lemma_measure_found(m, key);
    lemma_measure_at(t, key, measure_at(m, key));
    if other != key {
        lemma_measure_found(m, other);
        let i = measure_at(m, other);
        assert forall|j: int| 0 <= j < i implies (#[trigger] t[j]).0 != other by {
            assert(t[j] == (key, width, rows) || t[j] == m[j]);
        }
        if i < m.len() {
            lemma_measure_at(t, other, i);
        } else {
            lemma_measure_at(t, other, t.len() as int);
        }
    }
}

proof fn lemma_action_names()
    ensures
        "focus"@.len() == 5 && "focus"@[0] == 'f',
        "layout_done"@.len() == 11,
        "viewport"@.len() == 8,
        "theme"@.len() == 5 && "theme"@[0] == 't',
        "rows"@.len() == 4,
{
    reveal_strlit("focus");
    reveal_strlit("layout_done");
    reveal_strlit("viewport");
    reveal_strlit("theme");
    reveal_strlit("rows");
}

/// A focus report names the cell that has focus; one that names none says whether the
/// notebook's own window has it. It carries the number of the change that it answers.
pub proof fn focus_report_names_the_cell(args: MsgV, r: Notice, n: u64)
    requires
        noticed("focus"@, args, r),
        m_get(args, "seq"@) is Some,
        m_u64(m_get(args, "seq"@)->0) == Some(n),
    ensures
        r is Focus,
        r->Focus_seq == n,
        ({
            let named = match m_get(args, "key"@) {
                Some(v) => m_str(v),
                None => None,
            };
            let home = m_get(args, "home"@) is Some && m_bool(m_get(args, "home"@)->0) == Some(true);
            &&& named is Some ==> r->focus is Cell && r->focus->Cell_0@ == named->0
            &&& named is None && home ==> r->focus is Home
            &&& named is None && !home ==> r->focus is Other
        }),
{
    lemma_action_names();
}

/// A viewport report gives the viewport its four numbers, as far as a screen reaches.
pub proof fn viewport_report_gives_its_numbers(args: MsgV, r: Notice, row: u16, col: u16, width: u16, height: u16)
    requires
        noticed("viewport"@, args, r),
        count_in(args, "row"@) == row,
        count_in(args, "col"@) == col,
        count_in(args, "width"@) == width,
        count_in(args, "height"@) == height,
    ensures
        r is Viewport ==> r->Viewport_0.viewport == (Viewport { row, col, width, height }),
        (Geometry { viewport: Viewport { row, col, width, height } }).wf() ==> r is Viewport,
        !(r is Viewport) ==> r is Nothing,
{
    lemma_action_names();
}

/// A layout report carries the layout's number and what went wrong, if anything did.
pub proof fn layout_report_says_what_went_wrong(args: MsgV, r: Notice, n: u64)
    requires
        noticed("layout_done"@, args, r),
        m_get(args, "seq"@) is Some,
        m_u64(m_get(args, "seq"@)->0) == Some(n),
    ensures
        r is LayoutDone,
        r->LayoutDone_seq == n,
        m_get(args, "error"@) is None ==> r->error is None,
        m_get(args, "error"@) is Some && m_str(m_get(args, "error"@)->0) is Some ==> r->error is Some
            && r->error->0@ == m_str(m_get(args, "error"@)->0)->0,
{
    lemma_action_names();
}

/// Every colour of a theme is kept under its name.
pub proof fn theme_keeps_its_colors(t: Seq<(MsgV, MsgV)>, n: int, i: int)
    requires
        0 <= i < n <= t.len(),
        m_str(t[i].0) is Some,
    ensures
        m_u64(t[i].1) is Some && m_u64(t[i].1)->0 <= 0xffffff ==> colors_upto(t, n).contains(
            (m_str(t[i].0)->0, Some(m_u64(t[i].1)->0 as u32)),
        ),
        m_u64(t[i].1) is None ==> colors_upto(t, n).contains((m_str(t[i].0)->0, None::<u32>)),
    decreases n,
{
    let all = colors_upto(t, n);
    let front = colors_upto(t, n - 1);
    let name = m_str(t[i].0)->0;
    let c = color_of(t[i].1);
    if i < n - 1 {
        theme_keeps_its_colors(t, n - 1, i);
        if front.contains((name, c)) {
            let j = choose|j: int| 0 <= j < front.len() && front[j] == (name, c);
            assert(all[j] == (name, c));
        }
    } else {
        assert(all[all.len() - 1] == (name, c));
    }
}

/// Every count of rows is kept under the cell that it was measured for.
pub proof fn measures_are_kept_by_cell(t: Seq<(MsgV, MsgV)>, n: int, i: int)
    requires
        0 <= i < n <= t.len(),
        m_str(t[i].0) is Some,
        m_u64(t[i].1) is Some,
        m_u64(t[i].1)->0 <= usize::MAX,
    ensures
        rows_upto(t, n).contains((m_str(t[i].0)->0, m_u64(t[i].1)->0 as int)),
    decreases n,
{
    let all = rows_upto(t, n);
    let front = rows_upto(t, n - 1);
    let p = (m_str(t[i].0)->0, m_u64(t[i].1)->0 as int);
    if i < n - 1 {
        measures_are_kept_by_cell(t, n - 1, i);
        let j = choose|j: int| 0 <= j < front.len() && front[j] == p;
        assert(all[j] == p);
    } else {
        assert(all[all.len() - 1] == p);
    }
}

/// Any other report is a command, under its name and with what it carries.
pub proof fn other_reports_are_commands(action: Seq<char>, args: MsgV, r: Notice)
    requires
        noticed(action, args, r),
        action != "focus"@,
        action != "layout_done"@,
        action != "viewport"@,
        action != "theme"@,
        action != "rows"@,
    ensures
        r is Command,
        r->action@ == action,
        r->args@ == args,
{
}

/// Of several measures of one cell, the last counts; a cell that was not among them keeps its
/// own.
pub proof fn measures_are_taken_in_order(
    m: Measures,
    width: u16,
    rows: Seq<(Seq<char>, int)>,
    i: int,
    other: Seq<char>,
)
    requires
        0 <= i < rows.len(),
        forall|j: int| i < j < rows.len() ==> (#[trigger] rows[j]).0 != rows[i].0,
        forall|j: int| 0 <= j < rows.len() ==> (#[trigger] rows[j]).0 != other,
    ensures
        measured(with_measures(m, width, rows), rows[i].0, width) == Some(rows[i].1),
        measured(with_measures(m, width, rows), other, width) == measured(m, other, width),
    decreases rows.len(),
{
    let front = rows.drop_last();
    let last = rows[rows.len() - 1];
    let before = with_measures(m, width, front);
    assert forall|j: int| 0 <= j < front.len() implies (#[trigger] front[j]).0 != other by {
        assert(rows[j].0 != other);
    }
    latest_measure_counts(before, last.0, width, last.1, other, width);
    latest_measure_counts(before, last.0, width, last.1, rows[i].0, width);
    if front.len() > 0 {
        let k = if i < front.len() {
            i
        } else {
            front.len() - 1
        };
        assert forall|j: int| k < j < front.len() implies (#[trigger] front[j]).0 != front[k].0 by {
            assert(rows[j].0 != rows[i].0);
        }
        measures_are_taken_in_order(m, width, front, k, other);
    } else {
        assert(with_measures(m, width, front) == m);
    }
}

} // verus!
