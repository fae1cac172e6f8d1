//! The notebook's buffer in Neovim: its events routed to the grid, to the notebook, and to the
//! application, and its reads and writes answered.

use crate::adapter::{LanguageProjection, PythonProjection};
use crate::call::{
    args_view, attach_buffer, attach_call, calls_view, detach_buffer, detach_call, entry, list_arg,
    lua, lua_call, table_arg, table_view, text_arg, text_args, texts_arg, Arg, ArgV, Call, CallV,
};
use crate::grid::{applicable, applied_to, Grid};
use crate::load::{read_as, refused, sha256, OpenError};
use crate::msg::{
    line_of, m_at, m_bool, m_get, m_i64, m_items, m_str, m_u64, msg_views, strings, Msg, MsgV,
};
use crate::notebook::{hash_view, CommitOptions, Notebook};
use crate::nvim::NvimEvent;
use crate::path::{file_name, last_part};
use crate::projection::{
    edited_text, edits_view, marker_edits, opt_line, projected, projected_layout, reconciled,
    same_record, Buffer, EditV, LineEdit, Reconciled,
};
use crate::redraw::RedrawEvent;
use crate::save::written;
use crate::text::{cat, cat3, decimal, decimal_chars, str_eq, string_of, texts};
use vstd::prelude::*;

verus! {

/// The buffer's name: the notebook's path and the language's suffix.
pub fn buffer_path(notebook: &str) -> (r: String)
    ensures
        r@ == notebook@ + PythonProjection.suffix_is(),
{
    cat(notebook, PythonProjection.buffer_suffix())
}

/// The value under a name.
pub fn field<'a>(v: &'a Msg, key: &str) -> (r: Option<&'a Msg>)
    ensures
        match r {
            Some(m) => m_get(v@, key@) == Some(m@),
            None => m_get(v@, key@) is None,
        },
{
    v.get(key)
}

/// What the application needs to react to.
#[derive(Debug)]
pub enum EditorEvent {
    /// The grid is consistent and should be drawn.
    Flush,
    /// Startup, the user's configuration included, has finished.
    Ready,
    /// The notebook changed through the buffer.
    DocumentChanged,
    /// The notebook was read from disk again.
    Reloaded,
    /// A command or keymap that the user invoked.
    Command { action: String, args: Msg },
    Exited,
}

/// What is owed to a request.
#[derive(Debug)]
pub enum Answer {
    Nothing,
    Reply(Arg),
    /// The file is to be written; [`Editor::written`] then gives the reply.
    Write(Vec<u8>),
}

pub struct Editor {
    pub grid: Grid,
    /// Calls to make, in order.
    pub calls: Vec<Call>,
    pub buffer: Buffer,
    pub buf: Option<i64>,
    pub attached: bool,
    /// Detach events that reattaching will provoke, to be ignored.
    pub expected_detaches: usize,
    /// The tick of the last buffer event.
    pub tick: u64,
    pub loaded_once: bool,
}

pub open spec fn edit_arg(e: EditV) -> ArgV {
    ArgV::List(seq![ArgV::Count(e.first as nat), ArgV::Count(e.last as nat), text_args(e.lines)])
}

pub open spec fn edits_arg(edits: Seq<EditV>) -> ArgV {
    ArgV::List(Seq::new(edits.len(), |i: int| edit_arg(edits[i])))
}

/// Edits as they are sent.
fn edits_value(edits: &Vec<LineEdit>) -> (r: Arg)
    ensures
        r@ == edits_arg(edits_view(edits@)),
{
    let mut out: Vec<Arg> = Vec::new();
    let mut i: usize = 0;
    while i < edits.len()
        invariant
            i <= edits@.len(),
            out@.len() == i,
            forall|j: int| 0 <= j < i ==> (#[trigger] out@[j])@ == edit_arg(edits@[j]@),
        decreases edits@.len() - i,
    {
        let e = &edits[i];
        let parts = vec![
            Arg::Count(e.first as u64),
            Arg::Count(e.last as u64),
            texts_arg(e.lines.as_slice()),
        ];
        assert(args_view(parts@) =~= edit_arg(e@)->List_0);
        out.push(list_arg(parts));
        i += 1;
    }
    assert(args_view(out@) =~= edits_arg(edits_view(edits@))->List_0);
    list_arg(out)
}

pub open spec fn apply_code() -> Seq<char> {
    "return require('nbv').apply(...)"@
}

pub open spec fn apply_args(
    buf: i64,
    tick: u64,
    edits: Seq<EditV>,
    join: bool,
    cursor: Option<int>,
) -> Seq<ArgV> {
    seq![
        ArgV::Int(buf as int),
        ArgV::Count(tick as nat),
        edits_arg(edits),
        ArgV::Bool(join),
        match cursor {
            Some(c) => ArgV::Count(c as nat),
            None => ArgV::Nil,
        },
    ]
}

/// The calls that apply edits to a buffer, if it is still at `tick`: none where there is nothing
/// to apply, or no buffer.
pub open spec fn apply_calls(
    buf: Option<i64>,
    tick: u64,
    edits: Seq<EditV>,
    join: bool,
    cursor: Option<int>,
) -> Seq<CallV> {
    match buf {
        Some(b) => if edits.len() == 0 && cursor is None {
            Seq::empty()
        } else {
            seq![lua_call(apply_code(), apply_args(b, tick, edits, join, cursor))]
        },
        None => Seq::empty(),
    }
}

/// The calls that subscribe afresh to a buffer, with all its lines.
pub open spec fn reattach_calls(buf: Option<i64>, attached: bool) -> Seq<CallV> {
    match buf {
        Some(b) => if attached {
            seq![detach_call(b), attach_call(b, true)]
        } else {
            seq![attach_call(b, true)]
        },
        None => Seq::empty(),
    }
}

/// One event: applied to the grid, or passed over where the grid has no place for it.
pub open spec fn redrawn_by(before: Grid, after: Grid, ev: RedrawEvent) -> bool {
    if applicable(ev@, before.width as int, before.height as int) {
        applied_to(&before, &after, ev)
    } else {
        after == before
    }
}

/// The grid after events.
pub open spec fn redrawn(before: Grid, after: Grid, evs: Seq<RedrawEvent>) -> bool
    decreases evs.len(),
{
    if evs.len() == 0 {
        after == before
    } else {
        exists|mid: Grid|
            redrawn(before, mid, evs.drop_last()) && #[trigger] redrawn_by(mid, after, evs.last())
    }
}

/// Everything but the calls, the grid and the buffer is as in `other`.
pub open spec fn same_link(e: &Editor, other: &Editor) -> bool {
    &&& e.buf == other.buf
    &&& e.attached == other.attached
    &&& e.expected_detaches == other.expected_detaches
    &&& e.tick == other.tick
    &&& e.loaded_once == other.loaded_once
}

impl Editor {
    pub open spec fn wf(&self) -> bool {
        self.grid.wf() && self.buffer.wf()
    }

    /// The calls to make.
    pub open spec fn sent(&self) -> Seq<CallV> {
        calls_view(self.calls@)
    }

    /// The editor of a Neovim just started on a notebook.
    pub fn new(nb: &Notebook) -> (r: Editor)
        requires
            nb.wf(),
        ensures
            r.wf(),
            r.grid.width == 0 && r.grid.height == 0,
            r.sent() == Seq::<CallV>::empty(),
            r.buffer.text() == crate::projection::projected(
                nb.doc(),
                nb.doc().order.len() as int,
            ),
            r.buffer.spans() == crate::projection::projected_layout(
                nb.doc(),
                nb.doc().order.len() as int,
            ),
            r.buf is None && !r.attached && r.expected_detaches == 0 && r.tick == 0
                && !r.loaded_once,
    {
        let r = Editor {
            grid: Grid::default(),
            calls: Vec::new(),
            buffer: Buffer::project(nb),
            buf: None,
            attached: false,
            expected_detaches: 0,
            tick: 0,
            loaded_once: false,
        };
        assert(r.sent() =~= Seq::<CallV>::empty());
        r
    }

    pub fn buffer(&self) -> (r: Option<i64>)
        ensures
            r == self.buf,
    {
        self.buf
    }

    pub fn tick(&self) -> (r: u64)
        ensures
            r == self.tick,
    {
        self.tick
    }

    /// Hands out the calls to make.
    pub fn take_calls(&mut self) -> (r: Vec<Call>)
        ensures
            r@ == old(self).calls@,
            final(self).sent() == Seq::<CallV>::empty(),
            final(self).grid == old(self).grid,
            final(self).buffer == old(self).buffer,
            same_link(final(self), old(self)),
    {
        let mut out: Vec<Call> = Vec::new();
        std::mem::swap(&mut self.calls, &mut out);
        assert(self.sent() =~= Seq::<CallV>::empty());
        out
    }

    fn call(&mut self, c: Call)
        ensures
            final(self).sent() == old(self).sent().push(c@),
            final(self).grid == old(self).grid,
            final(self).buffer == old(self).buffer,
            same_link(final(self), old(self)),
    {
        self.calls.push(c);
        assert(self.sent() =~= old(self).sent().push(c@));
    }

    /// Applies edits to the notebook's buffer if it is still at `tick`. `join` makes them part
    /// of the user's last change, and defers them in insert mode.
    pub fn apply(&mut self, tick: u64, edits: &Vec<LineEdit>, join: bool, cursor: Option<usize>)
        ensures
            final(self).sent() == old(self).sent() + apply_calls(
                old(self).buf,
                tick,
                edits_view(edits@),
                join,
                opt_line(cursor),
            ),
            final(self).grid == old(self).grid,
            final(self).buffer == old(self).buffer,
            same_link(final(self), old(self)),
    {
        let ghost before = self.sent();
        assert(before + Seq::<CallV>::empty() =~= before);
        let buf = match self.buf {
            Some(b) => b,
            None => {
                return;
            },
        };
        if edits.len() == 0 && cursor.is_none() {
            return;
        }
        let at = match cursor {
            Some(c) => Arg::Count(c as u64),
            None => Arg::Nil,
        };
        let args = vec![Arg::Int(buf), Arg::Count(tick), edits_value(edits), Arg::Bool(join), at];
        proof {
            let v = edits_view(edits@);
            assert(v.len() == edits@.len());
            assert(args_view(args@) =~= apply_args(buf, tick, v, join, opt_line(cursor)));
        }
        let c = lua("return require('nbv').apply(...)", args);
        assert(before + seq![c@] =~= before.push(c@));
        self.call(c);
    }

    /// Subscribes afresh with the whole buffer: the first event is the whole text.
    fn reattach(&mut self)
        requires
            old(self).expected_detaches < usize::MAX,
        ensures
            final(self).reattached(old(self)),
            final(self).grid == old(self).grid,
            final(self).buffer == old(self).buffer,
    {
        let ghost before = self.sent();
        assert(before + Seq::<CallV>::empty() =~= before);
        let buf = match self.buf {
            Some(b) => b,
            None => {
                return;
            },
        };
        if self.attached {
            self.expected_detaches += 1;
            self.call(detach_buffer(buf));
        }
        self.attached = true;
        self.call(attach_buffer(buf, true));
        assert(self.sent() =~= before + reattach_calls(old(self).buf, old(self).attached));
    }

    /// The editor has subscribed afresh.
    pub open spec fn reattached(&self, before: &Editor) -> bool {
        &&& self.sent() == before.sent() + reattach_calls(before.buf, before.attached)
        &&& self.buf == before.buf
        &&& self.tick == before.tick
        &&& self.loaded_once == before.loaded_once
        &&& self.attached == (before.attached || before.buf is Some)
        &&& self.expected_detaches == before.expected_detaches + (if before.attached
            && before.buf is Some {
            1int
        } else {
            0
        })
    }

    /// Applies redraw events. Returns whether the grid is to be drawn.
    pub fn redraw(&mut self, events: Vec<RedrawEvent>) -> (r: bool)
        requires
            old(self).grid.wf(),
        ensures
            final(self).grid.wf(),
            redrawn(old(self).grid, final(self).grid, events@),
            r == exists|i: int| 0 <= i < events@.len() && #[trigger] events@[i]@ is Flush,
            final(self).sent() == old(self).sent(),
            final(self).buffer == old(self).buffer,
            same_link(final(self), old(self)),
    {
        let ghost all = events@;
        let mut flushed = false;
        assert(all.take(0) =~= Seq::empty());
        for ev in it: events
            invariant
                it.seq() == all,
                self.grid.wf(),
                redrawn(old(self).grid, self.grid, all.take(it.index() as int)),
                flushed == exists|i: int| 0 <= i < it.index() && #[trigger] all[i]@ is Flush,
                self.calls == old(self).calls,
                self.buffer == old(self).buffer,
                same_link(self, old(self)),
        {
            let ghost n = it.index() as int;
            let ghost mid = self.grid;
            let ghost was = flushed;
            if self.grid.accepts(&ev) {
                let f = self.grid.apply(ev);
                flushed = flushed || f;
            }
            proof {
                assert(all[n] == ev);
                assert(flushed == (was || all[n]@ is Flush));
                let upto = all.take(n + 1);
                assert(upto.drop_last() =~= all.take(n));
                assert(upto.last() == all[n]);
                assert(redrawn(old(self).grid, mid, upto.drop_last()));
                assert(redrawn_by(mid, self.grid, upto.last()));
            }
        }
        assert(all.take(all.len() as int) =~= all);
        flushed
    }
}

/// What an [`EditorEvent`] holds.
pub enum EventV {
    Flush,
    Ready,
    DocumentChanged,
    Reloaded,
    Command(Seq<char>, MsgV),
    Exited,
}

impl View for EditorEvent {
    type V = EventV;

    open spec fn view(&self) -> EventV {
        match self {
            EditorEvent::Flush => EventV::Flush,
            EditorEvent::Ready => EventV::Ready,
            EditorEvent::DocumentChanged => EventV::DocumentChanged,
            EditorEvent::Reloaded => EventV::Reloaded,
            EditorEvent::Command { action, args } => EventV::Command(action@, args@),
            EditorEvent::Exited => EventV::Exited,
        }
    }
}

/// What an [`Answer`] holds.
pub enum AnswerV {
    Nothing,
    Reply(ArgV),
    Write(Seq<u8>),
}

impl View for Answer {
    type V = AnswerV;

    open spec fn view(&self) -> AnswerV {
        match self {
            Answer::Nothing => AnswerV::Nothing,
            Answer::Reply(a) => AnswerV::Reply(a@),
            Answer::Write(b) => AnswerV::Write(b@),
        }
    }
}

/// What handling an event came to.
#[derive(Debug)]
pub struct Handled {
    pub events: Vec<EditorEvent>,
    pub answer: Answer,
}

pub open spec fn event_views(v: Seq<EditorEvent>) -> Seq<EventV> {
    Seq::new(v.len(), |i: int| v[i]@)
}

impl Handled {
    pub open spec fn is(&self, events: Seq<EventV>, answer: AnswerV) -> bool {
        event_views(self.events@) == events && self.answer@ == answer
    }
}

/// The notebook's file.
#[derive(Debug)]
pub enum Disk {
    Text(Vec<u8>),
    /// There is no such file, as this says.
    Missing(String),
    /// The file could not be read, for this reason.
    Unreadable(String),
}

fn quiet() -> (r: Handled)
    ensures
        r.is(Seq::empty(), AnswerV::Nothing),
{
    let r = Handled { events: Vec::new(), answer: Answer::Nothing };
    assert(event_views(r.events@) =~= Seq::empty());
    r
}

fn one_event(ev: EditorEvent) -> (r: Handled)
    ensures
        r.is(seq![ev@], AnswerV::Nothing),
{
    let r = Handled { events: vec![ev], answer: Answer::Nothing };
    assert(event_views(r.events@) =~= seq![ev@]);
    r
}

pub open spec fn error_reply(text: Seq<char>) -> ArgV {
    ArgV::Table(seq![("error"@, ArgV::Text(text))])
}

fn reply_error(text: &str) -> (r: Arg)
    ensures
        r@ == error_reply(text@),
{
    let fields = vec![entry("error", text_arg(text))];
    assert(table_view(fields@) =~= error_reply(text@)->Table_0);
    table_arg(fields)
}

/// A whole editor and notebook are as before.
pub open spec fn untouched(e: &Editor, before: &Editor, nb: &Notebook, nb0: &Notebook) -> bool {
    *e == *before && *nb == *nb0
}

/// What becomes of an edit read: the edits that normalise the markers are sent, joined to the
/// user's change, and the application hears of a change.
pub open spec fn edit_read(
    e: &Editor,
    before: &Editor,
    nb: &Notebook,
    nb0: &Notebook,
    edit: EditV,
    tick: u64,
    h: &Handled,
) -> bool {
    exists|r: Reconciled| #[trigger]
        reconciled(
            nb0.doc(),
            nb0.minter@,
            before.buffer.spans(),
            edit,
            e.buffer.text(),
            nb,
            e.buffer.spans(),
            &r,
        ) && nb.mutated == (nb0.mutated || r.changed) && e.sent() == before.sent() + apply_calls(
            before.buf,
            tick,
            edits_view(r.normalise@),
            true,
            None,
        ) && h.is(
            if r.changed {
                seq![EventV::DocumentChanged]
            } else {
                Seq::empty()
            },
            AnswerV::Nothing,
        )
}

/// Lines of the buffer have changed.
pub open spec fn lines_handled(
    e: &Editor,
    before: &Editor,
    nb: &Notebook,
    nb0: &Notebook,
    tick: Option<u64>,
    first: i64,
    last: i64,
    lines: Seq<Seq<char>>,
    h: &Handled,
) -> bool {
    let now = match tick {
        Some(t) => t,
        None => before.tick,
    };
    let len = before.buffer.text().len();
    let edit = if last < 0 {
        EditV { first: 0, last: len as int, lines }
    } else {
        EditV { first: first as int, last: last as int, lines }
    };
    &&& e.grid == before.grid
    &&& same_record(nb, nb0)
    &&& if 0 <= edit.first <= edit.last <= len {
        &&& e.buffer.text() == edited_text(before.buffer.text(), edit)
        &&& edit_read(e, before, nb, nb0, edit, now, h)
        &&& same_link(e, &(Editor { tick: now, ..*before }))
    } else {
        // The mirror lost track of the buffer.
        &&& *nb == *nb0
        &&& e.buffer == before.buffer
        &&& e.reattached(&(Editor { tick: now, ..*before }))
        &&& h.is(Seq::empty(), AnswerV::Nothing)
    }
}

impl Editor {
    /// Lines `[first, last)` of the buffer have become others.
    fn lines_changed(
        &mut self,
        nb: &mut Notebook,
        tick: Option<u64>,
        first: i64,
        last: i64,
        lines: Vec<String>,
    ) -> (r: Handled)
        requires
            old(self).wf(),
            old(nb).wf(),
            old(self).expected_detaches < usize::MAX,
            old(self).buffer.mirror@.len() + lines@.len() <= usize::MAX,
        ensures
            final(self).wf(),
            final(nb).wf(),
            lines_handled(
                final(self),
                old(self),
                final(nb),
                old(nb),
                tick,
                first,
                last,
                texts(lines@),
                &r,
            ),
    {
        if let Some(t) = tick {
            self.tick = t;
        }
        let len = self.buffer.mirror.len();
        let ghost text = self.buffer.text();
        let ghost new = texts(lines@);
        let ghost edit = if last < 0 {
            EditV { first: 0, last: len as int, lines: new }
        } else {
            EditV { first: first as int, last: last as int, lines: new }
        };
        let read = if last < 0 {
            assert(edited_text(text, EditV { first: 0, last: len as int, lines: new }) =~= new);
            self.buffer.resync(nb, lines)
        } else {
            if first < 0 || first > last || last as u64 > len as u64 {
                self.reattach();
                return quiet();
            }
            let edit = LineEdit { first: first as usize, last: last as usize, lines };
            match self.buffer.apply_edit(nb, edit) {
                Ok(r) => r,
                Err(_) => {
                    self.reattach();
                    return quiet();
                },
            }
        };
        let now = self.tick;
        self.apply(now, &read.normalise, true, None);
        assert(reconciled(
            old(nb).doc(),
            old(nb).minter@,
            old(self).buffer.spans(),
            edit,
            self.buffer.text(),
            nb,
            self.buffer.spans(),
            &read,
        ));
        if read.changed {
            one_event(EditorEvent::DocumentChanged)
        } else {
            quiet()
        }
    }
}

pub open spec fn load_reply(lines: Seq<Seq<char>>) -> ArgV {
    ArgV::Table(
        seq![
            ("lines"@, text_args(lines)),
            ("filetype"@, ArgV::Text(PythonProjection.filetype_is())),
        ],
    )
}

/// The buffer that a request's first argument names, or the one known.
pub open spec fn named_buffer(args: Seq<MsgV>, known: Option<i64>) -> Option<i64> {
    match m_i64(m_at(args, 0)) {
        Some(b) => Some(b),
        None => known,
    }
}

/// The buffer is read: the first time it gets the notebook's text, later the notebook is read
/// from disk again.
pub open spec fn load_handled(
    e: &Editor,
    before: &Editor,
    nb: &Notebook,
    nb0: &Notebook,
    args: Seq<MsgV>,
    disk: Disk,
    h: &Handled,
) -> bool {
    let buf = named_buffer(args, before.buf);
    &&& e.grid == before.grid
    &&& e.sent() == before.sent()
    &&& same_link(e, &(Editor { buf, loaded_once: true, ..*before }))
    &&& if !before.loaded_once {
        &&& *nb == *nb0
        &&& e.buffer == before.buffer
        &&& h.is(Seq::empty(), AnswerV::Reply(load_reply(e.buffer.text())))
    } else {
        match disk {
            Disk::Text(text) => match refused(text@) {
                None => {
                    &&& read_as(nb, nb0.path@, text@, nb0.minter@)
                    &&& hash_view(nb.disk_hash) == Some(sha256(text@))
                    &&& e.buffer.text() == projected(nb.doc(), nb.doc().order.len() as int)
                    &&& e.buffer.spans() == projected_layout(nb.doc(), nb.doc().order.len() as int)
                    &&& h.is(
                        seq![EventV::Reloaded],
                        AnswerV::Reply(load_reply(e.buffer.text())),
                    )
                },
                Some(why) => {
                    &&& *nb == *nb0
                    &&& e.buffer == before.buffer
                    &&& exists|err: OpenError| #[trigger]
                        err.refusal() == why && err.path() == nb0.path@ && h.is(
                            Seq::empty(),
                            AnswerV::Reply(error_reply(err.shown())),
                        )
                },
            },
            Disk::Missing(why) | Disk::Unreadable(why) => {
                &&& *nb == *nb0
                &&& e.buffer == before.buffer
                &&& h.is(Seq::empty(), AnswerV::Reply(error_reply(why@)))
            },
        }
    }
}

impl Editor {
    fn load(&mut self, nb: &mut Notebook, args: &Vec<Msg>, disk: &Disk) -> (r: Handled)
        requires
            old(self).wf(),
            old(nb).wf(),
        ensures
            final(self).wf(),
            final(nb).wf(),
            load_handled(
                final(self),
                old(self),
                final(nb),
                old(nb),
                msg_views(args@),
                *disk,
                &r,
            ),
    {
        let first = if args.len() > 0 {
            args[0].as_i64()
        } else {
            None
        };
        if let Some(b) = first {
            self.buf = Some(b);
        }
        let mut events: Vec<EditorEvent> = Vec::new();
        if !self.loaded_once {
            self.loaded_once = true;
            assert(event_views(events@) =~= Seq::empty());
        } else {
            match disk {
                Disk::Text(text) => match nb.reload(text.as_slice()) {
                    Ok(_) => {
                        self.buffer = Buffer::project(nb);
                        events.push(EditorEvent::Reloaded);
                        assert(event_views(events@) =~= seq![EventV::Reloaded]);
                    },
                    Err(e) => {
                        let mut h = quiet();
                        h.answer = Answer::Reply(reply_error(e.message().as_str()));
                        return h;
                    },
                },
                Disk::Missing(why) | Disk::Unreadable(why) => {
                    let mut h = quiet();
                    h.answer = Answer::Reply(reply_error(why.as_str()));
                    return h;
                },
            }
        }
        let lines = texts_arg(self.buffer.mirror.as_slice());
        let fields = vec![
            entry("lines", lines),
            entry("filetype", text_arg(PythonProjection.filetype())),
        ];
        assert(table_view(fields@) =~= load_reply(self.buffer.text())->Table_0);
        let answer = Answer::Reply(table_arg(fields));
        Handled { events, answer }
    }
}

/// The lines that a write carries.
pub open spec fn lines_in(args: Seq<MsgV>) -> Seq<Seq<char>> {
    m_items(m_at(args, 2)).map_values(|l: MsgV| line_of(l))
}

/// The text that a write carries differs from the mirror, and is read first.
pub open spec fn resynced(
    e: &Editor,
    before: &Editor,
    nb: &Notebook,
    nb0: &Notebook,
    args: Seq<MsgV>,
) -> bool {
    let lines = lines_in(args);
    let tick = match m_u64(m_at(args, 0)) {
        Some(t) => t,
        None => before.tick,
    };
    let edit = EditV { first: 0, last: before.buffer.text().len() as int, lines };
    &&& e.buffer.text() == lines
    &&& same_record(nb, nb0)
    &&& exists|r: Reconciled| #[trigger]
        reconciled(
            nb0.doc(),
            nb0.minter@,
            before.buffer.spans(),
            edit,
            lines,
            nb,
            e.buffer.spans(),
            &r,
        ) && nb.mutated == (nb0.mutated || r.changed) && e.sent() == before.sent() + apply_calls(
            before.buf,
            tick,
            edits_view(r.normalise@),
            true,
            None,
        )
}

/// The file holds something other than what was last read or written.
pub open spec fn differs(nb: &Notebook, disk: Disk) -> bool {
    disk matches Disk::Text(b) && hash_view(nb.disk_hash) != Some(sha256(b@))
}

/// The notebook is to be written. A file changed since it was read is only overwritten by
/// force.
pub open spec fn commit_handled(
    e: &Editor,
    before: &Editor,
    nb: &Notebook,
    nb0: &Notebook,
    args: Seq<MsgV>,
    disk: Disk,
    h: &Handled,
) -> bool {
    let force = m_bool(m_at(args, 1)) == Some(true);
    &&& e.grid == before.grid
    &&& same_link(e, before)
    &&& if lines_in(args) == before.buffer.text() {
        e.sent() == before.sent() && e.buffer == before.buffer && *nb == *nb0
    } else {
        resynced(e, before, nb, nb0, args)
    }
    &&& h.is(
        Seq::empty(),
        match disk {
            Disk::Unreadable(why) => AnswerV::Reply(error_reply(why@)),
            _ => if force || !differs(nb, disk) {
                AnswerV::Write(written(nb))
            } else {
                AnswerV::Reply(error_reply(changed_text(nb.path@)))
            },
        },
    )
}

pub open spec fn changed_text(path: Seq<char>) -> Seq<char> {
    path + " changed on disk since it was loaded (use :w! to overwrite, :e! to reload)"@
}

fn same_lines(a: &Vec<String>, b: &Vec<String>) -> (r: bool)
    ensures
        r == (texts(a@) == texts(b@)),
{
    if a.len() != b.len() {
        assert(texts(a@).len() != texts(b@).len());
        return false;
    }
    let mut i: usize = 0;
    while i < a.len()
        invariant
            i <= a@.len(),
            a@.len() == b@.len(),
            forall|j: int| 0 <= j < i ==> (#[trigger] a@[j])@ == b@[j]@,
        decreases a@.len() - i,
    {
        if !str_eq(a[i].as_str(), b[i].as_str()) {
            assert(texts(a@)[i as int] != texts(b@)[i as int]);
            return false;
        }
        i += 1;
    }
    assert(texts(a@) =~= texts(b@));
    true
}

impl Editor {
    fn commit(&mut self, nb: &mut Notebook, args: &Vec<Msg>, disk: &Disk) -> (r: Handled)
        requires
            old(self).wf(),
            old(nb).wf(),
        ensures
            final(self).wf(),
            final(nb).wf(),
            commit_handled(
                final(self),
                old(self),
                final(nb),
                old(nb),
                msg_views(args@),
                *disk,
                &r,
            ),
    {
        let ghost a = msg_views(args@);
        let force = if args.len() > 1 {
            match args[1].as_bool() {
                Some(b) => b,
                None => false,
            }
        } else {
            false
        };
        let lines = if args.len() > 2 {
            strings(&args[2])
        } else {
            Vec::new()
        };
        assert(texts(lines@) =~= lines_in(a));
        if !same_lines(&lines, &self.buffer.mirror) {
            let known = self.tick;
            let tick = if args.len() > 0 {
                match args[0].as_u64() {
                    Some(t) => t,
                    None => known,
                }
            } else {
                known
            };
            let read = self.buffer.resync(nb, lines);
            self.apply(tick, &read.normalise, true, None);
            assert(reconciled(
                old(nb).doc(),
                old(nb).minter@,
                old(self).buffer.spans(),
                EditV { first: 0, last: old(self).buffer.text().len() as int, lines: lines_in(a) },
                lines_in(a),
                nb,
                self.buffer.spans(),
                &read,
            ));
        }
        let mut h = quiet();
        let on_disk = match disk {
            Disk::Text(b) => Some(b.as_slice()),
            Disk::Missing(_) => None,
            Disk::Unreadable(why) => {
                h.answer = Answer::Reply(reply_error(why.as_str()));
                return h;
            },
        };
        match nb.commit(CommitOptions { force }, on_disk) {
            Ok(text) => {
                h.answer = Answer::Write(text);
            },
            Err(e) => {
                h.answer = Answer::Reply(reply_error(e.message().as_str()));
            },
        }
        h
    }

    /// Records that the file was written, and gives the reply to the write: how many cells it
    /// holds.
    pub fn written(nb: &mut Notebook, text: &[u8]) -> (r: Arg)
        requires
            old(nb).wf(),
        ensures
            final(nb).wf(),
            hash_view(final(nb).disk_hash) == Some(sha256(text@)),
            *final(nb) == (Notebook { disk_hash: final(nb).disk_hash, ..*old(nb) }),
            r@ == written_reply(old(nb).path@, old(nb).order@.len()),
    {
        nb.committed(text);
        let name = file_name(nb.path.as_str());
        let count = string_of(&decimal_chars(nb.order.len() as u64));
        let front = cat3("\"", name.as_str(), "\" ");
        let message = cat3(front.as_str(), count.as_str(), "C written");
        let fields = vec![entry("message", text_arg(message.as_str()))];
        assert(table_view(fields@) =~= written_reply(nb.path@, nb.order@.len())->Table_0);
        table_arg(fields)
    }
}

pub open spec fn written_reply(path: Seq<char>, cells: nat) -> ArgV {
    ArgV::Table(
        seq![
            (
                "message"@,
                ArgV::Text("\""@ + last_part(path) + "\" "@ + decimal(cells) + "C written"@),
            ),
        ],
    )
}

/// The companion says something.
pub open spec fn notice_handled(
    e: &Editor,
    before: &Editor,
    nb: &Notebook,
    nb0: &Notebook,
    args: Seq<MsgV>,
    h: &Handled,
) -> bool {
    let action = match m_str(m_at(args, 0)) {
        Some(s) => s,
        None => Seq::empty(),
    };
    let payload = m_at(args, 1);
    let buf = match m_get(payload, "buf"@) {
        Some(v) => m_i64(v),
        None => None,
    };
    &&& *nb == *nb0
    &&& e.grid == before.grid
    &&& e.buffer == before.buffer
    &&& if action == "ready"@ {
        &&& e.sent() == before.sent()
        &&& same_link(
            e,
            &(Editor {
                buf: if buf is Some && buf->0 > 0 {
                    buf
                } else {
                    before.buf
                },
                ..*before
            }),
        )
        &&& h.is(seq![EventV::Ready], AnswerV::Nothing)
    } else if action == "loaded"@ {
        &&& e.reattached(
            &(Editor {
                buf: if buf is Some {
                    buf
                } else {
                    before.buf
                },
                ..*before
            }),
        )
        &&& h.is(Seq::empty(), AnswerV::Nothing)
    } else if action == "normalise"@ {
        &&& e.sent() == before.sent() + apply_calls(
            before.buf,
            before.tick,
            marker_edits(
                before.buffer.text(),
                before.buffer.spans(),
                before.buffer.spans().len() as int,
            ),
            true,
            None,
        )
        &&& same_link(e, before)
        &&& h.is(Seq::empty(), AnswerV::Nothing)
    } else {
        &&& e.sent() == before.sent()
        &&& same_link(e, before)
        &&& h.is(seq![EventV::Command(action, payload)], AnswerV::Nothing)
    }
}

impl Editor {
    fn notice(&mut self, nb: &Notebook, args: Vec<Msg>) -> (r: Handled)
        requires
            old(self).wf(),
            old(self).expected_detaches < usize::MAX,
        ensures
            final(self).wf(),
            notice_handled(final(self), old(self), nb, nb, msg_views(args@), &r),
    {
        let ghost a = msg_views(args@);
        let action = if args.len() > 0 {
            match args[0].as_str() {
                Some(s) => s,
                None => String::new(),
            }
        } else {
            String::new()
        };
        proof {
            if m_str(m_at(a, 0)) is None {
                assert(action@ =~= Seq::empty());
            }
        }
        let mut args = args;
        let payload = if args.len() > 1 {
            args.swap_remove(1)
        } else {
            Msg::Nil
        };
        assert(payload@ == m_at(a, 1));
        let buf = match field(&payload, "buf") {
            Some(v) => v.as_i64(),
            None => None,
        };
        if str_eq(action.as_str(), "ready") {
            if let Some(b) = buf {
                if b > 0 {
                    self.buf = Some(b);
                }
            }
            one_event(EditorEvent::Ready)
        } else if str_eq(action.as_str(), "loaded") {
            if let Some(b) = buf {
                self.buf = Some(b);
            }
            self.reattach();
            quiet()
        } else if str_eq(action.as_str(), "normalise") {
            let edits = self.buffer.pending_normalisation();
            let now = self.tick;
            self.apply(now, &edits, true, None);
            quiet()
        } else {
            one_event(EditorEvent::Command { action, args: payload })
        }
    }

    /// Routes one event. `disk` is what the notebook's file holds.
    pub fn handle(&mut self, nb: &mut Notebook, ev: NvimEvent, disk: &Disk) -> (r: Handled)
        requires
            old(self).wf(),
            old(nb).wf(),
            old(self).expected_detaches < usize::MAX,
            ev matches NvimEvent::BufLines { lines, .. } ==> old(self).buffer.mirror@.len()
                + lines@.len() <= usize::MAX,
        ensures
            final(self).wf(),
            final(nb).wf(),
            handled(final(self), old(self), final(nb), old(nb), ev, *disk, &r),
    {
        match ev {
            NvimEvent::Redraw(events) => {
                let flushed = self.redraw(events);
                if flushed {
                    one_event(EditorEvent::Flush)
                } else {
                    quiet()
                }
            },
            NvimEvent::BufLines { buf, tick, first, last, lines } => {
                if !self.is_attached(buf) {
                    return quiet();
                }
                self.lines_changed(nb, tick, first, last, lines)
            },
            NvimEvent::BufChangedTick { buf, tick } => {
                if self.is_attached(buf) {
                    self.tick = tick;
                }
                quiet()
            },
            NvimEvent::BufDetach { buf } => {
                if self.is_buffer(buf) {
                    if self.expected_detaches > 0 {
                        self.expected_detaches -= 1;
                    } else {
                        // A reload detaches; the companion's `loaded` notice reattaches.
                        self.attached = false;
                    }
                }
                quiet()
            },
            NvimEvent::Request { name, args } => {
                if str_eq(name.as_str(), "nbv_load") {
                    self.load(nb, &args, disk)
                } else if str_eq(name.as_str(), "nbv_commit") {
                    self.commit(nb, &args, disk)
                } else {
                    let why = cat("unknown request ", name.as_str());
                    let mut h = quiet();
                    h.answer = Answer::Reply(reply_error(why.as_str()));
                    h
                }
            },
            NvimEvent::Notify { name, args } => {
                if str_eq(name.as_str(), "nbv") {
                    self.notice(nb, args)
                } else {
                    quiet()
                }
            },
            NvimEvent::Exited => one_event(EditorEvent::Exited),
        }
    }

    fn is_buffer(&self, buf: i64) -> (r: bool)
        ensures
            r == (self.buf == Some(buf)),
    {
        match self.buf {
            Some(b) => b == buf,
            None => false,
        }
    }

    fn is_attached(&self, buf: i64) -> (r: bool)
        ensures
            r == (self.buf == Some(buf) && self.attached),
    {
        self.attached && self.is_buffer(buf)
    }
}

/// What handling an event does.
pub open spec fn handled(
    e: &Editor,
    before: &Editor,
    nb: &Notebook,
    nb0: &Notebook,
    ev: NvimEvent,
    disk: Disk,
    h: &Handled,
) -> bool {
    match ev {
        NvimEvent::Redraw(events) => {
            let flush = exists|i: int|
                0 <= i < events@.len() && #[trigger] events@[i]@ is Flush;
            &&& redrawn(before.grid, e.grid, events@)
            &&& *nb == *nb0
            &&& e.sent() == before.sent()
            &&& e.buffer == before.buffer
            &&& same_link(e, before)
            &&& h.is(
                if flush {
                    seq![EventV::Flush]
                } else {
                    Seq::empty()
                },
                AnswerV::Nothing,
            )
        },
        NvimEvent::BufLines { buf, tick, first, last, lines } => if before.buf == Some(buf)
            && before.attached {
            lines_handled(e, before, nb, nb0, tick, first, last, texts(lines@), h)
        } else {
            untouched(e, before, nb, nb0) && h.is(Seq::empty(), AnswerV::Nothing)
        },
        NvimEvent::BufChangedTick { buf, tick } => {
            &&& *nb == *nb0
            &&& *e == (Editor {
                tick: if before.buf == Some(buf) && before.attached {
                    tick
                } else {
                    before.tick
                },
                ..*before
            })
            &&& h.is(Seq::empty(), AnswerV::Nothing)
        },
        NvimEvent::BufDetach { buf } => {
            &&& *nb == *nb0
            &&& *e == (if before.buf != Some(buf) {
                *before
            } else if before.expected_detaches > 0 {
                Editor { expected_detaches: (before.expected_detaches - 1) as usize, ..*before }
            } else {
                Editor { attached: false, ..*before }
            })
            &&& h.is(Seq::empty(), AnswerV::Nothing)
        },
        NvimEvent::Request { name, args } => if name@ == "nbv_load"@ {
            load_handled(e, before, nb, nb0, msg_views(args@), disk, h)
        } else if name@ == "nbv_commit"@ {
            commit_handled(e, before, nb, nb0, msg_views(args@), disk, h)
        } else {
            &&& untouched(e, before, nb, nb0)
            &&& h.is(
                Seq::empty(),
                AnswerV::Reply(error_reply("unknown request "@ + name@)),
            )
        },
        NvimEvent::Notify { name, args } => if name@ == "nbv"@ {
            notice_handled(e, before, nb, nb0, msg_views(args@), h)
        } else {
            untouched(e, before, nb, nb0) && h.is(Seq::empty(), AnswerV::Nothing)
        },
        NvimEvent::Exited => {
            untouched(e, before, nb, nb0) && h.is(seq![EventV::Exited], AnswerV::Nothing)
        },
    }
}

/// Subscribing afresh detaches the old subscription, which is no reason to stop listening: the
/// detach event that it provokes leaves the editor attached.
pub proof fn reattaching_outlives_its_detach(
    before: &Editor,
    reattached: &Editor,
    after: &Editor,
    nb: &Notebook,
    disk: Disk,
    h: &Handled,
)
    requires
        before.attached,
        before.buf is Some,
        reattached.reattached(before),
        handled(
            after,
            reattached,
            nb,
            nb,
            NvimEvent::BufDetach { buf: before.buf->0 },
            disk,
            h,
        ),
    ensures
        after.attached,
        after.expected_detaches == before.expected_detaches,
{
}

/// A notebook whose file has changed since it was read is not written, unless by force.
pub proof fn changed_file_is_not_overwritten(
    e: &Editor,
    before: &Editor,
    nb: &Notebook,
    nb0: &Notebook,
    args: Seq<MsgV>,
    disk: Disk,
    h: &Handled,
)
    requires
        commit_handled(e, before, nb, nb0, args, disk, h),
        differs(nb0, disk),
        m_bool(m_at(args, 1)) != Some(true),
    ensures
        !(h.answer@ is Write),
{
}

/// After lines of the notebook's buffer changed, the text kept is the buffer's: the new lines
/// where the old ones stood, and all others as they were.
pub proof fn kept_text_follows_the_buffer(
    e: &Editor,
    before: &Editor,
    nb: &Notebook,
    nb0: &Notebook,
    buf: i64,
    tick: Option<u64>,
    first: i64,
    last: i64,
    lines: Vec<String>,
    disk: Disk,
    h: &Handled,
)
    requires
        handled(e, before, nb, nb0, NvimEvent::BufLines { buf, tick, first, last, lines }, disk, h),
    ensures
        ({
            let text = before.buffer.text();
            let ours = before.buf == Some(buf) && before.attached;
            &&& ours && 0 <= first <= last <= text.len() ==> e.buffer.text() == text.take(
                first as int,
            ) + texts(lines@) + text.skip(last as int)
            &&& ours && last < 0 ==> e.buffer.text() == texts(lines@)
            &&& ours && tick is Some ==> e.tick == tick->0
            &&& !ours ==> e.buffer.text() == text && nb.doc() == nb0.doc()
            &&& nb.path@ == nb0.path@
            &&& nb.top@ == nb0.top@
        }),
{
    let text = before.buffer.text();
    if last < 0 {
        assert(text.take(0) + texts(lines@) + text.skip(text.len() as int) =~= texts(lines@));
    }
}

/// The first time the buffer is read, it gets the text of the notebook; what was on disk since
/// then does not matter.
pub proof fn first_load_gives_the_text(
    e: &Editor,
    before: &Editor,
    nb: &Notebook,
    nb0: &Notebook,
    args: Seq<MsgV>,
    disk: Disk,
    h: &Handled,
)
    requires
        load_handled(e, before, nb, nb0, args, disk, h),
        !before.loaded_once,
    ensures
        h.answer@ is Reply,
        h.answer@->Reply_0 is Table,
        h.answer@->Reply_0->Table_0[0] == ("lines"@, text_args(before.buffer.text())),
        e.loaded_once,
        nb.doc() == nb0.doc(),
        m_i64(m_at(args, 0)) is Some ==> e.buf == m_i64(m_at(args, 0)),
{
}

/// Reading the buffer again reads the notebook from disk, and the buffer gets its text. What
/// cannot be read leaves the notebook as it was, and the answer says why.
pub proof fn reload_reads_the_disk(
    e: &Editor,
    before: &Editor,
    nb: &Notebook,
    nb0: &Notebook,
    args: Seq<MsgV>,
    disk: Disk,
    h: &Handled,
)
    requires
        load_handled(e, before, nb, nb0, args, disk, h),
        before.loaded_once,
    ensures
        match disk {
            Disk::Text(text) => if refused(text@) is None {
                &&& h.answer@->Reply_0->Table_0[0] == ("lines"@, text_args(e.buffer.text()))
                &&& e.buffer.text() == projected(nb.doc(), nb.doc().order.len() as int)
                &&& hash_view(nb.disk_hash) == Some(sha256(text@))
                &&& !differs(nb, disk)
                &&& h.events@.len() == 1
                &&& event_views(h.events@)[0] is Reloaded
            } else {
                &&& nb.doc() == nb0.doc()
                &&& e.buffer.text() == before.buffer.text()
                &&& h.answer@->Reply_0->Table_0[0].0 == "error"@
                &&& h.events@.len() == 0
            },
            Disk::Missing(why) | Disk::Unreadable(why) => {
                &&& nb.doc() == nb0.doc()
                &&& e.buffer.text() == before.buffer.text()
                &&& h.answer@ == AnswerV::Reply(ArgV::Table(seq![("error"@, ArgV::Text(why@))]))
                &&& h.events@.len() == 0
            },
        },
{
    assert(event_views(h.events@).len() == h.events@.len());
}

/// A write saves what the buffer holds: the lines that it carries are the text kept, and the
/// notebook read from them is written, if the file is as it was last read or written, or gone,
/// or by force.
pub proof fn write_saves_the_buffer(
    e: &Editor,
    before: &Editor,
    nb: &Notebook,
    nb0: &Notebook,
    args: Seq<MsgV>,
    disk: Disk,
    h: &Handled,
)
    requires
        commit_handled(e, before, nb, nb0, args, disk, h),
    ensures
        e.buffer.text() == lines_in(args),
        disk is Missing ==> h.answer@ == AnswerV::Write(written(nb)),
        disk is Text && !differs(nb0, disk) ==> h.answer@ == AnswerV::Write(written(nb)),
        disk is Text && m_bool(m_at(args, 1)) == Some(true) ==> h.answer@ == AnswerV::Write(
            written(nb),
        ),
        disk is Unreadable ==> h.answer@ is Reply,
        nb.path@ == nb0.path@,
        nb.top@ == nb0.top@,
{
}

/// A command that the user gives is passed on under its name with what it carries, and changes
/// nothing in the editor.
pub proof fn commands_are_passed_on(
    e: &Editor,
    before: &Editor,
    nb: &Notebook,
    nb0: &Notebook,
    args: Seq<MsgV>,
    action: Seq<char>,
    h: &Handled,
)
    requires
        notice_handled(e, before, nb, nb0, args, h),
        m_str(m_at(args, 0)) == Some(action),
        action != "ready"@,
        action != "loaded"@,
        action != "normalise"@,
    ensures
        event_views(h.events@) == seq![EventV::Command(action, m_at(args, 1))],
        e.sent() == before.sent(),
        e.buffer.text() == before.buffer.text(),
        nb.doc() == nb0.doc(),
{
}

/// Edits go to the buffer that is known, at the tick that they were made for, each with its
/// first line, the line after its last, and the lines that take their place.
pub proof fn edits_say_their_lines(
    buf: i64,
    tick: u64,
    edits: Seq<EditV>,
    join: bool,
    cursor: Option<int>,
    i: int,
)
    requires
        0 <= i < edits.len(),
        0 <= edits[i].first <= edits[i].last,
    ensures
        ({
            let calls = apply_calls(Some(buf), tick, edits, join, cursor);
            let said = apply_args(buf, tick, edits, join, cursor);
            &&& calls.len() == 1
            &&& calls[0] == lua_call(apply_code(), said)
            &&& said[0] == ArgV::Int(buf as int)
            &&& said[1] == ArgV::Count(tick as nat)
            &&& said[2] is List
            &&& said[2]->List_0.len() == edits.len()
            &&& said[2]->List_0[i] == ArgV::List(
                seq![
                    ArgV::Count(edits[i].first as nat),
                    ArgV::Count(edits[i].last as nat),
                    text_args(edits[i].lines),
                ],
            )
            &&& said[3] == ArgV::Bool(join)
            &&& cursor is Some ==> said[4] == ArgV::Count(cursor->0 as nat)
        }),
{
}

/// After a write the user is told the file's name and how many cells it has.
pub proof fn writing_says_file_and_cells(path: Seq<char>, cells: nat)
    ensures
        ({
            let r = written_reply(path, cells);
            let said = r->Table_0[0].1->Text_0;
            &&& r is Table
            &&& r->Table_0[0].0 == "message"@
            &&& r->Table_0[0].1 is Text
            &&& crate::terminal::occurs(said, last_part(path))
            &&& crate::terminal::occurs(said, decimal(cells))
        }),
{
    let said = written_reply(path, cells)->Table_0[0].1->Text_0;
    let name = last_part(path);
    let a = "\""@.len() as int;
    assert(said.subrange(a, a + name.len()) =~= name);
    let b = a + name.len() + "\" "@.len();
    assert(said.subrange(b, b + decimal(cells).len()) =~= decimal(cells));
}

} // verus!
