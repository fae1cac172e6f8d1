//! What an embedded Neovim says, and how it is started.

use crate::call::{lua, lua_call, text_arg, Arg, ArgV, Call};
use crate::msg::{
    buffer_handle, from_rmpv, handle_of, line_of, m_at, m_i64, m_items, m_str, m_u64, msg_views,
    strings, value_msg, Msg, MsgV,
};
use crate::redraw::{events_of, parse, redraws_view, RedrawEvent};
use crate::text::{cat, cat3, copy_strings, str_eq, texts};
use vstd::prelude::*;

verus! {

/// Everything Neovim says, in the order in which it says it.
#[derive(Debug)]
#[allow(inconsistent_fields)]
pub enum NvimEvent {
    Redraw(Vec<RedrawEvent>),
    /// Lines `[first, last)` of a buffer replaced; a negative `last` is the whole buffer.
    BufLines { buf: i64, tick: Option<u64>, first: i64, last: i64, lines: Vec<String> },
    /// The tick moved without a change of text, as after `:w`.
    BufChangedTick { buf: i64, tick: u64 },
    BufDetach { buf: i64 },
    /// The companion's notification.
    Notify { name: String, args: Vec<Msg> },
    /// The companion's request. Neovim waits for the reply, so the reply must not depend on a
    /// request back to Neovim.
    Request { name: String, args: Vec<Msg> },
    Exited,
}

pub open spec fn or_zero(n: Option<i64>) -> i64 {
    match n {
        Some(i) => i,
        None => 0,
    }
}

/// Whether an event is what a notification says.
pub open spec fn says(name: Seq<char>, args: Seq<Msg>, ev: NvimEvent) -> bool {
    let a = msg_views(args);
    if name == "redraw"@ {
        ev matches NvimEvent::Redraw(evs) && redraws_view(evs@) == events_of(a)
    } else if name == "nvim_buf_lines_event"@ {
        &&& ev matches NvimEvent::BufLines { buf, tick, first, last, lines }
        &&& buf == handle_of(m_at(a, 0))
        &&& tick == m_u64(m_at(a, 1))
        &&& first == or_zero(m_i64(m_at(a, 2)))
        &&& last == or_zero(m_i64(m_at(a, 3)))
        &&& texts(lines@) == m_items(m_at(a, 4)).map_values(|l: MsgV| line_of(l))
    } else if name == "nvim_buf_detach_event"@ {
        ev == NvimEvent::BufDetach { buf: handle_of(m_at(a, 0)) }
    } else if name == "nvim_buf_changedtick_event"@ {
        ev == (NvimEvent::BufChangedTick {
            buf: handle_of(m_at(a, 0)),
            tick: match m_u64(m_at(a, 1)) {
                Some(t) => t,
                None => 0,
            },
        })
    } else {
        ev matches NvimEvent::Notify { name: n, args: p } && n@ == name && p@ == args
    }
}

fn nth(args: &Vec<Msg>, i: usize) -> (r: Option<&Msg>)
    ensures
        match r {
            Some(m) => m_at(msg_views(args@), i as int) == m@,
            None => m_at(msg_views(args@), i as int) == MsgV::Nil,
        },
{
    if i < args.len() {
        Some(&args[i])
    } else {
        None
    }
}

fn nth_i64(args: &Vec<Msg>, i: usize) -> (r: i64)
    ensures
        r == or_zero(m_i64(m_at(msg_views(args@), i as int))),
{
    match nth(args, i) {
        Some(m) => match m.as_i64() {
            Some(n) => n,
            None => 0,
        },
        None => 0,
    }
}

fn nth_u64(args: &Vec<Msg>, i: usize) -> (r: Option<u64>)
    ensures
        r == m_u64(m_at(msg_views(args@), i as int)),
{
    match nth(args, i) {
        Some(m) => m.as_u64(),
        None => None,
    }
}

fn nth_handle(args: &Vec<Msg>, i: usize) -> (r: i64)
    ensures
        r == handle_of(m_at(msg_views(args@), i as int)),
{
    match nth(args, i) {
        Some(m) => buffer_handle(m),
        None => -1,
    }
}

/// The event that a notification is.
pub fn notified(name: &str, args: Vec<Msg>) -> (r: NvimEvent)
    ensures
        says(name@, args@, r),
{
    if str_eq(name, "redraw") {
        NvimEvent::Redraw(parse(args.as_slice()))
    } else if str_eq(name, "nvim_buf_lines_event") {
        let lines = match nth(&args, 4) {
            Some(m) => strings(m),
            None => Vec::new(),
        };
        assert(texts(lines@) =~= m_items(m_at(msg_views(args@), 4)).map_values(
            |l: MsgV| line_of(l),
        ));
        NvimEvent::BufLines {
            buf: nth_handle(&args, 0),
            tick: nth_u64(&args, 1),
            first: nth_i64(&args, 2),
            last: nth_i64(&args, 3),
            lines,
        }
    } else if str_eq(name, "nvim_buf_detach_event") {
        NvimEvent::BufDetach { buf: nth_handle(&args, 0) }
    } else if str_eq(name, "nvim_buf_changedtick_event") {
        let tick = match nth_u64(&args, 1) {
            Some(t) => t,
            None => 0,
        };
        NvimEvent::BufChangedTick { buf: nth_handle(&args, 0), tick }
    } else {
        NvimEvent::Notify { name: name.to_string(), args }
    }
}

/// How `rmpv` shows a value.
pub uninterp spec fn value_text(v: MsgV) -> Seq<char>;

/// `rmpv::Value`'s `Display`.
#[verifier::external_body]
fn show_value(v: &rmpv::Value) -> (r: String)
    ensures
        r@ == value_text(value_msg(*v)),
{
    v.to_string()
}

/// An error as Neovim sends it: `[type, message]`, or anything else.
pub open spec fn error_shown(v: MsgV) -> Seq<char> {
    match m_str(m_at(m_items(v), 1)) {
        Some(s) => s,
        None => value_text(v),
    }
}

/// The message of an error, which Neovim sends as `[type, message]`.
pub fn error_message(v: &Msg) -> (r: Option<String>)
    ensures
        match r {
            Some(s) => m_str(m_at(m_items(v@), 1)) == Some(s@),
            None => m_str(m_at(m_items(v@), 1)) is None,
        },
{
    let items = v.items();
    if 1 < items.len() {
        assert(msg_views(items@)[1] == items@[1]@);
        items[1].as_str()
    } else {
        None
    }
}

/// Neovim errors arrive as `[type, message]`.
pub fn describe(v: &rmpv::Value) -> (r: String)
    ensures
        r@ == error_shown(value_msg(*v)),
{
    let m = from_rmpv(v);
    match error_message(&m) {
        Some(s) => s,
        None => show_value(v),
    }
}

pub open spec fn command_args(clean: bool, args: Seq<Seq<char>>) -> Seq<Seq<char>> {
    (if clean {
        seq!["--embed"@, "--clean"@]
    } else {
        seq!["--embed"@]
    }) + args
}

/// How Neovim is started.
#[derive(Debug)]
pub struct SpawnOptions {
    pub program: String,
    /// Without the user's configuration.
    pub clean: bool,
    pub args: Vec<String>,
    /// Variables set for Neovim on top of its own.
    pub env: Vec<(String, String)>,
}

impl SpawnOptions {
    /// The arguments that start Neovim embedded.
    pub fn command_args(&self) -> (r: Vec<String>)
        ensures
            texts(r@) == command_args(self.clean, texts(self.args@)),
    {
        let mut out: Vec<String> = vec!["--embed".to_string()];
        if self.clean {
            out.push("--clean".to_string());
        }
        let ghost front = out@;
        let mut rest = copy_strings(&self.args);
        let ghost tail = rest@;
        out.append(&mut rest);
        assert(texts(out@) =~= texts(front) + texts(tail));
        assert(texts(front) =~= command_args(self.clean, Seq::empty()));
        assert(command_args(self.clean, Seq::empty()) + texts(self.args@) =~= command_args(
            self.clean,
            texts(self.args@),
        ));
        out
    }
}

/// What goes wrong with Neovim.
#[derive(Debug)]
pub enum NvimError {
    /// A program that could not be started, and why.
    Spawn(String, String),
    /// A request that failed.
    Rpc(String),
}

impl NvimError {
    pub open spec fn shown(&self) -> Seq<char> {
        match *self {
            NvimError::Spawn(program, why) => "cannot start "@ + program@ + ": "@ + why@,
            NvimError::Rpc(text) => text@,
        }
    }

    pub fn message(&self) -> (r: String)
        ensures
            r@ == self.shown(),
    {
        match self {
            NvimError::Spawn(program, why) => {
                let front = cat3("cannot start ", program.as_str(), ": ");
                cat(front.as_str(), why.as_str())
            },
            NvimError::Rpc(text) => text.clone(),
        }
    }

    /// A request that failed, for a reason.
    pub fn failed(method: &str, why: &str) -> (r: NvimError)
        ensures
            r.shown() == method@ + ": "@ + why@,
            r is Rpc,
    {
        NvimError::Rpc(cat3(method, ": ", why))
    }

    /// A request that Neovim answered with an error.
    pub fn refused(method: &str, v: &rmpv::Value) -> (r: NvimError)
        ensures
            r.shown() == method@ + ": "@ + error_shown(value_msg(*v)),
            r is Rpc,
    {
        NvimError::failed(method, describe(v).as_str())
    }
}

/// The arguments after `extra` that name the file to edit.
pub fn file_args(extra: &Vec<String>, path: &str) -> (r: Vec<String>)
    ensures
        texts(r@) == texts(extra@) + seq!["--"@, path@],
{
    let mut out = copy_strings(extra);
    let ghost front = out@;
    out.push("--".to_string());
    out.push(path.to_string());
    assert(texts(out@) =~= texts(front) + seq!["--"@, path@]);
    out
}

/// The Lua code that loads the companion.
pub const LOAD_COMPANION: &'static str =
    "local src, chan, path = ...\nlocal M = assert(loadstring(src, '@nbv/init.lua'))()\nM.pre(chan, path)";

/// The channel that `nvim_get_api_info` says; 1 if it says none.
pub open spec fn channel_of(info: MsgV) -> i64 {
    match m_i64(m_at(m_items(info), 0)) {
        Some(n) => n,
        None => 1,
    }
}

/// Loads the companion, before the user's configuration. `info` is the answer to
/// `nvim_get_api_info`.
pub fn handshake(info: &Msg, companion: &str, path: &str) -> (r: Call)
    ensures
        r@ == lua_call(
            LOAD_COMPANION@,
            seq![
                ArgV::Text(companion@),
                ArgV::Int(channel_of(info@) as int),
                ArgV::Text(path@),
            ],
        ),
{
    let items = info.items();
    let found = if items.len() > 0 {
        assert(msg_views(items@)[0] == items@[0]@);
        items[0].as_i64()
    } else {
        None
    };
    let channel: i64 = match found {
        Some(n) => n,
        None => 1,
    };
    let list = vec![text_arg(companion), Arg::Int(channel), text_arg(path)];
    assert(crate::call::args_view(list@) =~= seq![
        ArgV::Text(companion@),
        ArgV::Int(channel as int),
        ArgV::Text(path@),
    ]);
    lua(LOAD_COMPANION, list)
}

/// A change of lines is reported with its buffer, the lines that it replaces and those that
/// stand there now.
pub proof fn line_changes_are_reported(args: Seq<Msg>, ev: NvimEvent, buf: i64, first: i64, last: i64)
    requires
        says("nvim_buf_lines_event"@, args, ev),
        args.len() >= 5,
        m_i64(args[0]@) == Some(buf),
        !(args[0]@ is Ext),
        m_i64(args[2]@) == Some(first),
        m_i64(args[3]@) == Some(last),
        args[4]@ is Array,
    ensures
        ev is BufLines,
        ev->BufLines_buf == buf,
        ev->first == first,
        ev->last == last,
        ev->BufLines_tick == m_u64(args[1]@),
        ev->lines@.len() == args[4]@->Array_0.len(),
        forall|i: int|
            0 <= i < ev->lines@.len() ==> (#[trigger] ev->lines@[i])@ == line_of(
                args[4]@->Array_0[i],
            ),
{
    reveal_strlit("redraw");
    reveal_strlit("nvim_buf_lines_event");
    assert("redraw"@.len() == 6 && "nvim_buf_lines_event"@.len() == 20);
    let a = msg_views(args);
    assert(a[0] == args[0]@ && a[1] == args[1]@ && a[2] == args[2]@ && a[3] == args[3]@ && a[4]
        == args[4]@);
    let items = args[4]@->Array_0;
    let lines = ev->lines@;
    assert(texts(lines).len() == items.len());
    assert forall|i: int| 0 <= i < lines.len() implies (#[trigger] lines[i])@ == line_of(items[i]) by {
        assert(texts(lines)[i] == lines[i]@);
    }
}

/// Neovim is started embedded, without the user's configuration if that is asked for, and with
/// the arguments that it is given, in order.
pub proof fn neovim_starts_embedded(clean: bool, args: Seq<Seq<char>>, i: int)
    requires
        0 <= i < args.len(),
    ensures
        ({
            let c = command_args(clean, args);
            let n = if clean {
                2int
            } else {
                1
            };
            &&& c[0] == "--embed"@
            &&& clean ==> c[1] == "--clean"@
            &&& c.len() == n + args.len()
            &&& c[n + i] == args[i]
        }),
{
}

/// An error says its message, where Neovim sends one with it.
pub proof fn errors_say_their_message(kind: MsgV, text: MsgV)
    requires
        m_str(text) is Some,
    ensures
        error_shown(MsgV::Array(seq![kind, text])) == m_str(text)->0,
{
}

} // verus!
