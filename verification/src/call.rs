//! Calls to Neovim: what is sent to it, as plain values.

use crate::text::texts;
use vstd::prelude::*;

verus! {

/// A value sent to Neovim.
#[derive(Debug, PartialEq, Eq)]
pub enum Arg {
    Nil,
    Bool(bool),
    Int(i64),
    Count(u64),
    Text(String),
    List(Vec<Arg>),
    Table(Vec<(String, Arg)>),
}

/// What an [`Arg`] holds.
pub enum ArgV {
    Nil,
    Bool(bool),
    Int(int),
    Count(nat),
    Text(Seq<char>),
    List(Seq<ArgV>),
    Table(Seq<(Seq<char>, ArgV)>),
}

impl View for Arg {
    type V = ArgV;

    open spec fn view(&self) -> ArgV {
        arg_view(*self)
    }
}

pub open spec fn arg_view(a: Arg) -> ArgV
    decreases a,
{
    match a {
        Arg::Nil => ArgV::Nil,
        Arg::Bool(b) => ArgV::Bool(b),
        Arg::Int(i) => ArgV::Int(i as int),
        Arg::Count(n) => ArgV::Count(n as nat),
        Arg::Text(s) => ArgV::Text(s@),
        Arg::List(v) => ArgV::List(
            Seq::new(
                v@.len(),
                |i: int|
                    if 0 <= i < v@.len() {
                        arg_view(v@[i])
                    } else {
                        ArgV::Nil
                    },
            ),
        ),
        Arg::Table(t) => ArgV::Table(
            Seq::new(
                t@.len(),
                |i: int|
                    if 0 <= i < t@.len() {
                        (t@[i].0@, arg_view(t@[i].1))
                    } else {
                        (Seq::empty(), ArgV::Nil)
                    },
            ),
        ),
    }
}

pub open spec fn args_view(v: Seq<Arg>) -> Seq<ArgV> {
    Seq::new(v.len(), |i: int| v[i]@)
}

/// A text.
pub fn text_arg(s: &str) -> (r: Arg)
    ensures
        r@ == ArgV::Text(s@),
{
    Arg::Text(s.to_string())
}

/// A list.
pub fn list_arg(v: Vec<Arg>) -> (r: Arg)
    ensures
        r@ == ArgV::List(args_view(v@)),
{
    let r = Arg::List(v);
    assert(r@->List_0 =~= args_view(v@));
    r
}

pub open spec fn table_view(t: Seq<(String, Arg)>) -> Seq<(Seq<char>, ArgV)> {
    Seq::new(t.len(), |i: int| (t[i].0@, t[i].1@))
}

/// A table.
pub fn table_arg(t: Vec<(String, Arg)>) -> (r: Arg)
    ensures
        r@ == ArgV::Table(table_view(t@)),
{
    let r = Arg::Table(t);
    assert(r@->Table_0 =~= table_view(t@));
    r
}

/// An entry of a table.
pub fn entry(name: &str, value: Arg) -> (r: (String, Arg))
    ensures
        r.0@ == name@,
        r.1 == value,
{
    (name.to_string(), value)
}

pub open spec fn text_args(lines: Seq<Seq<char>>) -> ArgV {
    ArgV::List(Seq::new(lines.len(), |i: int| ArgV::Text(lines[i])))
}

/// A list of texts.
pub fn texts_arg(lines: &[String]) -> (r: Arg)
    ensures
        r@ == text_args(texts(lines@)),
{
    let mut out: Vec<Arg> = Vec::new();
    let mut i: usize = 0;
    while i < lines.len()
        invariant
            i <= lines@.len(),
            out@.len() == i,
            forall|j: int| 0 <= j < i ==> (#[trigger] out@[j])@ == ArgV::Text(lines@[j]@),
        decreases lines@.len() - i,
    {
        out.push(text_arg(lines[i].as_str()));
        i += 1;
    }
    assert(args_view(out@) =~= text_args(texts(lines@))->List_0);
    list_arg(out)
}

/// A request to Neovim.
#[derive(Debug, PartialEq, Eq)]
pub struct Call {
    pub method: String,
    pub args: Vec<Arg>,
}

/// What a [`Call`] holds.
pub struct CallV {
    pub method: Seq<char>,
    pub args: Seq<ArgV>,
}

impl View for Call {
    type V = CallV;

    open spec fn view(&self) -> CallV {
        CallV { method: self.method@, args: args_view(self.args@) }
    }
}

pub open spec fn calls_view(v: Seq<Call>) -> Seq<CallV> {
    Seq::new(v.len(), |i: int| v[i]@)
}

/// Running Lua code with arguments.
pub open spec fn lua_call(code: Seq<char>, args: Seq<ArgV>) -> CallV {
    CallV { method: "nvim_exec_lua"@, args: seq![ArgV::Text(code), ArgV::List(args)] }
}

/// A request to Neovim.
pub fn request(method: &str, args: Vec<Arg>) -> (r: Call)
    ensures
        r@ == (CallV { method: method@, args: args_view(args@) }),
{
    Call { method: method.to_string(), args }
}

/// Running Lua code with arguments.
pub fn lua(code: &str, args: Vec<Arg>) -> (r: Call)
    ensures
        r@ == lua_call(code@, args_view(args@)),
{
    let ghost v = args_view(args@);
    let list = vec![text_arg(code), list_arg(args)];
    assert(args_view(list@) =~= seq![ArgV::Text(code@), ArgV::List(v)]);
    request("nvim_exec_lua", list)
}

/// Keys typed.
pub fn input(keys: &str) -> (r: Call)
    ensures
        r@ == (CallV { method: "nvim_input"@, args: seq![ArgV::Text(keys@)] }),
{
    let list = vec![text_arg(keys)];
    assert(args_view(list@) =~= seq![ArgV::Text(keys@)]);
    request("nvim_input", list)
}

pub open spec fn ui_options() -> ArgV {
    ArgV::Table(
        seq![
            ("rgb"@, ArgV::Bool(true)),
            ("ext_linegrid"@, ArgV::Bool(true)),
            ("ext_hlstate"@, ArgV::Bool(true)),
        ],
    )
}

/// Attaches the user interface, as cells of a grid with their highlights.
pub fn attach_ui(width: usize, height: usize) -> (r: Call)
    ensures
        r@ == (CallV {
            method: "nvim_ui_attach"@,
            args: seq![ArgV::Count(width as nat), ArgV::Count(height as nat), ui_options()],
        }),
{
    let on = vec![
        entry("rgb", Arg::Bool(true)),
        entry("ext_linegrid", Arg::Bool(true)),
        entry("ext_hlstate", Arg::Bool(true)),
    ];
    assert(table_view(on@) =~= ui_options()->Table_0);
    let options = table_arg(on);
    let list = vec![Arg::Count(width as u64), Arg::Count(height as u64), options];
    assert(args_view(list@) =~= seq![
        ArgV::Count(width as nat),
        ArgV::Count(height as nat),
        ui_options(),
    ]);
    request("nvim_ui_attach", list)
}

/// Asks for another size of the user interface.
pub fn resize(width: usize, height: usize) -> (r: Call)
    ensures
        r@ == (CallV {
            method: "nvim_ui_try_resize"@,
            args: seq![ArgV::Count(width as nat), ArgV::Count(height as nat)],
        }),
{
    let list = vec![Arg::Count(width as u64), Arg::Count(height as u64)];
    assert(args_view(list@) =~= seq![ArgV::Count(width as nat), ArgV::Count(height as nat)]);
    request("nvim_ui_try_resize", list)
}

pub open spec fn attach_call(buf: i64, send_buffer: bool) -> CallV {
    CallV {
        method: "nvim_buf_attach"@,
        args: seq![ArgV::Int(buf as int), ArgV::Bool(send_buffer), ArgV::Table(Seq::empty())],
    }
}

/// Subscribes to a buffer's changes. With `send_buffer`, the first event carries every line.
pub fn attach_buffer(buf: i64, send_buffer: bool) -> (r: Call)
    ensures
        r@ == attach_call(buf, send_buffer),
{
    let none: Vec<(String, Arg)> = Vec::new();
    assert(table_view(none@) =~= Seq::empty());
    let options = table_arg(none);
    let list = vec![Arg::Int(buf), Arg::Bool(send_buffer), options];
    assert(args_view(list@) =~= attach_call(buf, send_buffer).args);
    request("nvim_buf_attach", list)
}

pub open spec fn detach_call(buf: i64) -> CallV {
    CallV { method: "nvim_buf_detach"@, args: seq![ArgV::Int(buf as int)] }
}

/// Ends the subscription to a buffer's changes.
pub fn detach_buffer(buf: i64) -> (r: Call)
    ensures
        r@ == detach_call(buf),
{
    let list = vec![Arg::Int(buf)];
    assert(args_view(list@) =~= detach_call(buf).args);
    request("nvim_buf_detach", list)
}

/// Asks for all lines of a buffer.
pub fn buffer_lines(buf: i64) -> (r: Call)
    ensures
        r@ == (CallV {
            method: "nvim_buf_get_lines"@,
            args: seq![
                ArgV::Int(buf as int),
                ArgV::Int(0),
                ArgV::Int(-1),
                ArgV::Bool(false),
            ],
        }),
{
    let list = vec![Arg::Int(buf), Arg::Int(0), Arg::Int(-1), Arg::Bool(false)];
    assert(args_view(list@) =~= seq![
        ArgV::Int(buf as int),
        ArgV::Int(0),
        ArgV::Int(-1),
        ArgV::Bool(false),
    ]);
    request("nvim_buf_get_lines", list)
}

/// Ends Neovim, whatever is unsaved.
pub fn quit() -> (r: Call)
    ensures
        r@ == (CallV { method: "nvim_command"@, args: seq![ArgV::Text("qall!"@)] }),
{
    let list = vec![text_arg("qall!")];
    assert(args_view(list@) =~= seq![ArgV::Text("qall!"@)]);
    request("nvim_command", list)
}

} // verus!
