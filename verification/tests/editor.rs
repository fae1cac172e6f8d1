use nbv::call::{Arg, Call};
use nbv::editor::{Answer, Disk, Editor, EditorEvent};
use nbv::path::file_name;
use nbv::msg::{from_rmpv, Msg};
use nbv::notebook::Notebook;
use nbv::nvim::{describe, handshake, notified, NvimError, NvimEvent, SpawnOptions};
use nbv::projection::LineEdit;
use nbv::redraw::RedrawEvent;
use rmpv::Value;

const TEXT: &[u8] = br#"{
 "cells": [
  {
   "cell_type": "code",
   "execution_count": null,
   "id": "a",
   "metadata": {},
   "outputs": [],
   "source": [
    "x = 1"
   ]
  }
 ],
 "metadata": {},
 "nbformat": 4,
 "nbformat_minor": 5
}
"#;

fn open() -> (Notebook, Editor) {
    let nb = Notebook::open("/n/t.ipynb", TEXT).unwrap();
    let e = Editor::new(&nb);
    (nb, e)
}

fn disk() -> Disk {
    Disk::Text(TEXT.to_vec())
}

fn msg(v: Value) -> Msg {
    from_rmpv(&v)
}

fn table(entries: Vec<(&str, Value)>) -> Value {
    Value::Map(entries.into_iter().map(|(k, v)| (k.into(), v)).collect())
}

fn request(name: &str, args: Vec<Value>) -> NvimEvent {
    NvimEvent::Request { name: name.into(), args: args.into_iter().map(msg).collect() }
}

fn notice(args: Vec<Value>) -> NvimEvent {
    NvimEvent::Notify { name: "nbv".into(), args: args.into_iter().map(msg).collect() }
}

fn methods(calls: &[Call]) -> Vec<&str> {
    calls.iter().map(|c| c.method.as_str()).collect()
}

fn loaded() -> (Notebook, Editor) {
    let (mut nb, mut e) = open();
    e.handle(&mut nb, request("nbv_load", vec![7.into()]), &disk());
    e.handle(&mut nb, notice(vec!["loaded".into(), table(vec![("buf", 7.into())])]), &disk());
    e.take_calls();
    (nb, e)
}

fn field<'a>(a: &'a Arg, name: &str) -> &'a Arg {
    match a {
        Arg::Table(t) => &t.iter().find(|(k, _)| k == name).unwrap().1,
        other => panic!("{other:?}"),
    }
}

#[test]
fn the_first_read_gets_the_text() {
    let (mut nb, mut e) = open();
    let h = e.handle(&mut nb, request("nbv_load", vec![7.into()]), &Disk::Unreadable("unused".into()));
    assert!(h.events.is_empty());
    let Answer::Reply(r) = h.answer else { panic!() };
    assert_eq!(field(&r, "filetype"), &Arg::Text("python".into()));
    assert_eq!(
        field(&r, "lines"),
        &Arg::List(vec![Arg::Text("# %% id=\"a\"".into()), Arg::Text("x = 1".into())])
    );
    assert_eq!(e.buffer(), Some(7));
    e.handle(&mut nb, notice(vec!["loaded".into(), table(vec![("buf", 7.into())])]), &disk());
    let calls = e.take_calls();
    assert_eq!(methods(&calls), ["nvim_buf_attach"]);
    assert_eq!(calls[0].args[..2], [Arg::Int(7), Arg::Bool(true)]);
    assert!(e.take_calls().is_empty());
}

#[test]
fn later_reads_come_from_disk() {
    let (mut nb, mut e) = loaded();
    let other = String::from_utf8(TEXT.to_vec()).unwrap().replace("x = 1", "x = 2");
    let h = e.handle(&mut nb, request("nbv_load", vec![]), &Disk::Text(other.into_bytes()));
    assert!(matches!(h.events[..], [EditorEvent::Reloaded]));
    let Answer::Reply(r) = h.answer else { panic!() };
    assert_eq!(
        field(&r, "lines"),
        &Arg::List(vec![Arg::Text("# %% id=\"a\"".into()), Arg::Text("x = 2".into())])
    );
    let h = e.handle(&mut nb, request("nbv_load", vec![]), &Disk::Unreadable("gone".into()));
    let Answer::Reply(r) = h.answer else { panic!() };
    assert_eq!(field(&r, "error"), &Arg::Text("gone".into()));
    let h = e.handle(&mut nb, request("nbv_load", vec![]), &Disk::Text(b"[]".to_vec()));
    let Answer::Reply(r) = h.answer else { panic!() };
    let Arg::Text(why) = field(&r, "error") else { panic!() };
    assert!(why.starts_with("/n/t.ipynb is not a notebook"), "{why}");
}

#[test]
fn edits_change_the_notebook_and_normalise_markers() {
    let (mut nb, mut e) = loaded();
    let ev = NvimEvent::BufLines { buf: 7, tick: Some(9), first: 2, last: 2, lines: vec!["# %%".into(), "y".into()] };
    let h = e.handle(&mut nb, ev, &disk());
    assert!(matches!(h.events[..], [EditorEvent::DocumentChanged]));
    assert_eq!(nb.order().len(), 2);
    assert_eq!(e.tick(), 9);
    let calls = e.take_calls();
    assert_eq!(methods(&calls), ["nvim_exec_lua"]);
    assert_eq!(calls[0].args[0], Arg::Text("return require('nbv').apply(...)".into()));
    let Arg::List(args) = &calls[0].args[1] else { panic!() };
    assert_eq!(args[1], Arg::Count(9));
    assert_eq!(args[3], Arg::Bool(true));
    // Another buffer's events are not ours.
    let ev = NvimEvent::BufLines { buf: 8, tick: None, first: 0, last: -1, lines: vec![] };
    assert!(e.handle(&mut nb, ev, &disk()).events.is_empty());
    assert_eq!(nb.order().len(), 2);
}

#[test]
fn losing_track_resynchronises() {
    let (mut nb, mut e) = loaded();
    let ev = NvimEvent::BufLines { buf: 7, tick: None, first: 5, last: 9, lines: vec![] };
    e.handle(&mut nb, ev, &disk());
    assert_eq!(methods(&e.take_calls()), ["nvim_buf_detach", "nvim_buf_attach"]);
    // The detach that this provokes is expected.
    e.handle(&mut nb, NvimEvent::BufDetach { buf: 7 }, &disk());
    assert!(e.attached);
    let ev = NvimEvent::BufLines { buf: 7, tick: None, first: 0, last: -1, lines: vec!["# %% id=\"a\"".into(), "z".into()] };
    let h = e.handle(&mut nb, ev, &disk());
    assert!(matches!(h.events[..], [EditorEvent::DocumentChanged]));
    assert_eq!(nb.cell(&nb.order()[0].clone()).unwrap().source(), "z");
    e.handle(&mut nb, NvimEvent::BufDetach { buf: 7 }, &disk());
    assert!(!e.attached);
}

#[test]
fn writes_are_refused_when_the_file_changed() {
    let (mut nb, mut e) = loaded();
    let lines = || Value::Array(vec!["# %% id=\"a\"".into(), "x = 3".into()]);
    let changed = Disk::Text(b"{}".to_vec());
    let h = e.handle(&mut nb, request("nbv_commit", vec![4.into(), false.into(), lines()]), &changed);
    let Answer::Reply(r) = h.answer else { panic!() };
    let Arg::Text(why) = field(&r, "error") else { panic!() };
    assert!(why.contains("changed on disk"), "{why}");
    let h = e.handle(&mut nb, request("nbv_commit", vec![4.into(), true.into(), lines()]), &changed);
    let Answer::Write(text) = h.answer else { panic!() };
    assert!(String::from_utf8(text.clone()).unwrap().contains("x = 3"));
    let r = Editor::written(&mut nb, &text);
    assert_eq!(field(&r, "message"), &Arg::Text("\"t.ipynb\" 1C written".into()));
    let h = e.handle(&mut nb, request("nbv_commit", vec![4.into(), false.into(), lines()]), &Disk::Text(text));
    assert!(matches!(h.answer, Answer::Write(_)));
    let missing = Disk::Missing("no such file".into());
    let h = e.handle(&mut nb, request("nbv_commit", vec![4.into(), false.into(), lines()]), &missing);
    assert!(matches!(h.answer, Answer::Write(_)));
    let denied = Disk::Unreadable("denied".into());
    let h = e.handle(&mut nb, request("nbv_commit", vec![4.into(), true.into(), lines()]), &denied);
    let Answer::Reply(r) = h.answer else { panic!() };
    assert_eq!(field(&r, "error"), &Arg::Text("denied".into()));
}

#[test]
fn notices_and_requests_are_routed() {
    let (mut nb, mut e) = open();
    let h = e.handle(&mut nb, notice(vec!["ready".into(), table(vec![("buf", 3.into())])]), &disk());
    assert!(matches!(h.events[..], [EditorEvent::Ready]));
    assert_eq!(e.buffer(), Some(3));
    let h = e.handle(&mut nb, notice(vec!["run".into(), table(vec![("key", "a".into())])]), &disk());
    let [EditorEvent::Command { action, args }] = &h.events[..] else { panic!() };
    assert_eq!(action, "run");
    assert!(args.get("key").unwrap().is_str("a"));
    let h = e.handle(&mut nb, request("what", vec![]), &disk());
    let Answer::Reply(r) = h.answer else { panic!() };
    assert_eq!(field(&r, "error"), &Arg::Text("unknown request what".into()));
    let h = e.handle(&mut nb, NvimEvent::Notify { name: "other".into(), args: vec![] }, &disk());
    assert!(h.events.is_empty() && matches!(h.answer, Answer::Nothing));
    let h = e.handle(&mut nb, NvimEvent::Exited, &disk());
    assert!(matches!(h.events[..], [EditorEvent::Exited]));
    let h = e.handle(&mut nb, NvimEvent::Redraw(vec![RedrawEvent::BusyStart, RedrawEvent::Flush]), &disk());
    assert!(matches!(h.events[..], [EditorEvent::Flush]));
    assert!(e.grid.busy);
    e.handle(&mut nb, notice(vec!["normalise".into()]), &disk());
    assert!(e.take_calls().is_empty(), "nothing to normalise");
    e.apply(1, &vec![LineEdit { first: 0, last: 1, lines: vec![] }], false, Some(2));
    assert_eq!(methods(&e.take_calls()), ["nvim_exec_lua"]);
    assert_eq!(file_name("/a/b.ipynb"), "b.ipynb");
    assert_eq!(file_name("plain"), "plain");
}

#[test]
fn notifications_are_read() {
    let args = vec![Value::Ext(0, vec![7]), 3.into(), 1.into(), 2.into(), Value::Array(vec!["l".into()]), false.into()];
    let ev = notified("nvim_buf_lines_event", args.into_iter().map(msg).collect());
    let NvimEvent::BufLines { buf, tick, first, last, lines } = ev else { panic!("{ev:?}") };
    assert_eq!((buf, tick, first, last, lines), (7, Some(3), 1, 2, vec!["l".to_string()]));
    let ev = notified("nvim_buf_changedtick_event", vec![msg(7.into()), msg(4.into())]);
    assert!(matches!(ev, NvimEvent::BufChangedTick { buf: 7, tick: 4 }));
    let ev = notified("nvim_buf_detach_event", vec![msg("x".into())]);
    assert!(matches!(ev, NvimEvent::BufDetach { buf: -1 }));
    let ev = notified("redraw", vec![msg(Value::Array(vec!["flush".into(), Value::Array(vec![])]))]);
    let NvimEvent::Redraw(evs) = ev else { panic!() };
    assert_eq!(evs, vec![RedrawEvent::Flush]);
    assert!(matches!(notified("nbv", vec![]), NvimEvent::Notify { .. }));
}

#[test]
fn errors_are_described() {
    let v = Value::Array(vec![0.into(), "E21: no".into()]);
    assert_eq!(describe(&v), "E21: no");
    assert_eq!(describe(&Value::Array(vec![1.into(), Value::Nil])), "[1, nil]");
    assert_eq!(describe(&Value::F64(1.5)), "1.5");
    assert_eq!(NvimError::refused("nvim_x", &v).message(), "nvim_x: E21: no");
    assert_eq!(NvimError::Spawn("nvim".into(), "not found".into()).message(), "cannot start nvim: not found");
}

#[test]
fn neovim_is_started_embedded() {
    let o = SpawnOptions { program: "nvim".into(), clean: true, args: vec!["--".into(), "f".into()], env: vec![] };
    assert_eq!(o.command_args(), ["--embed", "--clean", "--", "f"]);
    assert_eq!(nbv::nvim::file_args(&vec!["-u".to_string()], "f.py"), ["-u", "--", "f.py"]);
    let c = handshake(&msg(Value::Array(vec![5.into()])), "src", "/p");
    assert_eq!(c.method, "nvim_exec_lua");
    assert_eq!(c.args[1], Arg::List(vec![Arg::Text("src".into()), Arg::Int(5), Arg::Text("/p".into())]));
}
