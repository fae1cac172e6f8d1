use jupyter_protocol::{JupyterMessage, JupyterMessageContent, Media, MediaType};
use nbv::document::ExecState;
use nbv::executor::{
    collapse_cr, media_json, Content, ExecEvent, ExecutionState, Executor, KernelMessage, KernelStatus, ReplyStatus,
    Stdio,
};
use nbv::json::{compact, parse, Json, Object};
use nbv::key::CellKey;
use nbv::notebook::{Change, Notebook};
use nbv::projection::Buffer;

fn notebook() -> Notebook {
    let json = br#"{"cells":[{"cell_type":"code","execution_count":null,"id":"a","metadata":{},"outputs":[],"source":["print(1)"]}],"metadata":{},"nbformat":4,"nbformat_minor":5}"#;
    Notebook::from_bytes("t.ipynb", json, Default::default()).unwrap()
}

fn setup() -> (Notebook, Executor, JupyterMessage, CellKey) {
    let mut nb = notebook();
    let mut ex = Executor::default();
    let key = CellKey::new("a");
    let req = ex.request(&mut nb, &key).unwrap();
    match &req.content {
        JupyterMessageContent::ExecuteRequest(r) => assert_eq!(r.code, "print(1)"),
        other => panic!("{other:?}"),
    }
    (nb, ex, req, key)
}

fn answer(parent: &JupyterMessage, content: Content) -> KernelMessage {
    KernelMessage { parent: Some(parent.header.msg_id.clone()), content }
}

fn reply(parent: &JupyterMessage, status: ReplyStatus, n: u64) -> KernelMessage {
    answer(parent, Content::ExecuteReply { status, count: n })
}

fn busy(parent: &JupyterMessage) -> KernelMessage {
    answer(parent, Content::Status(ExecutionState::Busy))
}

fn stream(parent: &JupyterMessage, name: Stdio, text: &str) -> KernelMessage {
    answer(parent, Content::Stream { name, text: text.to_string() })
}

fn plain(s: &str) -> Json {
    parse(format!("{{\"text/plain\":\"{s}\"}}").as_bytes()).unwrap()
}

fn outputs(nb: &Notebook, key: &CellKey) -> serde_json::Value {
    let list: Vec<Json> = nb.cell(key).unwrap().outputs().to_vec();
    serde_json::from_str(&compact(&Json::Array(list))).unwrap()
}

fn value(j: &Json) -> serde_json::Value {
    json(&compact(j))
}

fn json(s: &str) -> serde_json::Value {
    serde_json::from_str(s).unwrap()
}

#[test]
fn a_full_execution() {
    let (mut nb, mut ex, req, key) = setup();
    ex.handle(&mut nb, &busy(&req), 1_000);
    assert_eq!(nb.cell(&key).unwrap().runtime.state, ExecState::Running);
    ex.handle(&mut nb, &answer(&req, Content::ExecuteInput { count: 7 }), 1_100);
    ex.handle(&mut nb, &stream(&req, Stdio::Stdout, "1\n"), 1_200);
    ex.handle(&mut nb, &stream(&req, Stdio::Stdout, "2\n"), 1_300);
    ex.handle(&mut nb, &stream(&req, Stdio::Stderr, "warn\n"), 1_400);
    ex.handle(&mut nb, &reply(&req, ReplyStatus::Done, 7), 3_500);
    let cell = nb.cell(&key).unwrap();
    assert_eq!(cell.runtime.state, ExecState::Done);
    assert_eq!(cell.execution_count(), Some(7));
    assert_eq!(cell.runtime.duration, Some(2_500));
    assert_eq!(
        outputs(&nb, &key),
        json(
            r#"[{"name": "stdout", "output_type": "stream", "text": ["1\n", "2\n"]},
                {"name": "stderr", "output_type": "stream", "text": ["warn\n"]}]"#
        )
    );
    assert!(!cell.is_stale());
    assert_eq!(ex.in_flight().len(), 0);
}

#[test]
fn errors_and_carriage_returns() {
    let (mut nb, mut ex, req, key) = setup();
    ex.handle(&mut nb, &busy(&req), 0);
    ex.handle(&mut nb, &stream(&req, Stdio::Stdout, "10%\r"), 0);
    ex.handle(&mut nb, &stream(&req, Stdio::Stdout, "50%\r100%\ndone\n"), 0);
    let err = Content::ErrorOutput { ename: "E".into(), evalue: "v".into(), traceback: vec!["tb".into()] };
    ex.handle(&mut nb, &answer(&req, err), 0);
    ex.handle(&mut nb, &reply(&req, ReplyStatus::Error, 3), 0);
    assert_eq!(nb.cell(&key).unwrap().runtime.state, ExecState::Error);
    let out = outputs(&nb, &key);
    assert_eq!(out[0]["text"], json(r#"["100%\n", "done\n"]"#));
    assert_eq!(out[1]["output_type"], "error");
}

#[test]
fn clear_output_wait_and_display_updates() {
    let (mut nb, mut ex, req, key) = setup();
    ex.handle(&mut nb, &busy(&req), 0);
    let d = Content::DisplayData { data: plain("one"), metadata: Object::new(), display_id: Some("disp".into()) };
    ex.handle(&mut nb, &answer(&req, d), 0);
    let u = Content::UpdateDisplayData { data: plain("two"), metadata: Object::new(), display_id: Some("disp".into()) };
    ex.handle(&mut nb, &answer(&req, u), 0);
    assert_eq!(outputs(&nb, &key)[0]["data"]["text/plain"], json(r#"["two"]"#));

    ex.handle(&mut nb, &answer(&req, Content::ClearOutput { wait: true }), 0);
    assert_eq!(nb.cell(&key).unwrap().outputs().len(), 1, "wait defers the clear");
    ex.handle(&mut nb, &stream(&req, Stdio::Stdout, "frame\n"), 0);
    let out = outputs(&nb, &key);
    assert_eq!(out.as_array().unwrap().len(), 1);
    assert_eq!(out[0]["text"], json(r#"["frame\n"]"#));
}

#[test]
fn output_for_a_tombstoned_cell_lands_on_the_tombstone() {
    let (mut nb, mut ex, req, key) = setup();
    ex.handle(&mut nb, &busy(&req), 0);
    Buffer::project(&nb).resync(&mut nb, vec![]);
    assert!(nb.is_tombstoned(&key));
    ex.handle(&mut nb, &stream(&req, Stdio::Stdout, "late\n"), 0);
    ex.handle(&mut nb, &reply(&req, ReplyStatus::Done, 1), 0);
    assert_eq!(nb.cell(&key).unwrap().outputs().len(), 1);
}

#[test]
fn aborted_and_reset_cells_return_to_idle() {
    let (mut nb, mut ex, req, key) = setup();
    ex.handle(&mut nb, &reply(&req, ReplyStatus::Aborted, 0), 0);
    assert_eq!(nb.cell(&key).unwrap().runtime.state, ExecState::Idle);
    assert_eq!(nb.cell(&key).unwrap().execution_count(), None);

    ex.request(&mut nb, &key).unwrap();
    ex.reset(&mut nb, KernelStatus::Restarting);
    assert_eq!(nb.cell(&key).unwrap().runtime.state, ExecState::Idle);
    assert_eq!(ex.in_flight().len(), 0);
    assert_eq!(ex.status(), KernelStatus::Restarting);
}

#[test]
fn collapse_cr_keeps_pending_text() {
    assert_eq!(collapse_cr("a\rb\rc\n"), "c\n");
    assert_eq!(collapse_cr("abc\r"), "abc\r");
    assert_eq!(collapse_cr("x\ny\rz"), "x\nz");
}

#[test]
fn a_stray_message_changes_nothing() {
    let (mut nb, mut ex, _, key) = setup();
    let before = compact(&nb.to_json());
    let msg = KernelMessage {
        parent: Some("nobody".into()),
        content: Content::Stream { name: Stdio::Stdout, text: "x".into() },
    };
    assert!(ex.handle(&mut nb, &msg, 0).is_empty());
    assert_eq!(compact(&nb.to_json()), before);
    assert_eq!(ex.in_flight(), vec![key]);
}

#[test]
fn outputs_stay_with_their_cell_when_it_moves() {
    let json = br#"{"cells":[
        {"cell_type":"code","execution_count":null,"id":"a","metadata":{},"outputs":[],"source":"1"},
        {"cell_type":"code","execution_count":null,"id":"b","metadata":{},"outputs":[],"source":"2"}
    ],"metadata":{},"nbformat":4,"nbformat_minor":5}"#;
    let mut nb = Notebook::from_bytes("t.ipynb", json, Default::default()).unwrap();
    let mut ex = Executor::default();
    let (a, b) = (CellKey::new("a"), CellKey::new("b"));
    let req = ex.request(&mut nb, &a).unwrap();
    nb.edit(vec![Change::Move { key: a.clone(), index: 1 }]);
    ex.handle(&mut nb, &busy(&req), 0);
    ex.handle(&mut nb, &stream(&req, Stdio::Stdout, "out\n"), 0);
    assert_eq!(nb.cell(&a).unwrap().outputs().len(), 1);
    assert!(nb.cell(&b).unwrap().outputs().is_empty());
    assert_eq!(nb.order()[1], a);
}

#[test]
fn a_reply_ends_the_execution() {
    let (mut nb, mut ex, req, key) = setup();
    assert_eq!(ex.in_flight(), vec![key.clone()]);
    let evs = ex.handle(&mut nb, &reply(&req, ReplyStatus::Done, 1), 0);
    assert!(evs.contains(&ExecEvent::Cell(key)));
    assert!(ex.in_flight().is_empty());
}

#[test]
fn requests_go_under_their_own_ids() {
    let mut nb = notebook();
    let mut ex = Executor::default();
    let key = CellKey::new("a");
    assert_eq!(ex.request_as(&mut nb, &key, "id-1").as_deref(), Some("print(1)"));
    assert!(ex.request_as(&mut nb, &CellKey::new("none"), "id-2").is_none());
    let msg = KernelMessage { parent: Some("id-1".into()), content: Content::Status(ExecutionState::Busy) };
    ex.handle(&mut nb, &msg, 5);
    assert_eq!(nb.cell(&key).unwrap().runtime.state, ExecState::Running);
    let one = Executor::default().request(&mut nb, &key).unwrap();
    let two = Executor::default().request(&mut nb, &key).unwrap();
    assert_ne!(one.header.msg_id, two.header.msg_id);
}

#[test]
fn failing_shows_the_reason() {
    let (mut nb, mut ex, _, key) = setup();
    let evs = ex.fail_all(&mut nb, "the kernel died");
    assert_eq!(evs, vec![ExecEvent::Cell(key.clone()), ExecEvent::Status(KernelStatus::Dead)]);
    assert_eq!(nb.cell(&key).unwrap().runtime.error.as_deref(), Some("the kernel died"));
    assert_eq!(nb.cell(&key).unwrap().runtime.state, ExecState::Error);
    assert_eq!(ex.status(), KernelStatus::Dead);
    ex.connected();
    assert_eq!(ex.status(), KernelStatus::Idle);
}

#[test]
fn input_requests_are_passed_on() {
    let (mut nb, mut ex, req, key) = setup();
    let ask = Content::InputRequest { prompt: "name? ".into(), password: true };
    let evs = ex.handle(&mut nb, &answer(&req, ask), 0);
    assert_eq!(
        evs,
        vec![ExecEvent::InputRequested { key: Some(key), prompt: "name? ".into(), password: true }]
    );
}

#[test]
fn clearing_outputs_keeps_the_source() {
    let (mut nb, mut ex, req, key) = setup();
    ex.handle(&mut nb, &busy(&req), 0);
    ex.handle(&mut nb, &stream(&req, Stdio::Stdout, "x\n"), 0);
    ex.handle(&mut nb, &reply(&req, ReplyStatus::Done, 4), 0);
    ex.clear_outputs(&mut nb, &key);
    let c = nb.cell(&key).unwrap();
    assert!(c.outputs().is_empty());
    assert_eq!(c.execution_count(), None);
    assert_eq!(c.source(), "print(1)");
    assert!(nb.is_mutated());
}

#[test]
fn a_request_is_recorded_and_may_ask_for_input() {
    let (_, _, req, _) = setup();
    match &req.content {
        JupyterMessageContent::ExecuteRequest(r) => {
            assert!(!r.silent && r.store_history && r.allow_stdin && r.stop_on_error);
            assert!(r.user_expressions.is_none());
        }
        other => panic!("{other:?}"),
    }
    assert!(req.parent_header.is_none());
}

#[test]
fn messages_leave_source_and_type_alone() {
    let (mut nb, mut ex, req, key) = setup();
    ex.handle(&mut nb, &busy(&req), 1);
    ex.handle(&mut nb, &stream(&req, Stdio::Stdout, "1\n"), 2);
    ex.handle(&mut nb, &answer(&req, Content::ExecuteInput { count: 3 }), 3);
    ex.handle(&mut nb, &reply(&req, ReplyStatus::Error, 3), 4);
    let raw = &nb.cell(&key).unwrap().raw;
    for (field, text) in [("cell_type", "\"code\""), ("source", "[\"print(1)\"]"), ("metadata", "{}")] {
        assert_eq!(compact(raw.get(field).unwrap()), text);
    }
    assert_eq!(compact(raw.get("execution_count").unwrap()), "3");
    assert_eq!(nb.order().len(), 1);
}

#[test]
fn carriage_returns_act_across_pieces() {
    for text in ["10%\r50%\r\n\rdone", "a\r\rb\nc\r", "\r\n\r", "x\ny\rz\r\r\n", "plain"] {
        for at in 0..=text.len() {
            let (a, b) = text.split_at(at);
            assert_eq!(collapse_cr(&format!("{}{b}", collapse_cr(a))), collapse_cr(text), "{a:?} + {b:?}");
        }
        let once = collapse_cr(text);
        assert_eq!(collapse_cr(&once), once);
        assert_eq!(once.matches('\n').count(), text.matches('\n').count());
        assert!(once.split('\n').all(|l| !l.trim_end_matches('\r').contains('\r')), "{once:?}");
    }
    assert_eq!(collapse_cr("a\r\rb\nc\r"), "b\nc\r");
}

#[test]
fn pieces_of_a_stream_join() {
    let whole = "10%\r50%\rdone\nnext\r";
    for at in 0..=whole.len() {
        let (mut nb, mut ex, req, key) = setup();
        ex.handle(&mut nb, &busy(&req), 0);
        ex.handle(&mut nb, &answer(&req, Content::ClearOutput { wait: true }), 0);
        ex.handle(&mut nb, &stream(&req, Stdio::Stdout, &whole[..at]), 0);
        ex.handle(&mut nb, &stream(&req, Stdio::Stdout, &whole[at..]), 0);
        let out = outputs(&nb, &key);
        assert_eq!(out.as_array().unwrap().len(), 1);
        assert_eq!(out[0]["text"], json(r#"["done\n", "next\r"]"#));
        // Another stream starts another output.
        ex.handle(&mut nb, &stream(&req, Stdio::Stderr, "e"), 0);
        assert_eq!(outputs(&nb, &key).as_array().unwrap().len(), 2);
    }
}

#[test]
fn text_types_are_split_into_lines() {
    let (mut nb, mut ex, req, key) = setup();
    ex.handle(&mut nb, &busy(&req), 0);
    let data = parse(
        br#"{"text/plain":"a\nb","image/svg+xml":"<svg>\n</svg>\n","application/javascript":"x","text/html":"",
            "application/json":"j\nk","image/png":"iVBO\nRw0","text/x":["kept\nwhole"],"application/x":{"n":1}}"#,
    )
    .unwrap();
    let d = Content::DisplayData { data, metadata: Object::new(), display_id: None };
    ex.handle(&mut nb, &answer(&req, d), 0);
    assert_eq!(
        outputs(&nb, &key)[0]["data"],
        json(
            r#"{"text/plain":["a\n","b"],"image/svg+xml":["<svg>\n","</svg>\n"],"application/javascript":["x"],"text/html":[],
                "application/json":"j\nk","image/png":"iVBO\nRw0","text/x":["kept\nwhole"],"application/x":{"n":1}}"#
        )
    );
    let r = Content::ExecuteResult { data: plain("3"), count: 7, metadata: Object::new(), display_id: None };
    ex.handle(&mut nb, &answer(&req, r), 0);
    assert_eq!(outputs(&nb, &key)[1]["data"], json(r#"{"text/plain":["3"]}"#));
    assert_eq!(value(&media_json(&Json::Null)), json("{}"), "what is no bundle is an empty one");
    assert_eq!(value(&media_json(&parse(br#"{"image/svg+xml":"a\nb"}"#).unwrap())), json(r#"{"image/svg+xml":["a\n","b"]}"#));
}

#[test]
fn a_bundle_of_the_protocol_is_split_into_lines() {
    let media = Media::new(vec![MediaType::Plain("one\ntwo".into()), MediaType::Svg("<svg/>".into())]);
    let data = parse(&serde_json::to_vec(&media).unwrap()).unwrap();
    assert_eq!(
        value(&media_json(&data)),
        json(r#"{"text/plain":["one\n","two"],"image/svg+xml":["<svg/>"]}"#)
    );
}

#[test]
fn a_clearing_noted_twice_happens_once() {
    let (mut nb, mut ex, req, key) = setup();
    ex.handle(&mut nb, &busy(&req), 0);
    for _ in 0..2 {
        ex.handle(&mut nb, &answer(&req, Content::ClearOutput { wait: true }), 0);
    }
    for text in ["a\n", "b\n"] {
        ex.handle(&mut nb, &stream(&req, Stdio::Stdout, text), 0);
    }
    assert_eq!(outputs(&nb, &key)[0]["text"], json(r#"["a\n", "b\n"]"#));
}
