use nbv::adapter::CellKind;
use nbv::call::{attach_ui, buffer_lines, quit, Arg};
use nbv::decor::{placements, slot_map, to_value, SLOTS};
use nbv::document::{multiline, split_keep_newlines, Cell};
use nbv::json::{compact, indented, parse, pretty, Json};
use nbv::msg::{buffer_handle, from_rmpv, strings};
use nbv::notebook::Notebook;
use nbv::projection::Buffer;
use nbv::redraw::{self, CursorShape, RedrawEvent};
use nbv::version::{nvim_version, read_version, too_old};
use rmpv::Value;

#[test]
fn json_is_read_and_written() {
    let text = r#"{"b":1,"a":[true,null,"é\n",-2]}"#;
    let j = parse(text.as_bytes()).unwrap();
    assert_eq!(compact(&j), text);
    assert_eq!(j.get("b").unwrap().as_u64(), Some(1));
    assert_eq!(String::from_utf8(pretty(&j)).unwrap(), "{\n \"b\": 1,\n \"a\": [\n  true,\n  null,\n  \"é\\n\",\n  -2\n ]\n}");
    assert!(String::from_utf8(indented(&j)).unwrap().starts_with("{\n  \"b\": 1,"));
    assert!(parse(b"{").is_err());
}

#[test]
fn multiline_strings_have_two_forms() {
    assert_eq!(multiline(Some(&parse(b"[\"a\\n\",\"b\"]").unwrap())), "a\nb");
    assert_eq!(multiline(Some(&parse(b"\"a\\nb\"").unwrap())), "a\nb");
    assert_eq!(multiline(None), "");
    assert_eq!(split_keep_newlines("a\n\nb"), ["a\n", "\n", "b"]);
}

#[test]
fn a_cell_keeps_its_outputs_through_other_kinds() {
    let Json::Object(raw) = parse(br#"{"cell_type":"code","execution_count":3,"metadata":{},"outputs":[{"output_type":"stream","name":"stdout","text":"x"}],"source":"s"}"#).unwrap() else { panic!() };
    let mut c = Cell::from_raw(raw.clone());
    c.set_kind(CellKind::Markdown);
    assert!(c.raw.get("outputs").is_none());
    c.set_kind(CellKind::Code);
    let mut back: Vec<(String, Json)> = c.raw.entries.clone();
    back.sort_by(|a, b| a.0.cmp(&b.0));
    let mut was = raw.entries.clone();
    was.sort_by(|a, b| a.0.cmp(&b.0));
    assert_eq!(back, was);
    assert!(c.set_source("t") && !c.set_source("t"));
    assert!(c.is_stale());
    assert_eq!(c.persisted_id(), None);
    assert_eq!(Cell::new(CellKind::Raw, "x").kind(), CellKind::Raw);
}

#[test]
fn messages_are_taken_over() {
    let v = Value::Array(vec!["a".into(), Value::Binary(vec![0xff]), 3.into()]);
    assert_eq!(strings(&from_rmpv(&v)), ["a", "\u{fffd}", ""]);
    assert_eq!(buffer_handle(&from_rmpv(&Value::Ext(0, vec![0xcd, 0x01, 0x00]))), 256);
    assert_eq!(buffer_handle(&from_rmpv(&Value::Ext(0, vec![]))), -1);
    assert_eq!(buffer_handle(&from_rmpv(&(-5).into())), -5);
    assert_eq!(from_rmpv(&u64::MAX.into()).as_u64(), Some(u64::MAX));
    assert_eq!(from_rmpv(&u64::MAX.into()).as_i64(), None);
}

#[test]
fn redraw_batches_are_decoded() {
    let batch = |name: &str, args: Vec<Value>| {
        let mut v: Vec<Value> = vec![name.into()];
        v.extend(args);
        from_rmpv(&Value::Array(v))
    };
    let info = Value::Array(vec![
        true.into(),
        Value::Array(vec![Value::Map(vec![
            ("cursor_shape".into(), "vertical".into()),
            ("cell_percentage".into(), 25.into()),
            ("name".into(), "insert".into()),
        ])]),
    ]);
    let evs = redraw::parse(&[
        batch("grid_resize", vec![Value::Array(vec![1.into(), 80.into(), 24.into()])]),
        batch("mode_info_set", vec![info]),
        batch("unknown", vec![Value::Array(vec![])]),
        batch("flush", vec![Value::Array(vec![])]),
    ]);
    assert_eq!(evs.len(), 3);
    assert_eq!(evs[0], RedrawEvent::GridResize { grid: 1, width: 80, height: 24 });
    let RedrawEvent::ModeInfoSet { modes } = &evs[1] else { panic!() };
    assert_eq!((modes[0].shape, modes[0].percentage), (CursorShape::Vertical, 25));
}

#[test]
fn versions_are_read() {
    assert_eq!(nvim_version("nvim", b"NVIM v0.12.5\nBuild type: Release\n"), Ok((0, 12)));
    assert_eq!(read_version("nvim", "NVIM v1.2-dev\r\nx"), Err("cannot read the version of nvim: NVIM v1.2-dev".into()));
    assert_eq!(read_version("nvim", "NVIM v0.13.0-dev-1+g1"), Ok((0, 13)));
    assert_eq!(read_version("vim", "VIM - Vi IMproved 9"), Err("vim is not Neovim: VIM - Vi IMproved 9".into()));
    assert_eq!(too_old("nvim", (0, 12)), None);
    assert_eq!(too_old("nvim", (1, 0)), None);
    assert_eq!(too_old("nv", (0, 9)).unwrap(), "Neovim 0.12 or newer is required; nv is 0.9");
}

#[test]
fn outputs_are_placed_above_the_next_marker() {
    let json = br#"{"cells":[
        {"cell_type":"code","execution_count":null,"id":"a","metadata":{},"outputs":[],"source":"1"},
        {"cell_type":"markdown","id":"b","metadata":{},"source":"t"},
        {"cell_type":"code","execution_count":null,"id":"c","metadata":{},"outputs":[],"source":"2"}
    ],"metadata":{},"nbformat":4,"nbformat_minor":5}"#;
    let nb = Notebook::from_bytes("t.ipynb", json, Default::default()).unwrap();
    let b = Buffer::project(&nb);
    let p = placements(&b, &[3, 9, 2]);
    assert_eq!(p.len(), 2);
    assert_eq!((p[0].key.as_str(), p[0].line, p[0].above, p[0].height, p[0].slot), ("a", 2, true, 3, 0));
    assert_eq!((p[1].key.as_str(), p[1].line, p[1].above, p[1].height, p[1].slot), ("c", 5, false, 2, 1));
    let slots = slot_map(&p);
    assert_eq!(slots.len(), SLOTS);
    assert_eq!(slots[1].as_ref().unwrap().as_str(), "c");
    assert!(slots[2].is_none());
    let Arg::List(v) = to_value(&p) else { panic!() };
    let Arg::Table(t) = &v[1] else { panic!() };
    assert_eq!(t[1], ("above".to_string(), Arg::Bool(false)));
    assert!(placements(&b, &[0, 0, 0]).is_empty());
}

#[test]
fn calls_are_built() {
    assert_eq!(attach_ui(80, 24).args[..2], [Arg::Count(80), Arg::Count(24)]);
    assert_eq!(buffer_lines(3).args, [Arg::Int(3), Arg::Int(0), Arg::Int(-1), Arg::Bool(false)]);
    assert_eq!(quit().args, [Arg::Text("qall!".into())]);
}
