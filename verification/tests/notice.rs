use nbv::key::CellKey;
use nbv::layout::{stack_fits, Geometry, Item, Viewport};
use nbv::adapter::CellKind;
use nbv::msg::{from_rmpv, Msg};
use nbv::notice::{read, Measured, Notice};
use nbv::ui::Focus;
use rmpv::Value;

fn args(entries: Vec<(&str, Value)>) -> Msg {
    from_rmpv(&table(entries))
}

fn table(entries: Vec<(&str, Value)>) -> Value {
    Value::Map(entries.into_iter().map(|(k, v)| (k.into(), v)).collect())
}

fn notice(action: &str, entries: Vec<(&str, Value)>) -> Notice {
    read(action.to_string(), args(entries))
}

#[test]
fn focus_names_a_cell_the_notebook_or_neither() {
    let cell = notice("focus", vec![("seq", 4.into()), ("key", "a".into())]);
    assert!(matches!(cell, Notice::Focus { seq: 4, focus: Focus::Cell(k) } if k == CellKey::new("a")));
    let home = notice("focus", vec![("seq", 5.into()), ("home", true.into())]);
    assert!(matches!(home, Notice::Focus { seq: 5, focus: Focus::Home }));
    let other = notice("focus", vec![("home", false.into())]);
    assert!(matches!(other, Notice::Focus { seq: 0, focus: Focus::Other }));
}

#[test]
fn layouts_are_reported_with_their_errors() {
    let done = notice("layout_done", vec![("seq", 7.into())]);
    assert!(matches!(done, Notice::LayoutDone { seq: 7, error: None }));
    let failed = notice("layout_done", vec![("seq", 8.into()), ("error", "no window".into())]);
    assert!(matches!(failed, Notice::LayoutDone { seq: 8, error: Some(e) } if e == "no window"));
}

#[test]
fn only_a_viewport_that_fits_is_news() {
    let at = |width: u64| {
        vec![("row", 1.into()), ("col", 2.into()), ("width", width.into()), ("height", 20.into())]
    };
    let v = Viewport { row: 1, col: 2, width: 80, height: 20 };
    assert!(matches!(notice("viewport", at(80)), Notice::Viewport(g) if g == Geometry { viewport: v }));
    assert!(matches!(notice("viewport", at(65_533)), Notice::Viewport(_)));
    assert!(matches!(notice("viewport", at(65_534)), Notice::Nothing));
    assert!(matches!(notice("viewport", at(1 << 40)), Notice::Nothing));
}

#[test]
fn a_theme_has_colours_by_name() {
    let n = notice("theme", vec![("edit", 0xff00ffu32.into()), ("dim", Value::Nil), ("big", (1u64 << 40).into())]);
    match n {
        Notice::Theme(t) => assert_eq!(
            t.colors,
            [("edit".to_string(), Some(0xff00ff)), ("dim".to_string(), None), ("big".to_string(), None)]
        ),
        _ => panic!(),
    }
}

#[test]
fn the_latest_measure_counts() {
    let mut m = Measured::new();
    let n = notice("rows", vec![("width", 40.into()), ("rows", table(vec![("a", 3.into()), ("b", "x".into())]))]);
    let Notice::Rows { width, rows } = n else { panic!() };
    assert_eq!((width, &rows[..]), (40, &[("a".to_string(), 3)][..]));
    m.note(width, rows);
    let (a, b) = (CellKey::new("a"), CellKey::new("b"));
    assert_eq!((m.get(&a, 40), m.get(&a, 41), m.get(&b, 40)), (Some(3), None, None));
    m.note(41, vec![("b".into(), 1), ("a".into(), 2), ("a".into(), 5)]);
    assert_eq!((m.get(&a, 40), m.get(&a, 41), m.get(&b, 41)), (None, Some(5), Some(1)));
}

#[test]
fn anything_else_is_a_command() {
    let n = notice("run_all", vec![("bang", true.into())]);
    match n {
        Notice::Command { action, args } => {
            assert_eq!(action, "run_all");
            assert_eq!(args.get("bang").and_then(|b| b.as_bool()), Some(true));
        }
        _ => panic!(),
    }
}

#[test]
fn rows_that_cannot_be_counted_are_told() {
    let item = |lines: usize, outputs: usize| Item { key: CellKey::new("a"), kind: CellKind::Code, lines, outputs };
    assert!(stack_fits(&vec![]));
    assert!(stack_fits(&vec![item(0, 0), item(3, 4)]));
    assert!(stack_fits(&vec![item(usize::MAX - 2, 0)]));
    assert!(!stack_fits(&vec![item(usize::MAX - 1, 0)]));
    assert!(!stack_fits(&vec![item(usize::MAX - 3, 1)]));
    assert!(!stack_fits(&vec![item(1, usize::MAX / 2), item(1, usize::MAX / 2)]));
}
