use nbv::adapter::CellKind;
use nbv::app::{App, AppEvent, PICK_KERNEL};
use nbv::call::Arg;
use nbv::document::ExecState;
use nbv::executor::{Content, ExecutionState, KernelMessage, KernelStatus, ReplyStatus, Stdio};
use nbv::kernel::{KernelCommand, KernelError};
use nbv::key::CellKey;
use nbv::keys::{KeyCode, KeyEvent, Modifiers, MouseButton, MouseEvent, MouseEventKind};
use nbv::layout::{Geometry, Viewport};
use nbv::memory::KernelMemory;
use nbv::msg::{from_rmpv, Msg};
use nbv::nav::Action;
use nbv::notebook::Notebook;
use nbv::ui::{Effect, Focus, HeaderItem, Mode};
use rmpv::Value;

const NONE: Modifiers = Modifiers { control: false, shift: false, alt: false, logo: false };

fn command(name: &str, spec: Option<&str>) -> KernelCommand {
    KernelCommand {
        argv: vec!["python".into()],
        env: vec![],
        interrupt_via_message: false,
        display_name: name.into(),
        language: "python".into(),
        spec_name: spec.map(str::to_string),
    }
}

fn app() -> App {
    let json = br#"{"cells":[
        {"cell_type":"code","execution_count":null,"id":"a","metadata":{},"outputs":[],"source":"1\n2"},
        {"cell_type":"markdown","id":"b","metadata":{},"source":"text"},
        {"cell_type":"code","execution_count":null,"id":"c","metadata":{},"outputs":[],"source":"3"}
    ],"metadata":{},"nbformat":4,"nbformat_minor":5}"#;
    let nb = Notebook::from_bytes("/n/t.ipynb", json, Default::default()).unwrap();
    App::new(nb, Ok(command("py", None)), KernelMemory::at("f", None).unwrap(), false)
}

fn order(a: &App) -> Vec<String> {
    a.nb.order().iter().map(|k| k.as_str().to_string()).collect()
}

fn args(entries: Vec<(&str, Value)>) -> Msg {
    from_rmpv(&Value::Map(entries.into_iter().map(|(k, v)| (k.into(), v)).collect()))
}

fn sends(a: &mut App) -> usize {
    a.ui.take_effects().iter().filter(|e| matches!(e, Effect::Send(_))).count()
}

fn kinds(a: &mut App) -> Vec<&'static str> {
    a.ui
        .take_effects()
        .iter()
        .map(|e| match e {
            Effect::Call(_) => "call",
            Effect::LayOut => "layout",
            Effect::ScrollBy(_) => "scroll",
            Effect::Sync => "sync",
            Effect::SetModified => "modified",
            Effect::Enter { .. } => "enter",
            Effect::Leave { .. } => "leave",
            Effect::Place { .. } => "place",
            Effect::Send(_) => "send",
            Effect::ForgetView(_) => "forget",
            Effect::Start { .. } => "start",
            Effect::Shutdown => "shutdown",
            _ => "other",
        })
        .collect()
}

#[test]
fn motions_select_cells_and_the_header() {
    let mut a = app();
    a.on_action(Action::Down(1), 0);
    assert_eq!(a.ui.selected, 1);
    a.on_action(Action::Down(9), 0);
    assert_eq!(a.ui.selected, 2);
    a.on_action(Action::Up(2), 0);
    a.on_action(Action::Up(1), 0);
    assert_eq!(a.ui.header, Some(HeaderItem::Name), "past the first cell, the header");
    a.on_action(Action::Right, 0);
    assert_eq!(a.ui.header, Some(HeaderItem::Kernel));
    a.on_action(Action::Delete, 0);
    assert_eq!(order(&a).len(), 3, "the header has no cell to delete");
    a.on_action(Action::Edit, 0);
    assert!(matches!(a.ui.take_effects()[..], [Effect::FindKernels]));
    a.on_action(Action::Down(2), 0);
    assert_eq!((a.ui.header, a.ui.selected), (None, 1));
    a.on_action(Action::Last(Some(1)), 0);
    assert_eq!(a.ui.selected, 0);
    a.on_action(Action::Last(None), 0);
    assert_eq!(a.ui.selected, 2);
    a.on_action(Action::First, 0);
    assert_eq!(a.ui.selected, 0);
}

#[test]
fn structural_keys_change_and_undo() {
    let mut a = app();
    a.on_cell_action(Action::Delete, 0);
    assert_eq!(order(&a), ["b", "c"]);
    assert_eq!(kinds(&mut a), ["sync", "modified"]);
    a.on_cell_action(Action::Undo, 0);
    assert_eq!(order(&a), ["a", "b", "c"]);
    a.on_cell_action(Action::Undo, 0);
    assert_eq!(a.ui.message.as_deref(), Some("Already at oldest change"));
    a.on_cell_action(Action::Redo, 0);
    assert_eq!(order(&a), ["b", "c"]);
    a.on_cell_action(Action::Paste { above: false }, 0);
    assert_eq!(order(&a).len(), 3);
    assert_eq!(a.nb.cell(&a.nb.order()[1].clone()).unwrap().source(), "1\n2");
    assert_eq!(a.ui.selected, 1);
    a.on_cell_action(Action::MoveUp, 0);
    assert_eq!(a.nb.cell(&a.nb.order()[0].clone()).unwrap().source(), "1\n2");
    a.on_cell_action(Action::MoveUp, 0);
    a.on_cell_action(Action::Merge, 0);
    assert_eq!(a.nb.cell(&a.nb.order()[0].clone()).unwrap().source(), "1\n2\ntext");
    a.on_cell_action(Action::Kind(CellKind::Raw), 0);
    assert_eq!(a.nb.cell(&a.nb.order()[0].clone()).unwrap().kind(), CellKind::Raw);
    a.on_cell_action(Action::Open { above: true }, 0);
    assert!(a.nb.cell(&a.nb.order()[0].clone()).unwrap().source().is_empty());
    a.on_cell_action(Action::Yank, 0);
    assert_eq!(a.ui.message.as_deref(), Some("cell yanked"));
}

#[test]
fn editing_gives_the_cell_focus() {
    let mut a = app();
    a.on_action(Action::Edit, 0);
    assert_eq!(a.ui.mode, Mode::Edit(CellKey::new("a")));
    assert_eq!(kinds(&mut a), ["layout", "enter"]);
    // A focus change that predates the request is superseded by it.
    a.on_event(AppEvent::Focus { seq: 0, focus: Focus::Home });
    assert!(a.ui.mode.is_edit());
    a.on_event(AppEvent::Focus { seq: 1, focus: Focus::Cell(CellKey::new("c")) });
    assert_eq!((a.ui.selected, a.ui.mode.is_edit()), (2, true));
    a.on_event(AppEvent::Focus { seq: 1, focus: Focus::Other });
    assert_eq!(a.ui.mode, Mode::Other);
    a.on_event(AppEvent::Focus { seq: 1, focus: Focus::Home });
    assert!(a.ui.mode.is_nav());
}

#[test]
fn cells_wait_for_the_kernel_and_then_run() {
    let mut a = app();
    a.start_kernel();
    assert_eq!(kinds(&mut a), ["start"]);
    a.on_cell_action(Action::Run, 0);
    assert_eq!((a.pending.len(), sends(&mut a)), (1, 0));
    assert_eq!(a.nb.cell(&CellKey::new("a")).unwrap().runtime.state, ExecState::Queued);
    assert!(!a.on_kernel_ready(0, None), "an earlier start");
    assert!(a.on_kernel_ready(1, None));
    assert_eq!((a.pending.len(), sends(&mut a)), (0, 1));
    assert_eq!(a.executor.status(), KernelStatus::Idle);
    a.on_command("run_all", &args(vec![]));
    assert_eq!(sends(&mut a), 2, "markdown does not run");
    a.on_command("run_above", &args(vec![("key", "c".into())]));
    assert_eq!(sends(&mut a), 1);
    a.on_cell_action(Action::Interrupt, 0);
    assert!(matches!(a.ui.take_effects()[..], [Effect::Interrupt]));
    a.on_cell_action(Action::Restart, 0);
    let k = kinds(&mut a);
    assert_eq!((k[0], *k.last().unwrap()), ("shutdown", "start"));
    assert_eq!(a.nb.cell(&CellKey::new("a")).unwrap().runtime.state, ExecState::Idle);
}

#[test]
fn running_the_last_cell_adds_one() {
    let mut a = app();
    a.on_cell_action(Action::RunAdvance, 0);
    assert_eq!(a.ui.selected, 1);
    a.on_cell_action(Action::Last(None), 0);
    a.on_cell_action(Action::RunAdvance, 0);
    assert_eq!(order(&a).len(), 4);
    assert_eq!(a.ui.mode, Mode::Edit(a.nb.order()[3].clone()));
    // From inside a cell, the cell is left.
    a.on_command("run_advance", &args(vec![("key", "a".into())]));
    assert!(a.ui.mode.is_nav());
    assert_eq!(a.ui.selected, 1);
}

#[test]
fn a_failed_kernel_fails_cells() {
    let mut a = app();
    a.start_kernel();
    a.on_cell_action(Action::Run, 0);
    a.on_kernel_ready(1, Some("boom"));
    let want = format!("py could not start (00 retries; {PICK_KERNEL}):\nboom");
    assert_eq!(a.kernel_error.as_deref(), Some(want.as_str()));
    assert_eq!(a.nb.cell(&CellKey::new("a")).unwrap().runtime.error.as_deref(), Some(want.as_str()));
    a.on_command("run", &args(vec![("key", "c".into())]));
    assert_eq!(a.nb.cell(&CellKey::new("c")).unwrap().runtime.state, ExecState::Error);
    let mut b = app();
    b.start_kernel();
    b.on_kernel_ready(1, None);
    b.on_death(1, "Traceback\nE  \n");
    assert_eq!(b.kernel_error.as_deref(), Some("the kernel died (00 restarts it):\nTraceback\nE"));
    b.on_death(1, " \n");
    assert_eq!(b.kernel_error.as_deref(), Some("the kernel died (00 restarts it)"));
    let json = br#"{"cells":[],"metadata":{},"nbformat":4,"nbformat_minor":5}"#;
    let nb = Notebook::from_bytes("/n/t.ipynb", json, Default::default()).unwrap();
    let c = App::new(nb, Err(KernelError::Spawn("no".into())), KernelMemory::at("f", None).unwrap(), false);
    assert_eq!(c.kernel_error.unwrap(), format!("cannot start kernel: no ({PICK_KERNEL})"));
}

#[test]
fn ipykernel_is_offered_once_neovim_can_ask() {
    let mut a = app();
    a.start_kernel();
    a.ui.take_effects();
    a.on_missing_ipykernel(1, vec!["uv".into(), "pip".into()]);
    assert!(a.ui.take_effects().is_empty());
    a.on_event(AppEvent::Ready);
    let e = a.ui.take_effects();
    let Effect::Call(c) = &e[0] else { panic!() };
    let Arg::List(list) = &c.args[1] else { panic!() };
    assert_eq!(list[0], Arg::Text("py has no ipykernel. Install it with `uv pip`?".into()));
    a.on_command("install_ipykernel", &args(vec![("generation", 1.into()), ("install", true.into())]));
    assert_eq!(a.ui.message.as_deref(), Some("installing ipykernel: uv pip"));
    assert!(matches!(a.ui.take_effects()[..], [Effect::Install { generation: 1, .. }]));
    a.on_installed(1, None);
    assert_eq!(a.ui.message.as_deref(), Some("installed ipykernel for py"));
    assert_eq!(kinds(&mut a), ["start"]);
    a.on_missing_ipykernel(2, vec!["pip".into()]);
    a.install_answered(2, false);
    assert!(a.kernel_error.as_ref().unwrap().starts_with("py has no ipykernel (00 offers"));
    a.on_installed(2, Some("no network"));
    assert!(a.kernel_error.as_ref().unwrap().ends_with("no network"));
}

#[test]
fn a_kernel_is_picked_and_remembered() {
    let mut a = app();
    a.kernels_found(vec![]);
    assert!(a.ui.message.as_ref().unwrap().starts_with("no kernels found"));
    a.kernels_found(vec![command("venv", None), command("R", Some("ir"))]);
    let e = a.ui.take_effects();
    let Effect::Call(c) = &e[0] else { panic!() };
    assert_eq!(
        c.args[1],
        Arg::List(vec![Arg::List(vec![Arg::Text("venv".into()), Arg::Text("R [ir]".into())])])
    );
    a.on_command("kernel_chosen", &args(vec![("index", 2.into())]));
    assert_eq!(a.kernel_cmd, Some(command("R", Some("ir"))));
    assert_eq!(a.nb.kernel_name(), Some("ir"));
    assert_eq!(a.memory.get("/n/t.ipynb"), Some(&command("R", Some("ir"))));
    assert_eq!(a.generation, 1);
    let e = a.ui.take_effects();
    assert!(e.iter().any(|e| matches!(e, Effect::Remember(_))));
    assert!(e.iter().any(|e| matches!(e, Effect::SetLanguage(Some(l)) if l == "python")));
    a.on_command("kernel_chosen", &args(vec![("index", 3.into())]));
    assert_eq!(a.generation, 1, "no such choice");
    a.on_command("rename", &args(vec![("name", "u.ipynb".into())]));
    assert!(matches!(&a.ui.take_effects()[..], [Effect::Rename(n)] if n == "u.ipynb"));
    a.renamed("u.ipynb", "/n/u.ipynb");
    assert_eq!(a.nb.path(), "/n/u.ipynb");
    assert!(a.memory.get("/n/t.ipynb").is_none() && a.memory.get("/n/u.ipynb").is_some());
    assert_eq!(a.ui.message.as_deref(), Some("renamed to u.ipynb"));
}

#[test]
fn commands_split_and_clear() {
    let mut a = app();
    a.on_command("split", &args(vec![("key", "a".into()), ("line", 1.into())]));
    assert_eq!(order(&a).len(), 4);
    assert_eq!(a.nb.cell(&CellKey::new("a")).unwrap().source(), "1");
    assert_eq!(a.ui.mode, Mode::Edit(a.nb.order()[1].clone()));
    a.on_command("split", &args(vec![("key", "a".into()), ("line", 5.into())]));
    assert_eq!(order(&a).len(), 4, "no such line");
    a.start_kernel();
    a.on_kernel_ready(1, None);
    a.on_command("run", &args(vec![("key", "a".into())]));
    let e = a.ui.take_effects();
    let Some(Effect::Send(m)) = e.iter().find(|e| matches!(e, Effect::Send(_))) else { panic!() };
    let id = Some(m.header.msg_id.clone());
    a.on_message(&KernelMessage { parent: id.clone(), content: Content::Status(ExecutionState::Busy) }, 0);
    a.on_message(
        &KernelMessage { parent: id.clone(), content: Content::Stream { name: Stdio::Stdout, text: "x".into() } },
        0,
    );
    a.on_message(
        &KernelMessage { parent: id, content: Content::ExecuteReply { status: ReplyStatus::Done, count: 1 } },
        0,
    );
    assert_eq!(a.nb.cell(&CellKey::new("a")).unwrap().outputs().len(), 1);
    a.on_command("clear_output", &args(vec![("all", true.into())]));
    assert!(a.nb.cell(&CellKey::new("a")).unwrap().outputs().is_empty());
    a.on_command("nothing", &args(vec![]));
}

#[test]
fn input_is_answered_once() {
    let mut a = app();
    a.start_kernel();
    a.on_kernel_ready(1, None);
    a.ui.take_effects();
    let ask = Content::InputRequest { prompt: "? ".into(), password: false };
    a.on_message(&KernelMessage { parent: None, content: ask }, 0);
    assert!(a.asked);
    assert_eq!(kinds(&mut a), ["call"]);
    a.on_command("input", &args(vec![("value", "v".into())]));
    assert!(matches!(&a.ui.take_effects()[..], [Effect::AnswerInput(s)] if s == "v"));
    a.on_command("input", &args(vec![("value", "v".into())]));
    assert!(a.ui.take_effects().is_empty());
}

fn key(c: char) -> KeyEvent {
    KeyEvent { code: KeyCode::Char(c), modifiers: NONE, release: false }
}

#[test]
fn keys_go_to_neovim_while_it_asks() {
    let mut a = app();
    a.on_key(key('j'), "normal", 0);
    assert_eq!(a.ui.selected, 1);
    a.on_key(key(':'), "normal", 4);
    assert_eq!(kinds(&mut a), ["call"]);
    a.on_key(key('j'), "normal", 5);
    assert_eq!((a.ui.selected, kinds(&mut a)), (1, vec!["call"]), "the command is under way");
    a.on_key(key('j'), "normal", 6);
    assert_eq!(a.ui.selected, 2, "Neovim is done with it");
    a.on_key(key('k'), "cmdline_normal", 7);
    assert_eq!((a.ui.selected, kinds(&mut a)), (2, vec!["call"]));
    a.on_action(Action::Edit, 0);
    a.ui.take_effects();
    a.on_key(key('k'), "normal", 8);
    assert_eq!(kinds(&mut a), ["call"]);
    a.ui.on_paste("text", "normal", 8);
    assert_eq!(kinds(&mut a), ["call"]);
}

fn on_screen() -> App {
    let mut a = app();
    let g = Geometry { viewport: Viewport { row: 0, col: 0, width: 40, height: 11 } };
    a.on_event(AppEvent::Viewport(g));
    let items = a.items(&vec![None; 3], &vec![4; 3]);
    a.ui.lay_out(&items);
    assert_eq!(kinds(&mut a), ["place"]);
    a.on_event(AppEvent::LayoutDone { seq: 1, error: None });
    a
}

fn mouse(kind: MouseEventKind, row: u16, column: u16) -> MouseEvent {
    MouseEvent { kind, modifiers: NONE, column, row }
}

#[test]
fn the_mouse_scrolls_selects_and_enters() {
    let mut a = on_screen();
    a.ui.on_mouse(mouse(MouseEventKind::ScrollDown, 1, 1), &a.nb);
    assert!(matches!(a.ui.take_effects()[..], [Effect::ScrollBy(3)]));
    let items = a.items(&vec![None; 3], &vec![4; 3]);
    a.ui.scroll_by(3, &items);
    assert_eq!(a.ui.scroll, 3);
    a.ui.scroll_by(100, &items);
    // Heights 4 + 5, 3, 3 + 5: twenty rows, of which ten fit.
    assert_eq!((a.ui.scroll, a.ui.selected), (10, 1), "the selection stays on screen");
    a.ui.scroll_by(-100, &items);
    assert_eq!(a.ui.scroll, 0);
    // Row 10 is the second cell's top border: selected.
    a.ui.on_mouse(mouse(MouseEventKind::Down(MouseButton::Left), 10, 10), &a.nb);
    assert_eq!((a.ui.selected, a.ui.mode.is_nav()), (1, true));
    // Row 2 is the first cell's first line: entered, and the click forwarded.
    a.ui.on_mouse(mouse(MouseEventKind::Down(MouseButton::Left), 2, 10), &a.nb);
    assert_eq!(a.ui.mode, Mode::Edit(CellKey::new("a")));
    assert_eq!(kinds(&mut a), ["layout", "enter", "call"]);
    a.ui.on_mouse(mouse(MouseEventKind::Down(MouseButton::Left), 10, 10), &a.nb);
    assert!(a.ui.mode.is_nav());
    a.ui.take_effects();
    a.ui.on_mouse(mouse(MouseEventKind::Moved, 3, 3), &a.nb);
    assert!(a.ui.take_effects().is_empty());
}

#[test]
fn layouts_are_sent_once() {
    let mut a = on_screen();
    let items = a.items(&vec![None; 3], &vec![4; 3]);
    a.ui.lay_out(&items);
    assert!(a.ui.take_effects().is_empty(), "the windows stay put");
    a.on_cell_action(Action::Last(None), 0);
    a.ui.lay_out(&items);
    assert_eq!(a.ui.scroll, 10, "the selected cell comes into view");
    assert_eq!(kinds(&mut a), ["place"]);
    assert_eq!(a.ui.shown.as_ref().unwrap().1, 0, "not yet on screen");
    a.on_event(AppEvent::LayoutDone { seq: 2, error: Some("E5".into()) });
    assert_eq!(a.ui.shown.as_ref().unwrap().1, 10);
    assert_eq!(a.ui.message.as_deref(), Some("layout: E5"));
    a.ui.on_resize(30, 10);
    assert!(a.ui.relayout);
    a.ui.on_focus(true, true);
    assert_eq!(kinds(&mut a), ["call", "other", "other", "call", "other", "other"]);
    a.on_event(AppEvent::SourceChanged);
    a.on_event(AppEvent::SourceChanged);
    assert_eq!(kinds(&mut a), ["modified"], "marked once");
    a.on_event(AppEvent::Written);
    assert!(!a.ui.dirty);
    a.on_event(AppEvent::Reloaded);
    a.on_event(AppEvent::Exited);
    assert!(a.ui.quit);
}

#[test]
fn jumps_leave_the_header() {
    for (action, cell) in [(Action::First, 0), (Action::Last(None), 2), (Action::Last(Some(2)), 1)] {
        let mut a = app();
        a.on_action(Action::Up(1), 0);
        assert_eq!(a.ui.header, Some(HeaderItem::Name));
        a.on_action(action, 0);
        assert_eq!((a.ui.header, a.ui.selected), (None, cell));
    }
}

#[test]
fn running_marks_the_notebook_modified() {
    let mut a = app();
    assert!(!a.nb.is_mutated() && !a.ui.dirty);
    a.run_cells(&vec![CellKey::new("a")]);
    assert!(a.nb.is_mutated());
}
