use nbv::adapter::CellKind;
use nbv::app::{App, AppEvent};
use nbv::document::ExecState;
use nbv::kernel::{KernelCommand, KernelError};
use nbv::key::CellKey;
use nbv::layout::{Geometry, Item, Layout, Viewport};
use nbv::memory::KernelMemory;
use nbv::notebook::Notebook;
use nbv::paint::{draw_block, draw_header, line_width, outputs_region, Paint, Theme};
use nbv::style::{Color, Span, Style};
use nbv::ui::HeaderItem;
use ratatui::buffer::Buffer;
use ratatui::layout::Rect;
use ratatui::text::Line;

fn raw(s: &str) -> Vec<Span> {
    vec![Span { content: s.to_string(), style: Style::default() }]
}

fn drawn(width: u16, header: &str, hint: &str) -> String {
    let mut buf = Buffer::empty(Rect::new(0, 0, width, 1));
    let (first, second) = draw_header(0, 0, width, &raw(header), Some(&raw(hint)));
    buf.set_line(first.x, first.y, &Line::raw(header.to_string()), first.width);
    if let Some(p) = second {
        buf.set_line(p.x, p.y, &Line::raw(hint.to_string()), p.width);
    }
    (0..width).map(|x| buf[(x, 0)].symbol().to_string()).collect()
}

#[test]
fn header_keeps_kernel_visible_when_screen_is_narrow() {
    let header = " test.ipynb NAV python3 ○ idle ";
    let hint = " ? help ";
    let header_w = line_width(&raw(header));
    assert_eq!(header_w, 31);

    // 1. Wide screen: hint is right-aligned.
    let text = drawn(50, header, hint);
    assert!(text.starts_with(" test.ipynb NAV python3 ○ idle "));
    assert!(text.ends_with(" ? help "));

    // 2. Narrow screen: header + hint > width, but header <= width.
    // Kernel remains visible; hint starts after header and gets cut off on the right.
    let text = drawn(35, header, hint);
    assert_eq!(text, " test.ipynb NAV python3 ○ idle  ? h");

    // 3. Exact width: header fits exactly, hint omitted.
    let text = drawn(header_w, header, hint);
    assert_eq!(text, " test.ipynb NAV python3 ○ idle ");

    // 4. Very narrow screen: header truncated, no hint.
    let text = drawn(20, header, hint);
    assert_eq!(text, " test.ipynb NAV pyth");
}

fn command() -> KernelCommand {
    KernelCommand {
        argv: vec!["python".into()],
        env: vec![],
        interrupt_via_message: false,
        display_name: "Python 3".into(),
        language: "python".into(),
        spec_name: None,
    }
}

fn app(kernel: Result<KernelCommand, KernelError>) -> App {
    let json = br#"{"cells":[
        {"cell_type":"code","execution_count":3,"id":"a","metadata":{},"outputs":[],"source":"1"},
        {"cell_type":"markdown","id":"b","metadata":{},"source":"text"}
    ],"metadata":{},"nbformat":4,"nbformat_minor":5}"#;
    let nb = Notebook::from_bytes("/n/t.ipynb", json, Default::default()).unwrap();
    App::new(nb, kernel, KernelMemory::at("f", None).unwrap(), false)
}

fn theme() -> Theme {
    Theme { colors: vec![("nav".into(), Some(0x0000ff)), ("ok".into(), Some(0x00ff00)), ("dim".into(), None)] }
}

fn shown(spans: &[Span]) -> String {
    spans.iter().map(|s| s.content.as_str()).collect()
}

#[test]
fn the_header_names_file_mode_and_kernel() {
    let mut a = app(Ok(command()));
    assert_eq!(shown(&a.header(&theme())), " t.ipynb  NAV   Python 3 ◌ starting ");
    a.ui.nav.feed("2");
    a.ui.say("hello".into());
    assert_eq!(shown(&a.header(&theme())), " t.ipynb  NAV 2  Python 3 ◌ starting  hello");
    a.ui.header = Some(HeaderItem::Name);
    let h = a.header(&theme());
    assert!(h[0].style.added.reversed && !h[2].style.added.reversed);
    assert_eq!(h[0].style.fg, Some(Color::Rgb(0, 0, 255)));
    let b = app(Err(KernelError::Connection("refused".into())));
    assert_eq!(shown(&b.header(&theme())), " t.ipynb  NAV   no kernel ");
    let mut c = app(Ok(command()));
    c.kernel_failed("x".into());
    assert_eq!(shown(&c.header(&theme())), " t.ipynb  NAV   Python 3 ✗ failed ");
}

#[test]
fn the_hint_depends_on_the_mode() {
    let mut a = app(Ok(command()));
    assert_eq!(shown(&a.hint(&theme()).unwrap()), " ? help ");
    a.ui.header = Some(HeaderItem::Kernel);
    assert_eq!(shown(&a.hint(&theme()).unwrap()), " h l select · <CR> open · ? help ");
    a.tmux_keys_missing = true;
    assert_eq!(a.hint(&theme()).unwrap().len(), 2);
    a.ui.mode = nbv::ui::Mode::Other;
    assert!(a.hint(&theme()).is_none());
    a.ui.mode = nbv::ui::Mode::Edit(CellKey::new("a"));
    assert!(shown(&a.hint(&theme()).unwrap()).ends_with(" <Esc><Esc> to cells "));
}

fn geometry() -> Geometry {
    Geometry { viewport: Viewport { row: 0, col: 0, width: 40, height: 11 } }
}

#[test]
fn blocks_say_how_they_ran() {
    let mut a = app(Ok(command()));
    let l = Layout::new(&vec![
        Item { key: CellKey::new("a"), kind: CellKind::Code, lines: 1, outputs: 0 },
        Item { key: CellKey::new("b"), kind: CellKind::Markdown, lines: 1, outputs: 0 },
    ]);
    let d = a.decoration(&l.blocks[0], &theme(), "");
    assert_eq!((d.gutter.as_str(), d.status.is_none(), d.bold), ("[3]", true, true));
    assert_eq!(d.border, Some(Color::Rgb(0, 0, 255)), "selected");
    let m = a.decoration(&l.blocks[1], &theme(), "");
    assert_eq!((m.label.as_deref(), m.bold, m.border), (Some("markdown"), false, None));
    a.nb.runtime_mut(&CellKey::new("a")).unwrap().state = ExecState::Done;
    let d = a.decoration(&l.blocks[0], &theme(), " 0.25s");
    assert_eq!(d.status, Some(("✓ 0.25s".to_string(), Some(Color::Rgb(0, 255, 0)))));
    a.nb.set_source(&CellKey::new("a"), "2");
    let d = a.decoration(&l.blocks[0], &theme(), "");
    assert_eq!(d.status.as_ref().unwrap().0, "✓ · edited");
    a.nb.runtime_mut(&CellKey::new("a")).unwrap().state = ExecState::Running;
    assert_eq!(a.decoration(&l.blocks[0], &theme(), "").gutter, "[*]");
}

#[test]
fn a_box_is_drawn_row_by_row() {
    let a = app(Ok(command()));
    let l = Layout::new(&vec![Item { key: CellKey::new("a"), kind: CellKind::Code, lines: 2, outputs: 2 }]);
    let g = geometry();
    let d = a.decoration(&l.blocks[0], &theme(), "");
    let puts = draw_block(&g, &l.blocks[0], 0, &d, Style::default());
    assert_eq!((puts[0].x, puts[0].y), (7, 1));
    assert_eq!(puts[0].text.chars().count(), 32);
    assert!(puts[0].text.starts_with('╭') && puts[0].text.ends_with('╮'));
    assert_eq!((puts[1].y, puts[1].x, puts[2].x), (2, 7, 38));
    assert_eq!((puts[3].x, puts[3].text.as_str()), (3, "[3]"));
    assert_eq!(puts.last().unwrap().y, 4);
    assert_eq!(puts.len(), 7);
    // Scrolled by one, the top border is gone.
    assert_eq!(draw_block(&g, &l.blocks[0], 1, &d, Style::default()).len(), 6);
    let r = outputs_region(&g, &l.blocks[0], 1).unwrap();
    assert_eq!((r.top, r.len, r.x0, r.x1, r.offset), (4, 2, 8, 38, 0));
    assert!(outputs_region(&g, &l.blocks[0], 6).is_none());
}

#[test]
fn the_screen_shows_what_is_laid_out() {
    let mut a = app(Ok(command()));
    assert!(a.draw(&theme(), &vec![], Style::default()).is_empty(), "no viewport yet");
    a.on_event(AppEvent::Viewport(geometry()));
    let items = a.items(&vec![None, Some(2)], &vec![3, 3]);
    assert_eq!((items[0].outputs, items[1].outputs, items[1].lines), (3, 0, 2));
    a.ui.lay_out(&items);
    a.on_event(AppEvent::LayoutDone { seq: 1, error: None });
    let paints = a.draw(&theme(), &vec![String::new(), String::new()], Style::default());
    let outputs: Vec<&Paint> = paints.iter().filter(|p| matches!(p, Paint::Outputs(..))).collect();
    assert_eq!(outputs.len(), 1);
    assert_eq!(a.visible_outputs(), vec![CellKey::new("a")]);
    assert!(a.shows_cursor(false, "cmdline") && !a.shows_cursor(false, "normal") && !a.shows_cursor(true, "cmdline"));
}

#[test]
fn an_empty_notebook_says_what_to_do_as_far_as_there_is_room() {
    let text = br#"{"cells":[],"metadata":{},"nbformat":4,"nbformat_minor":5}"#;
    let hint = |width: u16| {
        let nb = Notebook::from_bytes("/n/t.ipynb", text, Default::default()).unwrap();
        let mut a = App::new(nb, Ok(command()), KernelMemory::at("f", None).unwrap(), false);
        a.on_event(AppEvent::Viewport(Geometry { viewport: Viewport { row: 0, col: 0, width, height: 5 } }));
        match a.draw(&theme(), &vec![], Style::default()).first() {
            Some(Paint::Text(p)) => (p.x, p.y, p.text.clone()),
            _ => panic!(),
        }
    };
    assert_eq!(hint(40), (8, 1, "empty notebook: o adds a cell".to_string()));
    let (_, w) = Geometry { viewport: Viewport { row: 0, col: 0, width: 24, height: 5 } }.inner_x();
    assert!(w < 29);
    assert_eq!(hint(24).2, "empty notebook: o adds a cell"[..w as usize]);
}
