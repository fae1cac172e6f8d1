use nbv::keys::{encode, mouse, KeyCode, KeyEvent, Modifiers, MouseButton, MouseEvent, MouseEventKind};

const NONE: Modifiers = Modifiers { control: false, shift: false, alt: false, logo: false };
const SHIFT: Modifiers = Modifiers { control: false, shift: true, alt: false, logo: false };
const CONTROL: Modifiers = Modifiers { control: true, shift: false, alt: false, logo: false };
const ALT: Modifiers = Modifiers { control: false, shift: false, alt: true, logo: false };

fn k(code: KeyCode, modifiers: Modifiers) -> Option<String> {
    encode(KeyEvent { code, modifiers, release: false })
}

#[test]
fn notation() {
    assert_eq!(k(KeyCode::Char('a'), NONE).as_deref(), Some("a"));
    assert_eq!(k(KeyCode::Char('A'), SHIFT).as_deref(), Some("A"));
    assert_eq!(k(KeyCode::Char('<'), NONE).as_deref(), Some("<lt>"));
    assert_eq!(k(KeyCode::Char('w'), CONTROL).as_deref(), Some("<C-w>"));
    assert_eq!(k(KeyCode::Enter, SHIFT).as_deref(), Some("<S-CR>"));
    assert_eq!(k(KeyCode::Enter, CONTROL).as_deref(), Some("<C-CR>"));
    assert_eq!(k(KeyCode::Char(' '), CONTROL).as_deref(), Some("<C-Space>"));
    assert_eq!(k(KeyCode::BackTab, SHIFT).as_deref(), Some("<S-Tab>"));
    assert_eq!(k(KeyCode::F(5), ALT).as_deref(), Some("<M-F5>"));
}

#[test]
fn releases_and_unknown_keys_are_dropped() {
    assert_eq!(encode(KeyEvent { code: KeyCode::Char('a'), modifiers: NONE, release: true }), None);
    assert_eq!(k(KeyCode::Unknown, NONE), None);
}

#[test]
fn mouse_events_are_named() {
    let m = MouseEvent { kind: MouseEventKind::Drag(MouseButton::Right), modifiers: CONTROL, column: 3, row: 4 };
    assert_eq!(mouse(m), ("right", "drag", "C".to_string(), 4, 3));
    let m = MouseEvent { kind: MouseEventKind::ScrollUp, modifiers: NONE, column: 0, row: 0 };
    assert_eq!(mouse(m), ("wheel", "up", String::new(), 0, 0));
}
