//! Terminal input as Neovim takes it.

use crate::text::{append_chars, chars_of, decimal, decimal_chars, string_of};
use vstd::prelude::*;

verus! {

/// Modifiers held with a key or a mouse button.
#[derive(Clone, Copy, Debug, PartialEq, Eq, Structural)]
pub struct Modifiers {
    pub control: bool,
    pub shift: bool,
    pub alt: bool,
    pub logo: bool,
}

/// A key.
#[derive(Clone, Copy, Debug, PartialEq, Eq, Structural)]
pub enum KeyCode {
    Char(char),
    Enter,
    Tab,
    BackTab,
    Backspace,
    Esc,
    Left,
    Right,
    Up,
    Down,
    Home,
    End,
    PageUp,
    PageDown,
    Insert,
    Delete,
    F(u8),
    /// A key that Neovim has no name for.
    Unknown,
}

/// A key pressed or released.
#[derive(Clone, Copy, Debug, PartialEq, Eq, Structural)]
pub struct KeyEvent {
    pub code: KeyCode,
    pub modifiers: Modifiers,
    pub release: bool,
}

#[derive(Clone, Copy, Debug, PartialEq, Eq, Structural)]
pub enum MouseButton {
    Left,
    Right,
    Middle,
}

#[derive(Clone, Copy, Debug, PartialEq, Eq, Structural)]
pub enum MouseEventKind {
    Down(MouseButton),
    Up(MouseButton),
    Drag(MouseButton),
    Moved,
    ScrollUp,
    ScrollDown,
    ScrollLeft,
    ScrollRight,
}

#[derive(Clone, Copy, Debug, PartialEq, Eq, Structural)]
pub struct MouseEvent {
    pub kind: MouseEventKind,
    pub modifiers: Modifiers,
    pub column: u16,
    pub row: u16,
}

pub open spec fn when(b: bool, s: Seq<char>) -> Seq<char> {
    if b {
        s
    } else {
        Seq::empty()
    }
}

/// Modifiers as they stand before a key's name.
pub open spec fn mods_text(m: Modifiers, with_shift: bool) -> Seq<char> {
    when(m.control, "C-"@) + when(with_shift && m.shift, "S-"@) + when(m.alt, "M-"@) + when(
        m.logo,
        "D-"@,
    )
}

/// A key's name with its modifiers.
pub open spec fn named_key(m: Modifiers, name: Seq<char>) -> Seq<char> {
    "<"@ + mods_text(m, true) + name + ">"@
}

/// A character's name where it needs one.
pub open spec fn char_name(c: char, modified: bool) -> Seq<char> {
    if c == '<' {
        "lt"@
    } else if c == '\\' && modified {
        "Bslash"@
    } else if c == '|' && modified {
        "Bar"@
    } else if c == ' ' && modified {
        "Space"@
    } else {
        seq![c]
    }
}

/// A key in Neovim's `<>` notation. None for a key that Neovim has no name for.
pub open spec fn key_text(code: KeyCode, m: Modifiers) -> Option<Seq<char>> {
    match code {
        KeyCode::Char(c) => {
            // Shift is already applied to the character itself.
            let held = mods_text(m, false);
            let name = char_name(c, held.len() > 0);
            Some(
                if held.len() == 0 && name.len() == 1 {
                    name
                } else {
                    "<"@ + held + name + ">"@
                },
            )
        },
        KeyCode::BackTab => Some(
            "<"@ + mods_text(Modifiers { shift: false, ..m }, true) + "S-Tab>"@,
        ),
        KeyCode::F(n) => Some(named_key(m, "F"@ + decimal(n as nat))),
        KeyCode::Enter => Some(named_key(m, "CR"@)),
        KeyCode::Tab => Some(named_key(m, "Tab"@)),
        KeyCode::Backspace => Some(named_key(m, "BS"@)),
        KeyCode::Esc => Some(named_key(m, "Esc"@)),
        KeyCode::Left => Some(named_key(m, "Left"@)),
        KeyCode::Right => Some(named_key(m, "Right"@)),
        KeyCode::Up => Some(named_key(m, "Up"@)),
        KeyCode::Down => Some(named_key(m, "Down"@)),
        KeyCode::Home => Some(named_key(m, "Home"@)),
        KeyCode::End => Some(named_key(m, "End"@)),
        KeyCode::PageUp => Some(named_key(m, "PageUp"@)),
        KeyCode::PageDown => Some(named_key(m, "PageDown"@)),
        KeyCode::Insert => Some(named_key(m, "Insert"@)),
        KeyCode::Delete => Some(named_key(m, "Del"@)),
        KeyCode::Unknown => None,
    }
}

fn mods(m: Modifiers, with_shift: bool) -> (r: Vec<char>)
    ensures
        r@ == mods_text(m, with_shift),
{
    let mut out: Vec<char> = Vec::new();
    if m.control {
        append_chars(&mut out, &chars_of("C-"));
    }
    assert(out@ =~= when(m.control, "C-"@));
    if with_shift && m.shift {
        append_chars(&mut out, &chars_of("S-"));
    }
    assert(out@ =~= when(m.control, "C-"@) + when(with_shift && m.shift, "S-"@));
    if m.alt {
        append_chars(&mut out, &chars_of("M-"));
    }
    assert(out@ =~= when(m.control, "C-"@) + when(with_shift && m.shift, "S-"@) + when(
        m.alt,
        "M-"@,
    ));
    if m.logo {
        append_chars(&mut out, &chars_of("D-"));
    }
    assert(out@ =~= mods_text(m, with_shift));
    out
}

/// `<`, modifiers, a name and an end.
fn bracketed(held: &Vec<char>, name: &Vec<char>, end: &str) -> (r: String)
    ensures
        r@ == "<"@ + held@ + name@ + end@,
{
    let mut out = chars_of("<");
    append_chars(&mut out, held);
    append_chars(&mut out, name);
    append_chars(&mut out, &chars_of(end));
    string_of(&out)
}

fn named(m: Modifiers, name: &str) -> (r: String)
    ensures
        r@ == named_key(m, name@),
{
    bracketed(&mods(m, true), &chars_of(name), ">")
}

/// Encodes a key press in Neovim's `<>` notation, or `None` for releases and unknown keys.
pub fn encode(key: KeyEvent) -> (r: Option<String>)
    ensures
        match r {
            Some(s) => !key.release && key_text(key.code, key.modifiers) == Some(s@),
            None => key.release || key_text(key.code, key.modifiers) is None,
        },
{
    if key.release {
        return None;
    }
    let m = key.modifiers;
    let s = match key.code {
        KeyCode::Char(c) => {
            let held = mods(m, false);
            let modified = held.len() > 0;
            let name = if c == '<' {
                chars_of("lt")
            } else if c == '\\' && modified {
                chars_of("Bslash")
            } else if c == '|' && modified {
                chars_of("Bar")
            } else if c == ' ' && modified {
                chars_of("Space")
            } else {
                let mut one: Vec<char> = Vec::new();
                one.push(c);
                assert(one@ =~= seq![c]);
                one
            };
            if !modified && name.len() == 1 {
                string_of(&name)
            } else {
                bracketed(&held, &name, ">")
            }
        },
        KeyCode::BackTab => {
            let held = mods(Modifiers { shift: false, ..m }, true);
            let none: Vec<char> = Vec::new();
            let s = bracketed(&held, &none, "S-Tab>");
            assert("<"@ + held@ + none@ + "S-Tab>"@ =~= "<"@ + held@ + "S-Tab>"@);
            s
        },
        KeyCode::F(n) => {
            let mut name = chars_of("F");
            append_chars(&mut name, &decimal_chars(n as u64));
            bracketed(&mods(m, true), &name, ">")
        },
        KeyCode::Enter => named(m, "CR"),
        KeyCode::Tab => named(m, "Tab"),
        KeyCode::Backspace => named(m, "BS"),
        KeyCode::Esc => named(m, "Esc"),
        KeyCode::Left => named(m, "Left"),
        KeyCode::Right => named(m, "Right"),
        KeyCode::Up => named(m, "Up"),
        KeyCode::Down => named(m, "Down"),
        KeyCode::Home => named(m, "Home"),
        KeyCode::End => named(m, "End"),
        KeyCode::PageUp => named(m, "PageUp"),
        KeyCode::PageDown => named(m, "PageDown"),
        KeyCode::Insert => named(m, "Insert"),
        KeyCode::Delete => named(m, "Del"),
        KeyCode::Unknown => {
            return None;
        },
    };
    Some(s)
}

pub open spec fn button_name(b: MouseButton) -> Seq<char> {
    match b {
        MouseButton::Left => "left"@,
        MouseButton::Right => "right"@,
        MouseButton::Middle => "middle"@,
    }
}

/// The button and the action of a mouse event.
pub open spec fn mouse_names(kind: MouseEventKind) -> (Seq<char>, Seq<char>) {
    match kind {
        MouseEventKind::Down(b) => (button_name(b), "press"@),
        MouseEventKind::Up(b) => (button_name(b), "release"@),
        MouseEventKind::Drag(b) => (button_name(b), "drag"@),
        MouseEventKind::Moved => ("move"@, ""@),
        MouseEventKind::ScrollUp => ("wheel"@, "up"@),
        MouseEventKind::ScrollDown => ("wheel"@, "down"@),
        MouseEventKind::ScrollLeft => ("wheel"@, "left"@),
        MouseEventKind::ScrollRight => ("wheel"@, "right"@),
    }
}

/// Modifiers as letters.
pub open spec fn mouse_mods(m: Modifiers) -> Seq<char> {
    when(m.control, "C"@) + when(m.shift, "S"@) + when(m.alt, "M"@) + when(m.logo, "D"@)
}

fn button(b: MouseButton) -> (r: &'static str)
    ensures
        r@ == button_name(b),
{
    match b {
        MouseButton::Left => "left",
        MouseButton::Right => "right",
        MouseButton::Middle => "middle",
    }
}

/// A mouse event as `nvim_input_mouse` arguments: (button, action, modifier, row, col).
pub fn mouse(ev: MouseEvent) -> (r: (&'static str, &'static str, String, usize, usize))
    ensures
        (r.0@, r.1@) == mouse_names(ev.kind),
        r.2@ == mouse_mods(ev.modifiers),
        r.3 == ev.row,
        r.4 == ev.column,
{
    let (b, action): (&'static str, &'static str) = match ev.kind {
        MouseEventKind::Down(b) => (button(b), "press"),
        MouseEventKind::Up(b) => (button(b), "release"),
        MouseEventKind::Drag(b) => (button(b), "drag"),
        MouseEventKind::Moved => ("move", ""),
        MouseEventKind::ScrollUp => ("wheel", "up"),
        MouseEventKind::ScrollDown => ("wheel", "down"),
        MouseEventKind::ScrollLeft => ("wheel", "left"),
        MouseEventKind::ScrollRight => ("wheel", "right"),
    };
    let m = ev.modifiers;
    let mut out: Vec<char> = Vec::new();
    if m.control {
        append_chars(&mut out, &chars_of("C"));
    }
    assert(out@ =~= when(m.control, "C"@));
    if m.shift {
        append_chars(&mut out, &chars_of("S"));
    }
    assert(out@ =~= when(m.control, "C"@) + when(m.shift, "S"@));
    if m.alt {
        append_chars(&mut out, &chars_of("M"));
    }
    assert(out@ =~= when(m.control, "C"@) + when(m.shift, "S"@) + when(m.alt, "M"@));
    if m.logo {
        append_chars(&mut out, &chars_of("D"));
    }
    assert(out@ =~= mouse_mods(m));
    (b, action, string_of(&out), ev.row as usize, ev.column as usize)
}

/// A character that is typed without a modifier, but for a shift, is sent as it is; `<` alone
/// has a name.
pub proof fn typed_characters_are_sent(c: char, m: Modifiers)
    requires
        !m.control && !m.alt && !m.logo,
    ensures
        c != '<' ==> key_text(KeyCode::Char(c), m) == Some(seq![c]),
        c == '<' ==> key_text(KeyCode::Char(c), m) == Some("<lt>"@),
{
    reveal_strlit("lt");
    reveal_strlit("<lt>");
    reveal_strlit("<");
    reveal_strlit(">");
    assert(mods_text(m, false) =~= Seq::empty());
    if c == '<' {
        assert("<"@ + mods_text(m, false) + "lt"@ + ">"@ =~= "<lt>"@);
    }
}

/// A character with a modifier is in brackets, the modifiers before it: it is told apart from
/// the character alone, and from the character with others.
pub proof fn modified_characters_say_their_modifiers(c: char, m: Modifiers)
    requires
        m.control || m.alt || m.logo,
        c != '<' && c != '\\' && c != '|' && c != ' ',
    ensures
        key_text(KeyCode::Char(c), m) == Some(
            "<"@ + (if m.control {
                seq!['C', '-']
            } else {
                Seq::empty()
            }) + (if m.alt {
                seq!['M', '-']
            } else {
                Seq::empty()
            }) + (if m.logo {
                seq!['D', '-']
            } else {
                Seq::empty()
            }) + seq![c] + ">"@,
        ),
{
    reveal_strlit("C-");
    reveal_strlit("S-");
    reveal_strlit("M-");
    reveal_strlit("D-");
    assert("C-"@ =~= seq!['C', '-']);
    assert("M-"@ =~= seq!['M', '-']);
    assert("D-"@ =~= seq!['D', '-']);
    let held = mods_text(m, false);
    assert(held =~= (if m.control {
        seq!['C', '-']
    } else {
        Seq::empty()
    }) + (if m.alt {
        seq!['M', '-']
    } else {
        Seq::empty()
    }) + (if m.logo {
        seq!['D', '-']
    } else {
        Seq::empty()
    }));
    assert(held.len() > 0);
    assert("<"@ + held + seq![c] + ">"@ =~= "<"@ + (if m.control {
        seq!['C', '-']
    } else {
        Seq::empty()
    }) + (if m.alt {
        seq!['M', '-']
    } else {
        Seq::empty()
    }) + (if m.logo {
        seq!['D', '-']
    } else {
        Seq::empty()
    }) + seq![c] + ">"@);
}

/// The name that a key without a character has.
pub open spec fn plain_name(code: KeyCode) -> Option<Seq<char>> {
    key_text(code, Modifiers { control: false, shift: false, alt: false, logo: false })
}

/// A key that has a name has it in brackets; control and shift stand before it, in this order.
pub proof fn named_keys_say_their_modifiers(code: KeyCode, m: Modifiers)
    requires
        !(code is Char),
        !(code is BackTab),
        !(code is Unknown),
    ensures
        ({
            let bare = plain_name(code);
            let held = key_text(code, m);
            &&& bare is Some && held is Some
            &&& bare->0.len() > 2 && bare->0[0] == '<' && bare->0.last() == '>'
            &&& held->0 == seq!['<'] + (if m.control {
                seq!['C', '-']
            } else {
                Seq::empty()
            }) + (if m.shift {
                seq!['S', '-']
            } else {
                Seq::empty()
            }) + (if m.alt {
                seq!['M', '-']
            } else {
                Seq::empty()
            }) + (if m.logo {
                seq!['D', '-']
            } else {
                Seq::empty()
            }) + bare->0.skip(1)
        }),
{
    let none = Modifiers { control: false, shift: false, alt: false, logo: false };
    reveal_strlit("C-");
    reveal_strlit("S-");
    reveal_strlit("M-");
    reveal_strlit("D-");
    reveal_strlit("<");
    reveal_strlit(">");
    assert("C-"@ =~= seq!['C', '-']);
    assert("S-"@ =~= seq!['S', '-']);
    assert("M-"@ =~= seq!['M', '-']);
    assert("D-"@ =~= seq!['D', '-']);
    assert("<"@ =~= seq!['<']);
    lemma_key_names();
    assert(mods_text(none, true) =~= Seq::empty());
    let bare = plain_name(code)->0;
    let name = bare.subrange(1, bare.len() - 1);
    let held = key_text(code, m)->0;
    if let KeyCode::F(n) = code {
        reveal_strlit("F");
        assert(bare =~= "<"@ + ("F"@ + decimal(n as nat)) + ">"@);
        assert(name =~= "F"@ + decimal(n as nat));
    }
    assert(bare.skip(1) =~= name + ">"@);
    let all = seq!['<'] + (if m.control {
        seq!['C', '-']
    } else {
        Seq::empty()
    }) + (if m.shift {
        seq!['S', '-']
    } else {
        Seq::empty()
    }) + (if m.alt {
        seq!['M', '-']
    } else {
        Seq::empty()
    }) + (if m.logo {
        seq!['D', '-']
    } else {
        Seq::empty()
    }) + bare.skip(1);
    lemma_bare(code);
    assert(held =~= all);
}

proof fn lemma_bare(code: KeyCode)
    requires
        !(code is Char),
        !(code is BackTab),
        !(code is Unknown),
    ensures
        forall|m: Modifiers| #[trigger]
            key_text(code, m)->0 == named_key(m, plain_name(code)->0.subrange(1, plain_name(code)->0.len() - 1)),
{
    let none = Modifiers { control: false, shift: false, alt: false, logo: false };
    reveal_strlit("<");
    reveal_strlit(">");
    assert(mods_text(none, true) =~= Seq::empty());
    let name = match code {
        KeyCode::F(n) => "F"@ + decimal(n as nat),
        KeyCode::Enter => "CR"@,
        KeyCode::Tab => "Tab"@,
        KeyCode::Backspace => "BS"@,
        KeyCode::Esc => "Esc"@,
        KeyCode::Left => "Left"@,
        KeyCode::Right => "Right"@,
        KeyCode::Up => "Up"@,
        KeyCode::Down => "Down"@,
        KeyCode::Home => "Home"@,
        KeyCode::End => "End"@,
        KeyCode::PageUp => "PageUp"@,
        KeyCode::PageDown => "PageDown"@,
        KeyCode::Insert => "Insert"@,
        _ => "Del"@,
    };
    assert(plain_name(code)->0 == named_key(none, name));
    assert(named_key(none, name).subrange(1, named_key(none, name).len() - 1) =~= name);
}

proof fn lemma_key_names()
    ensures
        "CR"@ =~= seq!['C', 'R'],
        "Tab"@ =~= seq!['T', 'a', 'b'],
        "BS"@ =~= seq!['B', 'S'],
        "Esc"@ =~= seq!['E', 's', 'c'],
        "Left"@ =~= seq!['L', 'e', 'f', 't'],
        "Right"@ =~= seq!['R', 'i', 'g', 'h', 't'],
        "Up"@ =~= seq!['U', 'p'],
        "Down"@ =~= seq!['D', 'o', 'w', 'n'],
        "Home"@ =~= seq!['H', 'o', 'm', 'e'],
        "End"@ =~= seq!['E', 'n', 'd'],
        "PageUp"@ =~= seq!['P', 'a', 'g', 'e', 'U', 'p'],
        "PageDown"@ =~= seq!['P', 'a', 'g', 'e', 'D', 'o', 'w', 'n'],
        "Insert"@ =~= seq!['I', 'n', 's', 'e', 'r', 't'],
        "Del"@ =~= seq!['D', 'e', 'l'],
{
    reveal_strlit("CR");
    reveal_strlit("Tab");
    reveal_strlit("BS");
    reveal_strlit("Esc");
    reveal_strlit("Left");
    reveal_strlit("Right");
    reveal_strlit("Up");
    reveal_strlit("Down");
    reveal_strlit("Home");
    reveal_strlit("End");
    reveal_strlit("PageUp");
    reveal_strlit("PageDown");
    reveal_strlit("Insert");
    reveal_strlit("Del");
}

/// Every key that Neovim knows is sent under the name that Neovim knows it by, whatever is held
/// with it.
pub proof fn keys_go_by_neovims_names(m: Modifiers, n: u8)
    ensures
        key_text(KeyCode::Enter, m)->0 == "<"@ + mods_text(m, true) + seq!['C', 'R'] + ">"@,
        key_text(KeyCode::Tab, m)->0 == "<"@ + mods_text(m, true) + seq!['T', 'a', 'b'] + ">"@,
        key_text(KeyCode::Backspace, m)->0 == "<"@ + mods_text(m, true) + seq!['B', 'S'] + ">"@,
        key_text(KeyCode::Esc, m)->0 == "<"@ + mods_text(m, true) + seq!['E', 's', 'c'] + ">"@,
        key_text(KeyCode::Left, m)->0 == "<"@ + mods_text(m, true) + seq!['L', 'e', 'f', 't'] + ">"@,
        key_text(KeyCode::Right, m)->0 == "<"@ + mods_text(m, true) + seq!['R', 'i', 'g', 'h', 't']
            + ">"@,
        key_text(KeyCode::Up, m)->0 == "<"@ + mods_text(m, true) + seq!['U', 'p'] + ">"@,
        key_text(KeyCode::Down, m)->0 == "<"@ + mods_text(m, true) + seq!['D', 'o', 'w', 'n'] + ">"@,
        key_text(KeyCode::Home, m)->0 == "<"@ + mods_text(m, true) + seq!['H', 'o', 'm', 'e'] + ">"@,
        key_text(KeyCode::End, m)->0 == "<"@ + mods_text(m, true) + seq!['E', 'n', 'd'] + ">"@,
        key_text(KeyCode::PageUp, m)->0 == "<"@ + mods_text(m, true) + seq![
            'P',
            'a',
            'g',
            'e',
            'U',
            'p',
        ] + ">"@,
        key_text(KeyCode::PageDown, m)->0 == "<"@ + mods_text(m, true) + seq![
            'P',
            'a',
            'g',
            'e',
            'D',
            'o',
            'w',
            'n',
        ] + ">"@,
        key_text(KeyCode::Insert, m)->0 == "<"@ + mods_text(m, true) + seq![
            'I',
            'n',
            's',
            'e',
            'r',
            't',
        ] + ">"@,
        key_text(KeyCode::Delete, m)->0 == "<"@ + mods_text(m, true) + seq!['D', 'e', 'l'] + ">"@,
        key_text(KeyCode::F(n), m)->0 == "<"@ + mods_text(m, true) + (seq!['F'] + decimal(n as nat))
            + ">"@,
        key_text(KeyCode::Unknown, m) is None,
{
    lemma_key_names();
    reveal_strlit("F");
    assert("F"@ =~= seq!['F']);
}

/// What the mouse does is passed on: which button, what it does, and nothing in common between
/// different doings.
pub proof fn mouse_says_what_it_does(b: MouseButton, c: MouseButton)
    ensures
        mouse_names(MouseEventKind::Down(b)).0 == mouse_names(MouseEventKind::Up(b)).0,
        mouse_names(MouseEventKind::Down(b)).0 == mouse_names(MouseEventKind::Drag(b)).0,
        b != c ==> mouse_names(MouseEventKind::Down(b)).0 != mouse_names(MouseEventKind::Down(c)).0,
        mouse_names(MouseEventKind::Down(b)).1 == "press"@,
        mouse_names(MouseEventKind::Up(b)).1 == "release"@,
        mouse_names(MouseEventKind::Drag(b)).1 == "drag"@,
        mouse_names(MouseEventKind::ScrollUp) == ("wheel"@, "up"@),
        mouse_names(MouseEventKind::ScrollDown) == ("wheel"@, "down"@),
        mouse_names(MouseEventKind::ScrollLeft) == ("wheel"@, "left"@),
        mouse_names(MouseEventKind::ScrollRight) == ("wheel"@, "right"@),
        mouse_names(MouseEventKind::Down(MouseButton::Left)).0 == "left"@,
        mouse_names(MouseEventKind::Down(MouseButton::Right)).0 == "right"@,
{
    reveal_strlit("left");
    reveal_strlit("right");
    reveal_strlit("middle");
    assert("left"@.len() == 4 && "right"@.len() == 5 && "middle"@.len() == 6);
}

} // verus!
