use nbv::adapter::CellKind;
use nbv::nav::{Action, Nav};

fn feed(keys: &[&str]) -> Vec<Action> {
    let mut nav = Nav::default();
    keys.iter().filter_map(|k| nav.feed(k)).collect()
}

#[test]
fn motions_take_counts() {
    assert_eq!(feed(&["j", "3", "k", "1", "0", "j"]), [Action::Down(1), Action::Up(3), Action::Down(10)]);
    assert_eq!(feed(&["g", "g", "G", "2", "G"]), [Action::First, Action::Last(None), Action::Last(Some(2))]);
}

#[test]
fn chords() {
    assert_eq!(
        feed(&["d", "d", "y", "y", "t", "m", "i", "i", "0", "0", "]", "e", "[", "e"]),
        [
            Action::Delete,
            Action::Yank,
            Action::Kind(CellKind::Markdown),
            Action::Interrupt,
            Action::Restart,
            Action::MoveDown,
            Action::MoveUp,
        ]
    );
}

#[test]
fn escape_and_unbound_keys_cancel() {
    let mut nav = Nav::default();
    assert_eq!(nav.feed("2"), None);
    assert_eq!(nav.feed("d"), None);
    assert_eq!(nav.partial(), "2d");
    assert_eq!(nav.feed("<Esc>"), None);
    assert_eq!(nav.partial(), "");
    assert_eq!(nav.feed("d"), None);
    assert_eq!(nav.feed("q"), None);
    assert_eq!(nav.feed("<Down>"), None, "one key per action: arrows are unbound");
    assert_eq!(nav.feed("j"), Some(Action::Down(1)), "the chord was abandoned");
}

#[test]
fn the_keys_of_the_key_list() {
    assert_eq!(
        feed(&["h", "l", "<CR>", "o", "O", "p", "P", "u", "<C-r>", "J", "x", "r", ":", "?", "<C-d>", "<C-u>"]),
        [
            Action::Left,
            Action::Right,
            Action::Edit,
            Action::Open { above: false },
            Action::Open { above: true },
            Action::Paste { above: false },
            Action::Paste { above: true },
            Action::Undo,
            Action::Redo,
            Action::Merge,
            Action::RunAdvance,
            Action::Run,
            Action::Cmdline,
            Action::Help,
            Action::HalfPageDown,
            Action::HalfPageUp,
        ]
    );
    assert_eq!(feed(&["t", "c", "t", "r"]), [Action::Kind(CellKind::Code), Action::Kind(CellKind::Raw)]);
    assert_eq!(feed(&["<S-CR>", "<C-CR>"]).len(), feed(&["x", "r"]).len());
}
