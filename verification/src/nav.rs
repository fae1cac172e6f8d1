//! Navigation mode: Vim-style keys that act on whole cells, while no cell is being edited. Keys
//! arrive in Neovim's `<>` notation; counts and two-key chords work as in Vim.

use crate::adapter::CellKind;
use crate::text::{chars_of, decimal, decimal_chars, is_digit, str_eq, string_of};
use vstd::prelude::*;

verus! {

#[derive(Clone, Copy, Debug, PartialEq, Eq, Structural)]
pub enum Action {
    Down(usize),
    Up(usize),
    /// Select the previous part of the header.
    Left,
    /// Select the next part of the header.
    Right,
    First,
    /// `G`, or `{count}G` for the count-th cell.
    Last(Option<usize>),
    HalfPageDown,
    HalfPageUp,
    /// Edit the selected cell.
    Edit,
    /// A new code cell below (or above).
    Open { above: bool },
    Delete,
    Yank,
    Paste { above: bool },
    Undo,
    Redo,
    MoveDown,
    MoveUp,
    /// Join the next cell onto this one.
    Merge,
    Kind(CellKind),
    /// Run the cell and stay on it.
    Run,
    /// Run the cell and select the next (past the end, add one and edit it).
    RunAdvance,
    Interrupt,
    Restart,
    /// Neovim's command line.
    Cmdline,
    /// List every key.
    Help,
}

/// Keys typed toward an action.
#[derive(Clone, Copy, Debug, PartialEq, Eq, Structural)]
pub struct Nav {
    pub count: Option<usize>,
    /// The first key of a chord.
    pub pending: Option<char>,
}

impl Default for Nav {
    fn default() -> (r: Self)
        ensures
            r == nothing_typed(),
    {
        Nav { count: None, pending: None }
    }
}

pub open spec fn nothing_typed() -> Nav {
    Nav { count: None, pending: None }
}

/// Whether a key starts a two-key chord.
pub open spec fn is_prefix(c: char) -> bool {
    c == 'g' || c == 'd' || c == 'y' || c == 't' || c == 'i' || c == '0' || c == ']' || c == '['
}

/// The count after one more digit.
pub open spec fn counted(count: Option<usize>, d: int) -> usize {
    let n = (match count {
        Some(c) => c as int,
        None => 0,
    }) * 10 + d;
    if n <= usize::MAX {
        n as usize
    } else {
        usize::MAX
    }
}

/// The action of a key alone.
pub open spec fn single(key: Seq<char>, count: Option<usize>) -> Option<Action> {
    let n = match count {
        Some(c) => c,
        None => 1,
    };
    if key == "j"@ {
        Some(Action::Down(n))
    } else if key == "k"@ {
        Some(Action::Up(n))
    } else if key == "h"@ {
        Some(Action::Left)
    } else if key == "l"@ {
        Some(Action::Right)
    } else if key == "G"@ {
        Some(Action::Last(count))
    } else if key == "<C-d>"@ {
        Some(Action::HalfPageDown)
    } else if key == "<C-u>"@ {
        Some(Action::HalfPageUp)
    } else if key == "<CR>"@ {
        Some(Action::Edit)
    } else if key == "o"@ {
        Some(Action::Open { above: false })
    } else if key == "O"@ {
        Some(Action::Open { above: true })
    } else if key == "p"@ {
        Some(Action::Paste { above: false })
    } else if key == "P"@ {
        Some(Action::Paste { above: true })
    } else if key == "u"@ {
        Some(Action::Undo)
    } else if key == "<C-r>"@ {
        Some(Action::Redo)
    } else if key == "J"@ {
        Some(Action::Merge)
    } else if key == "x"@ || key == "<S-CR>"@ {
        Some(Action::RunAdvance)
    } else if key == "r"@ || key == "<C-CR>"@ {
        Some(Action::Run)
    } else if key == ":"@ {
        Some(Action::Cmdline)
    } else if key == "?"@ {
        Some(Action::Help)
    } else {
        None
    }
}

/// The action of a chord.
pub open spec fn chord(first: char, key: Seq<char>) -> Option<Action> {
    if first == 'g' && key == "g"@ {
        Some(Action::First)
    } else if first == 'd' && key == "d"@ {
        Some(Action::Delete)
    } else if first == 'y' && key == "y"@ {
        Some(Action::Yank)
    } else if first == ']' && key == "e"@ {
        Some(Action::MoveDown)
    } else if first == '[' && key == "e"@ {
        Some(Action::MoveUp)
    } else if first == 't' && key == "c"@ {
        Some(Action::Kind(CellKind::Code))
    } else if first == 't' && key == "m"@ {
        Some(Action::Kind(CellKind::Markdown))
    } else if first == 't' && key == "r"@ {
        Some(Action::Kind(CellKind::Raw))
    } else if first == 'i' && key == "i"@ {
        Some(Action::Interrupt)
    } else if first == '0' && key == "0"@ {
        Some(Action::Restart)
    } else {
        None
    }
}

/// Whether a key counts: a digit, but no leading zero.
pub open spec fn counts(nav: Nav, key: Seq<char>) -> bool {
    nav.pending is None && key.len() == 1 && is_digit(key[0]) && (key[0] != '0' || nav.count is Some)
}

/// What is typed, and the action done, after one more key. `<Esc>` and anything unbound cancel
/// what was typed.
pub open spec fn fed(nav: Nav, key: Seq<char>) -> (Nav, Option<Action>) {
    if counts(nav, key) {
        (
            Nav { count: Some(counted(nav.count, key[0] as int - '0' as int)), ..nav },
            None,
        )
    } else {
        match nav.pending {
            Some(first) => (nothing_typed(), chord(first, key)),
            None => match single(key, nav.count) {
                Some(a) => (nothing_typed(), Some(a)),
                None => if key.len() == 1 && is_prefix(key[0]) {
                    (Nav { pending: Some(key[0]), ..nav }, None)
                } else {
                    (nothing_typed(), None)
                },
            },
        }
    }
}

fn single_action(key: &str, count: Option<usize>) -> (r: Option<Action>)
    ensures
        r == single(key@, count),
{
    let n = match count {
        Some(c) => c,
        None => 1,
    };
    if str_eq(key, "j") {
        Some(Action::Down(n))
    } else if str_eq(key, "k") {
        Some(Action::Up(n))
    } else if str_eq(key, "h") {
        Some(Action::Left)
    } else if str_eq(key, "l") {
        Some(Action::Right)
    } else if str_eq(key, "G") {
        Some(Action::Last(count))
    } else if str_eq(key, "<C-d>") {
        Some(Action::HalfPageDown)
    } else if str_eq(key, "<C-u>") {
        Some(Action::HalfPageUp)
    } else if str_eq(key, "<CR>") {
        Some(Action::Edit)
    } else if str_eq(key, "o") {
        Some(Action::Open { above: false })
    } else if str_eq(key, "O") {
        Some(Action::Open { above: true })
    } else if str_eq(key, "p") {
        Some(Action::Paste { above: false })
    } else if str_eq(key, "P") {
        Some(Action::Paste { above: true })
    } else if str_eq(key, "u") {
        Some(Action::Undo)
    } else if str_eq(key, "<C-r>") {
        Some(Action::Redo)
    } else if str_eq(key, "J") {
        Some(Action::Merge)
    } else if str_eq(key, "x") || str_eq(key, "<S-CR>") {
        Some(Action::RunAdvance)
    } else if str_eq(key, "r") || str_eq(key, "<C-CR>") {
        Some(Action::Run)
    } else if str_eq(key, ":") {
        Some(Action::Cmdline)
    } else if str_eq(key, "?") {
        Some(Action::Help)
    } else {
        None
    }
}

fn chord_action(first: char, key: &str) -> (r: Option<Action>)
    ensures
        r == chord(first, key@),
{
    if first == 'g' && str_eq(key, "g") {
        Some(Action::First)
    } else if first == 'd' && str_eq(key, "d") {
        Some(Action::Delete)
    } else if first == 'y' && str_eq(key, "y") {
        Some(Action::Yank)
    } else if first == ']' && str_eq(key, "e") {
        Some(Action::MoveDown)
    } else if first == '[' && str_eq(key, "e") {
        Some(Action::MoveUp)
    } else if first == 't' && str_eq(key, "c") {
        Some(Action::Kind(CellKind::Code))
    } else if first == 't' && str_eq(key, "m") {
        Some(Action::Kind(CellKind::Markdown))
    } else if first == 't' && str_eq(key, "r") {
        Some(Action::Kind(CellKind::Raw))
    } else if first == 'i' && str_eq(key, "i") {
        Some(Action::Interrupt)
    } else if first == '0' && str_eq(key, "0") {
        Some(Action::Restart)
    } else {
        None
    }
}

impl Nav {
    /// What has been typed toward the next action, for display (like Vim's 'showcmd').
    pub fn partial(&self) -> (r: String)
        ensures
            r@ == (match self.count {
                Some(n) => decimal(n as nat),
                None => Seq::empty(),
            }) + (match self.pending {
                Some(c) => seq![c],
                None => Seq::empty(),
            }),
    {
        let mut out: Vec<char> = match self.count {
            Some(n) => decimal_chars(n as u64),
            None => Vec::new(),
        };
        if let Some(c) = self.pending {
            out.push(c);
        }
        assert(out@ =~= (match self.count {
            Some(n) => decimal(n as nat),
            None => Seq::empty(),
        }) + (match self.pending {
            Some(c) => seq![c],
            None => Seq::empty(),
        }));
        string_of(&out)
    }

    /// Feeds one key; returns an action once one is complete. Every action has a key that needs
    /// no modifier the terminal might not report.
    pub fn feed(&mut self, key: &str) -> (r: Option<Action>)
        ensures
            (*final(self), r) == fed(*old(self), key@),
    {
        let typed = chars_of(key);
        let one = typed.len() == 1;
        if one && self.pending.is_none() && '0' <= typed[0] && typed[0] <= '9' && (typed[0] != '0'
            || self.count.is_some()) {
            let d = typed[0] as usize - '0' as usize;
            let so_far = match self.count {
                Some(c) => c,
                None => 0,
            };
            let next = if so_far > (usize::MAX - d) / 10 {
                usize::MAX
            } else {
                so_far * 10 + d
            };
            self.count = Some(next);
            return None;
        }
        let count = self.count;
        let pending = self.pending;
        self.count = None;
        self.pending = None;
        match pending {
            Some(first) => chord_action(first, key),
            None => {
                let action = single_action(key, count);
                if action.is_none() && one {
                    let c = typed[0];
                    if c == 'g' || c == 'd' || c == 'y' || c == 't' || c == 'i' || c == '0' || c
                        == ']' || c == '[' {
                        self.pending = Some(c);
                        self.count = count;
                    }
                }
                action
            },
        }
    }
}

/// `<Esc>` abandons whatever was typed.
pub proof fn escape_cancels(nav: Nav)
    ensures
        fed(nav, "<Esc>"@) == (nothing_typed(), None::<Action>),
{
    reveal_strlit("<Esc>");
    let key = "<Esc>"@;
    assert(key.len() == 5 && key[1] == 'E');
    reveal_strlit("<C-d>");
    reveal_strlit("<C-u>");
    reveal_strlit("<C-r>");
    reveal_strlit("<CR>");
    reveal_strlit("<S-CR>");
    reveal_strlit("<C-CR>");
    assert("<S-CR>"@.len() == 6 && "<C-CR>"@.len() == 6);
    assert("<C-d>"@[1] == 'C' && "<C-u>"@[1] == 'C' && "<C-r>"@[1] == 'C' && "<CR>"@.len() == 4);
    lemma_one_key_names();
}

proof fn lemma_one_key_names()
    ensures
        "j"@.len() == 1 && "k"@.len() == 1 && "h"@.len() == 1 && "l"@.len() == 1 && "G"@.len() == 1
            && "o"@.len() == 1 && "O"@.len() == 1 && "p"@.len() == 1 && "P"@.len() == 1 && "u"@.len()
            == 1 && "J"@.len() == 1 && "x"@.len() == 1 && "r"@.len() == 1 && ":"@.len() == 1
            && "?"@.len() == 1 && "g"@.len() == 1 && "d"@.len() == 1 && "y"@.len() == 1 && "e"@.len()
            == 1 && "c"@.len() == 1 && "m"@.len() == 1 && "i"@.len() == 1 && "0"@.len() == 1,
{
    reveal_strlit("j");
    reveal_strlit("k");
    reveal_strlit("h");
    reveal_strlit("l");
    reveal_strlit("G");
    reveal_strlit("o");
    reveal_strlit("O");
    reveal_strlit("p");
    reveal_strlit("P");
    reveal_strlit("u");
    reveal_strlit("J");
    reveal_strlit("x");
    reveal_strlit("r");
    reveal_strlit(":");
    reveal_strlit("?");
    reveal_strlit("g");
    reveal_strlit("d");
    reveal_strlit("y");
    reveal_strlit("e");
    reveal_strlit("c");
    reveal_strlit("m");
    reveal_strlit("i");
    reveal_strlit("0");
}

/// After an action nothing is left typed.
pub proof fn action_leaves_nothing_typed(nav: Nav, key: Seq<char>)
    requires
        fed(nav, key).1 is Some,
    ensures
        fed(nav, key).0 == nothing_typed(),
{
}

/// The keys after which an action is done, one after the other.
pub open spec fn fed_two(nav: Nav, first: Seq<char>, second: Seq<char>) -> Option<Action> {
    fed(fed(nav, first).0, second).1
}

proof fn lemma_key_chars()
    ensures
        "j"@ =~= seq!['j'] && "k"@ =~= seq!['k'] && "h"@ =~= seq!['h'] && "l"@ =~= seq!['l'],
        "G"@ =~= seq!['G'] && "o"@ =~= seq!['o'] && "O"@ =~= seq!['O'] && "p"@ =~= seq!['p'],
        "P"@ =~= seq!['P'] && "u"@ =~= seq!['u'] && "J"@ =~= seq!['J'] && "x"@ =~= seq!['x'],
        "r"@ =~= seq!['r'] && ":"@ =~= seq![':'] && "?"@ =~= seq!['?'] && "g"@ =~= seq!['g'],
        "d"@ =~= seq!['d'] && "y"@ =~= seq!['y'] && "e"@ =~= seq!['e'] && "c"@ =~= seq!['c'],
        "m"@ =~= seq!['m'] && "i"@ =~= seq!['i'] && "0"@ =~= seq!['0'] && "t"@ =~= seq!['t'],
        "]"@ =~= seq![']'] && "["@ =~= seq!['['],
        "<C-d>"@ =~= seq!['<', 'C', '-', 'd', '>'],
        "<C-u>"@ =~= seq!['<', 'C', '-', 'u', '>'],
        "<C-r>"@ =~= seq!['<', 'C', '-', 'r', '>'],
        "<CR>"@ =~= seq!['<', 'C', 'R', '>'],
        "<S-CR>"@ =~= seq!['<', 'S', '-', 'C', 'R', '>'],
        "<C-CR>"@ =~= seq!['<', 'C', '-', 'C', 'R', '>'],
{
    reveal_strlit("j");
    reveal_strlit("k");
    reveal_strlit("h");
    reveal_strlit("l");
    reveal_strlit("G");
    reveal_strlit("o");
    reveal_strlit("O");
    reveal_strlit("p");
    reveal_strlit("P");
    reveal_strlit("u");
    reveal_strlit("J");
    reveal_strlit("x");
    reveal_strlit("r");
    reveal_strlit(":");
    reveal_strlit("?");
    reveal_strlit("g");
    reveal_strlit("d");
    reveal_strlit("y");
    reveal_strlit("e");
    reveal_strlit("c");
    reveal_strlit("m");
    reveal_strlit("i");
    reveal_strlit("0");
    reveal_strlit("t");
    reveal_strlit("]");
    reveal_strlit("[");
    reveal_strlit("<C-d>");
    reveal_strlit("<C-u>");
    reveal_strlit("<C-r>");
    reveal_strlit("<CR>");
    reveal_strlit("<S-CR>");
    reveal_strlit("<C-CR>");
}

proof fn lemma_told_apart(a: char, b: char)
    ensures
        a != b ==> seq![a] != seq![b],
{
    assert(seq![a][0] == a && seq![b][0] == b);
}

/// A key alone does its action, whatever count was typed before it: motions go by the count.
pub proof fn keys_do_their_actions(nav: Nav)
    requires
        nav.pending is None,
    ensures
        ({
            let n = match nav.count {
                Some(c) => c,
                None => 1,
            };
            &&& fed(nav, seq!['j']).1 == Some(Action::Down(n))
            &&& fed(nav, seq!['k']).1 == Some(Action::Up(n))
            &&& fed(nav, seq!['h']).1 == Some(Action::Left)
            &&& fed(nav, seq!['l']).1 == Some(Action::Right)
            &&& fed(nav, seq!['G']).1 == Some(Action::Last(nav.count))
            &&& fed(nav, seq!['o']).1 == Some(Action::Open { above: false })
            &&& fed(nav, seq!['O']).1 == Some(Action::Open { above: true })
            &&& fed(nav, seq!['p']).1 == Some(Action::Paste { above: false })
            &&& fed(nav, seq!['P']).1 == Some(Action::Paste { above: true })
            &&& fed(nav, seq!['u']).1 == Some(Action::Undo)
            &&& fed(nav, seq!['J']).1 == Some(Action::Merge)
            &&& fed(nav, seq!['x']).1 == Some(Action::RunAdvance)
            &&& fed(nav, seq!['r']).1 == Some(Action::Run)
            &&& fed(nav, seq![':']).1 == Some(Action::Cmdline)
            &&& fed(nav, seq!['?']).1 == Some(Action::Help)
        }),
{
    lemma_key_chars();
    assert forall|a: char, b: char| a != b implies #[trigger] seq![a] != #[trigger] seq![b] by {
        lemma_told_apart(a, b);
    }
    assert(seq!['<', 'C', '-', 'd', '>'].len() == 5 && seq!['<', 'C', '-', 'u', '>'].len() == 5);
    assert(seq!['<', 'C', '-', 'r', '>'].len() == 5 && seq!['<', 'C', 'R', '>'].len() == 4);
    assert(seq!['<', 'S', '-', 'C', 'R', '>'].len() == 6);
    assert(seq!['<', 'C', '-', 'C', 'R', '>'].len() == 6);
    assert(seq!['j'][0] == 'j' && seq!['k'][0] == 'k' && seq!['h'][0] == 'h' && seq!['l'][0] == 'l');
    assert(seq!['G'][0] == 'G' && seq!['o'][0] == 'o' && seq!['O'][0] == 'O' && seq!['p'][0] == 'p');
    assert(seq!['P'][0] == 'P' && seq!['u'][0] == 'u' && seq!['J'][0] == 'J' && seq!['x'][0] == 'x');
    assert(seq!['r'][0] == 'r' && seq![':'][0] == ':' && seq!['?'][0] == '?');
}

/// The keys with a modifier, and `Enter`, do their actions.
pub proof fn control_keys_do_their_actions(nav: Nav)
    requires
        nav.pending is None,
    ensures
        fed(nav, "<C-d>"@).1 == Some(Action::HalfPageDown),
        fed(nav, "<C-u>"@).1 == Some(Action::HalfPageUp),
        fed(nav, "<C-r>"@).1 == Some(Action::Redo),
        fed(nav, "<CR>"@).1 == Some(Action::Edit),
        fed(nav, "<S-CR>"@).1 == Some(Action::RunAdvance),
        fed(nav, "<C-CR>"@).1 == Some(Action::Run),
{
    lemma_key_chars();
    lemma_one_key_names();
    assert("<C-d>"@.len() == 5 && "<C-u>"@.len() == 5 && "<C-r>"@.len() == 5 && "<CR>"@.len() == 4);
    assert("<S-CR>"@.len() == 6 && "<C-CR>"@.len() == 6);
    assert("<C-d>"@[3] == 'd' && "<C-u>"@[3] == 'u' && "<C-r>"@[3] == 'r');
    assert("<S-CR>"@[1] == 'S' && "<C-CR>"@[1] == 'C');
}

/// Two keys make a chord: the first waits for the second, and the second does the action.
pub proof fn chords_do_their_actions(nav: Nav)
    requires
        nav.pending is None,
        nav.count is None,
    ensures
        fed_two(nav, seq!['g'], seq!['g']) == Some(Action::First),
        fed_two(nav, seq!['d'], seq!['d']) == Some(Action::Delete),
        fed_two(nav, seq!['y'], seq!['y']) == Some(Action::Yank),
        fed_two(nav, seq![']'], seq!['e']) == Some(Action::MoveDown),
        fed_two(nav, seq!['['], seq!['e']) == Some(Action::MoveUp),
        fed_two(nav, seq!['t'], seq!['c']) == Some(Action::Kind(CellKind::Code)),
        fed_two(nav, seq!['t'], seq!['m']) == Some(Action::Kind(CellKind::Markdown)),
        fed_two(nav, seq!['t'], seq!['r']) == Some(Action::Kind(CellKind::Raw)),
        fed_two(nav, seq!['i'], seq!['i']) == Some(Action::Interrupt),
        fed_two(nav, seq!['0'], seq!['0']) == Some(Action::Restart),
        fed(nav, seq!['d']).1 is None,
        fed(nav, seq!['0']).1 is None,
{
    lemma_key_chars();
    assert forall|a: char, b: char| a != b implies #[trigger] seq![a] != #[trigger] seq![b] by {
        lemma_told_apart(a, b);
    }
    assert(seq!['<', 'C', '-', 'd', '>'].len() == 5 && seq!['<', 'C', '-', 'u', '>'].len() == 5);
    assert(seq!['<', 'C', '-', 'r', '>'].len() == 5 && seq!['<', 'C', 'R', '>'].len() == 4);
    assert(seq!['<', 'S', '-', 'C', 'R', '>'].len() == 6);
    assert(seq!['<', 'C', '-', 'C', 'R', '>'].len() == 6);
    assert(seq!['g'][0] == 'g' && seq!['d'][0] == 'd' && seq!['y'][0] == 'y' && seq![']'][0] == ']');
    assert(seq!['['][0] == '[' && seq!['t'][0] == 't' && seq!['i'][0] == 'i' && seq!['0'][0] == '0');
    assert(seq!['e'][0] == 'e' && seq!['c'][0] == 'c' && seq!['m'][0] == 'm' && seq!['r'][0] == 'r');
}

/// What digits, typed one after the other, come to.
pub open spec fn fed_digits(nav: Nav, digits: Seq<char>) -> Nav
    decreases digits.len(),
{
    if digits.len() == 0 {
        nav
    } else {
        fed(fed_digits(nav, digits.drop_last()), seq![digits.last()]).0
    }
}

/// A number that is typed is the count of what follows it.
pub proof fn typed_number_is_the_count(n: nat)
    requires
        1 <= n <= usize::MAX,
    ensures
        fed_digits(nothing_typed(), decimal(n)) == (Nav { count: Some(n as usize), pending: None }),
    decreases n,
{
    let d = decimal(n);
    if n < 10 {
        assert(d.drop_last() =~= Seq::empty());
        assert(fed_digits(nothing_typed(), Seq::empty()) == nothing_typed());
        let key = seq![d.last()];
        assert(key[0] == d.last());
        assert(is_digit(key[0]) && key[0] != '0');
        assert(key[0] as int - '0' as int == n);
        assert(fed(nothing_typed(), key).0 == (Nav { count: Some(n as usize), pending: None }));
    } else {
        typed_number_is_the_count(n / 10);
        assert(d.drop_last() =~= decimal(n / 10));
        let key = seq![d.last()];
        assert(key[0] == d.last());
        assert(is_digit(key[0]));
        assert(key[0] as int - '0' as int == n % 10);
        let so_far = Nav { count: Some((n / 10) as usize), pending: None };
        assert(fed(so_far, key).0 == (Nav { count: Some(n as usize), pending: None }));
    }
}

} // verus!
