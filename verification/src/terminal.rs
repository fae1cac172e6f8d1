//! Terminal identification, image protocol selection and tmux policy.

use crate::text::{
    chars_eq, chars_of, is_text, lowercased, split, split_chars, str_eq, string_of, to_lowercase,
    views,
};
use vstd::prelude::*;

verus! {

#[derive(Debug, PartialEq, Eq)]
pub enum Term {
    Kitty,
    Ghostty,
    WezTerm,
    Other(String),
}

/// What a [`Term`] is.
pub enum TermV {
    Kitty,
    Ghostty,
    WezTerm,
    Other(Seq<char>),
}

impl View for Term {
    type V = TermV;

    open spec fn view(&self) -> TermV {
        match *self {
            Term::Kitty => TermV::Kitty,
            Term::Ghostty => TermV::Ghostty,
            Term::WezTerm => TermV::WezTerm,
            Term::Other(s) => TermV::Other(s@),
        }
    }
}

/// How images reach the screen.
#[derive(Clone, Copy, Debug, PartialEq, Eq, Structural)]
pub enum ProtocolType {
    Halfblocks,
    Sixel,
    Kitty,
    Iterm2,
}

/// What is known about the tmux server around.
#[derive(Debug)]
pub struct Tmux {
    pub passthrough: bool,
    /// tmux itself parses and redraws Sixel (3.4+ built with Sixel support).
    pub sixel: bool,
    pub outer: Option<Term>,
    /// tmux gets modified keys (`<S-CR>`) from the outer terminal and passes them on in the
    /// CSI u form that is read here.
    pub extended_keys: bool,
}

impl Default for Tmux {
    fn default() -> (r: Self)
        ensures
            !r.passthrough && !r.sixel && r.outer is None && !r.extended_keys,
    {
        Tmux { passthrough: false, sixel: false, outer: None, extended_keys: false }
    }
}

/// Whether `p` occurs in `s`.
pub open spec fn occurs(s: Seq<char>, p: Seq<char>) -> bool {
    exists|i: int| 0 <= i <= s.len() - p.len() && #[trigger] s.subrange(i, i + p.len()) == p
}

pub open spec fn classified(name: Seq<char>) -> TermV {
    let n = lowercased(name);
    if occurs(n, "kitty"@) {
        TermV::Kitty
    } else if occurs(n, "ghostty"@) {
        TermV::Ghostty
    } else if occurs(n, "wezterm"@) {
        TermV::WezTerm
    } else {
        TermV::Other(name)
    }
}

fn contains(s: &Vec<char>, p: &str) -> (r: bool)
    ensures
        r == occurs(s@, p@),
{
    let q = chars_of(p);
    if q.len() > s.len() {
        return false;
    }
    let last = s.len() - q.len();
    let mut i: usize = 0;
    while i < last
        invariant
            q@ == p@,
            last == s.len() - q.len(),
            q.len() <= s.len(),
            i <= last,
            forall|j: int| 0 <= j < i ==> #[trigger] s@.subrange(j, j + q@.len()) != q@,
        decreases last - i,
    {
        let part = crate::text::substr(s, i, i + q.len());
        if chars_eq(&part, &q) {
            return true;
        }
        i += 1;
    }
    let part = crate::text::substr(s, last, s.len());
    let found = chars_eq(&part, &q);
    proof {
        assert(s@.subrange(last as int, last + q@.len()) == part@);
        if !found {
            assert forall|j: int| 0 <= j <= s@.len() - p@.len() implies #[trigger] s@.subrange(
                j,
                j + p@.len(),
            ) != p@ by {}
        }
    }
    found
}

pub fn classify(name: &str) -> (r: Term)
    ensures
        r@ == classified(name@),
{
    let n = chars_of(to_lowercase(name).as_str());
    if contains(&n, "kitty") {
        Term::Kitty
    } else if contains(&n, "ghostty") {
        Term::Ghostty
    } else if contains(&n, "wezterm") {
        Term::WezTerm
    } else {
        Term::Other(name.to_string())
    }
}

/// The variables that identify a terminal; empty where not set.
pub struct TermVars {
    pub kitty_window_id: String,
    pub term: String,
    pub ghostty_resources_dir: String,
    pub term_program: String,
    pub wezterm_executable: String,
}

pub open spec fn direct(v: TermVars) -> TermV {
    if v.kitty_window_id@.len() > 0 || v.term@ == "xterm-kitty"@ {
        TermV::Kitty
    } else if v.ghostty_resources_dir@.len() > 0 || v.term_program@ == "ghostty"@ {
        TermV::Ghostty
    } else if v.wezterm_executable@.len() > 0 || v.term_program@ == "WezTerm"@ {
        TermV::WezTerm
    } else {
        classified(v.term_program@)
    }
}

fn is_empty(s: &str) -> (r: bool)
    ensures
        r == (s@.len() == 0),
{
    chars_of(s).len() == 0
}

/// The terminal drawn to directly, from the environment.
pub fn direct_terminal(v: &TermVars) -> (r: Term)
    ensures
        r@ == direct(*v),
{
    if !is_empty(v.kitty_window_id.as_str()) || str_eq(v.term.as_str(), "xterm-kitty") {
        return Term::Kitty;
    }
    if !is_empty(v.ghostty_resources_dir.as_str()) || str_eq(v.term_program.as_str(), "ghostty") {
        return Term::Ghostty;
    }
    if !is_empty(v.wezterm_executable.as_str()) || str_eq(v.term_program.as_str(), "WezTerm") {
        return Term::WezTerm;
    }
    classify(v.term_program.as_str())
}

/// What tmux answers to what is asked of it; empty where it does not.
pub struct TmuxAnswers {
    pub allow_passthrough: String,
    pub extended_keys: String,
    pub extended_keys_format: String,
    /// The client's terminal name, type and features, with tabs between.
    pub client: String,
}

/// The part of a tab-separated text at `i`; empty where there is none.
pub open spec fn field_at(s: Seq<char>, i: int) -> Seq<char> {
    let parts = split(s, '\t');
    if 0 <= i < parts.len() {
        parts[i]
    } else {
        Seq::empty()
    }
}

/// Whether a comma-separated list has an item.
pub open spec fn lists(s: Seq<char>, item: Seq<char>) -> bool {
    split(s, ',').contains(item)
}

pub open spec fn outer_term(termname: Seq<char>, termtype: Seq<char>) -> TermV {
    match classified(termtype) {
        TermV::Other(_) => classified(termname),
        t => t,
    }
}

fn list_has(s: &Vec<char>, item: &str) -> (r: bool)
    ensures
        r == lists(s@, item@),
{
    let parts = split_chars(s, ',');
    let ghost all = split(s@, ',');
    let mut i: usize = 0;
    while i < parts.len()
        invariant
            i <= parts@.len(),
            all == views(parts@),
            all == split(s@, ','),
            forall|j: int| 0 <= j < i ==> #[trigger] all[j] != item@,
        decreases parts@.len() - i,
    {
        assert(all[i as int] == parts@[i as int]@);
        if is_text(&parts[i], item) {
            return true;
        }
        i += 1;
    }
    false
}

fn part_at(parts: &Vec<Vec<char>>, i: usize) -> (r: Vec<char>)
    ensures
        r@ == if i < parts@.len() {
            parts@[i as int]@
        } else {
            Seq::empty()
        },
{
    if i < parts.len() {
        crate::text::copy_chars(&parts[i])
    } else {
        Vec::new()
    }
}

/// What image support and keys depend on, from what tmux answers. The outer terminal is
/// identified through tmux: capability replies inside tmux describe tmux.
pub fn probe_tmux(a: &TmuxAnswers) -> (r: Tmux)
    ensures
        ({
            let features = field_at(a.client@, 2);
            &&& r.passthrough == (a.allow_passthrough@ == "on"@ || a.allow_passthrough@ == "all"@)
            &&& r.sixel == lists(features, "sixel"@)
            &&& r.outer matches Some(t) && t@ == outer_term(
                field_at(a.client@, 0),
                field_at(a.client@, 1),
            )
            &&& r.extended_keys == ((a.extended_keys@ == "on"@ || a.extended_keys@ == "always"@)
                && a.extended_keys_format@ == "csi-u"@ && lists(features, "extkeys"@))
        }),
{
    let parts = split_chars(&chars_of(a.client.as_str()), '\t');
    assert(views(parts@).len() == parts@.len());
    assert forall|i: int| 0 <= i < parts@.len() implies split(a.client@, '\t')[i]
        == #[trigger] parts@[i]@ by {
        assert(views(parts@)[i] == parts@[i]@);
    }
    let termname = part_at(&parts, 0);
    let termtype = part_at(&parts, 1);
    let features = part_at(&parts, 2);
    let outer = match classify(string_of(&termtype).as_str()) {
        Term::Other(_) => classify(string_of(&termname).as_str()),
        t => t,
    };
    Tmux {
        passthrough: str_eq(a.allow_passthrough.as_str(), "on") || str_eq(
            a.allow_passthrough.as_str(),
            "all",
        ),
        sixel: list_has(&features, "sixel"),
        outer: Some(outer),
        // Without `extkeys`, tmux never asks the outer terminal to report modifiers.
        extended_keys: (str_eq(a.extended_keys.as_str(), "on") || str_eq(
            a.extended_keys.as_str(),
            "always",
        )) && str_eq(a.extended_keys_format.as_str(), "csi-u") && list_has(&features, "extkeys"),
    }
}

pub open spec fn sixel_or_blocks(ok: bool) -> ProtocolType {
    if ok {
        ProtocolType::Sixel
    } else {
        ProtocolType::Halfblocks
    }
}

/// The protocol for a terminal, and for the tmux around, if any.
pub open spec fn protocol_for(
    detected: ProtocolType,
    direct: TermV,
    tmux: Option<(Option<TermV>, bool, bool)>,
) -> ProtocolType {
    match tmux {
        None => match direct {
            TermV::Kitty | TermV::Ghostty => ProtocolType::Kitty,
            TermV::WezTerm => ProtocolType::Iterm2,
            TermV::Other(_) => sixel_or_blocks(detected == ProtocolType::Sixel),
        },
        Some((outer, passthrough, sixel)) => if passthrough && (outer == Some(TermV::Kitty)
            || outer == Some(TermV::Ghostty)) {
            ProtocolType::Kitty
        } else {
            sixel_or_blocks(sixel)
        },
    }
}

pub open spec fn opt_term(t: Option<Term>) -> Option<TermV> {
    match t {
        Some(t) => Some(t@),
        None => None,
    }
}

/// The per-terminal override table, applied over capability detection.
///
/// Directly: Kitty and Ghostty use Kitty; WezTerm uses iTerm2; others use what was detected,
/// restricted to Sixel or halfblocks. Inside tmux only mechanisms tmux understands, or that
/// reach the screen as text, are used: Kitty Unicode placeholders (with passthrough), tmux's
/// own Sixel, or halfblocks. Pixels painted behind tmux's back (iTerm2) are never used.
pub fn choose_protocol(detected: ProtocolType, direct: &Term, tmux: Option<&Tmux>) -> (r:
    ProtocolType)
    ensures
        r == protocol_for(
            detected,
            direct@,
            match tmux {
                Some(t) => Some((opt_term(t.outer), t.passthrough, t.sixel)),
                None => None,
            },
        ),
{
    let blocks = |ok: bool| -> (p: ProtocolType)
        ensures
            p == sixel_or_blocks(ok),
        {
            if ok {
                ProtocolType::Sixel
            } else {
                ProtocolType::Halfblocks
            }
        };
    match tmux {
        None => match direct {
            Term::Kitty => ProtocolType::Kitty,
            Term::Ghostty => ProtocolType::Kitty,
            Term::WezTerm => ProtocolType::Iterm2,
            Term::Other(_) => blocks(detected == ProtocolType::Sixel),
        },
        Some(t) => {
            let kitty = match &t.outer {
                Some(Term::Kitty) => true,
                Some(Term::Ghostty) => true,
                _ => false,
            };
            if kitty && t.passthrough {
                ProtocolType::Kitty
            } else {
                blocks(t.sixel)
            }
        },
    }
}

/// Inside tmux pixels are never painted behind its back.
pub proof fn tmux_never_uses_iterm2(
    detected: ProtocolType,
    direct: TermV,
    tmux: (Option<TermV>, bool, bool),
)
    ensures
        protocol_for(detected, direct, Some(tmux)) != ProtocolType::Iterm2,
        protocol_for(detected, direct, Some(tmux)) == ProtocolType::Kitty ==> tmux.1,
{
}

/// The size of a terminal cell in pixels: as the terminal replied, or else from the size in
/// pixels and in cells that the tty reports.
pub fn cell_size(replied: Option<(u16, u16)>, width: u16, height: u16, columns: u16, rows: u16) -> (r:
    Option<(u16, u16)>)
    ensures
        r == match replied {
            Some(c) => Some(c),
            None => if width > 0 && columns > 0 && rows > 0 {
                Some(((width / columns) as u16, (height / rows) as u16))
            } else {
                None
            },
        },
{
    match replied {
        Some(c) => Some(c),
        None => if width > 0 && columns > 0 && rows > 0 {
            Some((width / columns, height / rows))
        } else {
            None
        },
    }
}

/// The image protocol: what the replies show, then the override table. Inside tmux, DA1 is
/// tmux's own answer: Sixel there means tmux was built with it, and tmux-native Sixel also
/// needs an outer terminal that draws Sixel.
pub fn pick(sixel_replied: bool, direct: &Term, tmux: Option<&Tmux>) -> (r: ProtocolType)
    ensures
        r == protocol_for(
            sixel_or_blocks(sixel_replied),
            direct@,
            match tmux {
                Some(t) => Some((opt_term(t.outer), t.passthrough, t.sixel && sixel_replied)),
                None => None,
            },
        ),
{
    let detected = if sixel_replied {
        ProtocolType::Sixel
    } else {
        ProtocolType::Halfblocks
    };
    match tmux {
        None => choose_protocol(detected, direct, None),
        Some(t) => {
            let outer = match &t.outer {
                Some(Term::Kitty) => Some(Term::Kitty),
                Some(Term::Ghostty) => Some(Term::Ghostty),
                Some(Term::WezTerm) => Some(Term::WezTerm),
                Some(Term::Other(s)) => Some(Term::Other(s.clone())),
                None => None,
            };
            let both = Tmux {
                passthrough: t.passthrough,
                sixel: t.sixel && sixel_replied,
                outer,
                extended_keys: t.extended_keys,
            };
            choose_protocol(detected, direct, Some(&both))
        },
    }
}

/// Drawn to directly, Kitty and Ghostty get Kitty's protocol and WezTerm iTerm2's, whatever
/// they reply; any other terminal gets Sixel if it says that it has it, else coloured text.
pub proof fn direct_terminals_get_their_protocol(detected: ProtocolType, name: Seq<char>)
    ensures
        protocol_for(detected, TermV::Kitty, None) == ProtocolType::Kitty,
        protocol_for(detected, TermV::Ghostty, None) == ProtocolType::Kitty,
        protocol_for(detected, TermV::WezTerm, None) == ProtocolType::Iterm2,
        detected == ProtocolType::Sixel ==> protocol_for(detected, TermV::Other(name), None)
            == ProtocolType::Sixel,
        detected != ProtocolType::Sixel ==> protocol_for(detected, TermV::Other(name), None)
            == ProtocolType::Halfblocks,
{
}

/// Inside tmux the terminal around it decides: Kitty and Ghostty get Kitty's protocol where tmux
/// lets it through; else Sixel if tmux has it, else coloured text.
pub proof fn tmux_gets_what_it_can_pass_on(
    detected: ProtocolType,
    direct: TermV,
    outer: Option<TermV>,
    passthrough: bool,
    sixel: bool,
)
    ensures
        ({
            let p = protocol_for(detected, direct, Some((outer, passthrough, sixel)));
            let kitty = outer == Some(TermV::Kitty) || outer == Some(TermV::Ghostty);
            &&& p == ProtocolType::Kitty <==> kitty && passthrough
            &&& !(kitty && passthrough) && sixel ==> p == ProtocolType::Sixel
            &&& !(kitty && passthrough) && !sixel ==> p == ProtocolType::Halfblocks
        }),
{
}

/// A terminal is known by its name, in whatever case it is written, and any other keeps its
/// name.
pub proof fn terminals_are_known_by_name(name: Seq<char>)
    ensures
        occurs(lowercased(name), "kitty"@) ==> classified(name) == TermV::Kitty,
        !occurs(lowercased(name), "kitty"@) && occurs(lowercased(name), "ghostty"@) ==> classified(
            name,
        ) == TermV::Ghostty,
        !occurs(lowercased(name), "kitty"@) && !occurs(lowercased(name), "ghostty"@) && occurs(
            lowercased(name),
            "wezterm"@,
        ) ==> classified(name) == TermV::WezTerm,
        !occurs(lowercased(name), "kitty"@) && !occurs(lowercased(name), "ghostty"@) && !occurs(
            lowercased(name),
            "wezterm"@,
        ) ==> classified(name) == TermV::Other(name),
{
}

/// A terminal that sets a variable of its own is known by it.
pub proof fn terminals_are_known_by_their_variables(v: TermVars)
    ensures
        v.kitty_window_id@.len() > 0 ==> direct(v) == TermV::Kitty,
        v.kitty_window_id@.len() == 0 && v.term@ != "xterm-kitty"@ && v.ghostty_resources_dir@.len()
            > 0 ==> direct(v) == TermV::Ghostty,
        v.kitty_window_id@.len() == 0 && v.term@ != "xterm-kitty"@ && v.ghostty_resources_dir@.len()
            == 0 && v.term_program@ != "ghostty"@ && v.wezterm_executable@.len() > 0 ==> direct(v)
            == TermV::WezTerm,
{
}

/// The outer terminal is known by what it says of itself, or else by its name.
pub proof fn outer_terminal_is_known(termname: Seq<char>, termtype: Seq<char>)
    ensures
        !(classified(termtype) is Other) ==> outer_term(termname, termtype) == classified(termtype),
        classified(termtype) is Other ==> outer_term(termname, termtype) == classified(termname),
{
}

/// A list of features, with commas between them, has each of them and nothing else.
pub proof fn list_has_its_items(items: Seq<Seq<char>>, item: Seq<char>)
    requires
        items.len() > 0,
        forall|i: int| 0 <= i < items.len() ==> !(#[trigger] items[i]).contains(','),
    ensures
        lists(crate::text::join(items, crate::text::one(',')), item) == items.contains(item),
{
    crate::text::lemma_split_join(items, ',');
}

/// What tmux says of its client stands between tabs: the terminal's name, what the terminal says
/// of itself, and its features.
pub proof fn client_fields_stand_between_tabs(fields: Seq<Seq<char>>, i: int)
    requires
        0 <= i < fields.len(),
        forall|j: int| 0 <= j < fields.len() ==> !(#[trigger] fields[j]).contains('\t'),
    ensures
        field_at(crate::text::join(fields, crate::text::one('\t')), i) == fields[i],
{
    crate::text::lemma_split_join(fields, '\t');
}

} // verus!
