use nbv::terminal::{
    cell_size, choose_protocol, classify, direct_terminal, pick, probe_tmux, ProtocolType, Term, TermVars, Tmux,
    TmuxAnswers,
};

#[test]
fn direct_table() {
    let d = ProtocolType::Halfblocks;
    assert_eq!(choose_protocol(d, &Term::Kitty, None), ProtocolType::Kitty);
    assert_eq!(choose_protocol(d, &Term::Ghostty, None), ProtocolType::Kitty);
    assert_eq!(choose_protocol(ProtocolType::Kitty, &Term::WezTerm, None), ProtocolType::Iterm2);
    assert_eq!(choose_protocol(ProtocolType::Sixel, &Term::Other("foot".into()), None), ProtocolType::Sixel);
    assert_eq!(choose_protocol(ProtocolType::Kitty, &Term::Other("x".into()), None), ProtocolType::Halfblocks);
}

#[test]
fn tmux_never_uses_iterm2_and_needs_passthrough_for_kitty() {
    let d = ProtocolType::Kitty;
    let mut t = Tmux { outer: Some(Term::Ghostty), passthrough: true, ..Default::default() };
    assert_eq!(choose_protocol(d, &Term::Other("tmux".into()), Some(&t)), ProtocolType::Kitty);
    t.passthrough = false;
    assert_eq!(choose_protocol(d, &Term::Other("tmux".into()), Some(&t)), ProtocolType::Halfblocks);
    let w = Tmux { outer: Some(Term::WezTerm), passthrough: true, sixel: true, ..Default::default() };
    assert_eq!(choose_protocol(d, &Term::WezTerm, Some(&w)), ProtocolType::Sixel);
    let w = Tmux { outer: Some(Term::WezTerm), passthrough: true, ..Default::default() };
    assert_eq!(choose_protocol(d, &Term::WezTerm, Some(&w)), ProtocolType::Halfblocks);
}

fn vars(kitty: &str, term: &str, ghostty: &str, program: &str, wezterm: &str) -> TermVars {
    TermVars {
        kitty_window_id: kitty.into(),
        term: term.into(),
        ghostty_resources_dir: ghostty.into(),
        term_program: program.into(),
        wezterm_executable: wezterm.into(),
    }
}

#[test]
fn terminals_are_told_apart() {
    assert_eq!(classify("xterm-KITTY"), Term::Kitty);
    assert_eq!(classify("ghostty 1.0"), Term::Ghostty);
    assert_eq!(classify("WezTerm 2024"), Term::WezTerm);
    assert_eq!(classify("foot"), Term::Other("foot".into()));
    assert_eq!(direct_terminal(&vars("1", "", "", "WezTerm", "")), Term::Kitty);
    assert_eq!(direct_terminal(&vars("", "xterm-256color", "/r", "", "")), Term::Ghostty);
    assert_eq!(direct_terminal(&vars("", "", "", "WezTerm", "")), Term::WezTerm);
    assert_eq!(direct_terminal(&vars("", "", "", "iTerm.app", "")), Term::Other("iTerm.app".into()));
}

#[test]
fn tmux_is_asked_what_it_passes_on() {
    let a = TmuxAnswers {
        allow_passthrough: "all".into(),
        extended_keys: "on".into(),
        extended_keys_format: "csi-u".into(),
        client: "xterm-256color\tghostty 1.2\textkeys,sixel,RGB".into(),
    };
    let t = probe_tmux(&a);
    assert!(t.passthrough && t.sixel && t.extended_keys);
    assert_eq!(t.outer, Some(Term::Ghostty));
    let a = TmuxAnswers {
        allow_passthrough: "off".into(),
        extended_keys: "on".into(),
        extended_keys_format: "xterm".into(),
        client: "xterm-kitty".into(),
    };
    let t = probe_tmux(&a);
    assert!(!t.passthrough && !t.sixel && !t.extended_keys);
    assert_eq!(t.outer, Some(Term::Kitty));
}

#[test]
fn tmux_sixel_needs_both_sides() {
    let t = Tmux { outer: Some(Term::Other("foot".into())), sixel: true, ..Default::default() };
    assert_eq!(pick(true, &Term::Kitty, Some(&t)), ProtocolType::Sixel);
    assert_eq!(pick(false, &Term::Kitty, Some(&t)), ProtocolType::Halfblocks);
    assert_eq!(pick(true, &Term::Other("foot".into()), None), ProtocolType::Sixel);
}

#[test]
fn cell_sizes_come_from_the_terminal_or_the_tty() {
    assert_eq!(cell_size(Some((9, 18)), 0, 0, 0, 0), Some((9, 18)));
    assert_eq!(cell_size(None, 800, 480, 80, 24), Some((10, 20)));
    assert_eq!(cell_size(None, 0, 480, 80, 24), None);
}
