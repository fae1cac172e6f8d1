use nbv::query::{has_da1, parse, Replies};

#[test]
fn parses_cell_size_and_sixel() {
    let r = parse(b"\x1b[6;20;10t\x1b[?62;4;22c");
    assert_eq!(r, Replies { cell: Some((10, 20)), sixel: true, answered: true });
    let r = parse(b"\x1b[?1;2c");
    assert_eq!(r, Replies { cell: None, sixel: false, answered: true });
    assert!(!has_da1(b"\x1b[6;20;10t"));
}

#[test]
fn other_replies_are_passed_over() {
    let r = parse(b"junk\x1b[8;24;80t\x1b[6;0;10t");
    assert_eq!(r, Replies { cell: None, sixel: false, answered: true });
    assert!(!parse(b"").answered);
    assert!(has_da1(b"\x1b[?1;2c"));
    assert!(!has_da1(b""));
}
