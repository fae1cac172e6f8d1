use nbv::ansi::lines;
use nbv::style::{Color, Style};

#[test]
fn colors_and_resets() {
    let l = lines("\x1b[0;31mZeroDivisionError\x1b[0m: division", Style::default());
    assert_eq!(l.len(), 1);
    assert_eq!(l[0].spans[0].content, "ZeroDivisionError");
    assert_eq!(l[0].spans[0].style.fg, Some(Color::Red));
    assert_eq!(l[0].spans[1].style.fg, None);
    let l = lines("a\x1b[38;2;1;2;3mb\x1b[38;5;200mc", Style::default());
    assert_eq!(l[0].spans[1].style.fg, Some(Color::Rgb(1, 2, 3)));
    assert_eq!(l[0].spans[2].style.fg, Some(Color::Indexed(200)));
}

#[test]
fn carriage_returns_and_tabs() {
    let l = lines("10%\r50%\r100%\nx\ty", Style::default());
    assert_eq!(l[0].spans[0].content, "100%");
    assert_eq!(l[1].spans[0].content, "x       y");
}

#[test]
fn emphasis_and_background() {
    let l = lines("\x1b[1;4;44mx\x1b[22my", Style::default());
    assert!(l[0].spans[0].style.added.bold && l[0].spans[0].style.added.underlined);
    assert_eq!(l[0].spans[0].style.bg, Some(Color::Blue));
    assert!(!l[0].spans[1].style.added.bold);
}
