use microfetch::colors::{print_dots, Colors};

#[test]
fn no_color_palette_is_empty() {
    let c = Colors::new(true);
    for s in [c.reset, c.blue, c.cyan, c.green, c.yellow, c.red, c.magenta] {
        assert_eq!(s, "");
    }
}

#[test]
fn ansi_palette() {
    let c = Colors::new(false);
    assert_eq!(c.reset, "\x1b[0m");
    assert_eq!(c.blue, "\x1b[34m");
    assert_eq!(c.cyan, "\x1b[36m");
    assert_eq!(c.green, "\x1b[32m");
    assert_eq!(c.yellow, "\x1b[33m");
    assert_eq!(c.red, "\x1b[31m");
    assert_eq!(c.magenta, "\x1b[35m");
}

#[test]
fn dots_without_color() {
    assert_eq!(print_dots(&Colors::new(true)), "\u{f111}  ".repeat(6));
}

#[test]
fn dots_with_color() {
    let s = print_dots(&Colors::new(false));
    assert_eq!(
        s,
        "\x1b[34m\u{f111}  \x1b[36m\u{f111}  \x1b[32m\u{f111}  \x1b[33m\u{f111}  \x1b[31m\u{f111}  \x1b[35m\u{f111}  \x1b[0m"
    );
}
