use ttfx::utils::geometry::Coord;
use ttfx::utils::graphics::{Color, ColorPair, Style};
use ttfx::utils::text::{grid_size, push_decimal, split_rows};

fn style_with(bold: bool, foreground: Option<Color>, background: Option<Color>) -> Style {
    let mut style = Style::default();
    style.bold = bold;
    style.colors = ColorPair::new(foreground, background);
    style
}

#[test]
fn color_constructors_build_the_variants() {
    assert_eq!(Color::rgb(1, 2, 3), Color::Rgb { r: 1, g: 2, b: 3 });
    assert_eq!(Color::ansi(200), Color::Ansi(200));
}

#[test]
fn color_pair_constructors() {
    let red = Color::rgb(255, 0, 0);
    assert_eq!(ColorPair::foreground(red), ColorPair { foreground: Some(red), background: None });
    assert_eq!(ColorPair::background(red), ColorPair { foreground: None, background: Some(red) });
    assert_eq!(ColorPair::default(), ColorPair::new(None, None));
}

#[test]
fn plain_style_has_no_escape_sequence() {
    let style = Style::default();
    assert!(style.is_default());
    assert_eq!(style.ansi_prefix(), "");
}

#[test]
fn rgb_foreground_escape_sequence() {
    let style = Style::default().with_foreground(Color::rgb(1, 22, 255));
    assert!(!style.is_default());
    assert_eq!(style.ansi_prefix(), "\x1b[38;2;1;22;255m");
}

#[test]
fn ansi_background_escape_sequence() {
    let style = Style::default().with_background(Color::ansi(7));
    assert_eq!(style.ansi_prefix(), "\x1b[48;5;7m");
}

#[test]
fn attributes_come_before_colours() {
    let style = style_with(true, Some(Color::rgb(1, 2, 3)), Some(Color::ansi(100)));
    assert_eq!(style.ansi_prefix(), "\x1b[1;38;2;1;2;3;48;5;100m");
}

#[test]
fn every_attribute_in_order() {
    let mut style = Style::default();
    style.bold = true;
    style.dim = true;
    style.italic = true;
    style.underline = true;
    style.blink = true;
    style.reverse = true;
    style.hidden = true;
    style.strike = true;
    assert_eq!(style.ansi_prefix(), "\x1b[1;2;3;4;5;7;8;9m");
}

#[test]
fn single_attribute_is_not_default() {
    let mut style = Style::default();
    style.dim = true;
    assert!(!style.is_default());
    assert_eq!(style.ansi_prefix(), "\x1b[2m");
}

#[test]
fn with_foreground_keeps_the_rest() {
    let style = style_with(true, None, Some(Color::ansi(4)));
    let coloured = style.with_foreground(Color::ansi(9));
    assert!(coloured.bold);
    assert_eq!(coloured.colors.background, Some(Color::ansi(4)));
    assert_eq!(coloured.colors.foreground, Some(Color::ansi(9)));
}

#[test]
fn decimal_spelling() {
    let mut out = String::from("x");
    push_decimal(&mut out, 0);
    push_decimal(&mut out, 7);
    push_decimal(&mut out, 42);
    push_decimal(&mut out, 255);
    assert_eq!(out, "x0742255");
}

#[test]
fn coord_arithmetic_inverts() {
    let a = Coord::new(3, -4);
    let b = Coord::new(-10, 7);
    assert_eq!(a + b, Coord::new(-7, 3));
    assert_eq!((a + b) - b, a);
    assert_eq!(a.offset(1, 1), Coord::new(4, -3));
}

#[test]
fn manhattan_distance_is_symmetric() {
    let a = Coord::new(3, -4);
    let b = Coord::new(-10, 7);
    assert_eq!(a.manhattan_distance(b), 24);
    assert_eq!(b.manhattan_distance(a), 24);
    assert_eq!(a.manhattan_distance(a), 0);
}

#[test]
fn manhattan_triangle_inequality() {
    let a = Coord::new(0, 0);
    let b = Coord::new(5, 1);
    let c = Coord::new(2, 9);
    assert!(a.manhattan_distance(c) <= a.manhattan_distance(b) + b.manhattan_distance(c));
}

#[test]
fn rows_of_empty_text_is_one_empty_row() {
    assert_eq!(split_rows(""), vec![Vec::<char>::new()]);
}

#[test]
fn rows_split_at_newlines() {
    assert_eq!(split_rows("ab\ncd"), vec![vec!['a', 'b'], vec!['c', 'd']]);
}

#[test]
fn rows_drop_final_newline_and_carriage_returns() {
    assert_eq!(split_rows("ab\r\n\ncd\n"), vec![vec!['a', 'b'], vec![], vec!['c', 'd']]);
}

#[test]
fn bare_carriage_return_stays() {
    assert_eq!(split_rows("a\rb\r"), vec![vec!['a', '\r', 'b', '\r']]);
}

#[test]
fn only_newline_is_one_empty_row() {
    assert_eq!(split_rows("\n"), vec![Vec::<char>::new()]);
}

#[test]
fn rows_keep_wide_characters() {
    assert_eq!(split_rows("█é\n"), vec![vec!['█', 'é']]);
}

#[test]
fn rows_rejoin_to_the_text() {
    let text = "one\ntwo three\n\nfour";
    let rows = split_rows(text);
    let joined: Vec<String> = rows.iter().map(|row| row.iter().collect()).collect();
    assert_eq!(joined.join("\n"), text);
    assert!(rows.iter().all(|row| !row.contains(&'\n')));
}

#[test]
fn grid_size_of_rows() {
    assert_eq!(grid_size(&split_rows("abc\nde\n")), (3, 2));
    assert_eq!(grid_size(&split_rows("")), (1, 1));
    assert_eq!(grid_size(&Vec::new()), (1, 1));
    assert_eq!(grid_size(&split_rows("\n\n")), (1, 2));
}
