use std::time::{Duration, Instant};

use codetype::clock::{elapsed_or_zero, format_elapsed};
use codetype::display::{display_char, exercise_label};
use codetype::exercise::{Exercise, IndentUnit};

#[test]
fn elapsed_or_zero_none_is_zero() {
    assert_eq!(elapsed_or_zero(None), Duration::ZERO);
}

#[test]
fn elapsed_or_zero_some_is_nonnegative() {
    let d = elapsed_or_zero(Some(Instant::now()));
    assert!(d < Duration::from_secs(1));
}

// -- Further cases --

#[test]
fn elapsed_time_formats_as_minutes_and_seconds() {
    assert_eq!(format_elapsed(Duration::ZERO), "0:00");
    assert_eq!(format_elapsed(Duration::from_secs(5)), "0:05");
    assert_eq!(format_elapsed(Duration::from_millis(65_900)), "1:05");
    assert_eq!(format_elapsed(Duration::from_secs(600)), "10:00");
    assert_eq!(format_elapsed(Duration::from_secs(7_322)), "122:02");
}

#[test]
fn whitespace_is_shown_with_visible_glyphs() {
    assert_eq!(display_char('\n'), "\u{21B5}");
    assert_eq!(display_char('\t'), "\u{2B7E}");
    assert_eq!(display_char(' '), "\u{2423}");
    assert_eq!(display_char('x'), "x");
}

fn at(path: &str) -> Exercise {
    Exercise {
        source_path: path.to_string(),
        byte_range: 0..1,
        text: "x".to_string(),
        indent_unit: IndentUnit::Tab,
    }
}

#[test]
fn exercise_label_keeps_last_two_components() {
    assert_eq!(exercise_label(&at("/repo/Sources/App/Order.swift")), "App/Order.swift");
    assert_eq!(exercise_label(&at("Order.swift")), "Order.swift");
    assert_eq!(exercise_label(&at("/Order.swift")), "/Order.swift");
    assert_eq!(exercise_label(&at("a/b/")), "b/");
    assert_eq!(exercise_label(&at("")), "");
}
