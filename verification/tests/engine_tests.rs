use codetype::engine::{compute_auto_indent_mask, CharStatus, ErrorEvent, Mode, TypingEngine};
use codetype::exercise::{Exercise, IndentUnit};

fn make_exercise(text: &str) -> Exercise {
    Exercise {
        source_path: "test.swift".to_string(),
        byte_range: 0..text.len(),
        text: text.to_string(),
        indent_unit: IndentUnit::Spaces(4),
    }
}

#[test]
fn new_exercise_starts_at_cursor_zero() {
    let engine = TypingEngine::new(make_exercise("abc"));
    assert_eq!(engine.cursor(), 0);
    assert!(!engine.is_complete());
    assert!(engine.errors().is_empty());
    assert_eq!(engine.status_at(0), CharStatus::Pending);
}

#[test]
fn correct_char_advances_cursor() {
    let mut engine = TypingEngine::new(make_exercise("abc"));
    engine.on_char('a');
    assert_eq!(engine.cursor(), 1);
    assert!(engine.errors().is_empty());
    assert_eq!(engine.status_at(0), CharStatus::Correct);
    assert_eq!(engine.status_at(1), CharStatus::Pending);
}

#[test]
fn wrong_char_does_not_advance_cursor() {
    let mut engine = TypingEngine::new(make_exercise("abc"));
    engine.on_char('x');
    assert_eq!(engine.cursor(), 0);
    assert_eq!(engine.status_at(0), CharStatus::Errored);
}

#[test]
fn wrong_char_logs_error_event() {
    let mut engine = TypingEngine::new(make_exercise("abc"));
    engine.on_char('x');
    assert_eq!(
        engine.errors(),
        &[ErrorEvent {
            position: 0,
            typed: 'x',
            expected: 'a',
        }]
    );
}

#[test]
fn wrong_then_correct_advances_past() {
    let mut engine = TypingEngine::new(make_exercise("abc"));
    engine.on_char('x');
    engine.on_char('a');
    assert_eq!(engine.cursor(), 1);
    assert_eq!(engine.errors().len(), 1);
    assert_eq!(engine.status_at(0), CharStatus::Correct);
}

#[test]
fn multiple_wrong_keystrokes_log_separately() {
    let mut engine = TypingEngine::new(make_exercise("abc"));
    engine.on_char('x');
    engine.on_char('y');
    engine.on_char('z');
    assert_eq!(engine.errors().len(), 3);
    assert_eq!(engine.cursor(), 0);
}

#[test]
fn backspace_decrements_cursor() {
    let mut engine = TypingEngine::new(make_exercise("abc"));
    engine.on_char('a');
    engine.on_backspace();
    assert_eq!(engine.cursor(), 0);
    assert_eq!(engine.status_at(0), CharStatus::Pending);
}

#[test]
fn backspace_at_zero_is_noop() {
    let mut engine = TypingEngine::new(make_exercise("abc"));
    engine.on_backspace();
    assert_eq!(engine.cursor(), 0);
}

#[test]
fn backspace_does_not_erase_errors() {
    let mut engine = TypingEngine::new(make_exercise("abc"));
    engine.on_char('x');
    engine.on_char('a');
    engine.on_backspace();
    assert_eq!(engine.cursor(), 0);
    assert_eq!(engine.errors().len(), 1);
}

#[test]
fn backspace_clears_stuck_state() {
    let mut engine = TypingEngine::new(make_exercise("abc"));
    engine.on_char('x');
    assert_eq!(engine.status_at(0), CharStatus::Errored);
    engine.on_backspace();
    assert_eq!(engine.status_at(0), CharStatus::Pending);
}

#[test]
fn enter_on_newline_skips_auto_indent() {
    let mut engine = TypingEngine::new(make_exercise("a\n    b"));
    engine.on_char('a');
    engine.on_enter();
    assert_eq!(engine.cursor(), 6);
}

#[test]
fn enter_on_non_newline_logs_error() {
    let mut engine = TypingEngine::new(make_exercise("abc"));
    engine.on_enter();
    assert_eq!(engine.cursor(), 0);
    assert_eq!(
        engine.errors(),
        &[ErrorEvent {
            position: 0,
            typed: '\n',
            expected: 'a',
        }]
    );
}

#[test]
fn correct_chars_typed_excludes_auto_indent() {
    let mut engine = TypingEngine::new(make_exercise("a\n    b"));
    engine.on_char('a');
    engine.on_enter();
    engine.on_char('b');
    assert_eq!(engine.correct_chars_typed(), 3);
}

#[test]
fn is_complete_when_cursor_reaches_end() {
    let mut engine = TypingEngine::new(make_exercise("ab"));
    engine.on_char('a');
    engine.on_char('b');
    assert!(engine.is_complete());
}

#[test]
fn completed_engine_ignores_further_input() {
    let mut engine = TypingEngine::new(make_exercise("a"));
    engine.on_char('a');
    assert!(engine.is_complete());
    engine.on_char('x');
    engine.on_enter();
    engine.on_backspace();
    assert!(engine.errors().is_empty());
    assert_eq!(engine.cursor(), 1);
}

#[test]
fn strict_backspace_when_stuck_does_not_eat_previous_correct() {
    let mut engine = TypingEngine::new(make_exercise("abc"));
    engine.on_char('a');
    engine.on_char('x');
    engine.on_backspace();
    assert_eq!(engine.cursor(), 1);
    assert_eq!(engine.status_at(0), CharStatus::Correct);
    assert_eq!(engine.status_at(1), CharStatus::Pending);
}

fn lenient(text: &str) -> TypingEngine {
    TypingEngine::new_with_mode(make_exercise(text), Mode::Lenient)
}

#[test]
fn lenient_wrong_char_advances_cursor() {
    let mut engine = lenient("abc");
    engine.on_char('x');
    assert_eq!(engine.cursor(), 1);
    assert_eq!(engine.status_at(0), CharStatus::Errored);
}

#[test]
fn lenient_wrong_char_logs_error() {
    let mut engine = lenient("abc");
    engine.on_char('x');
    assert_eq!(
        engine.errors(),
        &[ErrorEvent {
            position: 0,
            typed: 'x',
            expected: 'a',
        }]
    );
}

#[test]
fn lenient_can_complete_with_errors() {
    let mut engine = lenient("abc");
    engine.on_char('x');
    engine.on_char('b');
    engine.on_char('c');
    assert!(engine.is_complete());
    assert_eq!(engine.status_at(0), CharStatus::Errored);
    assert_eq!(engine.status_at(1), CharStatus::Correct);
    assert_eq!(engine.status_at(2), CharStatus::Correct);
}

#[test]
fn lenient_correct_chars_typed_excludes_wrong_positions() {
    let mut engine = lenient("abc");
    engine.on_char('x');
    engine.on_char('b');
    engine.on_char('c');
    assert_eq!(engine.correct_chars_typed(), 2);
}

#[test]
fn lenient_backspace_then_retype_fixes_position() {
    let mut engine = lenient("abc");
    engine.on_char('x');
    engine.on_backspace();
    assert_eq!(engine.cursor(), 0);
    assert_eq!(engine.status_at(0), CharStatus::Pending);
    engine.on_char('a');
    assert_eq!(engine.status_at(0), CharStatus::Correct);
    assert_eq!(engine.errors().len(), 1);
}

#[test]
fn lenient_wrong_at_newline_skips_auto_indent() {
    let mut engine = lenient("a\n    b");
    engine.on_char('a');
    engine.on_char('x');
    assert_eq!(engine.cursor(), 6);
    assert_eq!(engine.status_at(1), CharStatus::Errored);
}

#[test]
fn lenient_completed_engine_ignores_further_input() {
    let mut engine = lenient("a");
    engine.on_char('a');
    assert!(engine.is_complete());
    let errors_before = engine.errors().len();
    engine.on_char('x');
    engine.on_enter();
    engine.on_backspace();
    assert_eq!(engine.errors().len(), errors_before);
}

#[test]
fn auto_indent_mask_basic() {
    let chars: Vec<char> = "a\n    b\n  c".chars().collect();
    let mask = compute_auto_indent_mask(&chars);
    assert_eq!(
        mask,
        vec![false, false, true, true, true, true, false, false, true, true, false]
    );
}

// -- Further cases --

#[test]
fn engine_reports_its_mode_and_text() {
    let engine = lenient("fn x");
    assert_eq!(engine.mode(), Mode::Lenient);
    assert_eq!(engine.chars(), &['f', 'n', ' ', 'x']);
    assert_eq!(engine.exercise().text, "fn x");
    let strict = TypingEngine::new(make_exercise("y"));
    assert_eq!(strict.mode(), Mode::Strict);
}

#[test]
fn backspace_after_error_restores_correct_count() {
    // Law: a correct character followed by a backspace leaves the count of
    // correctly typed characters where it was.
    let mut engine = TypingEngine::new(make_exercise("abc"));
    engine.on_char('a');
    let before = engine.correct_chars_typed();
    engine.on_char('b');
    engine.on_backspace();
    assert_eq!(engine.correct_chars_typed(), before);
    assert_eq!(engine.cursor(), 1);
}

#[test]
fn tab_indented_auto_indent_is_skipped() {
    let mut engine = TypingEngine::new(make_exercise("{\n\t\tx"));
    engine.on_char('{');
    engine.on_enter();
    assert_eq!(engine.cursor(), 4);
    assert_eq!(engine.status_at(2), CharStatus::Correct);
}

#[test]
fn status_past_end_is_pending() {
    let engine = TypingEngine::new(make_exercise("a"));
    assert_eq!(engine.status_at(5), CharStatus::Pending);
}
