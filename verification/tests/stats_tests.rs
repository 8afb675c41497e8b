use std::time::Duration;

use codetype::engine::ErrorEvent;
use codetype::stats::{top_mistakes, ExerciseStats, StatsCollector, TOP_MISTAKES_LIMIT};

fn err(expected: char, typed: char) -> ErrorEvent {
    ErrorEvent {
        position: 0,
        typed,
        expected,
    }
}

fn secs(n: u64) -> Duration {
    Duration::from_secs(n)
}

// Speeds and accuracy as the stats screen derives them from the counts.
fn cpm_of(s: &ExerciseStats) -> f64 {
    let minutes = s.elapsed.as_secs_f64() / 60.0;
    if minutes == 0.0 {
        0.0
    } else {
        s.correct_chars as f64 / minutes
    }
}

fn wpm_of(s: &ExerciseStats) -> f64 {
    cpm_of(s) / 5.0
}

fn accuracy_of(s: &ExerciseStats) -> f64 {
    let total = s.correct_chars + s.error_count;
    if total == 0 {
        1.0
    } else {
        s.correct_chars as f64 / total as f64
    }
}

#[test]
fn top_mistakes_empty_input_is_empty() {
    assert_eq!(top_mistakes(&[], 3), Vec::<(char, usize)>::new());
}

#[test]
fn top_mistakes_sorted_by_count_descending() {
    let errors = vec![
        err('=', 'x'),
        err('=', 'x'),
        err('=', 'x'),
        err('{', 'x'),
        err('{', 'x'),
        err(';', 'x'),
    ];
    assert_eq!(top_mistakes(&errors, 3), vec![('=', 3), ('{', 2), (';', 1)]);
}

#[test]
fn top_mistakes_ties_broken_alphabetically() {
    let errors = vec![
        err('z', 'x'),
        err('z', 'x'),
        err('a', 'x'),
        err('a', 'x'),
        err('m', 'x'),
        err('m', 'x'),
    ];
    assert_eq!(top_mistakes(&errors, 3), vec![('a', 2), ('m', 2), ('z', 2)]);
}

#[test]
fn top_mistakes_limited_to_n() {
    let errors = vec![err('a', 'x'), err('b', 'x'), err('c', 'x'), err('d', 'x')];
    assert_eq!(top_mistakes(&errors, 2).len(), 2);
}

#[test]
fn new_collector_has_empty_session() {
    let collector = StatsCollector::new();
    assert_eq!(collector.session().exercises_completed, 0);
    assert_eq!(collector.session().total_correct_chars, 0);
    assert_eq!(collector.session().total_errors, 0);
    assert_eq!(collector.session().total_time, Duration::ZERO);
    assert!(collector.error_counts().is_empty());
}

#[test]
fn finish_exercise_returns_filled_stats() {
    let mut collector = StatsCollector::new();
    let errors = vec![err('=', 'x'), err('=', 'x'), err('{', 'x')];
    let stats = collector.finish_exercise(&errors, 100, secs(60));
    assert_eq!(stats.correct_chars, 100);
    assert_eq!(stats.error_count, 3);
    assert_eq!(stats.elapsed, secs(60));
    assert_eq!(cpm_of(&stats), 100.0);
    assert_eq!(wpm_of(&stats), 20.0);
    assert!((accuracy_of(&stats) - 100.0 / 103.0).abs() < 1e-9);
    assert_eq!(stats.top_mistakes, vec![('=', 2), ('{', 1)]);
}

#[test]
fn session_totals_accumulate_across_exercises() {
    let mut collector = StatsCollector::new();
    collector.finish_exercise(&[err('=', 'x')], 50, secs(30));
    collector.finish_exercise(&[err('{', 'x'), err('{', 'x')], 70, secs(45));
    let s = collector.session();
    assert_eq!(s.exercises_completed, 2);
    assert_eq!(s.total_correct_chars, 120);
    assert_eq!(s.total_errors, 3);
    assert_eq!(s.total_time, secs(75));
}

#[test]
fn error_counts_accumulate_across_exercises() {
    let mut collector = StatsCollector::new();
    collector.finish_exercise(&[err('=', 'x'), err('{', 'x')], 10, secs(10));
    collector.finish_exercise(&[err('=', 'x'), err('=', 'x')], 10, secs(10));
    let counts = collector.error_counts();
    assert_eq!(counts.get('='), Some(3));
    assert_eq!(counts.get('{'), Some(1));
}

#[test]
fn empty_exercise_produces_clean_stats() {
    let mut collector = StatsCollector::new();
    let stats = collector.finish_exercise(&[], 0, Duration::ZERO);
    assert_eq!(stats.correct_chars, 0);
    assert_eq!(stats.error_count, 0);
    assert_eq!(wpm_of(&stats), 0.0);
    assert_eq!(cpm_of(&stats), 0.0);
    assert_eq!(accuracy_of(&stats), 1.0);
    assert!(stats.top_mistakes.is_empty());
}

// -- Further cases --

#[test]
fn top_mistakes_does_not_depend_on_error_order() {
    let a = vec![err('b', 'x'), err('a', 'x'), err('b', 'x'), err('c', 'x')];
    let b = vec![err('c', 'x'), err('b', 'x'), err('b', 'x'), err('a', 'x')];
    assert_eq!(top_mistakes(&a, 3), top_mistakes(&b, 3));
    assert_eq!(top_mistakes(&a, 3), vec![('b', 2), ('a', 1), ('c', 1)]);
}

#[test]
fn top_mistakes_keyed_by_expected_char_not_typed() {
    let errors = vec![err('=', 'a'), err('=', 'b'), err('-', '=')];
    assert_eq!(top_mistakes(&errors, TOP_MISTAKES_LIMIT), vec![('=', 2), ('-', 1)]);
}

#[test]
fn top_mistakes_with_zero_limit_is_empty() {
    let errors = vec![err('a', 'x')];
    assert!(top_mistakes(&errors, 0).is_empty());
}

#[test]
fn unknown_char_has_no_count() {
    let mut collector = StatsCollector::new();
    collector.finish_exercise(&[err('=', 'x')], 1, secs(1));
    assert_eq!(collector.error_counts().get('q'), None);
    assert!(!collector.error_counts().is_empty());
}

#[test]
fn exercise_stats_list_at_most_three_mistakes() {
    let mut collector = StatsCollector::new();
    let errors = vec![err('a', 'x'), err('b', 'x'), err('c', 'x'), err('d', 'x'), err('d', 'x')];
    let stats = collector.finish_exercise(&errors, 5, secs(5));
    assert_eq!(stats.top_mistakes, vec![('d', 2), ('a', 1), ('b', 1)]);
}
