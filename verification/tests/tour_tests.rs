use std::collections::HashSet;

use codetype::exercise::{Exercise, IndentUnit};
use codetype::tour::RepoTour;

fn make(text: &str) -> Exercise {
    Exercise {
        source_path: "ignored.swift".to_string(),
        byte_range: 0..text.len(),
        text: text.to_string(),
        indent_unit: IndentUnit::Spaces(4),
    }
}

fn take_texts(tour: &mut RepoTour, n: usize) -> Vec<String> {
    (0..n).map(|_| tour.next().unwrap().text).collect()
}

#[test]
fn empty_pool_returns_none() {
    let mut tour = RepoTour::new_in_order(vec![]);
    assert!(tour.is_empty());
    assert!(tour.next().is_none());
}

#[test]
fn files_with_no_exercises_are_filtered_out() {
    let mut tour = RepoTour::new_in_order(vec![("empty.swift".to_string(), Vec::new())]);
    assert!(tour.is_empty());
    assert!(tour.next().is_none());
}

#[test]
fn single_exercise_keeps_returning_itself() {
    let mut tour = RepoTour::new_in_order(vec![("A.swift".to_string(), vec![make("a0")])]);
    assert_eq!(take_texts(&mut tour, 3), vec!["a0", "a0", "a0"]);
}

#[test]
fn single_file_walks_declarations_in_order_then_wraps() {
    let mut tour = RepoTour::new_in_order(vec![(
        "A.swift".to_string(),
        vec![make("a0"), make("a1"), make("a2")],
    )]);
    assert_eq!(take_texts(&mut tour, 5), vec!["a0", "a1", "a2", "a0", "a1"]);
}

#[test]
fn two_files_alternate() {
    let mut tour = RepoTour::new_in_order(vec![
        ("A.swift".to_string(), vec![make("a0")]),
        ("B.swift".to_string(), vec![make("b0")]),
    ]);
    assert_eq!(take_texts(&mut tour, 4), vec!["a0", "b0", "a0", "b0"]);
}

#[test]
fn uneven_file_sizes_no_starvation() {
    let mut tour = RepoTour::new_in_order(vec![
        ("A.swift".to_string(), vec![make("a0")]),
        ("B.swift".to_string(), vec![make("b0"), make("b1"), make("b2")]),
    ]);
    assert_eq!(
        take_texts(&mut tour, 6),
        vec!["a0", "b0", "a0", "b1", "a0", "b2"]
    );
}

#[test]
fn three_files_distribute_evenly() {
    let mut tour = RepoTour::new_in_order(vec![
        ("A.swift".to_string(), vec![make("a0")]),
        ("B.swift".to_string(), vec![make("b0")]),
        ("C.swift".to_string(), vec![make("c0")]),
    ]);
    assert_eq!(
        take_texts(&mut tour, 9),
        vec!["a0", "b0", "c0", "a0", "b0", "c0", "a0", "b0", "c0"]
    );
}

#[test]
fn randomized_new_starts_on_varied_files() {
    let files: Vec<_> = (0..5)
        .map(|i| (format!("f{i}.swift"), vec![make(&format!("e{i}"))]))
        .collect();
    let mut seen_starts = HashSet::new();
    for _ in 0..50 {
        let mut tour = RepoTour::new(files.clone());
        seen_starts.insert(tour.next().unwrap().text);
    }
    assert!(
        seen_starts.len() >= 2,
        "expected the random shuffle to pick varied starting files; saw only {:?}",
        seen_starts
    );
}

#[test]
fn randomized_new_still_visits_every_file_in_one_cycle() {
    let files: Vec<_> = (0..4)
        .map(|i| (format!("f{i}.swift"), vec![make(&format!("e{i}"))]))
        .collect();
    let mut tour = RepoTour::new(files);
    let first_cycle: HashSet<String> = (0..4).map(|_| tour.next().unwrap().text).collect();
    assert_eq!(first_cycle.len(), 4, "expected each file visited once");
}

// -- Further cases --

#[test]
fn empty_files_are_skipped_between_others() {
    let mut tour = RepoTour::new_in_order(vec![
        ("A.swift".to_string(), vec![make("a0")]),
        ("E.swift".to_string(), vec![]),
        ("B.swift".to_string(), vec![make("b0"), make("b1")]),
    ]);
    assert!(!tour.is_empty());
    assert_eq!(take_texts(&mut tour, 5), vec!["a0", "b0", "a0", "b1", "a0"]);
}

#[test]
fn randomized_tour_keeps_every_file() {
    let mut tour = RepoTour::new(vec![
        ("A.swift".to_string(), vec![make("a0")]),
        ("E.swift".to_string(), vec![]),
        ("B.swift".to_string(), vec![make("b0")]),
    ]);
    let seen: HashSet<String> = (0..2).map(|_| tour.next().unwrap().text).collect();
    assert_eq!(seen, HashSet::from(["a0".to_string(), "b0".to_string()]));
}

#[test]
fn the_kth_visit_is_file_k_mod_n_exercise_k_div_n() {
    let mut tour = RepoTour::new_in_order(vec![
        ("a.rs".to_string(), vec![make("a0"), make("a1")]),
        ("b.rs".to_string(), vec![make("b0")]),
        ("c.rs".to_string(), vec![make("c0"), make("c1"), make("c2")]),
    ]);
    assert_eq!(
        take_texts(&mut tour, 9),
        vec!["a0", "b0", "c0", "a1", "b0", "c1", "a0", "b0", "c2"]
    );
}
