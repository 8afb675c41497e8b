use codetype::extractor::registry::{available, by_name, detect_dominant, is_alias, supported_names, Language};
use codetype::extractor::LanguageConfig;

fn paths(names: &[&str]) -> Vec<String> {
    names.iter().map(|n| n.to_string()).collect()
}

#[test]
fn by_name_resolves_canonical_names() {
    assert_eq!(by_name("swift").unwrap().language(), "swift");
    assert_eq!(by_name("rust").unwrap().language(), "rust");
    assert_eq!(by_name("typescript").unwrap().language(), "typescript");
}

#[test]
fn by_name_is_case_insensitive_and_trims() {
    assert_eq!(by_name("  Rust ").unwrap().language(), "rust");
}

#[test]
fn by_name_accepts_aliases() {
    assert_eq!(by_name("ts").unwrap().language(), "typescript");
    assert_eq!(by_name("rs").unwrap().language(), "rust");
}

#[test]
fn by_name_unknown_is_none() {
    assert!(by_name("cobol").is_none());
}

#[test]
fn detect_picks_the_majority_language() {
    let files = paths(&["a.ts", "b.ts", "c.ts", "d.rs", "e.swift"]);
    assert_eq!(detect_dominant(&files).unwrap().language(), "typescript");
}

#[test]
fn detect_ignores_unknown_extensions() {
    let files = paths(&["a.py", "b.go", "c.rs", "README.md"]);
    assert_eq!(detect_dominant(&files).unwrap().language(), "rust");
}

#[test]
fn detect_none_when_no_supported_files() {
    let files = paths(&["a.py", "b.go", "README.md"]);
    assert!(detect_dominant(&files).is_none());
}

#[test]
fn detect_tie_breaks_by_registry_order() {
    let files = paths(&["a.rs", "b.swift"]);
    assert_eq!(detect_dominant(&files).unwrap().language(), "swift");
}

// -- Further cases --

#[test]
fn registry_lists_languages_in_priority_order() {
    let names: Vec<&str> = available().iter().map(|l| l.language()).collect();
    assert_eq!(names, vec!["swift", "rust", "typescript"]);
    assert_eq!(supported_names(), "swift, rust, typescript");
}

#[test]
fn aliases_are_only_ts_and_rs() {
    assert!(is_alias("typescript", "ts"));
    assert!(is_alias("rust", "rs"));
    assert!(!is_alias("swift", "sw"));
    assert!(!is_alias("rust", "ts"));
}

#[test]
fn language_extensions_are_claimed() {
    assert_eq!(Language::Swift.extensions(), vec!["swift"]);
    assert_eq!(Language::Rust.extensions(), vec!["rs"]);
    assert_eq!(Language::TypeScript.extensions(), vec!["ts"]);
}

#[test]
fn detect_counts_files_in_subdirectories() {
    let files = paths(&["src/a.rs", "src/b.rs", "x/y.swift", "dir.ts/readme"]);
    assert_eq!(detect_dominant(&files), Some(Language::Rust));
}
