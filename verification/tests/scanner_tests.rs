use codetype::scanner::{count_lines, list_tracked_files, under_line_limit, RepoScanner, DEFAULT_MAX_LINES};

#[test]
fn count_lines_empty_file() {
    assert_eq!(count_lines(b""), 0);
}

#[test]
fn count_lines_with_trailing_newline() {
    assert_eq!(count_lines(b"one\ntwo\n"), 2);
}

#[test]
fn count_lines_without_trailing_newline() {
    assert_eq!(count_lines(b"one\ntwo"), 2);
}

// -- Further cases --

#[test]
fn line_limit_is_inclusive_and_drops_unreadable_files() {
    assert!(under_line_limit(Some(10), 10));
    assert!(!under_line_limit(Some(11), 10));
    assert!(!under_line_limit(None, 10));
}

#[test]
fn listed_files_are_joined_onto_the_root() {
    let listed = list_tracked_files("/repo", b"a.swift\nSources/Sub/Item.swift\n");
    assert_eq!(listed, vec!["/repo/a.swift", "/repo/Sources/Sub/Item.swift"]);
    assert!(list_tracked_files("/repo", b"").is_empty());
    assert_eq!(list_tracked_files("/repo/", b"x.rs"), vec!["/repo/x.rs"]);
}

#[test]
fn invalid_utf8_in_a_listing_is_replaced() {
    let listed = list_tracked_files("/r", &[b'a', 0xFF, b'\n']);
    assert_eq!(listed, vec!["/r/a\u{FFFD}"]);
}

#[test]
fn scan_keeps_matching_extensions_within_the_cap() {
    let scanner = RepoScanner::new("/repo", vec!["swift"]).with_max_lines(10);
    assert_eq!(scanner.root(), "/repo");
    assert_eq!(scanner.max_lines(), 10);
    let listed = vec![
        "/repo/a.swift".to_string(),
        "/repo/b.swift".to_string(),
        "/repo/c.py".to_string(),
        "/repo/big.swift".to_string(),
        "/repo/gone.swift".to_string(),
    ];
    let counts = vec![Some(1), Some(3), Some(1), Some(50), None];
    assert_eq!(scanner.scan(&listed, &counts), vec!["/repo/a.swift", "/repo/b.swift"]);
}

#[test]
fn scan_supports_several_extensions() {
    let scanner = RepoScanner::new("/repo", vec!["swift", "py"]);
    assert_eq!(scanner.max_lines(), DEFAULT_MAX_LINES);
    let listed = vec!["/repo/a.swift".to_string(), "/repo/b.py".to_string(), "/repo/c.rs".to_string()];
    let counts = vec![Some(1), Some(1), Some(1)];
    assert_eq!(scanner.scan(&listed, &counts), vec!["/repo/a.swift", "/repo/b.py"]);
    assert!(scanner.extension_matches("/repo/x.py"));
    assert!(!scanner.extension_matches("/repo/.swift"));
    assert!(!scanner.extension_matches("/repo/swift"));
}
