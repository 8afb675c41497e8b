use codetype::scores::{
    civil_from_days, config_value, date_of_unix_seconds, is_header_row, is_separator_row,
    parse_board, render_board, resolve_identity, sanitize_name, split_row, today,
    DEFAULT_PREAMBLE, HEADER, SEPARATOR,
};

#[test]
fn civil_from_days_known_dates() {
    assert_eq!(civil_from_days(0), (1970, 1, 1));
    assert_eq!(civil_from_days(365), (1971, 1, 1));
    assert_eq!(civil_from_days(730), (1972, 1, 1));
    assert_eq!(civil_from_days(19723), (2024, 1, 1));
}

#[test]
fn sanitize_name_strips_table_breakers() {
    assert_eq!(sanitize_name("a|b"), "a b");
    assert_eq!(sanitize_name("Luca\n"), "Luca");
    assert_eq!(sanitize_name("  Ada  Lovelace  "), "Ada Lovelace");
}

#[test]
fn identity_override_is_sanitized() {
    let id = resolve_identity(Some("ev|l"), None, None).unwrap();
    assert_eq!(id.name, "ev l");
}

// -- Further cases --

#[test]
fn civil_from_days_handles_leap_days_and_negative_counts() {
    assert_eq!(civil_from_days(59), (1970, 3, 1));
    assert_eq!(civil_from_days(789), (1972, 2, 29));
    assert_eq!(civil_from_days(-1), (1969, 12, 31));
    assert_eq!(civil_from_days(11016), (2000, 02, 29));
    assert_eq!(civil_from_days(-719468), (0, 3, 1));
}

#[test]
fn unix_seconds_format_as_iso_dates() {
    assert_eq!(date_of_unix_seconds(0), "1970-01-01");
    assert_eq!(date_of_unix_seconds(86_399), "1970-01-01");
    assert_eq!(date_of_unix_seconds(1_780_531_200), "2026-06-04");
}

#[test]
fn today_is_an_iso_date() {
    let t = today();
    assert_eq!(t.len(), 10);
    assert_eq!(&t[4..5], "-");
    assert_eq!(&t[7..8], "-");
    assert!(t.as_str() >= "2024-01-01");
}

#[test]
fn identity_falls_back_to_git_name_then_email() {
    let id = resolve_identity(None, Some("Ada".to_string()), Some("ada@x".to_string())).unwrap();
    assert_eq!(id.name, "Ada");
    let id = resolve_identity(Some("   "), None, Some("ada@x".to_string())).unwrap();
    assert_eq!(id.name, "ada@x");
    assert!(resolve_identity(None, None, None).is_none());
    assert!(resolve_identity(Some("|"), None, None).is_none());
}

#[test]
fn git_config_output_is_trimmed() {
    assert_eq!(config_value(b"Ada Lovelace\n".to_vec()), Some("Ada Lovelace".to_string()));
    assert_eq!(config_value(b"  \n".to_vec()), None);
    assert_eq!(config_value(vec![0xFF, b'a']), None);
}

#[test]
fn rows_split_into_trimmed_cells() {
    assert_eq!(split_row("| a | b |"), vec!["a", "b"]);
    assert_eq!(split_row("| a | b"), vec!["a", "b"]);
    assert_eq!(split_row("a | b |"), vec!["a", "b"]);
    assert_eq!(split_row("|  |"), vec![""]);
    assert_eq!(split_row("| a || b |"), vec!["a", "", "b"]);
}

#[test]
fn header_and_separator_rows_are_recognized() {
    assert!(is_header_row(HEADER));
    assert!(is_header_row("| Player | Lang"));
    assert!(!is_header_row("| Luca | rust |"));
    assert!(is_separator_row(SEPARATOR));
    assert!(is_separator_row("| --- | ---"));
    assert!(!is_separator_row("| --- | x |"));
    assert!(!is_separator_row("| --- | |"));
}

#[test]
fn empty_document_gets_the_default_preamble() {
    let board = parse_board("");
    assert_eq!(board.preamble, DEFAULT_PREAMBLE);
    assert!(board.rows.is_empty());
    assert!(board.preamble.contains("CodeType Leaderboard"));
}

#[test]
fn document_without_table_is_all_preamble() {
    let board = parse_board("# Notes\n\nsome text\n\n");
    assert_eq!(board.preamble, "# Notes\n\nsome text");
    assert!(board.rows.is_empty());
}

#[test]
fn board_rows_survive_without_a_trailing_pipe() {
    let doc = "# CodeType Leaderboard\n\n\
        | Player | Lang | Best WPM | Avg WPM | Accuracy | Sessions | Last played\n\
        | --- | --- | ---: | ---: | ---: | ---: | ---\n\
        | Luca | rust | 71.0 | 71.0 | 95.0% | 1 | 2026-06-04\n";
    let board = parse_board(doc);
    assert_eq!(board.preamble, "# CodeType Leaderboard");
    assert_eq!(board.rows, vec!["| Luca | rust | 71.0 | 71.0 | 95.0% | 1 | 2026-06-04"]);
    assert_eq!(split_row(&board.rows[0])[5], "1");
}

#[test]
fn board_keeps_unreadable_rows_and_stops_at_prose() {
    let doc = "# Our Team Board\n\nType fast or perish.\n\n\
        | Player | Lang | Best WPM | Avg WPM | Accuracy | Sessions | Last played |\n\
        | --- | --- | ---: | ---: | ---: | ---: | --- |\n\
        | Luca | rust | 71.0 | 71.0 | 95.0% | 1 | 2026-06-04 |\n\
          | Mallory | rust | not-a-number | hax | 999 | x | yesterday |  \n\
        trailing prose\n\
        | After | prose |\n";
    let board = parse_board(doc);
    assert_eq!(board.preamble, "# Our Team Board\n\nType fast or perish.");
    assert_eq!(
        board.rows,
        vec![
            "| Luca | rust | 71.0 | 71.0 | 95.0% | 1 | 2026-06-04 |",
            "| Mallory | rust | not-a-number | hax | 999 | x | yesterday |",
        ]
    );
}

#[test]
fn render_then_parse_board_round_trips() {
    let rows = vec![
        "| Luca | overall | 71.0 | 71.0 | 95.0% | 1 | 2026-06-04 |".to_string(),
        "| Luca | rust | 71.0 | 71.0 | 95.0% | 1 | 2026-06-04 |".to_string(),
    ];
    let rendered = render_board(DEFAULT_PREAMBLE, &rows);
    assert!(rendered.starts_with(DEFAULT_PREAMBLE));
    assert!(rendered.ends_with("2026-06-04 |\n"));
    let board = parse_board(&rendered);
    assert_eq!(board.preamble, DEFAULT_PREAMBLE);
    assert_eq!(board.rows, rows);
    assert_eq!(render_board(&board.preamble, &board.rows), rendered);
}

#[test]
fn pipe_safe_names_stay_in_their_cell() {
    let name = sanitize_name("a|b");
    let row = format!("| {} | rust | 70.0 | 70.0 | 95.0% | 1 | 2026-06-04 |", name);
    assert_eq!(split_row(&row).len(), 7);
    assert_eq!(split_row(&row)[0], "a b");
}
