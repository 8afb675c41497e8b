use codetype::display::{mark_indent, palette_rows, stumbles_text, typing_lines};
use codetype::engine::{CharStatus, Mode};
use codetype::exercise::{Exercise, IndentUnit};
use codetype::screen::{footer_hint, handle_key, header_labels, start_typing, AppState, Key};
use codetype::stats::StatsCollector;
use codetype::tour::RepoTour;

fn ex(path: &str, text: &str) -> Exercise {
    Exercise {
        source_path: path.to_string(),
        byte_range: 0..text.len(),
        text: text.to_string(),
        indent_unit: IndentUnit::Spaces(4),
    }
}

fn press(
    state: AppState,
    key: Key,
    tour: &mut RepoTour,
    stats: &mut StatsCollector,
    notice: &mut Option<String>,
) -> Option<AppState> {
    handle_key(state, key, tour, stats, notice, Mode::Strict)
}

#[test]
fn typing_an_exercise_to_the_end_shows_its_stats() {
    let mut tour = RepoTour::new_in_order(vec![]);
    let mut stats = StatsCollector::new();
    let mut notice = None;
    let mut state = start_typing(ex("/r/a/b.rs", "ab"), Mode::Strict);
    state = press(state, Key::Char('x'), &mut tour, &mut stats, &mut notice).unwrap();
    state = press(state, Key::Char('a'), &mut tour, &mut stats, &mut notice).unwrap();
    assert!(matches!(state, AppState::Typing { started: Some(_), .. }));
    state = press(state, Key::Char('b'), &mut tour, &mut stats, &mut notice).unwrap();
    match &state {
        AppState::Stats { stats: s, exercise } => {
            assert_eq!(s.correct_chars, 2);
            assert_eq!(s.error_count, 1);
            assert_eq!(s.top_mistakes, vec![('a', 1)]);
            assert_eq!(exercise.text, "ab");
        }
        _ => panic!("expected the stats screen"),
    }
    assert_eq!(stats.session().exercises_completed, 1);
    assert_eq!(header_labels(&state).0, "a/b.rs");
    assert_eq!(footer_hint(&state), "");
}

#[test]
fn esc_while_typing_quits_and_unknown_keys_are_ignored() {
    let mut tour = RepoTour::new_in_order(vec![]);
    let mut stats = StatsCollector::new();
    let mut notice = None;
    let state = start_typing(ex("a.rs", "ab"), Mode::Strict);
    assert_eq!(header_labels(&state), ("a.rs".to_string(), "  0:00".to_string()));
    let state = press(state, Key::Other, &mut tour, &mut stats, &mut notice).unwrap();
    assert!(matches!(state, AppState::Typing { started: None, .. }));
    assert!(press(state, Key::Esc, &mut tour, &mut stats, &mut notice).is_none());
}

fn stats_screen(tour: &mut RepoTour, stats: &mut StatsCollector) -> AppState {
    let mut notice = None;
    let state = start_typing(ex("a.rs", "a"), Mode::Strict);
    press(state, Key::Char('a'), tour, stats, &mut notice).unwrap()
}

#[test]
fn stats_screen_keys_move_between_screens() {
    let mut tour = RepoTour::new_in_order(vec![("n.rs".to_string(), vec![ex("n.rs", "next")])]);
    let mut stats = StatsCollector::new();
    let mut notice = None;

    let state = stats_screen(&mut tour, &mut stats);
    let next = press(state, Key::Char('n'), &mut tour, &mut stats, &mut notice).unwrap();
    match &next {
        AppState::Typing { engine, started } => {
            assert_eq!(engine.exercise().text, "next");
            assert!(started.is_none());
        }
        _ => panic!("expected typing"),
    }

    let state = stats_screen(&mut tour, &mut stats);
    let retry = press(state, Key::Char('r'), &mut tour, &mut stats, &mut notice).unwrap();
    assert!(matches!(&retry, AppState::Typing { engine, .. } if engine.exercise().text == "a"));

    let state = stats_screen(&mut tour, &mut stats);
    let help = press(state, Key::Char('?'), &mut tour, &mut stats, &mut notice).unwrap();
    match &help {
        AppState::Help { prior } => match prior.as_ref() {
            AppState::Stats { stats: s, .. } => assert_eq!(s.correct_chars, 0),
            _ => panic!("expected stats under help"),
        },
        _ => panic!("expected help"),
    }
    assert_eq!(header_labels(&help).0, "help");
    let back = press(help, Key::Char('x'), &mut tour, &mut stats, &mut notice).unwrap();
    assert!(matches!(back, AppState::Stats { .. }));

    let state = stats_screen(&mut tour, &mut stats);
    assert!(press(state, Key::Char('q'), &mut tour, &mut stats, &mut notice).is_none());
}

#[test]
fn next_on_an_empty_tour_ends_the_session() {
    let mut tour = RepoTour::new_in_order(vec![]);
    let mut stats = StatsCollector::new();
    let mut notice = None;
    let state = stats_screen(&mut tour, &mut stats);
    assert!(press(state, Key::Char('n'), &mut tour, &mut stats, &mut notice).is_none());
}

fn palette_with(input: &str, tour: &mut RepoTour, stats: &mut StatsCollector) -> AppState {
    let mut notice = None;
    let state = stats_screen(tour, stats);
    let mut state = press(state, Key::Char(':'), tour, stats, &mut notice).unwrap();
    for c in input.chars() {
        state = press(state, Key::Char(c), tour, stats, &mut notice).unwrap();
    }
    state
}

#[test]
fn palette_runs_commands_and_reports_errors() {
    let mut tour = RepoTour::new_in_order(vec![]);
    let mut stats = StatsCollector::new();
    let mut notice = None;

    let state = palette_with("stats", &mut tour, &mut stats);
    assert!(matches!(&state, AppState::Palette { input, .. } if input == "stats"));
    assert_eq!(footer_hint(&state), "Enter: run  ·  Esc: quit");
    let shown = press(state, Key::Enter, &mut tour, &mut stats, &mut notice).unwrap();
    assert!(matches!(shown, AppState::SessionStats { .. }));
    assert!(notice.is_none());

    let state = palette_with("nope", &mut tour, &mut stats);
    let back = press(state, Key::Enter, &mut tour, &mut stats, &mut notice).unwrap();
    assert!(matches!(back, AppState::Stats { .. }));
    assert_eq!(notice.as_deref(), Some("error: unknown command: nope"));

    let state = palette_with("open x", &mut tour, &mut stats);
    let back = press(state, Key::Enter, &mut tour, &mut stats, &mut notice).unwrap();
    assert!(matches!(back, AppState::Stats { .. }));
    assert_eq!(notice.as_deref(), Some("command not yet implemented"));

    let state = palette_with("quitx", &mut tour, &mut stats);
    let state = press(state, Key::Backspace, &mut tour, &mut stats, &mut notice).unwrap();
    assert_eq!(notice.as_deref(), Some("command not yet implemented"));
    assert!(press(state, Key::Enter, &mut tour, &mut stats, &mut notice).is_none());
    assert!(notice.is_none());
}

#[test]
fn backspace_does_not_start_the_clock() {
    let mut tour = RepoTour::new_in_order(vec![]);
    let mut stats = StatsCollector::new();
    let mut notice = None;
    let state = start_typing(ex("a.rs", "ab"), Mode::Strict);
    let state = press(state, Key::Backspace, &mut tour, &mut stats, &mut notice).unwrap();
    assert!(matches!(state, AppState::Typing { started: None, .. }));
    let state = press(state, Key::Char('a'), &mut tour, &mut stats, &mut notice).unwrap();
    assert!(matches!(state, AppState::Typing { started: Some(_), .. }));
    let state = press(state, Key::Backspace, &mut tour, &mut stats, &mut notice).unwrap();
    assert!(matches!(state, AppState::Typing { started: Some(_), .. }));
}

#[test]
fn a_notice_stays_until_a_key_with_an_action() {
    let mut tour = RepoTour::new_in_order(vec![]);
    let mut stats = StatsCollector::new();
    let mut notice = Some("error: unknown command: nope".to_string());
    let state = start_typing(ex("a.rs", "ab"), Mode::Strict);
    let state = press(state, Key::Other, &mut tour, &mut stats, &mut notice).unwrap();
    assert_eq!(notice.as_deref(), Some("error: unknown command: nope"));
    let state = press(state, Key::Char('a'), &mut tour, &mut stats, &mut notice).unwrap();
    assert_eq!(notice.as_deref(), Some("error: unknown command: nope"));
    let state = press(state, Key::Char('b'), &mut tour, &mut stats, &mut notice).unwrap();
    assert!(matches!(state, AppState::Stats { .. }));
    assert!(notice.is_none());

    notice = Some("command not yet implemented".to_string());
    let state = press(state, Key::Char('z'), &mut tour, &mut stats, &mut notice).unwrap();
    assert!(matches!(state, AppState::Stats { .. }));
    assert_eq!(notice.as_deref(), Some("command not yet implemented"));
    let help = press(state, Key::Char('?'), &mut tour, &mut stats, &mut notice).unwrap();
    assert!(matches!(help, AppState::Help { .. }));
    assert!(notice.is_none());
}

#[test]
fn esc_quits_on_every_screen() {
    let mut tour = RepoTour::new_in_order(vec![]);
    let mut stats = StatsCollector::new();
    let mut notice = None;

    let state = stats_screen(&mut tour, &mut stats);
    let help = press(state, Key::Char('?'), &mut tour, &mut stats, &mut notice).unwrap();
    assert!(press(help, Key::Esc, &mut tour, &mut stats, &mut notice).is_none());

    let palette = palette_with("sta", &mut tour, &mut stats);
    assert!(press(palette, Key::Esc, &mut tour, &mut stats, &mut notice).is_none());

    let palette = palette_with("stats", &mut tour, &mut stats);
    let overlay = press(palette, Key::Enter, &mut tour, &mut stats, &mut notice).unwrap();
    assert!(matches!(overlay, AppState::SessionStats { .. }));
    assert_eq!(footer_hint(&overlay), "Esc: quit  ·  any other key: return");
    let palette = palette_with("stats", &mut tour, &mut stats);
    let overlay = press(palette, Key::Enter, &mut tour, &mut stats, &mut notice).unwrap();
    let back = press(overlay, Key::Char('x'), &mut tour, &mut stats, &mut notice).unwrap();
    assert!(matches!(back, AppState::Stats { .. }));
    assert!(press(stats_screen(&mut tour, &mut stats), Key::Esc, &mut tour, &mut stats, &mut notice).is_none());
    let overlay2 = press(
        palette_with("stats", &mut tour, &mut stats),
        Key::Enter,
        &mut tour,
        &mut stats,
        &mut notice,
    )
    .unwrap();
    assert!(press(overlay2, Key::Esc, &mut tour, &mut stats, &mut notice).is_none());
}

#[test]
fn typing_screen_splits_lines_and_marks_the_cursor() {
    let mut engine = codetype::engine::TypingEngine::new(ex("a.rs", "a\n\tb"));
    engine.on_char('a');
    let lines = typing_lines(&engine);
    assert_eq!(lines.len(), 2);
    assert_eq!(lines[0].len(), 2);
    assert_eq!(lines[0][0].text, "a");
    assert_eq!(lines[0][0].status, CharStatus::Correct);
    assert_eq!(lines[0][1].text, " ");
    assert!(lines[0][1].cursor);
    assert_eq!(lines[1][0].text, "    ");
    assert_eq!(lines[1][1].text, "b");
    assert_eq!(lines[1][1].status, CharStatus::Pending);
}

#[test]
fn palette_rows_show_usage_and_availability() {
    let rows = palette_rows(":o");
    assert_eq!(rows.len(), 1);
    assert_eq!(rows[0].usage, "  :open <path>");
    assert_eq!(rows[0].description, "  — open a different repo");
    assert!(!rows[0].available);
    let rows = palette_rows("");
    assert_eq!(rows.len(), 5);
    assert_eq!(rows[2].usage, "  :stats");
    assert!(rows[2].available);
}

#[test]
fn stumbles_list_glyphs_and_counts() {
    assert_eq!(stumbles_text(&[]), "—");
    assert_eq!(stumbles_text(&[('=', 3), (' ', 12)]), "=(3)  ␣(12)");
}

#[test]
fn printed_lines_show_their_indentation() {
    assert_eq!(mark_indent("    let x"), "····let x");
    assert_eq!(mark_indent("\tfn a() { }"), "→fn a() { }");
    assert_eq!(mark_indent("x y"), "x y");
    assert_eq!(mark_indent("\u{a0}z"), "?z");
}
