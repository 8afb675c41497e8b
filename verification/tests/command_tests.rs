use codetype::command::{command_info_table, complete, complete_info, info, parse, Command, CommandInfo, ParseError};

#[test]
fn empty_input_is_empty_error() {
    assert_eq!(parse(""), Err(ParseError::Empty));
}

#[test]
fn whitespace_only_input_is_empty_error() {
    assert_eq!(parse("   "), Err(ParseError::Empty));
}

#[test]
fn just_colon_is_empty_error() {
    assert_eq!(parse(":"), Err(ParseError::Empty));
}

#[test]
fn surrounding_whitespace_is_trimmed() {
    assert_eq!(parse("  :quit  "), Ok(Command::Quit));
}

#[test]
fn leading_colon_optional() {
    assert_eq!(parse(":quit"), Ok(Command::Quit));
    assert_eq!(parse("quit"), Ok(Command::Quit));
}

#[test]
fn parses_stats() {
    assert_eq!(parse(":stats"), Ok(Command::Stats));
}

#[test]
fn parses_quit() {
    assert_eq!(parse(":quit"), Ok(Command::Quit));
}

#[test]
fn parses_help() {
    assert_eq!(parse(":help"), Ok(Command::Help));
}

#[test]
fn no_arg_command_with_extra_arg_errors() {
    assert_eq!(parse(":quit foo"), Err(ParseError::UnexpectedArg("quit")));
    assert_eq!(parse(":stats x"), Err(ParseError::UnexpectedArg("stats")));
    assert_eq!(parse(":help x"), Err(ParseError::UnexpectedArg("help")));
}

#[test]
fn parses_open_with_path() {
    assert_eq!(parse(":open ~/foo"), Ok(Command::Open("~/foo".to_string())));
}

#[test]
fn parses_file_with_name() {
    assert_eq!(
        parse(":file Order.swift"),
        Ok(Command::File("Order.swift".to_string()))
    );
}

#[test]
fn arg_with_internal_spaces_is_preserved() {
    assert_eq!(
        parse(":open path with spaces"),
        Ok(Command::Open("path with spaces".to_string()))
    );
}

#[test]
fn missing_arg_errors() {
    assert_eq!(parse(":open"), Err(ParseError::MissingArg("open")));
    assert_eq!(parse(":file"), Err(ParseError::MissingArg("file")));
    assert_eq!(parse(":open   "), Err(ParseError::MissingArg("open")));
}

#[test]
fn unknown_command_errors() {
    assert_eq!(parse(":nope"), Err(ParseError::Unknown("nope".to_string())));
}

#[test]
fn complete_empty_returns_all_commands() {
    assert_eq!(complete(""), vec!["open", "file", "stats", "quit", "help"]);
}

#[test]
fn complete_just_colon_returns_all_commands() {
    assert_eq!(complete(":"), vec!["open", "file", "stats", "quit", "help"]);
}

#[test]
fn complete_prefix_filters() {
    assert_eq!(complete(":f"), vec!["file"]);
    assert_eq!(complete(":h"), vec!["help"]);
    assert_eq!(complete(":s"), vec!["stats"]);
}

#[test]
fn complete_full_command_returns_itself() {
    assert_eq!(complete(":quit"), vec!["quit"]);
}

#[test]
fn complete_no_match_returns_empty() {
    assert_eq!(complete(":xyz"), Vec::<&'static str>::new());
}

#[test]
fn complete_past_first_space_returns_empty() {
    assert_eq!(complete(":file "), Vec::<&'static str>::new());
    assert_eq!(complete(":open ~/"), Vec::<&'static str>::new());
}

#[test]
fn error_messages_are_user_facing() {
    assert_eq!(ParseError::Empty.message(), "empty command");
    assert_eq!(
        ParseError::Unknown("foo".to_string()).message(),
        "unknown command: foo"
    );
    assert_eq!(
        ParseError::MissingArg("open").message(),
        "missing argument for :open"
    );
    assert_eq!(
        ParseError::UnexpectedArg("quit").message(),
        "unexpected argument for :quit"
    );
}

#[test]
fn complete_info_empty_returns_all_in_order() {
    let names: Vec<&str> = complete_info("").iter().map(|i| i.name).collect();
    assert_eq!(names, vec!["open", "file", "stats", "quit", "help"]);
}

#[test]
fn complete_info_just_colon_returns_all() {
    let names: Vec<&str> = complete_info(":").iter().map(|i| i.name).collect();
    assert_eq!(names, vec!["open", "file", "stats", "quit", "help"]);
}

#[test]
fn complete_info_prefix_filters() {
    let infos = complete_info(":s");
    assert_eq!(infos.len(), 1);
    assert_eq!(infos[0].name, "stats");
    assert!(infos[0].available);
    assert_eq!(infos[0].arg, "");
}

#[test]
fn complete_info_past_space_is_empty() {
    assert_eq!(complete_info(":open ~/"), Vec::<CommandInfo>::new());
}

#[test]
fn complete_info_marks_unavailable() {
    assert_eq!(info("open").unwrap().available, false);
    assert_eq!(info("file").unwrap().available, false);
    assert_eq!(info("stats").unwrap().available, true);
    assert_eq!(info("quit").unwrap().available, true);
    assert_eq!(info("help").unwrap().available, true);
}

#[test]
fn info_lookup_round_trips() {
    let stats = info("stats").expect("stats is a known command");
    assert_eq!(stats.name, "stats");
    assert!(stats.available);
    assert_eq!(info("nope"), None);
}

#[test]
fn command_info_descriptions_are_nonempty() {
    for i in command_info_table() {
        assert!(!i.description.is_empty(), "{} has an empty description", i.name);
    }
}

#[test]
fn every_command_info_name_parses_and_round_trips() {
    for i in command_info_table() {
        let input = if i.arg.is_empty() {
            format!(":{}", i.name)
        } else {
            format!(":{} x", i.name)
        };
        let cmd = parse(&input).expect("command table entry should parse");
        assert_eq!(cmd.name(), i.name);
    }
}

#[test]
fn command_info_arg_shape_matches_parse() {
    for i in command_info_table() {
        let bare = format!(":{}", i.name);
        if i.arg.is_empty() {
            assert!(parse(&bare).is_ok(), "{} has no arg but failed to parse bare", i.name);
        } else {
            assert_eq!(
                parse(&bare),
                Err(ParseError::MissingArg(i.name)),
                "{} has an arg shape but parsed bare",
                i.name
            );
        }
    }
}

// -- Further cases --

#[test]
fn argument_is_trimmed_but_kept_whole() {
    assert_eq!(parse(":file   Order.swift  "), Ok(Command::File("Order.swift".to_string())));
    assert_eq!(parse("::quit"), Ok(Command::Quit));
}

#[test]
fn command_name_matches_variant() {
    assert_eq!(Command::Open("x".to_string()).name(), "open");
    assert_eq!(Command::File("x".to_string()).name(), "file");
    assert_eq!(Command::Stats.name(), "stats");
    assert_eq!(Command::Quit.name(), "quit");
    assert_eq!(Command::Help.name(), "help");
}

#[test]
fn command_table_lists_every_command_in_order() {
    let names: Vec<&str> = command_info_table().iter().map(|i| i.name).collect();
    assert_eq!(names, vec!["open", "file", "stats", "quit", "help"]);
    assert_eq!(info("open").unwrap().arg, "<path>");
    assert_eq!(info("file").unwrap().arg, "<name>");
}
