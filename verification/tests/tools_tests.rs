use cli_toolkit::csv_clean::clean_csv_lines;
use cli_toolkit::json::JsonRead;
use cli_toolkit::gpg::{clearsigned_name, encrypted_file_name, temp_file_name};
use cli_toolkit::toml_field::{package_version, safe_update_toml_field, updated_toml_content};
use cli_toolkit::tui::{
    generate_help_text, keycode_to_char, message_of_byte, respond_to_command, App, DisplaySizes,
    ExternalizedInputBuffer, KeyOutcome, KeyboardInputBuffer, LoopAction, Message, Mode, TuiCommand,
};
use cli_toolkit::validation::{
    IntegerStringValidationRule, IntegerValidationRange, ValidationConfiguration, ValidationError,
};

// ---------------------------------------------------------------------
// JSON form of configurations
// ---------------------------------------------------------------------

#[test]
fn range_json_round_trip() {
    let r = IntegerValidationRange::new(-7, 42);
    let text = r.to_json_string();
    assert_eq!(text, "{\"min\": -7, \"max\": 42}");
    let back = IntegerValidationRange::from_json_string(&text).unwrap();
    assert_eq!(back.get_minimum_value(), -7);
    assert_eq!(back.get_maximum_value(), 42);
    let extreme = IntegerValidationRange::new(i32::MIN, i32::MAX);
    let back = IntegerValidationRange::from_json_string(&extreme.to_json_string()).unwrap();
    assert_eq!((back.get_minimum_value(), back.get_maximum_value()), (i32::MIN, i32::MAX));
}

#[test]
fn range_json_errors() {
    match IntegerValidationRange::from_json_string("{\"min\": 1}") {
        Err(ValidationError::JsonError(m)) => assert_eq!(m, "Missing min or max value"),
        _ => panic!("expected a JSON error"),
    }
    match IntegerValidationRange::from_json_string("{\"min\": x, \"max\": 2}") {
        Err(ValidationError::ParseError(m)) => assert_eq!(m, "invalid digit found in string"),
        _ => panic!("expected a parse error"),
    }
    match IntegerValidationRange::from_json_string("{\"min\": 99999999999, \"max\": 2}") {
        Err(ValidationError::ParseError(m)) => assert_eq!(m, "number too large to fit in target type"),
        _ => panic!("expected a parse error"),
    }
    match IntegerValidationRange::from_json_string("{\"min\", \"max\": 2}") {
        Err(ValidationError::JsonError(m)) => assert_eq!(m, "Missing min value"),
        _ => panic!("expected a JSON error"),
    }
}

#[test]
fn rule_json_round_trip() {
    let u = IntegerStringValidationRule::new(IntegerValidationRange::new(100, 200), 15);
    let text = u.to_json_string();
    assert_eq!(text, "{\"range\": {\"min\": 100, \"max\": 200}, \"max_string_length\": 15}");
    let back = IntegerStringValidationRule::from_json_string(&text).unwrap();
    assert_eq!(back.get_maximum_string_length(), 15);
    assert_eq!(back.get_integer_range().get_minimum_value(), 100);
    assert_eq!(back.get_integer_range().get_maximum_value(), 200);
}

#[test]
fn rule_json_errors() {
    match IntegerStringValidationRule::from_json_string("{\"range\": {\"min\": 1, \"max\": 2}}") {
        Err(ValidationError::JsonError(m)) => assert_eq!(m, "Missing range or max_string_length"),
        _ => panic!("expected a JSON error"),
    }
    match IntegerStringValidationRule::from_json_string(
        "{\"range\": {\"min\": 1, \"max\": 2}, \"max_string_length\": -3}",
    ) {
        Err(ValidationError::JsonError(m)) => assert_eq!(m, "Invalid max_string_length value"),
        _ => panic!("expected a JSON error"),
    }
}

fn sample_configuration(name: Option<String>) -> ValidationConfiguration {
    ValidationConfiguration::new(
        vec![IntegerValidationRange::new(1, 10), IntegerValidationRange::new(20, 30)],
        vec![
            IntegerStringValidationRule::new(IntegerValidationRange::new(100, 200), 15),
            IntegerStringValidationRule::new(IntegerValidationRange::new(-50, -40), 3),
        ],
        name,
    )
    .unwrap()
}

#[test]
fn configuration_json_round_trip() {
    let config = sample_configuration(Some("my rules".to_string()));
    let text = config.to_json_string().unwrap();
    assert_eq!(
        text,
        "{\n  \"name\": \"my rules\",\n  \"integer_ranges\": [\n    {\"min\": 1, \"max\": 10},\n    {\"min\": 20, \"max\": 30}\n  ],\n  \"integer_string_rules\": [\n    {\"range\": {\"min\": 100, \"max\": 200}, \"max_string_length\": 15},\n    {\"range\": {\"min\": -50, \"max\": -40}, \"max_string_length\": 3}\n  ]\n}"
    );
    let back = ValidationConfiguration::import_from_json(&text).unwrap();
    assert_eq!(back.get_configuration_name(), Some(&"my rules".to_string()));
    assert_eq!(back.get_integer_ranges().len(), 2);
    assert_eq!(back.get_integer_ranges()[1].get_minimum_value(), 20);
    assert_eq!(back.get_integer_string_rules().len(), 2);
    assert_eq!(back.get_integer_string_rules()[1].get_integer_range().get_minimum_value(), -50);
    assert_eq!(back.get_integer_string_rules()[1].get_maximum_string_length(), 3);
}

#[test]
fn configuration_name_with_colons_round_trips() {
    let config = sample_configuration(Some("rules: v2: final".to_string()));
    let text = config.to_json_string().unwrap();
    let back = ValidationConfiguration::from_json_string(&text).unwrap();
    assert_eq!(back.get_configuration_name(), Some(&"rules: v2: final".to_string()));
    assert_eq!(back.get_integer_ranges(), config.get_integer_ranges());
    assert_eq!(back.get_integer_string_rules(), config.get_integer_string_rules());
    let copy = back.clone();
    assert_eq!(copy.get_configuration_name(), Some(&"rules: v2: final".to_string()));
    assert!(copy.validate_configuration_for_overlaps().is_ok());
}

#[test]
fn empty_configuration_json_round_trip() {
    let config = ValidationConfiguration::new(vec![], vec![], None).unwrap();
    let text = config.to_json_string().unwrap();
    assert_eq!(text, "{\n  \"integer_ranges\": [],\n  \"integer_string_rules\": []\n}");
    let back = ValidationConfiguration::from_json_string(&text).unwrap();
    assert!(back.get_configuration_name().is_none());
    assert!(back.get_integer_ranges().is_empty());
    assert!(back.get_integer_string_rules().is_empty());
}

#[test]
fn importing_overlapping_configuration_fails() {
    let text = "{\"integer_ranges\": [{\"min\": 1, \"max\": 10}, {\"min\": 5, \"max\": 15}], \"integer_string_rules\": []}";
    let read = ValidationConfiguration::from_json_string(text).unwrap();
    assert_eq!(read.get_integer_ranges().len(), 2);
    match ValidationConfiguration::import_from_json(text) {
        Err(ValidationError::OverlapError(m)) => assert!(m.contains("1 range overlap(s)")),
        _ => panic!("expected an overlap error"),
    }
}

#[test]
fn json_reading_reports() {
    assert!(matches!(
        IntegerValidationRange::read_json_string("{\"min\": 5, \"max\": 1}"),
        JsonRead::MinAboveMax
    ));
    assert!(matches!(
        IntegerStringValidationRule::read_json_string(
            "{\"range\": {\"min\": 9, \"max\": 1}, \"max_string_length\": 2}"
        ),
        JsonRead::MinAboveMax
    ));
    assert!(matches!(
        ValidationConfiguration::read_json_string(
            "{\"integer_ranges\": [{\"min\": 3, \"max\": 2}], \"integer_string_rules\": []}"
        ),
        JsonRead::MinAboveMax
    ));
    match IntegerStringValidationRule::from_json_string(
        "{\"range\": {\"min\": 1, \"max\": 2}, \"max_string_length\"}",
    ) {
        Err(ValidationError::JsonError(m)) => assert_eq!(m, "Missing max_string_length value"),
        _ => panic!("expected a JSON error"),
    }
    // a name entry without a value is not a name entry
    let unnamed = ValidationConfiguration::from_json_string("{\"name\"}").unwrap();
    assert!(unnamed.get_configuration_name().is_none());
    match ValidationConfiguration::from_json_string(
        "{\"integer_ranges\": [{\"min\": 1}], \"integer_string_rules\": []}",
    ) {
        Err(ValidationError::JsonError(m)) => assert_eq!(m, "Missing min or max value"),
        _ => panic!("expected a JSON error"),
    }
}

// ---------------------------------------------------------------------
// TOML files
// ---------------------------------------------------------------------

#[test]
fn test_update_field() {
    let test_content = "directory_path = \"old/path\"\nupdated_at_timestamp = 1735690073";
    let updated_content = updated_toml_content(test_content, "new/path", "directory_path");
    assert!(updated_content.contains("directory_path = \"new/path\""));
    assert_eq!(
        updated_content,
        "directory_path = \"new/path\"\nupdated_at_timestamp = 1735690073\n"
    );
}

#[test]
fn a_field_whose_name_begins_another_keeps_the_other() {
    let updated = updated_toml_content("directory_path = \"a\"\n", "x", "directory");
    assert_eq!(updated, "directory_path = \"a\"\ndirectory = \"x\"\n");
    let again = updated_toml_content(" directory = \"a\"\ndirectory_path = \"b\"", "x", "directory");
    assert_eq!(again, "directory = \"x\"\ndirectory_path = \"b\"\n");
    // a line without `=` sets nothing
    assert_eq!(updated_toml_content("directory\n", "x", "directory"), "directory\ndirectory = \"x\"\n");
}

#[test]
fn missing_field_is_appended() {
    let updated = updated_toml_content("# Sample TOML file\n", "alice", "user_name");
    assert_eq!(updated, "# Sample TOML file\nuser_name = \"alice\"\n");
    assert_eq!(updated_toml_content("", "v", "k"), "k = \"v\"\n");
}

#[test]
fn safe_update_checks_the_request() {
    match safe_update_toml_field("a.toml", "v", "", true, "") {
        Err(m) => assert_eq!(m, "Field name cannot be empty"),
        Ok(_) => panic!("expected an error"),
    }
    match safe_update_toml_field("a.toml", "v", "k", false, "") {
        Err(m) => assert_eq!(m, "File not found: a.toml"),
        Ok(_) => panic!("expected an error"),
    }
    let update = safe_update_toml_field("a.toml", "v", "k", true, "k = \"old\"\r\nx = 1").unwrap();
    assert_eq!(update.temp_path, "a.toml.tmp");
    assert_eq!(update.content, "k = \"v\"\nx = 1\n");
}

#[test]
fn test_package_section_not_first() {
    let content = r#"[dependencies]
serde = { version = "1.0", features = ["derive"] }
tokio = { version = "1.35" }

[dev-dependencies]
version-compare = "0.1"
criterion = { version = "0.5" }

[package]
name = "get_crate_version"
version = "9.2.3"
edition = "2024"
authors = ["Test Author"]
description = "Test crate for version parsing"

[build-dependencies]
version_check = "0.9""#;
    let version = package_version(content).unwrap();
    assert_eq!(version, "9.2.3", "Should find version even when [package] is not first");
}

#[test]
fn test_standard_cargo_toml() {
    let content = r#"[package]
name = "my-crate"
version = "1.2.3"
authors = ["Someone"]

[dependencies]
serde = { version = "1.0" }"#;
    assert_eq!(package_version(content).unwrap(), "1.2.3");
}

#[test]
fn test_ignores_dependency_version() {
    let content = r#"[dependencies]
version = "999.999.999"

[package]
name = "my-crate"
version = "1.2.3""#;
    let version = package_version(content).unwrap();
    assert_eq!(version, "1.2.3", "Should find version in [package], not [dependencies]");
}

#[test]
fn test_inline_comments() {
    let content = r#"[package]
name = "my-crate"
version = "7.8.9"  # This is the version
authors = ["Someone"]"#;
    assert_eq!(package_version(content).unwrap(), "7.8.9");
}

#[test]
fn test_missing_version() {
    let content = r#"[package]
name = "my-crate"
authors = ["Someone"]

[dependencies]"#;
    assert!(package_version(content).is_none(), "Should error when version is missing");
}

#[test]
fn single_quoted_version() {
    assert_eq!(package_version("[package]\nversion = '0.4.1'\n").unwrap(), "0.4.1");
}

// ---------------------------------------------------------------------
// CSV cleaning
// ---------------------------------------------------------------------

fn lines(v: &[&str]) -> Vec<String> {
    v.iter().map(|s| s.to_string()).collect()
}

#[test]
fn multi_line_records_are_joined() {
    let input = lines(&[
        "id,title,abstract",
        "1,First,starts here",
        "and goes on",
        "2,Second,short",
        "3,Third,long",
        "still third",
        "end of third",
    ]);
    assert_eq!(
        clean_csv_lines(&input),
        lines(&[
            "id,title,abstract",
            "1,First,starts here and goes on",
            "2,Second,short",
            "3,Third,long still third end of third",
        ])
    );
}

#[test]
fn csv_edge_cases() {
    assert!(clean_csv_lines(&[]).is_empty());
    assert_eq!(clean_csv_lines(&lines(&["h"])), lines(&["h"]));
    // continuation lines before the first record are dropped
    assert_eq!(clean_csv_lines(&lines(&["h", "orphan", "7,x"])), lines(&["h", "7,x"]));
    // a first field that is no u32 does not start a record
    assert_eq!(clean_csv_lines(&lines(&["h", "1,a", "-2,b", "x"])), lines(&["h", "1,a -2,b x"]));
}

// ---------------------------------------------------------------------
// GPG file names
// ---------------------------------------------------------------------

#[test]
fn gpg_file_names() {
    assert_eq!(temp_file_name(1735690073, "notes.toml"), "gpg_temp_1735690073_notes.toml");
    assert_eq!(temp_file_name(0, "a"), "gpg_temp_0_a");
    assert_eq!(clearsigned_name("notes.toml"), "clearsigned_notes.toml");
    assert_eq!(encrypted_file_name("notes.toml"), "notes.toml.gpg");
}

// ---------------------------------------------------------------------
// Terminal interfaces
// ---------------------------------------------------------------------

#[test]
fn test_input_buffer() {
    let mut buffer = ExternalizedInputBuffer::new(true);
    assert_eq!(buffer.get_buffer(), "");
    assert!(matches!(buffer.handle_byte(b'h'), KeyOutcome::Edited));
    assert!(matches!(buffer.handle_byte(b'i'), KeyOutcome::Edited));
    assert!(matches!(buffer.handle_byte(b'x'), KeyOutcome::Edited));
    assert!(matches!(buffer.handle_byte(127), KeyOutcome::Edited));
    assert!(matches!(buffer.handle_byte(3), KeyOutcome::Ignored));
    assert_eq!(buffer.get_buffer(), "hi");
    assert_eq!(buffer.file_content(), "hi[]");
    match buffer.handle_byte(b'\n') {
        KeyOutcome::LineCompleted(line) => assert_eq!(line, "hi"),
        _ => panic!("expected a completed line"),
    }
    assert_eq!(buffer.get_buffer(), "");
    assert!(matches!(buffer.handle_byte(8), KeyOutcome::Edited));
    assert_eq!(buffer.get_buffer(), "");
    let mut plain = ExternalizedInputBuffer::new(false);
    plain.handle_byte(b' ');
    assert_eq!(plain.file_content(), " ");
    plain.clear();
    assert_eq!(plain.get_buffer(), "");
}

#[test]
fn test_display_refresh() {
    let mut sizes = DisplaySizes::new();
    assert!(!sizes.needs_refresh(0, 0, 0));
    assert!(sizes.needs_refresh(10, 0, 0));
    assert!(!sizes.needs_refresh(10, 0, 0));
    assert!(sizes.needs_refresh(10, 5, 0));
    assert!(sizes.needs_refresh(10, 5, 1));
    assert!(!sizes.needs_refresh(10, 5, 1));
}

#[test]
fn commands_are_answered() {
    let help = respond_to_command("  HELP ");
    assert_eq!(help.processing_status, "Processing command: help");
    assert_eq!(help.command, TuiCommand::Help);
    assert!(help.final_status.contains("Available Commands"));
    assert_eq!(help.final_status, generate_help_text());
    let clear = respond_to_command("clear");
    assert_eq!(clear.command, TuiCommand::Clear);
    assert_eq!(clear.final_status, "Cleared file view");
    let other = respond_to_command("invalid_command");
    assert_eq!(other.command, TuiCommand::Unrecognized);
    assert!(other.final_status.contains("Unrecognized command"));
    assert_eq!(
        other.final_status,
        "Unrecognized command: 'invalid_command'. Type 'help' for available commands."
    );
    assert_eq!(respond_to_command("Quit").command, TuiCommand::Exit);
    assert_eq!(respond_to_command("exit").final_status, "Exiting program...");
    let empty = respond_to_command("   ");
    assert_eq!(empty.command, TuiCommand::Empty);
    assert_eq!(empty.final_status, "Ready for input");
}

#[test]
fn help_text_lines() {
    assert_eq!(
        generate_help_text(),
        "Available Commands:\n- exit/quit : Exit the program\n- clear    : Clear the file view\n- help     : Show this help message\n\nPress Enter after typing command"
    );
}

#[test]
fn key_codes_map_to_characters() {
    assert_eq!(keycode_to_char(1, 16, 1), Some('q'));
    assert_eq!(keycode_to_char(1, 25, 1), Some('z'));
    assert_eq!(keycode_to_char(1, 30, 1), Some('a'));
    assert_eq!(keycode_to_char(1, 44, 1), Some('z'));
    assert_eq!(keycode_to_char(1, 50, 1), Some('\u{80}'));
    assert_eq!(keycode_to_char(1, 28, 1), Some('\n'));
    assert_eq!(keycode_to_char(1, 57, 1), Some(' '));
    assert_eq!(keycode_to_char(1, 57, 0), None);
    assert_eq!(keycode_to_char(2, 57, 1), None);
    assert_eq!(keycode_to_char(1, 99, 1), None);
}

#[test]
fn modal_viewer_messages() {
    let mut app = App::new(vec!["a.txt".to_string()], 7);
    assert_eq!(app.mode(), Mode::Refresh);
    assert_eq!(app.terminal_height(), 24);
    // typing in refresh mode is ignored while a refresh is forced
    let (redraw, action) = app.handle_message(Message::Input('x'), true);
    assert!(redraw);
    assert!(matches!(action, LoopAction::Continue));
    assert_eq!(app.input_buffer(), "");
    app.handle_message(Message::Input('l'), false);
    app.handle_message(Message::Input('s'), false);
    assert_eq!(app.input_buffer(), "ls");
    match app.handle_message(Message::Enter, false) {
        (true, LoopAction::ShowTyped(t)) => assert_eq!(t, "ls"),
        _ => panic!("expected the typed command"),
    }
    assert_eq!(app.input_buffer(), "");
    // Enter on an empty line switches modes; back to refresh mode rescans
    let (_, action) = app.handle_message(Message::Enter, false);
    assert!(matches!(action, LoopAction::Continue));
    assert_eq!(app.mode(), Mode::Insert);
    let (_, action) = app.handle_message(Message::Refresh, false);
    assert!(matches!(action, LoopAction::Continue));
    let (_, action) = app.handle_message(Message::Enter, false);
    assert!(matches!(action, LoopAction::RescanDirectory));
    assert_eq!(app.mode(), Mode::Refresh);
    let (_, action) = app.handle_message(Message::Refresh, false);
    assert!(matches!(action, LoopAction::CheckDirectory));
    app.handle_message(Message::Input('q'), false);
    let (_, action) = app.handle_message(Message::Enter, false);
    assert!(matches!(action, LoopAction::Exit));
    // Backspace
    let mut other = App::new(vec![], 0);
    other.handle_message(Message::Input('a'), false);
    other.handle_message(Message::Backspace, false);
    other.handle_message(Message::Backspace, false);
    assert_eq!(other.input_buffer(), "");
    assert!(matches!(other.handle_message(Message::Quit, false).1, LoopAction::Exit));
}

#[test]
fn modal_viewer_directory_updates() {
    let mut app = App::new(vec!["a".to_string()], 1);
    assert!(!app.directory_changed(1));
    assert!(app.directory_changed(2));
    assert!(!app.update_directory_list(1, vec!["b".to_string()]));
    assert_eq!(app.files(), &vec!["a".to_string()]);
    assert!(app.update_directory_list(2, vec!["b".to_string()]));
    assert_eq!(app.files(), &vec!["b".to_string()]);
    app.force_update_directory_list(vec![], 2);
    assert!(app.files().is_empty());
    assert_eq!(app.toggle_mode(), Mode::Refresh);
    assert_eq!(app.toggle_mode(), Mode::Insert);
    assert_eq!(app.mode(), Mode::Refresh);
    app.handle_message(Message::Input('z'), false);
    app.discard_input();
    assert_eq!(app.input_buffer(), "");
}

#[test]
fn test_process_completed_input() {
    // Test help command
    let help = respond_to_command("help");
    assert!(help.final_status.contains("Available Commands"));

    // Test clear command: the file view is emptied
    let clear = respond_to_command("clear");
    assert_eq!(clear.command, TuiCommand::Clear);

    // Test unrecognized command
    let other = respond_to_command("invalid_command");
    assert!(other.final_status.contains("Unrecognized command"));
}

#[test]
fn test_buffer_creation() {
    let buffer = KeyboardInputBuffer::new();
    assert!(buffer.get_current_content().is_empty());
}

#[test]
fn keyboard_buffer_collects_and_flushes() {
    let mut buffer = KeyboardInputBuffer::new();
    buffer.add_char('a');
    buffer.add_char('b');
    assert_eq!(buffer.get_current_content(), "ab");
    assert_eq!(buffer.flush(), "ab");
    assert_eq!(buffer.get_current_content(), "");
}

#[test]
fn terminal_bytes_become_messages() {
    assert!(matches!(message_of_byte(b'\n'), Message::Enter));
    assert!(matches!(message_of_byte(b'\r'), Message::Enter));
    assert!(matches!(message_of_byte(8), Message::Backspace));
    assert!(matches!(message_of_byte(127), Message::Backspace));
    assert!(matches!(message_of_byte(b'q'), Message::Quit));
    assert!(matches!(message_of_byte(b'Q'), Message::Input('Q')));
    assert!(matches!(message_of_byte(b' '), Message::Input(' ')));
}
