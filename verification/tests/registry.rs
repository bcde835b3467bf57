use gucli::registry::AppCommandsConfig;
use gucli::registry::LoadError;
use gucli::registry::Shell;
use gucli::docfmt::SyntaxError;
use gucli::docfmt::SyntaxKind;
use gucli::registry::UserCommand;
use gucli::registry::ValidationKind;
use gucli::registry::config_needs_write;
use gucli::registry::default_commands;
use gucli::registry::default_config_text;
use gucli::registry::load_commands;
use gucli::registry::parse_commands;
use gucli::registry::save_commands;
use gucli::registry::validate_commands;

fn cmd(id: &str, shell: Shell, command: &str, icon: &str, sn: bool) -> UserCommand {
    UserCommand {
        id: id.to_string(),
        shell,
        command: command.to_string(),
        icon: icon.to_string(),
        sn,
    }
}

#[test]
fn save_then_load_preserves_entries() {
    let cfg = AppCommandsConfig {
        commands: vec![
            cmd("a", Shell::Bash, "echo hello", "hi", true),
            cmd("b", Shell::Sh, "id", "", false),
            cmd("c", Shell::Fish, "uname -a", "12345678", true),
        ],
    };
    let doc = save_commands(&cfg);
    let loaded = load_commands(&doc).expect("round trip must load");
    assert_eq!(loaded.commands.len(), 3);
    assert_eq!(loaded.commands[0].shell, Shell::Bash);
    assert_eq!(loaded.commands[0].command, "echo hello");
    assert_eq!(loaded.commands[0].icon, "hi");
    assert!(loaded.commands[0].sn);
    assert_eq!(loaded.commands[1].shell, Shell::Sh);
    assert_eq!(loaded.commands[1].command, "id");
    assert_eq!(loaded.commands[1].icon, "");
    assert!(!loaded.commands[1].sn);
    assert_eq!(loaded.commands[2].shell, Shell::Fish);
    assert_eq!(loaded.commands[2].command, "uname -a");
}

#[test]
fn round_trip_keeps_awkward_characters() {
    let awkward = "printf '%s\n' \"quoted \\\" and \\\\ back\" \t tab";
    let with_ctrl = format!("echo {}", '\u{1}');
    let cfg = AppCommandsConfig {
        commands: vec![
            cmd("a", Shell::Zsh, awkward, "\"q\"", true),
            cmd("b", Shell::Sh, &with_ctrl, "", true),
        ],
    };
    let doc = save_commands(&cfg);
    let loaded = load_commands(&doc).expect("escaped entries must load");
    assert_eq!(loaded.commands[0].command, awkward);
    assert_eq!(loaded.commands[0].icon, "\"q\"");
    assert_eq!(loaded.commands[1].command, with_ctrl);
}

#[test]
fn round_trip_preserves_invocation_multiset_and_order() {
    let cfg = AppCommandsConfig {
        commands: vec![
            cmd("1", Shell::Sh, "third", "", true),
            cmd("2", Shell::Sh, "first", "", true),
            cmd("3", Shell::Sh, "second", "", true),
        ],
    };
    let doc = save_commands(&cfg);
    let loaded = load_commands(&doc).unwrap();
    let got: Vec<String> = loaded.commands.iter().map(|c| c.command.clone()).collect();
    assert_eq!(got, vec!["third", "first", "second"]);
}

#[test]
fn loaded_ids_are_fresh_uuids() {
    let cfg = AppCommandsConfig { commands: vec![cmd("x", Shell::Sh, "id", "", true)] };
    let doc = save_commands(&cfg);
    let loaded = load_commands(&doc).unwrap();
    assert_eq!(loaded.commands[0].id.chars().count(), 36);
}

#[test]
fn empty_command_is_rejected() {
    let doc = "[[commands]]\nshell = \"sh\"\ncommand = \"   \"\nicon = \"\"\nsn = true\n";
    match load_commands(doc) {
        Err(LoadError::Validation(v)) => {
            assert_eq!(v.index, 0);
            assert_eq!(v.kind, ValidationKind::EmptyCommand);
        },
        other => panic!("expected a validation error, got {:?}", other.is_ok()),
    }
}

#[test]
fn duplicate_command_is_rejected_at_second_index() {
    let doc = "[[commands]]\ncommand = \"id\"\n\n[[commands]]\ncommand = \"id\"\n";
    match load_commands(doc) {
        Err(LoadError::Validation(v)) => {
            assert_eq!(v.index, 1);
            assert_eq!(v.kind, ValidationKind::DuplicateCommand);
        },
        _ => panic!("expected a duplicate-command error"),
    }
}

#[test]
fn nine_scalar_icon_is_rejected() {
    let doc = "[[commands]]\ncommand = \"id\"\nicon = \"123456789\"\n";
    match load_commands(doc) {
        Err(LoadError::Validation(v)) => {
            assert_eq!(v.index, 0);
            assert_eq!(v.kind, ValidationKind::IconTooLong);
        },
        _ => panic!("expected an icon-too-long error"),
    }
}

#[test]
fn eight_scalar_icon_is_accepted() {
    let doc = "[[commands]]\ncommand = \"id\"\nicon = \"12345678\"\n";
    assert!(load_commands(doc).is_ok());
}

#[test]
fn unknown_shell_is_rejected() {
    let doc = "[[commands]]\nshell = \"ksh\"\ncommand = \"id\"\n";
    match load_commands(doc) {
        Err(LoadError::Validation(v)) => {
            assert_eq!(v.index, 0);
            assert_eq!(v.kind, ValidationKind::UnknownShell);
        },
        _ => panic!("expected an unknown-shell error"),
    }
}

#[test]
fn validation_checks_run_in_order() {
    // the first entry's first failing check wins over later entries
    let doc = "[[commands]]\nshell = \"ksh\"\ncommand = \"\"\n\n[[commands]]\ncommand = \"\"\n";
    match load_commands(doc) {
        Err(LoadError::Validation(v)) => {
            assert_eq!(v.index, 0);
            assert_eq!(v.kind, ValidationKind::EmptyCommand);
        },
        _ => panic!("expected the first entry's emptiness to win"),
    }
}

#[test]
fn defaults_shell_and_sn_apply() {
    let doc = "[[commands]]\ncommand = \"id\"\n";
    let loaded = load_commands(doc).unwrap();
    assert_eq!(loaded.commands[0].shell, Shell::Sh);
    assert_eq!(loaded.commands[0].icon, "");
    assert!(loaded.commands[0].sn);
}

#[test]
fn malformed_line_is_a_syntax_error_with_its_number() {
    let doc = "[[commands]]\ncommand = \"id\"\nwhat is this\n";
    match load_commands(doc) {
        Err(LoadError::Syntax(SyntaxError { line, kind })) => {
            assert_eq!(line, 3);
            assert_eq!(kind, SyntaxKind::MalformedLine);
        },
        _ => panic!("expected a malformed-line error"),
    }
}

#[test]
fn key_before_any_entry_is_rejected() {
    let doc = "command = \"id\"\n";
    match parse_commands(doc) {
        Err(e) => {
            assert_eq!(e.line, 1);
            assert_eq!(e.kind, SyntaxKind::EntryExpected);
        },
        _ => panic!("expected an entry-expected error"),
    }
}

#[test]
fn unknown_key_marks_old_schemas_unsupported() {
    let doc = "[[commands]]\nname = \"x\"\n";
    match parse_commands(doc) {
        Err(e) => {
            assert_eq!(e.line, 2);
            assert_eq!(e.kind, SyntaxKind::UnknownKey);
        },
        _ => panic!("expected an unknown-key error"),
    }
}

#[test]
fn bad_value_and_wrong_type_are_told_apart() {
    let doc1 = "[[commands]]\ncommand = id\n";
    match parse_commands(doc1) {
        Err(e) => assert_eq!(e.kind, SyntaxKind::BadValue),
        _ => panic!("expected a bad-value error"),
    }
    let doc2 = "[[commands]]\ncommand = true\n";
    match parse_commands(doc2) {
        Err(e) => assert_eq!(e.kind, SyntaxKind::WrongType),
        _ => panic!("expected a wrong-type error"),
    }
    let doc3 = "[[commands]]\nsn = \"yes\"\n";
    match parse_commands(doc3) {
        Err(e) => assert_eq!(e.kind, SyntaxKind::WrongType),
        _ => panic!("expected a wrong-type error for a quoted boolean"),
    }
}

#[test]
fn unterminated_string_is_rejected() {
    let doc = "[[commands]]\ncommand = \"id\n";
    match parse_commands(doc) {
        Err(e) => assert_eq!(e.kind, SyntaxKind::BadValue),
        _ => panic!("expected a bad-value error"),
    }
}

#[test]
fn comments_and_blank_lines_are_skipped() {
    let doc = "# a comment\n\n[[commands]]\n# another\ncommand = \"id\"\n\n";
    let loaded = load_commands(doc).unwrap();
    assert_eq!(loaded.commands.len(), 1);
}

#[test]
fn empty_document_loads_as_empty_set() {
    let loaded = load_commands("").unwrap();
    assert!(loaded.commands.is_empty());
}

#[test]
fn validate_accepts_a_parsed_good_document() {
    let doc = "[[commands]]\nshell = \"zsh\"\ncommand = \"id\"\nicon = \"i\"\nsn = false\n";
    let cfg = parse_commands(doc).unwrap();
    assert!(validate_commands(&cfg).is_ok());
    assert_eq!(cfg.commands[0].shell, "zsh");
    assert_eq!(cfg.commands[0].command, "id");
    assert_eq!(cfg.commands[0].icon, "i");
    assert!(!cfg.commands[0].sn);
}

#[test]
fn default_document_loads_cleanly() {
    let text = default_config_text();
    let loaded = load_commands(&text).expect("the built-in defaults must load");
    assert_eq!(loaded.commands.len(), 2);
    assert_eq!(loaded.commands[0].command, "echo $SHELL");
    assert_eq!(loaded.commands[1].command, "id");
    assert!(text.starts_with('#'));
}

#[test]
fn default_commands_are_two_sh_entries() {
    let cfg = default_commands();
    assert_eq!(cfg.commands.len(), 2);
    assert_eq!(cfg.commands[0].shell, Shell::Sh);
    assert_eq!(cfg.commands[1].shell, Shell::Sh);
    assert!(cfg.commands[0].sn && cfg.commands[1].sn);
}

#[test]
fn reset_decision_is_idempotent_unless_forced() {
    assert!(config_needs_write(false, false));
    assert!(config_needs_write(false, true));
    assert!(!config_needs_write(true, false));
    assert!(config_needs_write(true, true));
}

#[test]
fn shell_names_round_trip() {
    for (sh, name) in [
        (Shell::Sh, "sh"),
        (Shell::Bash, "bash"),
        (Shell::Zsh, "zsh"),
        (Shell::Fish, "fish"),
    ] {
        assert_eq!(sh.name(), name);
        let doc = format!("[[commands]]\nshell = \"{}\"\ncommand = \"id\"\n", name);
        let loaded = load_commands(&doc).unwrap();
        assert_eq!(loaded.commands[0].shell, sh);
    }
}
