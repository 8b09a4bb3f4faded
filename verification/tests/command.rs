use house_automation::command::{parse_arguments, Command};

fn words(arguments: &[&str]) -> Vec<String> {
    arguments.iter().map(|word| word.to_string()).collect()
}

#[test]
fn no_arguments_uses_safe_service_paths() {
    assert_eq!(
        parse_arguments(Vec::new()).unwrap(),
        Command::Run {
            config: "/etc/house-automation/config.toml".to_owned(),
            state: "/var/lib/house-automation/state.sqlite3".to_owned(),
        }
    );
}

#[test]
fn explicit_run_paths_are_accepted_without_shell_parsing() {
    let arguments = words(&[
        "--config",
        "/run/config.toml",
        "--state",
        "/var/lib/test.sqlite3",
    ]);
    assert_eq!(
        parse_arguments(arguments).unwrap(),
        Command::Run {
            config: "/run/config.toml".to_owned(),
            state: "/var/lib/test.sqlite3".to_owned(),
        }
    );
}

#[test]
fn backup_names_its_database_and_destination() {
    assert_eq!(
        parse_arguments(words(&[
            "backup",
            "--database",
            "/var/lib/a.sqlite3",
            "--destination",
            "/var/backup/b.sqlite3",
        ]))
        .unwrap(),
        Command::Backup {
            database: "/var/lib/a.sqlite3".to_owned(),
            destination: "/var/backup/b.sqlite3".to_owned(),
        }
    );
}

#[test]
fn everything_else_is_answered_with_the_usage() {
    for arguments in [
        words(&["run"]),
        words(&["--state", "a", "--config", "b"]),
        words(&["--config", "a", "--state"]),
        words(&["backup", "--destination", "a", "--database", "b"]),
        words(&["restore", "--database", "a", "--destination", "b"]),
    ] {
        let error = parse_arguments(arguments).unwrap_err();
        assert!(error.message().starts_with("usage: house-automationd"));
    }
}
