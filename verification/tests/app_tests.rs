use nalias::alias::{Alias, Shell};
use nalias::app::{
    add_alias, check_add, check_edit, doctor_conclusion, edit_alias, existing_key, install_step,
    is_affirmative, is_cmd_extension, is_stale, list_lines, path_with_bin, path_without_bin,
    prepare_run, rename_alias, report_line, show_lines, wrapper_problems, DoctorFindings,
    InstallStep, RenameOutcome, RepairSummary, WrapperState,
};
use nalias::cli::{AddArgs, Cli, Command, EditArgs};
use nalias::config::Config;
use nalias::wrapper::wrapper_file_name;
use nalias::error::NaliasError;

const T0: &str = "2026-08-04T15:00:00Z";
const T1: &str = "2026-09-01T10:00:00Z";

fn alias(command: &str) -> Alias {
    Alias {
        command: command.to_owned(),
        description: None,
        shell: Shell::Cmd,
        enabled: true,
        created_at: T0.to_owned(),
        updated_at: T0.to_owned(),
    }
}

fn seeded() -> Config {
    let mut config = Config::default();
    config.aliases.insert("old".to_owned(), alias("echo old"));
    config
}

fn add_args(name: &str, command: &str, force: bool) -> AddArgs {
    AddArgs {
        name: name.to_owned(),
        command: command.to_owned(),
        description: Some("desc".to_owned()),
        shell: Shell::Powershell,
        force,
    }
}

#[test]
fn rename_changes_config_and_wrappers() {
    let mut config = seeded();
    let outcome = rename_alias(&mut config, "OLD", "new", T1.to_owned()).unwrap();
    assert_eq!(
        outcome,
        RenameOutcome::Renamed { old_key: "old".to_owned(), new_key: "new".to_owned() }
    );
    assert!(config.get("old").is_none());
    assert!(config.get("NEW").is_some());
    assert_eq!(wrapper_file_name("old"), "old.cmd");
    assert_eq!(wrapper_file_name("NEW"), "new.cmd");
}

#[test]
fn changes_keep_the_configuration_valid() {
    let mut config = seeded();
    assert!(config.validate().is_ok());
    add_alias(&mut config, add_args("Fresh", "echo fresh", false), T1.to_owned()).unwrap();
    assert!(config.validate().is_ok());
    rename_alias(&mut config, "fresh", "Renamed", T1.to_owned()).unwrap();
    assert!(config.validate().is_ok());
    let args = EditArgs {
        name: "renamed".to_owned(),
        command: Some("echo changed".to_owned()),
        description: None,
        shell: None,
        enable: false,
        disable: true,
    };
    edit_alias(&mut config, args, T1.to_owned()).unwrap();
    assert!(config.validate().is_ok());
}

#[test]
fn rename_refuses_taken_names_and_keeps_same_name() {
    let mut config = seeded();
    config.aliases.insert("other".to_owned(), alias("echo other"));
    assert!(matches!(
        rename_alias(&mut config, "old", "OTHER", T1.to_owned()),
        Err(NaliasError::AliasExists(n)) if n == "OTHER"
    ));
    assert!(matches!(
        rename_alias(&mut config, "missing", "x", T1.to_owned()),
        Err(NaliasError::AliasNotFound(n)) if n == "missing"
    ));
    assert_eq!(
        rename_alias(&mut config, "OLD", "Old", T1.to_owned()).unwrap(),
        RenameOutcome::Unchanged("old".to_owned())
    );
    let (_, kept) = config.get("old").unwrap();
    assert_eq!(kept.updated_at, T0);
    rename_alias(&mut config, "old", "fresh", T1.to_owned()).unwrap();
    let (_, moved) = config.get("fresh").unwrap();
    assert_eq!(moved.command, "echo old");
    assert_eq!(moved.created_at, T0);
    assert_eq!(moved.updated_at, T1);
}

#[test]
fn add_stores_canonical_name_and_replaces_only_with_force() {
    let mut config = seeded();
    assert_eq!(add_alias(&mut config, add_args("GS", "git status", false), T1.to_owned()).unwrap(), "gs");
    let (name, stored) = config.get("gS").unwrap();
    assert_eq!(name, "gs");
    assert_eq!(stored.command, "git status");
    assert_eq!(stored.description.as_deref(), Some("desc"));
    assert_eq!(stored.shell, Shell::Powershell);
    assert!(stored.enabled);
    assert_eq!(stored.created_at, T1);

    assert!(matches!(
        add_alias(&mut config, add_args("Gs", "git log", false), T1.to_owned()),
        Err(NaliasError::AliasExists(n)) if n == "Gs"
    ));
    assert_eq!(config.get("gs").unwrap().1.command, "git status");

    add_alias(&mut config, add_args("OLD", "echo new", true), T1.to_owned()).unwrap();
    let (name, replaced) = config.get("old").unwrap();
    assert_eq!(name, "old");
    assert_eq!(replaced.command, "echo new");
    assert_eq!(replaced.created_at, T0);
    assert_eq!(replaced.updated_at, T1);
    assert!(config.validate().is_ok());
}

#[test]
fn add_checks_name_then_command() {
    assert!(matches!(
        check_add(&add_args("2x", "", false)),
        Err(NaliasError::InvalidAliasName { .. })
    ));
    assert!(matches!(
        check_add(&add_args("ok", "  ", false)),
        Err(NaliasError::Config(m)) if m == "alias command cannot be empty"
    ));
    assert!(check_add(&add_args("ok", "echo", false)).is_ok());
}

fn edit_args(name: &str) -> EditArgs {
    EditArgs {
        name: name.to_owned(),
        command: None,
        description: None,
        shell: None,
        enable: false,
        disable: false,
    }
}

#[test]
fn edit_changes_only_what_was_asked() {
    assert!(matches!(
        check_edit(&edit_args("old")),
        Err(NaliasError::Config(m)) if m == "edit requires at least one change option"
    ));
    let mut blank = edit_args("old");
    blank.command = Some(" ".to_owned());
    assert!(matches!(
        check_edit(&blank),
        Err(NaliasError::Config(m)) if m == "alias command cannot be empty"
    ));
    let mut config = seeded();
    let mut args = edit_args("OLD");
    args.command = Some("echo changed".to_owned());
    args.disable = true;
    assert!(check_edit(&args).is_ok());
    assert_eq!(edit_alias(&mut config, args, T1.to_owned()).unwrap(), "old");
    let (_, edited) = config.get("old").unwrap();
    assert_eq!(edited.command, "echo changed");
    assert!(!edited.enabled);
    assert_eq!(edited.shell, Shell::Cmd);
    assert_eq!(edited.created_at, T0);
    assert_eq!(edited.updated_at, T1);
    assert!(matches!(
        edit_alias(&mut config, edit_args("nope"), T1.to_owned()),
        Err(NaliasError::AliasNotFound(n)) if n == "nope"
    ));
}

#[test]
fn remove_finds_the_stored_name() {
    let mut config = seeded();
    let key = existing_key(&config, "OLD").unwrap();
    assert_eq!(key, "old");
    config.aliases.remove(&key);
    assert!(config.get("old").is_none());
    assert!(matches!(existing_key(&config, "old"), Err(NaliasError::AliasNotFound(_))));
}

#[test]
fn run_plans_enabled_aliases_only() {
    let mut config = seeded();
    let run = prepare_run(&config, "OLD", Some("outer"), &["x".to_owned()]).unwrap();
    assert_eq!(run.key, "old");
    assert_eq!(run.shell, Shell::Cmd);
    assert_eq!(run.stack, "outer;old");
    assert_eq!(run.plan.display, r#"cmd.exe /D /S /V:ON /C echo old "x""#);
    assert!(matches!(
        prepare_run(&config, "old", Some("a;OLD"), &[]),
        Err(NaliasError::Recursion(m)) if m == "old -> old"
    ));
    assert!(matches!(
        prepare_run(&config, "missing", None, &[]),
        Err(NaliasError::AliasNotFound(_))
    ));
    let mut off = alias("echo off");
    off.enabled = false;
    config.aliases.insert("off".to_owned(), off);
    assert!(matches!(
        prepare_run(&config, "OFF", None, &[]),
        Err(NaliasError::AliasDisabled(n)) if n == "off"
    ));
}

#[test]
fn list_table_pads_columns() {
    let empty = Config::default();
    assert_eq!(list_lines(&empty), ["No aliases defined."]);
    let mut config = seeded();
    let mut ps = alias("Get-Date");
    ps.shell = Shell::Powershell;
    ps.enabled = false;
    config.aliases.insert("a-long-name".to_owned(), ps);
    assert_eq!(
        list_lines(&config),
        [
            "NAME         SHELL       COMMAND",
            "a-long-name  powershell  Get-Date [disabled]",
            "old          cmd  echo old",
        ]
    );
    let mut short = Config::default();
    short.aliases.insert("x".to_owned(), alias("y"));
    assert_eq!(list_lines(&short), ["NAME  SHELL       COMMAND", "x     cmd  y"]);
}

#[test]
fn show_lists_every_field() {
    let mut a = alias("echo hi");
    a.description = Some("say hi".to_owned());
    assert_eq!(
        show_lines("hi", &a),
        [
            "Name:        hi",
            "Command:     echo hi",
            "Description: say hi",
            "Shell:       cmd",
            "Enabled:     true",
            "Created:     2026-08-04T15:00:00Z",
            "Updated:     2026-08-04T15:00:00Z",
        ]
    );
    assert_eq!(show_lines("hi", &alias("x"))[2], "Description: ");
}

#[test]
fn repair_counts_and_stale_wrappers() {
    let states = vec![
        WrapperState::Missing,
        WrapperState::Current,
        WrapperState::Mismatched,
        WrapperState::Current,
    ];
    let summary = RepairSummary::from_states(&states, 2);
    assert_eq!(
        summary,
        RepairSummary { created: 1, repaired: 1, unchanged: 2, removed: 2 }
    );
    assert_eq!(
        summary.summary_line(),
        "Wrappers: 1 created, 1 repaired, 2 unchanged, 2 removed."
    );
    let config = seeded();
    assert!(!is_stale(&config, "OLD"));
    assert!(is_stale(&config, "stale"));
    assert!(is_cmd_extension("CMD"));
    assert!(!is_cmd_extension("bat"));
}

#[test]
fn doctor_report_lines() {
    assert_eq!(report_line(true, "Wrapper directory", ""), "OK   Wrapper directory");
    assert_eq!(report_line(false, "Configuration", "bad"), "FAIL Configuration: bad");
    assert_eq!(doctor_conclusion(0), ("Doctor found no important problems.".to_owned(), 0));
    assert_eq!(doctor_conclusion(3), ("Doctor found 3 important problem(s).".to_owned(), 6));
}

#[test]
fn doctor_counts_problems() {
    let states = vec![WrapperState::Current, WrapperState::Missing, WrapperState::Mismatched];
    assert_eq!(wrapper_problems(&states, 2), 4);
    assert_eq!(wrapper_problems(&vec![WrapperState::Current], 0), 0);
    let healthy = DoctorFindings {
        root_ok: true,
        executable_ok: true,
        bin_ok: true,
        config_ok: true,
        path_ok: None,
        wrapper_problems: Some(0),
        executable_matches: Some(true),
    };
    assert_eq!(healthy.problems(), 0);
    let broken = DoctorFindings {
        root_ok: false,
        executable_ok: true,
        bin_ok: false,
        config_ok: false,
        path_ok: Some(false),
        wrapper_problems: None,
        executable_matches: Some(false),
    };
    assert_eq!(broken.problems(), 5);
    let wrappers = DoctorFindings { wrapper_problems: Some(4), path_ok: Some(true), ..healthy };
    assert_eq!(wrappers.problems(), 4);
}

#[test]
fn init_steps_and_path_changes() {
    assert_eq!(install_step(true, true, true, None), InstallStep::AlreadyRunning);
    assert_eq!(install_step(false, true, true, Some(true)), InstallStep::AlreadyMatches);
    assert_eq!(install_step(false, true, true, Some(false)), InstallStep::Install);
    assert_eq!(install_step(false, false, false, None), InstallStep::Install);
    assert_eq!(install_step(false, true, false, None), InstallStep::KeepExisting);
    assert_eq!(path_with_bin(r"C:\A", r"C:\N\bin"), Some(r"C:\A;C:\N\bin".to_owned()));
    assert_eq!(path_with_bin(r"C:\A;c:\n\BIN", r"C:\N\bin"), None);
    assert_eq!(path_without_bin(r"C:\A;C:\N\bin", r"C:\N\bin"), Some(r"C:\A".to_owned()));
    assert_eq!(path_without_bin(r"C:\A", r"C:\N\bin"), None);
}

#[test]
fn confirmation_answers() {
    for yes in ["y", "Y", " yes\n", "YES"] {
        assert!(is_affirmative(yes), "{yes:?}");
    }
    for no in ["", "n", "yeah", "ye s"] {
        assert!(!is_affirmative(no), "{no:?}");
    }
}

#[test]
fn launch_without_command_initializes() {
    let cli = Cli { verbose: false, command: None };
    match cli.into_command() {
        Command::Init(args) => assert!(args.force && !args.skip_path),
        other => panic!("unexpected {other:?}"),
    }
}
