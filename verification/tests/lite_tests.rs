use nalias::lite::args::{parse_values, Command, HELP};
use nalias::lite::commands::{
    check_command, lite_add_check, lite_remove_check, lite_validate_name, list_line,
};
use nalias::lite::wrapper::{hex_text, is_lite_marked, lite_entry, lite_wrapper_text, unhex};
use nalias::lite::paths::{add_path_entry, AppPaths, HOME_OVERRIDE};
use nalias::lite::platform;

fn values(items: &[&str]) -> Vec<String> {
    items.iter().map(|item| (*item).to_owned()).collect()
}

#[test]
fn no_arguments_force_initialize() {
    assert_eq!(
        parse_values(Vec::new()).unwrap(),
        Command::Init {
            force: true,
            skip_path: false
        }
    );
}

#[test]
fn parses_minimal_commands() {
    assert_eq!(parse_values(values(&["show"])).unwrap(), Command::Show);
    assert_eq!(
        parse_values(values(&["add", "gs", "git status", "--force"])).unwrap(),
        Command::Add {
            name: "gs".to_owned(),
            command: "git status".to_owned(),
            force: true
        }
    );
}

#[test]
fn parses_every_command_and_refuses_the_rest() {
    assert_eq!(parse_values(values(&["help"])).unwrap(), Command::Help);
    assert_eq!(parse_values(values(&["-h"])).unwrap(), Command::Help);
    assert_eq!(parse_values(values(&["-V"])).unwrap(), Command::Version);
    assert_eq!(
        parse_values(values(&["init", "--skip-path"])).unwrap(),
        Command::Init { force: false, skip_path: true }
    );
    assert_eq!(
        parse_values(values(&["remove", "gs", "-y"])).unwrap(),
        Command::Remove { name: "gs".to_owned(), yes: true }
    );
    assert_eq!(
        parse_values(values(&["add", "gs", "git status"])).unwrap(),
        Command::Add { name: "gs".to_owned(), command: "git status".to_owned(), force: false }
    );
    assert_eq!(parse_values(values(&["help", "x"])), Err("too many arguments"));
    assert_eq!(parse_values(values(&["show", "x"])), Err("too many arguments"));
    assert_eq!(parse_values(values(&["init", "--yes"])), Err("unknown option"));
    assert_eq!(parse_values(values(&["remove", "gs", "--force"])), Err("unknown option"));
    assert_eq!(
        parse_values(values(&["add", "gs"])),
        Err("usage: nalias-lite add <name> <command> [--force]")
    );
    assert_eq!(
        parse_values(values(&["remove"])),
        Err("usage: nalias-lite remove <name> [--yes]")
    );
    assert_eq!(
        parse_values(values(&["rename"])),
        Err("unknown command; run 'nalias-lite help'")
    );
    assert!(HELP.starts_with("Nalias Lite"));
}

#[test]
fn path_addition_is_case_insensitive_and_idempotent() {
    let value = r"C:\Windows;C:\NaliasLite\bin";
    assert_eq!(add_path_entry(value, r"c:\naliaslite\bin\"), value);
}

#[test]
fn lite_path_entries_append_once() {
    let once = add_path_entry(r"C:\Windows", r"C:\NaliasLite\bin");
    assert_eq!(once, r"C:\Windows;C:\NaliasLite\bin");
    assert_eq!(add_path_entry(&once, r"C:\NaliasLite\bin"), once);
    assert_eq!(add_path_entry("", r"C:\L"), r"C:\L");
}

#[test]
fn lite_layout_and_commands() {
    let paths = AppPaths::at_root_with(r"C:\L".to_owned(), '\\');
    assert_eq!(paths.bin, r"C:\L\bin");
    let native = AppPaths::at_root("/opt/lite".to_owned());
    assert_eq!(native.bin, std::path::Path::new("/opt/lite").join("bin").to_string_lossy());
    assert_eq!(
        native.executable,
        std::path::Path::new("/opt/lite").join("nalias-lite.exe").to_string_lossy()
    );
    assert_eq!(paths.executable, r"C:\L\nalias-lite.exe");
    assert!(paths.same_path(r"C:\L\X", r"c:\l\x", None, None));
    assert_eq!(HOME_OVERRIDE, "NALIAS_LITE_HOME");
    assert_eq!(check_command(""), Err("the command cannot be empty"));
    assert_eq!(check_command("echo a\r\necho b"), Err("commands must fit on one line"));
    assert_eq!(check_command("echo a\nb"), Err("commands must fit on one line"));
    assert_eq!(check_command("echo hello"), Ok(()));
}

#[test]
fn lite_platform_without_windows() {
    assert_eq!(platform::user_path(), Err("PATH installation is only supported on Windows"));
    assert_eq!(platform::set_user_path("x"), Err("PATH installation is only supported on Windows"));
    assert_eq!(platform::broadcast_environment_change(), Ok(()));
    assert_eq!(
        platform::open_folder("x"),
        Err("opening the alias directory is only supported on Windows")
    );
}

#[test]
fn lite_lists_aliases() {
    assert_eq!(parse_values(values(&["list"])).unwrap(), Command::List);
    assert_eq!(parse_values(values(&["list", "x"])), Err("too many arguments"));
    assert!(HELP.contains("list"));
}

#[test]
fn lite_never_replaces_or_removes_unrelated_files() {
    assert_eq!(lite_add_check(false, false, false), Ok(()));
    assert_eq!(
        lite_add_check(true, false, true),
        Err("alias already exists; use --force to replace it")
    );
    assert_eq!(lite_add_check(true, true, false), Err("refusing to replace an unrelated file"));
    assert_eq!(lite_add_check(true, true, true), Ok(()));
    assert_eq!(lite_remove_check(false, false), Err("alias was not found"));
    assert_eq!(lite_remove_check(true, false), Err("refusing to remove an unrelated file"));
    assert_eq!(lite_remove_check(true, true), Ok(()));
}

#[test]
fn lite_wrappers_embed_and_record_the_command() {
    let text = lite_wrapper_text("echo hello");
    assert!(text.contains("echo hello %*"));
    assert!(!text.contains("nalias-lite.exe run"));
    assert_eq!(
        text,
        "@rem nalias-lite-wrapper\r\n@echo off\r\n@rem nalias-lite-command 6563686f2068656c6c6f\r\necho hello %*\r\n"
    );
    assert!(is_lite_marked(text.as_bytes()));
    assert!(!is_lite_marked(b"@echo off\r\necho user-owned\r\n"));
    assert!(!is_lite_marked(b"@rem nalias-wrapper\r\n"));
    assert_eq!(lite_entry(text.into_bytes()), Some("echo hello".to_owned()));
    let unicode = lite_wrapper_text("echo Б 100% & x");
    assert_eq!(lite_entry(unicode.into_bytes()), Some("echo Б 100% & x".to_owned()));
    assert_eq!(lite_entry(b"@echo off\r\necho user-owned\r\n".to_vec()), None);
    assert_eq!(hex_text(&[0, 15, 16, 255]), "000f10ff");
    assert_eq!(unhex("000f10ff"), Some(vec![0, 15, 16, 255]));
    assert_eq!(unhex("0g"), None);
    assert_eq!(unhex("abc"), None);
}

#[test]
fn lite_names_and_list_lines() {
    assert_eq!(lite_validate_name("hello"), Ok(()));
    assert!(lite_validate_name("../bad").is_err());
    assert!(lite_validate_name("CON").is_err());
    assert_eq!(list_line("hello", "echo hello"), "hello  echo hello");
}
