use nalias::alias::{Alias, Shell};
use nalias::error::NaliasError;
use nalias::executor::{
    append_cmd_arguments, append_powershell_arguments, cmd_invocation, plan, quote_cmd_argument,
    quote_for_display, split_windows_command_line, updated_stack, MAX_NESTING, STACK_ENV,
};

#[test]
fn quotes_cmd_metacharacters_and_percent() {
    assert_eq!(quote_cmd_argument("a & b|c>(d)^e"), r#""a & b|c>(d)^e""#);
    assert_eq!(quote_cmd_argument("%PATH%"), r#""%%PATH%%""#);
    assert_eq!(quote_cmd_argument("a\"b"), r#""a""b""#);
    assert_eq!(quote_cmd_argument(""), r#""""#);
}

#[test]
fn cmd_invocation_uses_late_expansion_placeholders() {
    let values = vec![r#"a" & exit 42 | %PATH%"#.to_owned()];
    let (line, environment) = cmd_invocation("echo", &values);
    assert_eq!(line, r#"echo "!NALIAS__FORWARDED_0!""#);
    assert_eq!(
        environment,
        vec![("NALIAS__FORWARDED_0".to_owned(), values[0].clone())]
    );
}

#[test]
fn preserves_trailing_backslashes_for_cmd() {
    assert_eq!(quote_cmd_argument(r"C:\A\"), r#""C:\A\\""#);
}

#[test]
fn powershell_uses_literal_single_quotes() {
    assert_eq!(
        append_powershell_arguments("Write-Output", &["a'b&c".to_owned()]),
        "Write-Output 'a''b&c'"
    );
}

#[test]
fn direct_parser_handles_quotes_and_backslashes() {
    assert_eq!(
        split_windows_command_line(r#"python -m "http server" "C:\a b""#).unwrap(),
        ["python", "-m", "http server", r"C:\a b"]
    );
    assert!(split_windows_command_line(r#"python "oops"#).is_err());
}

#[test]
fn detects_direct_and_indirect_recursion() {
    assert!(updated_stack("a", Some("a")).is_err());
    let error = updated_stack("a", Some("a;b")).unwrap_err();
    assert!(error.message().contains("a -> b -> a"));
    assert_eq!(updated_stack("b", Some("a")).unwrap(), "a;b");
}

#[test]
fn limits_nesting() {
    let stack = (0..MAX_NESTING)
        .map(|index| format!("a{index}"))
        .collect::<Vec<_>>()
        .join(";");
    assert!(updated_stack("next", Some(&stack)).is_err());
}

#[test]
fn stack_is_canonical_and_skips_empty_pieces() {
    assert_eq!(updated_stack("GS", None).unwrap(), "gs");
    assert_eq!(updated_stack("x", Some(";A;;b;")).unwrap(), "a;b;x");
    match updated_stack("B", Some("a;B;c")) {
        Err(NaliasError::Recursion(chain)) => assert_eq!(chain, "b -> c -> b"),
        other => panic!("unexpected {other:?}"),
    }
    let stack = (0..MAX_NESTING - 1)
        .map(|index| format!("a{index}"))
        .collect::<Vec<_>>()
        .join(";");
    assert!(updated_stack("last", Some(&stack)).is_ok());
    let stack = (0..MAX_NESTING)
        .map(|index| format!("a{index}"))
        .collect::<Vec<_>>()
        .join(";");
    match updated_stack("next", Some(&stack)) {
        Err(NaliasError::Recursion(m)) => {
            assert_eq!(m, "maximum nesting depth of 32 was exceeded")
        }
        other => panic!("unexpected {other:?}"),
    }
    assert_eq!(STACK_ENV, "NALIAS_ALIAS_STACK");
}

#[test]
fn handed_on_stack_refuses_the_same_alias() {
    let stack = updated_stack("Deploy", Some("build")).unwrap();
    assert_eq!(stack, "build;deploy");
    assert!(updated_stack("DEPLOY", Some(&stack)).is_err());
    assert!(updated_stack("test", Some(&stack)).is_ok());
}

#[test]
fn quoted_values_parse_back_as_one_argument() {
    for value in ["plain", "two words", r"C:\dir with space\", "", r"a\\b\", "tab\there"] {
        let quoted = quote_cmd_argument(value);
        assert_eq!(split_windows_command_line(&quoted).unwrap(), vec![value.to_owned()], "{value}");
    }
}

#[test]
fn parser_follows_backslash_rules() {
    assert_eq!(split_windows_command_line(r#"a\\\"b"#).unwrap(), [r#"a\"b"#]);
    assert_eq!(split_windows_command_line(r#"a\\"b c""#).unwrap(), [r"a\b c"]);
    assert_eq!(split_windows_command_line(r"a\b\\ c").unwrap(), [r"a\b\\", "c"]);
    assert_eq!(split_windows_command_line("  \t ").unwrap(), Vec::<String>::new());
    assert_eq!(split_windows_command_line(r#""""#).unwrap(), [""]);
    assert_eq!(split_windows_command_line("a\u{3000}b").unwrap(), ["a", "b"]);
    match split_windows_command_line("\"open") {
        Err(NaliasError::Execution(m)) => {
            assert_eq!(m, "direct alias command contains an unterminated quote")
        }
        other => panic!("unexpected {other:?}"),
    }
}

#[test]
fn cmd_arguments_are_quoted_in_order() {
    let args = vec!["a b".to_owned(), "50%".to_owned()];
    assert_eq!(append_cmd_arguments("echo", &args), r#"echo "a b" "50%%""#);
    let (line, env) = cmd_invocation("echo", &args);
    assert_eq!(line, r#"echo "!NALIAS__FORWARDED_0!" "!NALIAS__FORWARDED_1!""#);
    assert_eq!(env[1], ("NALIAS__FORWARDED_1".to_owned(), "50%".to_owned()));
    let many: Vec<String> = (0..12).map(|i| i.to_string()).collect();
    let (line, env) = cmd_invocation("x", &many);
    assert!(line.ends_with(r#""!NALIAS__FORWARDED_11!""#));
    assert_eq!(env[10].0, "NALIAS__FORWARDED_10");
}

#[test]
fn display_quoting() {
    assert_eq!(quote_for_display("plain"), "plain");
    assert_eq!(quote_for_display(""), r#""""#);
    assert_eq!(quote_for_display(r#"say "hi" now"#), r#""say \"hi\" now""#);
}

fn alias(command: &str, shell: Shell) -> Alias {
    Alias {
        command: command.to_owned(),
        description: None,
        shell,
        enabled: true,
        created_at: "2026-08-04T15:00:00Z".to_owned(),
        updated_at: "2026-08-04T15:00:00Z".to_owned(),
    }
}

#[test]
fn plans_each_shell() {
    let args = vec!["two words".to_owned()];
    let cmd = plan(&alias("echo", Shell::Cmd), &args).unwrap();
    assert_eq!(cmd.program, "cmd.exe");
    assert_eq!(
        cmd.arguments,
        ["/D", "/S", "/V:ON", "/C", r#"echo "!NALIAS__FORWARDED_0!""#]
    );
    assert_eq!(
        cmd.environment,
        vec![("NALIAS__FORWARDED_0".to_owned(), "two words".to_owned())]
    );
    assert_eq!(cmd.display, r#"cmd.exe /D /S /V:ON /C echo "two words""#);

    let ps = plan(&alias("Write-Output", Shell::Powershell), &args).unwrap();
    assert_eq!(ps.program, "powershell.exe");
    assert_eq!(
        ps.arguments,
        ["-NoLogo", "-NoProfile", "-Command", "Write-Output 'two words'"]
    );
    assert!(ps.environment.is_empty());
    assert_eq!(
        ps.display,
        "powershell.exe -NoLogo -NoProfile -Command Write-Output 'two words'"
    );

    let direct = plan(&alias(r#""C:\Program Files\x.exe" -v"#, Shell::Direct), &args).unwrap();
    assert_eq!(direct.program, r"C:\Program Files\x.exe");
    assert_eq!(direct.arguments, ["-v", "two words"]);
    assert!(direct.environment.is_empty());
    assert_eq!(direct.display, r#""C:\Program Files\x.exe" -v "two words""#);
}

#[test]
fn direct_plans_refuse_bad_commands() {
    match plan(&alias("   ", Shell::Direct), &[]) {
        Err(NaliasError::Execution(m)) => {
            assert_eq!(m, "direct alias command does not contain a program")
        }
        other => panic!("unexpected {other:?}"),
    }
    match plan(&alias("x \"y", Shell::Direct), &[]) {
        Err(NaliasError::Execution(m)) => {
            assert_eq!(m, "direct alias command contains an unterminated quote")
        }
        other => panic!("unexpected {other:?}"),
    }
}

#[test]
fn unquoted_commands_split_at_white_space() {
    let input = "  tool  C:\\a\\ b\\\\c\t--x ";
    let words = split_windows_command_line(input).unwrap();
    let expected: Vec<String> = input.split_whitespace().map(String::from).collect();
    assert_eq!(words, expected);
}
