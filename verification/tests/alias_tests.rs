use nalias::alias::{canonical_name, default_true, validate_name, Alias, Shell};
use nalias::error::NaliasError;

#[test]
fn validates_names() {
    for valid in ["gs", "Git_Status", "serve-2"] {
        assert!(validate_name(valid).is_ok(), "{valid}");
    }
    for invalid in ["", "2bad", "../bad", "has space", "nalias", "CON", "com1"] {
        assert!(validate_name(invalid).is_err(), "{invalid}");
    }
}

#[test]
fn canonicalizes_ascii_case() {
    assert_eq!(canonical_name("Git_Status"), "git_status");
}

fn reason(name: &str) -> String {
    match validate_name(name) {
        Err(NaliasError::InvalidAliasName { name: n, reason }) => {
            assert_eq!(n, name);
            reason
        }
        other => panic!("unexpected result {other:?}"),
    }
}

#[test]
fn name_errors_give_the_first_failing_rule() {
    assert_eq!(reason(""), "the name cannot be empty");
    assert_eq!(reason("2bad"), "the name must start with an ASCII letter");
    assert_eq!(reason("_x"), "the name must start with an ASCII letter");
    assert_eq!(
        reason("has space"),
        "only ASCII letters, digits, hyphens, and underscores are allowed"
    );
    assert_eq!(
        reason("caf\u{e9}"),
        "only ASCII letters, digits, hyphens, and underscores are allowed"
    );
    assert_eq!(reason("NALIAS"), "the name is reserved by Nalias or Windows");
    assert_eq!(reason("Lpt9"), "the name is reserved by Nalias or Windows");
    assert_eq!(reason("aux"), "the name is reserved by Nalias or Windows");
}

#[test]
fn device_names_with_zero_or_more_digits_are_allowed() {
    assert!(validate_name("com0").is_ok());
    assert!(validate_name("com10").is_ok());
    assert!(validate_name("lpt").is_ok());
    assert!(validate_name("comx").is_ok());
    assert!(validate_name("console").is_ok());
}

#[test]
fn name_check_ignores_case() {
    for name in ["Gs", "CON", "Com3", "Serve-2", "LPT0"] {
        assert_eq!(
            validate_name(name).is_ok(),
            validate_name(&canonical_name(name)).is_ok(),
            "{name}"
        );
    }
}

#[test]
fn canonical_name_only_folds_ascii() {
    assert_eq!(canonical_name("ÄbC-Z_9"), "Äbc-z_9");
    assert_eq!(canonical_name(&canonical_name("MiXeD")), canonical_name("MiXeD"));
}

#[test]
fn shell_names_and_default() {
    assert_eq!(Shell::default(), Shell::Cmd);
    assert_eq!(Shell::Cmd.as_str(), "cmd");
    assert_eq!(Shell::Powershell.as_str(), "powershell");
    assert_eq!(Shell::Direct.as_str(), "direct");
    assert!(default_true());
}

#[test]
fn alias_values_compare_by_fields() {
    let a = Alias {
        command: "git status".to_owned(),
        description: None,
        shell: Shell::Cmd,
        enabled: true,
        created_at: "2026-08-04T15:00:00Z".to_owned(),
        updated_at: "2026-08-04T15:00:00Z".to_owned(),
    };
    let mut b = a.clone();
    assert_eq!(a, b);
    b.enabled = false;
    assert_ne!(a, b);
}
