use nalias::error::NaliasError;

fn io_error() -> NaliasError {
    NaliasError::io(
        "could not read aliases.json".to_owned(),
        std::io::Error::new(std::io::ErrorKind::Other, "disk on fire"),
    )
}

#[test]
fn exit_codes_follow_the_error_kind() {
    assert_eq!(NaliasError::AliasNotFound("x".into()).exit_code(), 3);
    assert_eq!(NaliasError::Config("x".into()).exit_code(), 4);
    assert_eq!(NaliasError::Execution("x".into()).exit_code(), 5);
    assert_eq!(NaliasError::Recursion("x".into()).exit_code(), 5);
    assert_eq!(NaliasError::AliasDisabled("x".into()).exit_code(), 5);
    assert_eq!(NaliasError::Installation("x".into()).exit_code(), 6);
    assert_eq!(NaliasError::NotInitialized.exit_code(), 6);
    assert_eq!(NaliasError::AliasExists("x".into()).exit_code(), 1);
    assert_eq!(NaliasError::Cancelled.exit_code(), 1);
    assert_eq!(io_error().exit_code(), 1);
}

#[test]
fn hints_point_to_the_next_step() {
    assert_eq!(NaliasError::NotInitialized.hint(), Some("run 'nalias init'"));
    assert_eq!(
        NaliasError::AliasExists("gs".into()).hint(),
        Some("use --force to replace it")
    );
    assert_eq!(
        NaliasError::AliasNotFound("gs".into()).hint(),
        Some("run 'nalias list' to see available aliases")
    );
    assert_eq!(NaliasError::Cancelled.hint(), None);
}

#[test]
fn messages_describe_each_error() {
    assert_eq!(NaliasError::NotInitialized.message(), "Nalias is not initialized");
    assert_eq!(
        NaliasError::AliasNotFound("gs".into()).message(),
        "alias 'gs' was not found"
    );
    assert_eq!(
        NaliasError::AliasExists("gs".into()).message(),
        "alias 'gs' already exists"
    );
    assert_eq!(
        NaliasError::InvalidAliasName { name: "2x".into(), reason: "bad".into() }.message(),
        "invalid alias name '2x': bad"
    );
    assert_eq!(NaliasError::AliasDisabled("gs".into()).message(), "alias 'gs' is disabled");
    assert_eq!(
        NaliasError::Recursion("a -> a".into()).message(),
        "alias recursion detected: a -> a"
    );
    assert_eq!(NaliasError::Config("c".into()).message(), "configuration error: c");
    assert_eq!(NaliasError::Installation("i".into()).message(), "installation error: i");
    assert_eq!(NaliasError::Execution("e".into()).message(), "could not execute alias: e");
    assert_eq!(NaliasError::Cancelled.message(), "operation cancelled");
    assert_eq!(io_error().message(), "could not read aliases.json: disk on fire");
}
