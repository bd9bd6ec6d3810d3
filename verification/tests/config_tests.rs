use nalias::alias::{Alias, Shell};
use nalias::config::{
    lock_timed_out, may_attempt_lock, AliasMap, Config, CONFIG_VERSION, LOCK_ATTEMPTS, LOCK_RETRY_MS,
};
use nalias::error::NaliasError;

fn alias() -> Alias {
    Alias {
        command: "git status".to_owned(),
        description: None,
        shell: Shell::Cmd,
        enabled: true,
        created_at: "2026-08-04T15:00:00Z".to_owned(),
        updated_at: "2026-08-04T15:00:00Z".to_owned(),
    }
}

fn config_error(config: &Config) -> String {
    match config.validate() {
        Err(NaliasError::Config(m)) => m,
        other => panic!("unexpected {other:?}"),
    }
}

#[test]
fn rejects_unsupported_version() {
    let config = Config {
        version: 99,
        aliases: AliasMap::new(),
    };
    assert!(config.validate().unwrap_err().message().contains("unsupported"));
    assert_eq!(
        config_error(&config),
        "unsupported configuration version 99 (this build supports version 1)"
    );
}

#[test]
fn detects_case_insensitive_duplicates() {
    let mut config = Config::default();
    config.aliases.insert("gs".to_owned(), alias());
    config.aliases.insert("GS".to_owned(), alias());
    assert!(config.validate().is_err());
}

#[test]
fn default_configuration_is_empty_and_valid() {
    let config = Config::default();
    assert_eq!(config.version, CONFIG_VERSION);
    assert!(config.aliases.is_empty());
    assert!(config.validate().is_ok());
}

#[test]
fn validation_reports_each_problem() {
    let mut config = Config::default();
    config.aliases.insert("gs".to_owned(), alias());
    assert!(config.validate().is_ok());

    let mut dup = Config::default();
    dup.aliases.insert("gs".to_owned(), alias());
    dup.aliases.insert("GS".to_owned(), alias());
    assert_eq!(
        config_error(&dup),
        "aliases.json contains duplicate alias names differing only by case: 'gs'"
    );

    let mut bad_name = Config::default();
    bad_name.aliases.insert("2x".to_owned(), alias());
    assert_eq!(
        config_error(&bad_name),
        "invalid alias name '2x': the name must start with an ASCII letter"
    );

    let mut blank = Config::default();
    let mut a = alias();
    a.command = " \t ".to_owned();
    blank.aliases.insert("gs".to_owned(), a);
    assert_eq!(config_error(&blank), "alias 'gs' has an empty command");

    let mut bad_time = Config::default();
    let mut a = alias();
    a.updated_at = "yesterday".to_owned();
    bad_time.aliases.insert("gs".to_owned(), a);
    assert!(config_error(&bad_time).starts_with("alias 'gs' has an invalid updated_at timestamp: "));

    let mut offset_time = Config::default();
    let mut a = alias();
    a.created_at = "2026-08-04T17:00:00+02:00".to_owned();
    offset_time.aliases.insert("gs".to_owned(), a);
    assert!(offset_time.validate().is_ok());
}

#[test]
fn alias_table_keeps_names_sorted_and_unique() {
    let mut map = AliasMap::new();
    assert!(map.insert("b".to_owned(), alias()).is_none());
    assert!(map.insert("a".to_owned(), alias()).is_none());
    assert!(map.insert("B".to_owned(), alias()).is_none());
    let mut replacement = alias();
    replacement.command = "git log".to_owned();
    let old = map.insert("a".to_owned(), replacement).unwrap();
    assert_eq!(old.command, "git status");
    assert_eq!(map.len(), 3);
    let keys: Vec<&String> = (0..map.len()).map(|i| map.key_at(i)).collect();
    assert_eq!(keys, ["B", "a", "b"]);
    assert_eq!(map.value_at(1).command, "git log");
    assert_eq!(map.get("a").unwrap().command, "git log");
    assert!(map.get("A").is_none());
    assert!(map.contains_key("B"));
    assert_eq!(map.remove("b").unwrap().command, "git status");
    assert!(map.remove("b").is_none());
    assert_eq!(map.len(), 2);
}

#[test]
fn lookup_ignores_ascii_case_and_prefers_name_order() {
    let mut config = Config::default();
    config.aliases.insert("gs".to_owned(), alias());
    config.aliases.insert("GS".to_owned(), alias());
    config.aliases.insert("other".to_owned(), alias());
    assert_eq!(config.find_key("gS").unwrap(), "GS");
    let (name, found) = config.get("OTHER").unwrap();
    assert_eq!(name, "other");
    assert_eq!(found.command, "git status");
    assert!(config.get("missing").is_none());
}

#[test]
fn lock_is_tried_a_bounded_number_of_times() {
    assert!(may_attempt_lock(0));
    assert!(may_attempt_lock(99));
    assert!(!may_attempt_lock(100));
    assert_eq!(LOCK_ATTEMPTS, 100);
    assert_eq!(LOCK_RETRY_MS, 20);
    assert_eq!(
        lock_timed_out().message(),
        "configuration error: another Nalias process is updating aliases.json (lock timed out)"
    );
}
