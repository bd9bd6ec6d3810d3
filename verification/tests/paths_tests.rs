use nalias::paths::{
    add_path_entry, normalized_path, path_contains, remove_path_entry, same_path, AppPaths,
    HOME_OVERRIDE,
};

#[test]
fn path_matching_is_case_and_separator_insensitive() {
    let path = r"C:\Windows;C:\Users\ME\AppData\Local\Nalias\bin\";
    assert!(path_contains(path, r"c:/users/me/appdata/local/nalias/bin"));
}

#[test]
fn add_does_not_duplicate() {
    let value = r"C:\A;C:\Nalias\bin";
    assert_eq!(add_path_entry(value, r"c:\nalias\bin\"), value);
}

#[test]
fn remove_preserves_other_entries() {
    assert_eq!(
        remove_path_entry(r"C:\A;C:\Nalias\bin;C:\B", r"c:\nalias\bin"),
        r"C:\A;C:\B"
    );
}

#[test]
fn normalization_trims_quotes_separators_and_case() {
    assert_eq!(normalized_path("  \"C:/Tools/Bin//\"  "), r"c:\tools\bin");
    assert_eq!(normalized_path(r"D:\"), r"d:\");
    assert_eq!(normalized_path("d:"), r"d:\");
    assert_eq!(normalized_path(r"\\server\share\"), r"\\server\share");
    assert_eq!(normalized_path(""), "");
}

#[test]
fn adding_entries_appends_once() {
    assert_eq!(add_path_entry("", r"C:\N\bin"), r"C:\N\bin");
    assert_eq!(add_path_entry(r"C:\A;", r"C:\N\bin"), r"C:\A;C:\N\bin");
    let once = add_path_entry(r"C:\A", r"C:\N\bin");
    assert_eq!(once, r"C:\A;C:\N\bin");
    assert_eq!(add_path_entry(&once, r"C:\N\bin"), once);
    assert!(path_contains(&once, r"c:\n\BIN\"));
}

#[test]
fn removing_entries_removes_every_copy() {
    let value = r"C:\N\bin;C:\A;c:/n/bin/;C:\B";
    let removed = remove_path_entry(value, r"C:\N\bin");
    assert_eq!(removed, r"C:\A;C:\B");
    assert!(!path_contains(&removed, r"C:\N\bin"));
    assert_eq!(remove_path_entry(r"C:\N\bin", r"C:\N\bin"), "");
}

#[test]
fn installation_layout() {
    let paths = AppPaths::from_root_with(r"C:\Users\me\AppData\Local\Nalias".to_owned(), '\\');
    assert_eq!(paths.root, r"C:\Users\me\AppData\Local\Nalias");
    assert_eq!(paths.config, r"C:\Users\me\AppData\Local\Nalias\aliases.json");
    assert_eq!(paths.bin, r"C:\Users\me\AppData\Local\Nalias\bin");
    assert_eq!(paths.executable, r"C:\Users\me\AppData\Local\Nalias\nalias.exe");
    assert_eq!(paths.lock, r"C:\Users\me\AppData\Local\Nalias\aliases.lock");
    assert_eq!(AppPaths::from_root_with(r"C:\x\".to_owned(), '\\').bin, r"C:\x\bin");
    assert_eq!(AppPaths::from_root_with("C:/x/".to_owned(), '\\').bin, "C:/x/bin");
    assert_eq!(AppPaths::from_root_with("C:".to_owned(), '\\').bin, "C:bin");
    assert_eq!(AppPaths::from_root_with("1:".to_owned(), '\\').config, r"1:\aliases.json");
    assert_eq!(AppPaths::from_root_with(String::new(), '\\').bin, "bin");
    assert_eq!(AppPaths::from_root_with("/home/me/.nalias".to_owned(), '/').bin, "/home/me/.nalias/bin");
    assert_eq!(AppPaths::from_root_with("/srv/".to_owned(), '/').config, "/srv/aliases.json");
    assert_eq!(AppPaths::from_root_with(r"C:\x".to_owned(), '/').bin, r"C:\x/bin");
    assert_eq!(HOME_OVERRIDE, "NALIAS_HOME");
}

#[test]
fn installation_layout_follows_the_platform() {
    for root in [r"C:\Users\me\Nalias", "C:", "1:", "/home/me/.nalias", "/srv/", "", r"D:\x\"] {
        let paths = AppPaths::from_root(root.to_owned());
        let base = std::path::Path::new(root);
        assert_eq!(paths.root, root);
        assert_eq!(paths.config, base.join("aliases.json").to_string_lossy());
        assert_eq!(paths.bin, base.join("bin").to_string_lossy());
        assert_eq!(paths.executable, base.join("nalias.exe").to_string_lossy());
        assert_eq!(paths.lock, base.join("aliases.lock").to_string_lossy());
    }
}

#[test]
fn same_path_prefers_canonical_forms() {
    assert!(same_path("a", "b", Some(r"C:\x"), Some(r"C:\x")));
    assert!(!same_path("a", "a", Some(r"C:\x"), Some(r"C:\y")));
    assert!(same_path(r"C:\X.exe", r"c:\x.EXE", None, Some(r"C:\x")));
    assert!(!same_path(r"C:\X.exe", r"C:\Y.exe", None, None));
}

#[test]
fn removing_an_added_entry_restores_the_value() {
    let value = r"C:\A;C:\B";
    let added = add_path_entry(value, r"C:\Nalias\bin");
    assert_eq!(added, r"C:\A;C:\B;C:\Nalias\bin");
    assert_eq!(remove_path_entry(&added, r"C:\Nalias\bin"), value);
    assert_eq!(remove_path_entry(&add_path_entry("", r"C:\N"), r"C:\N"), "");
}
