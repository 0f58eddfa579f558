use coredata::error::CoreDataError;
use coredata::paths::{
    bundle_id_of_info, discovery_candidates, fico_path, join_path, meta_path, preferences_root,
    resolve_bundle_id, resolve_caller_id, sqlite_path, storage_dir, storage_path, tontoo_home,
};
use coredata::value::{Table, Value};

#[test]
fn test_resolve_explicit() {
    assert_eq!(resolve_bundle_id(Some("org.tontooos.dock"), None, None).unwrap(), "org.tontooos.dock");
}

#[test]
fn test_resolve_env() {
    assert_eq!(resolve_bundle_id(None, None, Some("org.test.env")).unwrap(), "org.test.env");
}

#[test]
fn test_paths() {
    let home = tontoo_home(Some("/Users/alice"), None, None, None);
    let root = preferences_root(None, &home);
    assert_eq!(storage_dir(&root, "org.example.app"), "/Users/alice/Library/Preferences/org.example.app");
    assert_eq!(
        fico_path(&root, "org.example.app"),
        "/Users/alice/Library/Preferences/org.example.app/storage.fico"
    );
}

#[test]
fn test_preferences_root_override() {
    assert_eq!(preferences_root(Some("/tmp/tontoo_prefs"), "/Users/alice"), "/tmp/tontoo_prefs");
}

#[test]
fn resolution_order_and_errors() {
    assert_eq!(resolve_bundle_id(Some("  org.x  "), Some("org.d"), Some("org.e")).unwrap(), "org.x");
    assert_eq!(resolve_bundle_id(None, Some("org.d"), Some("org.e")).unwrap(), "org.d");
    assert_eq!(resolve_bundle_id(None, None, Some(" org.e ")).unwrap(), "org.e");
    match resolve_bundle_id(Some("   "), Some("org.d"), None) {
        Err(CoreDataError::InvalidBundleId(m)) => assert_eq!(m, "empty bundle id"),
        other => panic!("unexpected {:?}", other),
    }
    assert!(matches!(resolve_bundle_id(None, None, Some("  ")), Err(CoreDataError::NoBundle)));
    assert!(matches!(resolve_caller_id(None, None), Err(CoreDataError::NoBundle)));
    assert_eq!(resolve_caller_id(Some("org.d"), Some("org.e")).unwrap(), "org.d");
}

#[test]
fn home_fallbacks() {
    assert_eq!(tontoo_home(Some("  /home/x \n"), Some("/d"), None, None), "/home/x");
    assert_eq!(tontoo_home(Some("relative"), Some("/d"), None, None), "/d");
    assert_eq!(tontoo_home(None, None, Some("bob"), Some("robert")), "/Users/bob");
    assert_eq!(tontoo_home(None, None, None, Some("robert")), "/Users/robert");
    assert_eq!(tontoo_home(Some(""), None, None, None), "/Users/user");
}

#[test]
fn joining_like_pathbuf() {
    assert_eq!(join_path("/a", "b"), "/a/b");
    assert_eq!(join_path("/a/", "b"), "/a/b");
    assert_eq!(join_path("", "b"), "b");
    assert_eq!(join_path("/a", "/etc"), "/etc");
    assert_eq!(storage_path("/r", "org.x", "db"), "/r/org.x/storage.db");
    assert_eq!(sqlite_path("/r", "org.x"), "/r/org.x/storage.sqlite");
    assert_eq!(meta_path("/r", "org.x"), "/r/org.x/storage.meta");
}

#[test]
fn discovery_candidate_order() {
    let dirs = vec![
        "/Apps/Dock.app/App".to_string(),
        "/Apps/Dock.app".to_string(),
        "/Apps".to_string(),
        "/".to_string(),
    ];
    let c = discovery_candidates(Some("/launch/Dock.app"), &dirs);
    let expected: Vec<&str> = vec![
        "/launch/Dock.app/Info.tontoo",
        "/Apps/Dock.app/App/Info.tontoo",
        "/Apps/Dock.app/App/Info.tontoo",
        "/Apps/Dock.app/Info.tontoo",
        "/Apps/Dock.app/Info.tontoo",
        "/Apps/Info.tontoo",
        "/Apps/Info.tontoo",
        "/Info.tontoo",
        "/Info.tontoo",
        "/Apps/Dock.app/App/Info.tontoo",
        "/Apps/Dock.app/Info.tontoo",
        "/Apps/Dock.app/Info.tontoo",
        "/Apps/Info.tontoo",
        "/Info.tontoo",
    ];
    assert_eq!(c, expected);
    assert!(discovery_candidates(None, &vec![]).is_empty());
}

#[test]
fn info_document_bundle_id() {
    let mut t = Table::new();
    t.insert("name".to_string(), Value::text("Dock"));
    t.insert("bundle_id".to_string(), Value::text("org.tontooos.dock"));
    assert_eq!(bundle_id_of_info(&Value::Table(t)), Some("org.tontooos.dock".to_string()));
    let mut u = Table::new();
    u.insert("bundle_id".to_string(), Value::Integer(3));
    assert_eq!(bundle_id_of_info(&Value::Table(u)), None);
    assert_eq!(bundle_id_of_info(&Value::text("org.x")), None);
}

#[test]
fn storage_dirs_are_per_bundle() {
    assert_ne!(storage_dir("/r", "org.a"), storage_dir("/r", "org.b"));
    assert_ne!(storage_dir("", "org.a"), storage_dir("", "org.b"));
    // An absolute bundle id replaces the root, so it can meet another bundle's directory.
    assert_eq!(storage_dir("/", "x"), storage_dir("/", "/x"));
}
