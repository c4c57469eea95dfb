use gitforge::cache::{Cache, TagMap};
use gitforge::codec::to_json;
use gitforge::errors::CacheError;
use gitforge::manager::{cache_file_logical_name, load_cache_from, should_update_from, CacheManager};

#[test]
fn test_from_home_builds_fixed_subpath() {
    let m = CacheManager::from_home(Some("/home/someone".to_string())).unwrap();
    assert_eq!(
        m.get_cache_path("gitignore_templates"),
        "/home/someone/.local/share/gitforge/gitignore_templates.json"
    );
}

#[test]
fn test_from_home_fails_without_home() {
    let err = CacheManager::from_home(None).unwrap_err();
    assert_eq!(err, CacheError::HomeDirUnknown);
}

#[test]
fn test_new_uses_home_directory() {
    // The test environment has a home directory, so construction
    // succeeds and the path carries the fixed subpath.
    let m = CacheManager::new().unwrap();
    let p = m.get_cache_path("x");
    assert!(p.ends_with("/.local/share/gitforge/x.json"));
}

// Missing-file load: no backing file yields an empty cache, no error.
#[test]
fn test_load_cache_missing_file_is_empty() {
    let c = load_cache_from(None).unwrap();
    assert_eq!(c.metadata.total_entries, 0);
    assert_eq!(c.metadata.last_updated, 0);
    assert!(c.is_empty());
}

#[test]
fn test_load_cache_from_content() {
    let mut c: Cache<String> = Cache::new();
    c.insert_with_metadata_at("rust".to_string(), "Rust.gitignore".to_string(), TagMap::new(), 5);
    let doc = to_json(&c);
    let loaded = load_cache_from(Some(doc.as_str())).unwrap();
    assert_eq!(loaded.len(), 1);
    assert_eq!(loaded.get("rust"), Some(&"Rust.gitignore".to_string()));
}

#[test]
fn test_load_cache_malformed_content() {
    let err = load_cache_from(Some("{ truncated")).unwrap_err();
    assert_eq!(err, CacheError::Malformed);
}

#[test]
fn test_should_update_without_file() {
    assert_eq!(should_update_from(None, 60), Ok(true));
}

#[test]
fn test_should_update_fresh_cache() {
    // A cache stamped in the far future has age zero on any clock.
    let mut c: Cache<String> = Cache::new();
    c.insert_with_metadata_at("k".to_string(), "v".to_string(), TagMap::new(), u64::MAX);
    let doc = to_json(&c);
    assert_eq!(should_update_from(Some(doc.as_str()), 60), Ok(false));
}

#[test]
fn test_should_update_stale_cache() {
    // A cache last updated at the epoch is stale under any small bound.
    let doc = to_json(&Cache::<String>::new());
    assert_eq!(should_update_from(Some(doc.as_str()), 60), Ok(true));
}

#[test]
fn test_should_update_malformed_cache() {
    assert_eq!(should_update_from(Some("nope"), 60), Err(CacheError::Malformed));
}

#[test]
fn test_logical_cache_name() {
    assert_eq!(cache_file_logical_name("gitignore_templates.json"), "gitignore_templates");
    assert_eq!(cache_file_logical_name("notes.txt"), "notes.txt");
    assert_eq!(cache_file_logical_name("plain"), "plain");
    assert_eq!(cache_file_logical_name(".json"), "");
}
