use gitforge::cache::{Cache, TagMap};

fn tags(pairs: &[(&str, &str)]) -> TagMap {
    let mut m = TagMap::new();
    for (k, v) in pairs {
        m.insert(k.to_string(), v.to_string());
    }
    m
}

#[test]
fn test_new_cache_is_empty() {
    let c: Cache<String> = Cache::new();
    assert!(c.is_empty());
    assert_eq!(c.metadata.last_updated, 0);
    assert_eq!(c.metadata.total_entries, 0);
    assert_eq!(c.len(), 0);
}

#[test]
fn test_insert_and_get() {
    let mut c: Cache<String> = Cache::new();
    c.insert_with_metadata_at("rust".to_string(), "Rust.gitignore".to_string(), TagMap::new(), 100);
    assert!(c.contains_key("rust"));
    assert!(!c.contains_key("python"));
    assert_eq!(c.get("rust"), Some(&"Rust.gitignore".to_string()));
    assert_eq!(c.get("python"), None);
    assert_eq!(c.len(), 1);
    assert_eq!(c.metadata.total_entries, 1);
    assert_eq!(c.metadata.last_updated, 100);
    let e = c.get_entry("rust").unwrap();
    assert_eq!(e.timestamp, 100);
    assert_eq!(e.data, "Rust.gitignore");
}

#[test]
fn test_insert_overwrites() {
    let mut c: Cache<String> = Cache::new();
    c.insert_with_metadata_at("k".to_string(), "old".to_string(), TagMap::new(), 1);
    c.insert_with_metadata_at("k".to_string(), "new".to_string(), TagMap::new(), 2);
    assert_eq!(c.len(), 1);
    assert_eq!(c.get("k"), Some(&"new".to_string()));
    assert_eq!(c.metadata.last_updated, 2);
    assert_eq!(c.get_entry("k").unwrap().timestamp, 2);
}

#[test]
fn test_remove_returns_prior_entry() {
    let mut c: Cache<String> = Cache::new();
    c.insert_with_metadata_at("a".to_string(), "1".to_string(), TagMap::new(), 10);
    c.insert_with_metadata_at("b".to_string(), "2".to_string(), TagMap::new(), 11);
    let removed = c.remove_at("a", 12);
    assert_eq!(removed.unwrap().data, "1");
    assert_eq!(c.len(), 1);
    assert_eq!(c.metadata.total_entries, 1);
    assert_eq!(c.metadata.last_updated, 12);
    // Removing an absent key still restamps the summary.
    let none = c.remove_at("a", 13);
    assert!(none.is_none());
    assert_eq!(c.metadata.last_updated, 13);
    assert_eq!(c.metadata.total_entries, 1);
}

#[test]
fn test_clear_resets_entries() {
    let mut c: Cache<String> = Cache::new();
    c.insert_with_metadata_at("a".to_string(), "1".to_string(), TagMap::new(), 10);
    c.insert_with_metadata_at("b".to_string(), "2".to_string(), TagMap::new(), 11);
    c.clear_at(50);
    assert!(c.is_empty());
    assert_eq!(c.metadata.total_entries, 0);
    assert_eq!(c.metadata.last_updated, 50);
    assert_eq!(c.get("a"), None);
}

#[test]
fn test_keys_snapshot_in_order() {
    let mut c: Cache<String> = Cache::new();
    c.insert_with_metadata_at("x".to_string(), "1".to_string(), TagMap::new(), 1);
    c.insert_with_metadata_at("y".to_string(), "2".to_string(), TagMap::new(), 2);
    c.insert_with_metadata_at("z".to_string(), "3".to_string(), TagMap::new(), 3);
    assert_eq!(c.keys(), vec!["x".to_string(), "y".to_string(), "z".to_string()]);
}

// Summary consistency: the entry count in the metadata tracks the real
// number of entries through any sequence of mutations.
#[test]
fn test_summary_consistency_through_mutations() {
    let mut c: Cache<String> = Cache::new();
    assert_eq!(c.metadata.total_entries, c.len());
    c.insert_with_metadata_at("a".to_string(), "1".to_string(), TagMap::new(), 1);
    assert_eq!(c.metadata.total_entries, c.len());
    c.insert_with_metadata_at("b".to_string(), "2".to_string(), TagMap::new(), 2);
    assert_eq!(c.metadata.total_entries, c.len());
    c.insert_with_metadata_at("a".to_string(), "3".to_string(), TagMap::new(), 3);
    assert_eq!(c.metadata.total_entries, c.len());
    c.remove_at("b", 4);
    assert_eq!(c.metadata.total_entries, c.len());
    c.clear_at(5);
    assert_eq!(c.metadata.total_entries, c.len());
    c.insert("again".to_string(), "4".to_string());
    assert_eq!(c.metadata.total_entries, c.len());
    assert_eq!(c.len(), 1);
}

// Staleness monotonicity around the exact boundary t0 + max_age.
#[test]
fn test_is_stale_at_boundary() {
    let mut c: Cache<String> = Cache::new();
    c.insert_with_metadata_at("k".to_string(), "v".to_string(), TagMap::new(), 100);
    // Immediately after the mutation the cache is fresh.
    assert!(!c.is_stale_at(100, 10));
    // Not yet past t0 + max_age.
    assert!(!c.is_stale_at(110, 10));
    // One second past the boundary.
    assert!(c.is_stale_at(111, 10));
    // A clock behind the write time never reports stale.
    assert!(!c.is_stale_at(50, 10));
    assert!(!c.is_stale_at(0, 0));
}

#[test]
fn test_is_stale_wall_clock_fresh_after_insert() {
    let mut c: Cache<String> = Cache::new();
    c.insert("k".to_string(), "v".to_string());
    assert!(!c.is_stale(60 * 60));
    // An age bound of u64::MAX can never be exceeded.
    assert!(!c.is_stale(u64::MAX));
}

// Absent-key staleness: a key never inserted is stale by definition.
#[test]
fn test_entry_stale_for_absent_key() {
    let mut c: Cache<String> = Cache::new();
    c.insert_with_metadata_at("present".to_string(), "v".to_string(), TagMap::new(), 100);
    assert!(c.is_entry_stale_at("absent", 100, u64::MAX));
    assert!(c.is_entry_stale_at("absent", 0, 0));
    assert!(c.is_entry_stale("absent", u64::MAX));
    // A present, fresh entry is not stale; an old one is.
    assert!(!c.is_entry_stale_at("present", 105, 10));
    assert!(c.is_entry_stale_at("present", 200, 10));
}

// Filter exactness: only entries carrying exactly the tag pair.
#[test]
fn test_filter_by_metadata_exact() {
    let mut c: Cache<String> = Cache::new();
    c.insert_with_metadata_at(
        "a".to_string(),
        "1".to_string(),
        tags(&[("lang", "rust"), ("kind", "lib")]),
        1,
    );
    c.insert_with_metadata_at("b".to_string(), "2".to_string(), tags(&[("lang", "python")]), 2);
    c.insert_with_metadata_at("c".to_string(), "3".to_string(), TagMap::new(), 3);
    c.insert_with_metadata_at("d".to_string(), "4".to_string(), tags(&[("lang", "rust")]), 4);

    let hits = c.filter_by_metadata("lang", "rust");
    let got: Vec<(String, String)> =
        hits.iter().map(|(k, v)| ((*k).clone(), (*v).clone())).collect();
    assert_eq!(got, vec![("a".to_string(), "1".to_string()), ("d".to_string(), "4".to_string())]);

    // A different value or a missing tag never matches.
    assert!(c.filter_by_metadata("lang", "go").is_empty());
    assert!(c.filter_by_metadata("missing", "rust").is_empty());
}
