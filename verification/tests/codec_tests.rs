use gitforge::cache::{Cache, TagMap};
use gitforge::codec::{encode_decode, from_json, to_json};
use gitforge::errors::CacheError;

fn tags(pairs: &[(&str, &str)]) -> TagMap {
    let mut m = TagMap::new();
    for (k, v) in pairs {
        m.insert(k.to_string(), v.to_string());
    }
    m
}

fn sample_cache() -> Cache<String> {
    let mut c: Cache<String> = Cache::new();
    c.insert_with_metadata_at(
        "rust".to_string(),
        "Rust.gitignore".to_string(),
        tags(&[("origin", "root"), ("lang", "rust")]),
        100,
    );
    c.insert_with_metadata_at(
        "global-windows".to_string(),
        "Global/Windows.gitignore".to_string(),
        TagMap::new(),
        101,
    );
    c
}

#[test]
fn test_to_json_empty_cache_exact() {
    let c: Cache<String> = Cache::new();
    let expected = "{\n  \"metadata\": {\n    \"last_updated\": 0,\n    \"total_entries\": 0\n  },\n  \"entries\": {}\n}";
    assert_eq!(to_json(&c), expected);
}

#[test]
fn test_to_json_one_entry_exact() {
    let mut c: Cache<String> = Cache::new();
    c.insert_with_metadata_at("k".to_string(), "v".to_string(), TagMap::new(), 7);
    let expected = "{\n  \"metadata\": {\n    \"last_updated\": 7,\n    \"total_entries\": 1\n  },\n  \"entries\": {\n    \"k\": {\n      \"data\": \"v\",\n      \"timestamp\": 7,\n      \"metadata\": {}\n    }\n  }\n}";
    assert_eq!(to_json(&c), expected);
}

#[test]
fn test_to_json_tags_exact() {
    let mut c: Cache<String> = Cache::new();
    c.insert_with_metadata_at("k".to_string(), "v".to_string(), tags(&[("a", "b")]), 12);
    let expected = "{\n  \"metadata\": {\n    \"last_updated\": 12,\n    \"total_entries\": 1\n  },\n  \"entries\": {\n    \"k\": {\n      \"data\": \"v\",\n      \"timestamp\": 12,\n      \"metadata\": {\n        \"a\": \"b\"\n      }\n    }\n  }\n}";
    assert_eq!(to_json(&c), expected);
}

// Round trip: a populated cache survives serialization unchanged.
#[test]
fn test_round_trip_preserves_content() {
    let c = sample_cache();
    let doc = to_json(&c);
    let c2 = from_json(doc.as_str()).unwrap();
    assert_eq!(c2.metadata.last_updated, 101);
    assert_eq!(c2.metadata.total_entries, 2);
    assert_eq!(c2.len(), 2);
    assert_eq!(c2.keys(), c.keys());
    assert_eq!(c2.get("rust"), Some(&"Rust.gitignore".to_string()));
    assert_eq!(c2.get("global-windows"), Some(&"Global/Windows.gitignore".to_string()));
    let e = c2.get_entry("rust").unwrap();
    assert_eq!(e.timestamp, 100);
    assert_eq!(e.metadata.get("origin"), Some(&"root".to_string()));
    assert_eq!(e.metadata.get("lang"), Some(&"rust".to_string()));
    assert_eq!(e.metadata.get("absent"), None);
    // Serializing again gives the same document.
    assert_eq!(to_json(&c2), doc);
}

#[test]
fn test_encode_decode_round_trip() {
    let c = sample_cache();
    let c2 = encode_decode(&c);
    assert_eq!(to_json(&c2), to_json(&c));
}

#[test]
fn test_round_trip_escaped_characters() {
    let mut c: Cache<String> = Cache::new();
    c.insert_with_metadata_at(
        "quo\"te".to_string(),
        "back\\slash and\nnewline\ttab".to_string(),
        TagMap::new(),
        3,
    );
    let doc = to_json(&c);
    assert!(doc.contains("quo\\\"te"));
    assert!(doc.contains("back\\\\slash"));
    assert!(doc.contains("\\u000a"));
    assert!(doc.contains("\\u0009"));
    let c2 = from_json(doc.as_str()).unwrap();
    assert_eq!(c2.get("quo\"te"), Some(&"back\\slash and\nnewline\ttab".to_string()));
}

#[test]
fn test_round_trip_unicode() {
    let mut c: Cache<String> = Cache::new();
    c.insert_with_metadata_at("café".to_string(), "Grüße 日本語".to_string(), TagMap::new(), 9);
    let doc = to_json(&c);
    let c2 = from_json(doc.as_str()).unwrap();
    assert_eq!(c2.get("café"), Some(&"Grüße 日本語".to_string()));
}

#[test]
fn test_from_json_rejects_garbage() {
    assert_eq!(from_json("not json at all").unwrap_err(), CacheError::Malformed);
    assert_eq!(from_json("").unwrap_err(), CacheError::Malformed);
    assert_eq!(from_json("{}").unwrap_err(), CacheError::Malformed);
}

#[test]
fn test_from_json_rejects_truncated_document() {
    let doc = to_json(&sample_cache());
    let cut = &doc[..doc.len() - 2];
    assert_eq!(from_json(cut).unwrap_err(), CacheError::Malformed);
}

#[test]
fn test_from_json_rejects_trailing_garbage() {
    let mut doc = to_json(&sample_cache());
    doc.push_str(" ");
    assert_eq!(from_json(doc.as_str()).unwrap_err(), CacheError::Malformed);
}

#[test]
fn test_from_json_rejects_count_mismatch() {
    let doc = to_json(&sample_cache());
    let lied = doc.replace("\"total_entries\": 2", "\"total_entries\": 3");
    assert_eq!(from_json(lied.as_str()).unwrap_err(), CacheError::Malformed);
}

#[test]
fn test_from_json_rejects_noncanonical_number() {
    let doc = to_json(&sample_cache());
    let padded = doc.replace("\"last_updated\": 101", "\"last_updated\": 0101");
    assert_eq!(from_json(padded.as_str()).unwrap_err(), CacheError::Malformed);
}

#[test]
fn test_from_json_rejects_duplicate_keys() {
    let mut c: Cache<String> = Cache::new();
    c.insert_with_metadata_at("dup".to_string(), "one".to_string(), TagMap::new(), 1);
    let doc = to_json(&c);
    // Duplicate the single entry by hand.
    let entry = "    \"dup\": {\n      \"data\": \"one\",\n      \"timestamp\": 1,\n      \"metadata\": {}\n    }";
    let doubled = doc
        .replace(entry, &format!("{},\n{}", entry, entry))
        .replace("\"total_entries\": 1", "\"total_entries\": 2");
    assert_eq!(from_json(doubled.as_str()).unwrap_err(), CacheError::Malformed);
}

#[test]
fn test_from_json_parses_printed_empty_cache() {
    let doc = to_json(&Cache::<String>::new());
    let c = from_json(doc.as_str()).unwrap();
    assert_eq!(c.len(), 0);
    assert_eq!(c.metadata.last_updated, 0);
}
