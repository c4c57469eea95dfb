use gitforge::cache::{Cache, TagMap};
use gitforge::resolve::{add_listing_at, find_template_in_cache, template_cache_key};

fn cache_with(keys: &[(&str, &str)]) -> Cache<String> {
    let mut c: Cache<String> = Cache::new();
    let mut t = 1u64;
    for (k, v) in keys {
        c.insert_with_metadata_at(k.to_string(), v.to_string(), TagMap::new(), t);
        t += 1;
    }
    c
}

// Resolver exact match, case-varied.
#[test]
fn test_resolver_exact_match_case_insensitive() {
    let c = cache_with(&[("rust", "Rust.gitignore")]);
    assert_eq!(find_template_in_cache("Rust", &c).unwrap(), "Rust.gitignore");
    assert_eq!(find_template_in_cache("RUST", &c).unwrap(), "Rust.gitignore");
    assert_eq!(find_template_in_cache("rust", &c).unwrap(), "Rust.gitignore");
}

// Resolver category fallback: the dash-normalized form of the input.
#[test]
fn test_resolver_dash_normalized() {
    let c = cache_with(&[("global-windows", "Global/Windows.gitignore")]);
    assert_eq!(find_template_in_cache("Global/Windows", &c).unwrap(), "Global/Windows.gitignore");
}

// Resolver category fallback: the bare name after the last separator.
#[test]
fn test_resolver_last_segment() {
    let c = cache_with(&[("windows", "Windows.gitignore")]);
    assert_eq!(find_template_in_cache("Global/Windows", &c).unwrap(), "Windows.gitignore");
}

// Fallback scan: a stored key ending with the input.
#[test]
fn test_resolver_suffix_of_stored_key() {
    let c = cache_with(&[("community-dotnetcore", "community/DotNetCore.gitignore")]);
    assert_eq!(
        find_template_in_cache("dotnetcore", &c).unwrap(),
        "community/DotNetCore.gitignore"
    );
}

// Fallback scan: the input ending with a stored key.
#[test]
fn test_resolver_input_ends_with_stored_key() {
    let c = cache_with(&[("p-windows", "P/Windows.gitignore")]);
    assert_eq!(find_template_in_cache("xp-windows", &c).unwrap(), "P/Windows.gitignore");
}

// Resolver miss: a not-found error naming the original input.
#[test]
fn test_resolver_miss_names_input() {
    let c = cache_with(&[("rust", "Rust.gitignore")]);
    let err = find_template_in_cache("not-a-template", &c).unwrap_err();
    assert_eq!(err.name, "not-a-template");
}

#[test]
fn test_resolver_miss_on_empty_cache() {
    let c: Cache<String> = Cache::new();
    let err = find_template_in_cache("anything", &c).unwrap_err();
    assert_eq!(err.name, "anything");
}

// First match wins, in stored order.
#[test]
fn test_resolver_first_match_in_stored_order() {
    let c = cache_with(&[
        ("global-archives", "Global/Archives.gitignore"),
        ("community-archives", "community/Archives.gitignore"),
    ]);
    // Neither exact nor dashed nor last-segment matches "archives", so
    // the scan returns the first suffix match in stored order.
    assert_eq!(find_template_in_cache("archives", &c).unwrap(), "Global/Archives.gitignore");
}

#[test]
fn test_template_cache_key_root_listing() {
    let (key, path) = template_cache_key("", "", "Rust.gitignore").unwrap();
    assert_eq!(key, "rust");
    assert_eq!(path, "Rust.gitignore");
}

#[test]
fn test_template_cache_key_folder_listing() {
    let (key, path) = template_cache_key("Global", "Global/", "Xcode.gitignore").unwrap();
    assert_eq!(key, "global-xcode");
    assert_eq!(path, "Global/Xcode.gitignore");
}

#[test]
fn test_template_cache_key_ignores_other_files() {
    assert!(template_cache_key("", "", "README.md").is_none());
    assert!(template_cache_key("Global", "Global/", "LICENSE").is_none());
}

#[test]
fn test_add_listing_builds_cache() {
    let mut c: Cache<String> = Cache::new();
    let names = vec![
        "Rust.gitignore".to_string(),
        "README.md".to_string(),
        "Python.gitignore".to_string(),
    ];
    add_listing_at(&mut c, "", "", &names, 42);
    assert_eq!(c.len(), 2);
    assert_eq!(c.get("rust"), Some(&"Rust.gitignore".to_string()));
    assert_eq!(c.get("python"), Some(&"Python.gitignore".to_string()));
    assert_eq!(c.metadata.last_updated, 42);

    let community = vec!["DotNetCore.gitignore".to_string()];
    add_listing_at(&mut c, "community", "community/", &community, 43);
    assert_eq!(c.len(), 3);
    assert_eq!(c.get("community-dotnetcore"), Some(&"community/DotNetCore.gitignore".to_string()));
}

// The whole refresh-then-resolve flow on a realistic listing.
#[test]
fn test_listing_then_resolution() {
    let mut c: Cache<String> = Cache::new();
    add_listing_at(&mut c, "", "", &vec!["Rust.gitignore".to_string()], 1);
    add_listing_at(&mut c, "Global", "Global/", &vec!["Windows.gitignore".to_string()], 2);
    assert_eq!(find_template_in_cache("Rust", &c).unwrap(), "Rust.gitignore");
    assert_eq!(find_template_in_cache("Global/Windows", &c).unwrap(), "Global/Windows.gitignore");
    assert_eq!(find_template_in_cache("windows", &c).unwrap(), "Global/Windows.gitignore");
}
