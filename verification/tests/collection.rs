use error_boundary::{ErrorKey, ErrorValue, Errors};

fn key(s: &str) -> ErrorKey {
    ErrorKey::new(s.to_string())
}

fn err(s: &str) -> ErrorValue {
    ErrorValue::new(s.to_string())
}

/// All (key, message) pairs currently stored, via the borrowing iterator.
fn pairs_of(errors: &Errors) -> Vec<(String, String)> {
    let mut it = errors.iter();
    let mut seen: Vec<(String, String)> = Vec::new();
    while let Some((k, e)) = it.next() {
        seen.push((k.as_str().to_string(), e.message().to_string()));
    }
    seen
}

#[test]
fn insert_then_remove_returns_error() {
    let mut errors = Errors::new();
    errors.insert(key("node-3"), err("boom"));
    let removed = errors.remove(&key("node-3"));
    assert_eq!(removed.unwrap().message(), "boom");
    assert!(errors.is_empty());
    assert!(errors.remove(&key("node-3")).is_none());
}

#[test]
fn remove_absent_is_noop() {
    let mut errors = Errors::new();
    errors.insert(key("present"), err("kept"));
    let removed = errors.remove(&key("absent"));
    assert!(removed.is_none());
    assert_eq!(pairs_of(&errors), vec![("present".to_string(), "kept".to_string())]);
}

#[test]
fn insert_overwrites_last_write_wins() {
    let mut errors = Errors::new();
    errors.insert(key("node-1"), err("first"));
    errors.insert(key("node-1"), err("second"));
    assert_eq!(pairs_of(&errors), vec![("node-1".to_string(), "second".to_string())]);
    let removed = errors.remove(&key("node-1"));
    assert_eq!(removed.unwrap().message(), "second");
    assert!(errors.is_empty());
}

#[test]
fn is_empty_iff_iter_yields_nothing() {
    let mut errors = Errors::new();
    assert!(errors.is_empty());
    assert!(errors.iter().next().is_none());
    errors.insert(key("node-1"), err("boom"));
    assert!(!errors.is_empty());
    assert!(errors.iter().next().is_some());
    errors.remove(&key("node-1"));
    assert!(errors.is_empty());
    assert!(errors.iter().next().is_none());
}

#[test]
fn default_key_collects_unlocated_errors() {
    let mut errors = Errors::new();
    errors.insert_with_default_key(err("first"));
    errors.insert_with_default_key(err("second"));
    assert_eq!(pairs_of(&errors), vec![(String::new(), "second".to_string())]);
    let removed = errors.remove(&ErrorKey::default());
    assert_eq!(removed.unwrap().message(), "second");
    assert!(errors.is_empty());
}

#[test]
fn iter_lists_every_entry_once() {
    let mut errors = Errors::new();
    errors.insert(key("a"), err("one"));
    errors.insert(key("b"), err("two"));
    errors.insert(key("c"), err("three"));
    let mut seen = pairs_of(&errors);
    seen.sort();
    assert_eq!(
        seen,
        vec![
            ("a".to_string(), "one".to_string()),
            ("b".to_string(), "two".to_string()),
            ("c".to_string(), "three".to_string()),
        ]
    );
}

#[test]
fn into_iter_yields_owned_entries() {
    let mut errors = Errors::new();
    errors.insert(key("a"), err("one"));
    errors.insert(key("b"), err("two"));
    let mut it = errors.into_iter();
    let mut seen: Vec<(String, String)> = Vec::new();
    while let Some((k, e)) = it.next() {
        seen.push((k.as_str().to_string(), e.message().to_string()));
    }
    seen.sort();
    assert_eq!(
        seen,
        vec![("a".to_string(), "one".to_string()), ("b".to_string(), "two".to_string())]
    );
    assert!(it.next().is_none());
}

#[test]
fn keys_compare_by_identity_string() {
    assert_eq!(key("node-1"), key("node-1"));
    assert_ne!(key("node-1"), key("node-2"));
    assert_eq!(ErrorKey::from("spot".to_string()), key("spot"));
    assert_eq!(ErrorKey::default(), key(""));
    let k = key("here");
    assert_eq!(k.clone(), k);
    assert_eq!(k.as_str(), "here");
}

#[test]
fn error_value_keeps_its_description() {
    let e = err("division by zero");
    assert_eq!(e.message(), "division by zero");
    assert_eq!(e.clone().message(), "division by zero");
}

#[test]
fn default_collection_is_empty() {
    let errors = Errors::default();
    assert!(errors.is_empty());
}
