use rust_paper::lock::{LockEntry, LockFile};

#[test]
fn test_lock_file_new() {
    let lock_file = LockFile::new();
    assert!(lock_file.entries().is_empty());
}

#[test]
fn test_lock_file_contains() {
    let mut lock_file = LockFile::new();
    lock_file.add(
        "test123".to_string(),
        "/path/to/image.jpg".to_string(),
        "abcd1234".to_string(),
    );

    assert!(lock_file.contains("test123", "abcd1234"));
    assert!(!lock_file.contains("test123", "wrong_hash"));
    assert!(!lock_file.contains("nonexistent", "abcd1234"));
}

#[test]
fn test_lock_file_remove() {
    let mut lock_file = LockFile::new();
    lock_file.add(
        "test123".to_string(),
        "/path/to/image.jpg".to_string(),
        "abcd1234".to_string(),
    );
    lock_file.add(
        "test456".to_string(),
        "/path/to/image2.jpg".to_string(),
        "efgh5678".to_string(),
    );

    assert_eq!(lock_file.entries().len(), 2);
    assert!(lock_file.contains("test123", "abcd1234"));

    // Remove one entry
    assert!(lock_file.remove("test123"));

    assert_eq!(lock_file.entries().len(), 1);
    assert!(!lock_file.contains("test123", "abcd1234"));
    assert!(lock_file.contains("test456", "efgh5678"));
}

fn triples(lock_file: &LockFile) -> Vec<(String, String, String)> {
    lock_file
        .entries()
        .iter()
        .map(|e| {
            (e.image_id().to_string(), e.image_location().to_string(), e.image_sha256().to_string())
        })
        .collect()
}

fn triple(id: &str, location: &str, sha: &str) -> (String, String, String) {
    (id.to_string(), location.to_string(), sha.to_string())
}

#[test]
fn adding_an_id_again_overwrites_its_record_in_place() {
    let mut lock_file = LockFile::default();
    assert!(lock_file.is_empty());
    lock_file.add("a".to_string(), "/1".to_string(), "h1".to_string());
    lock_file.add("b".to_string(), "/2".to_string(), "h2".to_string());
    lock_file.add("a".to_string(), "/3".to_string(), "h3".to_string());
    assert_eq!(lock_file.len(), 2);
    assert_eq!(triples(&lock_file), vec![triple("a", "/3", "h3"), triple("b", "/2", "h2")]);
    assert!(lock_file.contains("a", "h3"));
    assert!(!lock_file.contains("a", "h1"));
}

#[test]
fn removing_an_absent_id_changes_nothing() {
    let mut lock_file = LockFile::new();
    assert!(!lock_file.remove("a"));
    lock_file.add("a".to_string(), "/1".to_string(), "h1".to_string());
    assert!(!lock_file.remove("b"));
    assert_eq!(triples(&lock_file), vec![triple("a", "/1", "h1")]);
    assert!(lock_file.remove("a"));
    assert!(lock_file.is_empty());
    assert!(!lock_file.remove("a"));
}

#[test]
fn a_ledger_with_repeated_ids_is_handled_as_it_stands() {
    let mut lock_file = LockFile::from_entries(vec![
        LockEntry::new("a".to_string(), "/1".to_string(), "h1".to_string()),
        LockEntry::new("b".to_string(), "/2".to_string(), "h2".to_string()),
        LockEntry::new("a".to_string(), "/3".to_string(), "h3".to_string()),
    ]);
    assert!(lock_file.contains("a", "h1"));
    assert!(lock_file.contains("a", "h3"));
    let found = lock_file.find("a").unwrap();
    assert_eq!(found.image_location(), "/3");
    assert_eq!(found.image_sha256(), "h3");
    assert!(lock_file.find("c").is_none());
    lock_file.add("a".to_string(), "/4".to_string(), "h4".to_string());
    assert_eq!(
        triples(&lock_file),
        vec![triple("a", "/4", "h4"), triple("b", "/2", "h2"), triple("a", "/3", "h3")]
    );
    assert!(lock_file.remove("a"));
    assert_eq!(triples(&lock_file), vec![triple("b", "/2", "h2")]);
}

#[test]
fn remove_all_takes_out_every_named_id() {
    let mut lock_file = LockFile::new();
    for (id, location, sha) in [("a", "/1", "h1"), ("b", "/2", "h2"), ("c", "/3", "h3")] {
        lock_file.add(id.to_string(), location.to_string(), sha.to_string());
    }
    assert!(!lock_file.remove_all(&[]));
    assert!(!lock_file.remove_all(&["x".to_string()]));
    assert!(lock_file.remove_all(&["c".to_string(), "x".to_string(), "a".to_string()]));
    assert_eq!(triples(&lock_file), vec![triple("b", "/2", "h2")]);
}
