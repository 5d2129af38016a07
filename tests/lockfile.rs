use docref::error::Error;
use docref::lockfile::{enforce_lockfile_entry_ordering, LockEntry, Lockfile};
use docref::types::SemanticHash;

fn entry(source: &str, target: &str, symbol: &str, hash: &str) -> LockEntry {
    LockEntry { hash: SemanticHash(hash.to_string()), source: source.to_string(), symbol: symbol.to_string(), target: target.to_string() }
}

fn keys(l: &Lockfile) -> Vec<(String, String, String, String)> {
    l.entries.iter().map(|e| (e.source.clone(), e.target.clone(), e.symbol.clone(), e.hash.0.clone())).collect()
}

#[test]
fn new_sorts_and_keeps_first_of_each_key() {
    let l = Lockfile::new(vec![
        entry("docs/b.md", "src/lib.rs", "add", "1"),
        entry("docs/a.md", "src/lib.rs", "add", "2"),
        entry("docs/a.md", "src/lib.rs", "A", "3"),
        entry("docs/b.md", "src/lib.rs", "add", "4"),
    ]);
    assert_eq!(keys(&l), vec![
        ("docs/a.md".to_string(), "src/lib.rs".to_string(), "A".to_string(), "3".to_string()),
        ("docs/a.md".to_string(), "src/lib.rs".to_string(), "add".to_string(), "2".to_string()),
        ("docs/b.md".to_string(), "src/lib.rs".to_string(), "add".to_string(), "1".to_string()),
    ]);
}

#[test]
fn rebuilding_shuffled_entries_is_idempotent() {
    let sorted = Lockfile::new(vec![entry("a", "t", "x", "h1"), entry("a", "t", "y", "h2"), entry("b", "s", "", "h3")]);
    let shuffled = vec![entry("b", "s", "", "h3"), entry("a", "t", "y", "h2"), entry("a", "t", "x", "h1"), entry("a", "t", "y", "h2")];
    assert_eq!(keys(&Lockfile::new(shuffled)), keys(&sorted));
}

#[test]
fn unordered_entries_are_corrupt() {
    let entries = vec![entry("b", "t", "x", "h"), entry("a", "t", "x", "h")];
    assert!(matches!(enforce_lockfile_entry_ordering(&entries), Err(Error::LockfileCorrupt { .. })));
    assert!(matches!(Lockfile::from_parsed(entries), Err(Error::LockfileCorrupt { .. })));
    let dup = vec![entry("a", "t", "x", "h"), entry("a", "t", "x", "h")];
    assert!(Lockfile::from_parsed(dup).is_err());
    let ok = vec![entry("a", "t", "x", "h"), entry("a", "t", "y", "h")];
    assert_eq!(Lockfile::from_parsed(ok).unwrap().entries.len(), 2);
    assert!(enforce_lockfile_entry_ordering(&Vec::new()).is_ok());
}
