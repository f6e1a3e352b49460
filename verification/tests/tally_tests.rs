use blame_tally::Tally;

#[test]
fn record_increments_or_inserts() {
    let mut t = Tally::new();
    assert_eq!(t.total(), 0);
    assert_eq!(t.author_count(), 0);
    t.record("Alice".to_string());
    t.record("Bob".to_string());
    t.record("Alice".to_string());
    assert_eq!(t.total(), 3);
    assert_eq!(t.author_count(), 2);
    let (a0, c0) = t.entry_at(0);
    let (a1, c1) = t.entry_at(1);
    assert_eq!((a0.as_str(), c0), ("Alice", 2));
    assert_eq!((a1.as_str(), c1), ("Bob", 1));
}

#[test]
fn empty_name_is_its_own_key() {
    let mut t = Tally::new();
    t.record("".to_string());
    t.record("x".to_string());
    t.record("".to_string());
    assert_eq!(t.author_count(), 2);
    let (a0, c0) = t.entry_at(0);
    assert_eq!((a0.as_str(), c0), ("", 2));
}
