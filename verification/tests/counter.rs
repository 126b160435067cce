use naive_bayes::counter::Counter;

#[test]
fn never_inserted_key_reads_zero() {
    let c = Counter::new();
    assert_eq!(c.get("spam"), 0);
    assert_eq!(c.get(""), 0);
    assert_eq!(c.get("anything at all"), 0);
}

#[test]
fn increment_tallies_each_key_separately() {
    let mut c = Counter::new();
    assert_eq!(c.increment("spam"), 1);
    assert_eq!(c.increment("spam"), 2);
    assert_eq!(c.increment("ham"), 1);
    assert_eq!(c.increment("spam"), 3);
    assert_eq!(c.get("spam"), 3);
    assert_eq!(c.get("ham"), 1);
    assert_eq!(c.get("eggs"), 0);
}

#[test]
fn increment_returns_the_new_count() {
    let mut c = Counter::new();
    for expected in 1..=5u32 {
        assert_eq!(c.increment("k"), expected);
    }
    assert_eq!(c.get("k"), 5);
}

#[test]
fn iter_walks_the_recorded_pairs() {
    let mut c = Counter::new();
    c.increment("a");
    c.increment("b");
    c.increment("a");
    let entries = c.iter();
    assert_eq!(entries.len(), 2);
    assert!(entries.contains(&("a".to_string(), 2)));
    assert!(entries.contains(&("b".to_string(), 1)));
}
