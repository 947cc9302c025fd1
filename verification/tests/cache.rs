use token_compress_cli::cache::Cache;

#[test]
fn basic_roundtrip() {
    let mut c = Cache::new();
    c.insert("a", 1, 100);
    assert_eq!(c.get(&"a", 50), Some(1));
    assert_eq!(c.get(&"a", 150), None);
}

#[test]
fn get_serves_until_expiry_inclusive() {
    let mut c = Cache::new();
    c.insert(7u64, "seven".to_string(), 10);
    assert_eq!(c.get(&7, 10), Some("seven".to_string()));
    assert_eq!(c.get(&7, 11), None);
    assert_eq!(c.get(&8, 0), None);
}

#[test]
fn insert_replaces_the_entry() {
    let mut c = Cache::new();
    c.insert(1u64, 1u32, 5);
    c.insert(1u64, 2u32, 50);
    assert_eq!(c.get(&1, 20), Some(2));
}

#[test]
fn evict_drops_only_expired_entries() {
    let mut c = Cache::new();
    c.insert(1u64, 10u32, 5);
    c.insert(2u64, 20u32, 15);
    c.insert(3u64, 30u32, 10);
    c.evict_expired(10);
    // Entry 3 expires exactly at 10 and stays; entry 1 is gone even when
    // asked for at an earlier time.
    assert_eq!(c.get(&1, 0), None);
    assert_eq!(c.get(&2, 0), Some(20));
    assert_eq!(c.get(&3, 0), Some(30));
}
