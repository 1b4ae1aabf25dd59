use cog_engine::reader_cache::ReaderCache;

const HOUR: u64 = 3_600_000_000_000;

/// get-or-open against the cache: returns the value and whether it opened.
fn get_or_open(cache: &mut ReaderCache<u32>, key: &str, now: u64, opens: &mut u32) -> u32 {
    let k = key.to_string();
    if let Some(v) = cache.lookup(&k, now) {
        return v;
    }
    *opens += 1;
    let v = *opens;
    cache.store(k, v, now);
    v
}

#[test]
fn second_open_same_key_touches_nothing() {
    let mut cache = ReaderCache::new(HOUR, 8);
    let mut opens = 0;
    let a = get_or_open(&mut cache, "k", 0, &mut opens);
    assert_eq!(opens, 1);
    let b = get_or_open(&mut cache, "k", 1_000, &mut opens);
    assert_eq!(opens, 1, "second lookup opens nothing");
    assert_eq!(a, b);
}

#[test]
fn ttl_zero_disables_caching() {
    let mut cache = ReaderCache::new(0, 8);
    let mut opens = 0;
    get_or_open(&mut cache, "k", 0, &mut opens);
    get_or_open(&mut cache, "k", 0, &mut opens);
    assert_eq!(opens, 2);
}

#[test]
fn distinct_keys_are_isolated() {
    let mut cache = ReaderCache::new(HOUR, 8);
    let mut opens = 0;
    let a = get_or_open(&mut cache, "a", 0, &mut opens);
    let b = get_or_open(&mut cache, "b", 0, &mut opens);
    assert_eq!(opens, 2);
    assert_ne!(a, b);
}

#[test]
fn cap_evicts_oldest() {
    let mut cache = ReaderCache::new(HOUR, 1);
    let mut opens = 0;
    get_or_open(&mut cache, "a", 0, &mut opens);
    get_or_open(&mut cache, "b", 1, &mut opens);
    get_or_open(&mut cache, "a", 2, &mut opens);
    assert_eq!(opens, 3);
}

#[test]
fn entries_expire_after_ttl() {
    let mut cache = ReaderCache::new(100, 8);
    cache.store("k".to_string(), 7, 1_000);
    assert_eq!(cache.lookup(&"k".to_string(), 1_099), Some(7));
    assert_eq!(cache.lookup(&"k".to_string(), 1_100), None);
    // a reading before the insertion counts as no time elapsed
    assert_eq!(cache.lookup(&"k".to_string(), 10), Some(7));
}

#[test]
fn stale_entries_leave_before_the_oldest_fresh_one() {
    let mut cache = ReaderCache::new(100, 2);
    cache.store("old".to_string(), 1, 0);
    cache.store("a".to_string(), 2, 150);
    // at 160 "old" is stale and goes; "a" stays; "b" fits
    cache.store("b".to_string(), 3, 160);
    assert_eq!(cache.lookup(&"a".to_string(), 160), Some(2));
    assert_eq!(cache.lookup(&"b".to_string(), 160), Some(3));
    // full: the oldest insertion ("a") leaves for "c"
    cache.store("c".to_string(), 4, 170);
    assert_eq!(cache.lookup(&"a".to_string(), 170), None);
    assert_eq!(cache.lookup(&"b".to_string(), 170), Some(3));
    assert_eq!(cache.lookup(&"c".to_string(), 170), Some(4));
    // replacing an existing key evicts nothing
    cache.store("b".to_string(), 5, 171);
    assert_eq!(cache.lookup(&"b".to_string(), 171), Some(5));
    assert_eq!(cache.lookup(&"c".to_string(), 171), Some(4));
}
