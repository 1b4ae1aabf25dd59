use cog_engine::tile_cache::{Claim, TileCache, TileKey};

fn key(cache: &mut TileCache<Vec<u8>, u32>, x: usize, y: usize) -> TileKey {
    let reader = cache.register();
    TileKey { reader, tile_x: x, tile_y: y }
}

#[test]
fn stats_track_miss_then_hit_and_resident_bytes() {
    let mut cache: TileCache<Vec<u8>, u32> = TileCache::new(64 * 1024 * 1024);
    let s0 = cache.stats();
    assert_eq!((s0.hits, s0.misses, s0.evictions, s0.bytes), (0, 0, 0, 0));
    assert_eq!(s0.max_bytes, 64 * 1024 * 1024);
    let k = key(&mut cache, 0, 0);

    assert!(matches!(cache.claim(k, 1), Claim::Mine));
    assert!(cache.fulfill(k, vec![7; 1024], 1024).is_some());
    let s1 = cache.stats();
    assert_eq!((s1.hits, s1.misses), (0, 1));
    assert_eq!(s1.bytes, 1024);

    match cache.claim(k, 2) {
        Claim::Hit(v) => assert_eq!(v, vec![7; 1024]),
        _ => panic!("warm claim must hit"),
    }
    let s2 = cache.stats();
    assert_eq!((s2.hits, s2.misses, s2.bytes, s2.evictions), (1, 1, 1024, 0));
}

#[test]
fn stats_count_evictions_under_budget_pressure() {
    let mut cache: TileCache<Vec<u8>, u32> = TileCache::new(1);
    let k = key(&mut cache, 0, 0);
    for _ in 0..2 {
        assert!(matches!(cache.claim(k, 0), Claim::Mine));
        cache.fulfill(k, vec![0; 16], 16);
    }
    let s = cache.stats();
    assert_eq!(s.hits, 0);
    assert_eq!(s.misses, 2);
    assert_eq!(s.evictions, 2);
    assert_eq!(s.bytes, 0);
}

#[test]
fn pending_tile_is_fetched_once() {
    let mut cache: TileCache<Vec<u8>, u32> = TileCache::new(1000);
    let k = key(&mut cache, 3, 4);
    assert!(matches!(cache.claim(k, 10), Claim::Mine));
    // every other caller of the cold tile waits on the first caller's handle
    for fresh in 11..18 {
        match cache.claim(k, fresh) {
            Claim::Wait(w) => assert_eq!(w, 10),
            _ => panic!("a pending tile is never claimed twice"),
        }
    }
    assert_eq!(cache.fulfill(k, vec![1; 10], 10), Some(10));
    assert!(matches!(cache.claim(k, 0), Claim::Hit(_)));
    assert_eq!(cache.stats().misses, 1);
}

#[test]
fn abort_frees_the_key_for_a_retry() {
    let mut cache: TileCache<Vec<u8>, u32> = TileCache::new(1000);
    let k = key(&mut cache, 0, 0);
    assert!(matches!(cache.claim(k, 5), Claim::Mine));
    assert_eq!(cache.abort(k), Some(5));
    assert_eq!(cache.abort(k), None);
    assert!(matches!(cache.claim(k, 6), Claim::Mine));
    cache.fulfill(k, vec![1], 1);
    assert_eq!(cache.abort(k), None, "a resident tile stays");
    assert!(matches!(cache.claim(k, 7), Claim::Hit(_)));
}

#[test]
fn readers_do_not_cross_serve() {
    let mut cache: TileCache<Vec<u8>, u32> = TileCache::new(1000);
    let a = key(&mut cache, 0, 0);
    let b = key(&mut cache, 0, 0);
    assert_ne!(a.reader, b.reader);
    assert!(matches!(cache.claim(a, 0), Claim::Mine));
    cache.fulfill(a, vec![9], 1);
    assert!(matches!(cache.claim(b, 0), Claim::Mine), "another reader's tile is not a hit");
}

#[test]
fn least_recently_used_tile_leaves_first() {
    let mut cache: TileCache<Vec<u8>, u32> = TileCache::new(30);
    let r = cache.register();
    let k = |x: usize| TileKey { reader: r, tile_x: x, tile_y: 0 };
    for x in 0..3 {
        assert!(matches!(cache.claim(k(x), 0), Claim::Mine));
        cache.fulfill(k(x), vec![x as u8; 10], 10);
    }
    // touch tile 0 so tile 1 is the oldest
    assert!(matches!(cache.claim(k(0), 0), Claim::Hit(_)));
    assert!(matches!(cache.claim(k(3), 0), Claim::Mine));
    cache.fulfill(k(3), vec![3; 10], 10);
    assert_eq!(cache.stats().evictions, 1);
    assert_eq!(cache.stats().bytes, 30);
    assert!(matches!(cache.claim(k(1), 0), Claim::Mine), "tile 1 was evicted");
    assert!(matches!(cache.claim(k(0), 0), Claim::Hit(_)));
    assert!(matches!(cache.claim(k(2), 0), Claim::Hit(_)));
    assert!(matches!(cache.claim(k(3), 0), Claim::Hit(_)));
}

#[test]
fn reader_ids_are_fresh() {
    let mut cache: TileCache<Vec<u8>, u32> = TileCache::new(0);
    let a = cache.register();
    let b = cache.register();
    assert_eq!((a.get(), b.get()), (0, 1));
}

/// Fetches of a reader that takes each tile through the cache: a claim that
/// is `Mine` is a fetch (then fulfilled); a hit costs none.
fn read_tile(cache: &mut TileCache<Vec<u8>, u32>, k: TileKey, fetches: &mut usize) {
    match cache.claim(k, 0) {
        Claim::Hit(_) => {}
        Claim::Mine => {
            *fetches += 1;
            cache.fulfill(k, vec![0; 131072], 131072);
        }
        Claim::Wait(_) => panic!("no fetch is pending in a sequential reader"),
    }
}

#[test]
fn second_zonal_over_same_tile_touches_nothing() {
    let mut cache: TileCache<Vec<u8>, u32> = TileCache::new(64 * 1024 * 1024);
    let k = key(&mut cache, 0, 0);
    let mut fetches = 0;
    read_tile(&mut cache, k, &mut fetches);
    let first = fetches;
    read_tile(&mut cache, k, &mut fetches);
    assert_eq!(first, 1);
    assert_eq!(fetches - first, 0, "the second read of a resident tile fetches nothing");
}

#[test]
fn tiny_budget_evicts_and_refetches() {
    let mut cache: TileCache<Vec<u8>, u32> = TileCache::new(1);
    let k = key(&mut cache, 0, 0);
    let mut fetches = 0;
    read_tile(&mut cache, k, &mut fetches);
    read_tile(&mut cache, k, &mut fetches);
    assert_eq!(fetches, 2, "a tile over the budget is never resident: every read refetches");
}

#[test]
fn cold_tile_single_flight_under_concurrency() {
    let mut cache: TileCache<Vec<u8>, u32> = TileCache::new(64 * 1024 * 1024);
    let k = key(&mut cache, 0, 0);
    // eight callers arrive at the cold tile before the first fetch settles
    let mut fetches = 0;
    let mut waiting = 0;
    for caller in 0..8u32 {
        match cache.claim(k, caller) {
            Claim::Mine => fetches += 1,
            Claim::Wait(w) => {
                assert_eq!(w, 0, "everyone waits on the first caller's handle");
                waiting += 1;
            }
            Claim::Hit(_) => panic!("the tile is not resident yet"),
        }
    }
    assert_eq!(cache.fulfill(k, vec![1; 8], 8), Some(0));
    for caller in 0..waiting {
        assert!(matches!(cache.claim(k, caller), Claim::Hit(_)));
    }
    assert_eq!(fetches, 1, "eight callers of a cold tile make one fetch");
}

#[test]
fn oversized_tile_leaves_nothing_resident() {
    let mut cache: TileCache<Vec<u8>, u32> = TileCache::new(20);
    let r = cache.register();
    let k = |x: usize| TileKey { reader: r, tile_x: x, tile_y: 0 };
    for x in 0..2 {
        assert!(matches!(cache.claim(k(x), 0), Claim::Mine));
        cache.fulfill(k(x), vec![1; 10], 10);
    }
    assert_eq!(cache.stats().bytes, 20);
    assert!(matches!(cache.claim(k(2), 0), Claim::Mine));
    cache.fulfill(k(2), vec![2; 30], 30);
    let s = cache.stats();
    assert_eq!((s.bytes, s.evictions), (0, 3));
    for x in 0..3 {
        assert!(matches!(cache.claim(k(x), 0), Claim::Mine), "tile {x} is gone");
    }
}
