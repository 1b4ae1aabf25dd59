use cog_engine::registry::{
    configure_tile_cache, tile_cache_stats, ReaderRegistry, DEFAULT_TILE_CACHE_MB, MAX_READERS,
};
use cog_engine::tile_cache::{TileCache, TileCacheStats};

#[test]
fn registry_returns_what_was_registered() {
    let mut g: ReaderRegistry<u32> = ReaderRegistry::new();
    assert_eq!(g.lookup(&"s3://a".to_string()), None);
    g.insert("s3://a".to_string(), 1);
    g.insert("s3://b".to_string(), 2);
    assert_eq!(g.lookup(&"s3://a".to_string()), Some(1));
    assert_eq!(g.lookup(&"s3://b".to_string()), Some(2));
    g.insert("s3://a".to_string(), 3);
    assert_eq!(g.lookup(&"s3://a".to_string()), Some(3));
    g.clear();
    assert_eq!(g.lookup(&"s3://b".to_string()), None);
}

#[test]
fn full_registry_starts_over() {
    let mut g: ReaderRegistry<usize> = ReaderRegistry::new();
    for i in 0..MAX_READERS {
        g.insert(format!("u{i}"), i);
    }
    assert_eq!(g.lookup(&"u0".to_string()), Some(0));
    assert_eq!(g.lookup(&"u63".to_string()), Some(63));
    g.insert("extra".to_string(), 99);
    assert_eq!(g.lookup(&"u0".to_string()), None);
    assert_eq!(g.lookup(&"u63".to_string()), None);
    assert_eq!(g.lookup(&"extra".to_string()), Some(99));
}

#[test]
fn tile_cache_configuration() {
    let mut readers: ReaderRegistry<u32> = ReaderRegistry::new();
    readers.insert("s3://a".to_string(), 1);
    let off: Option<TileCache<u32, ()>> = configure_tile_cache(&mut readers, 0);
    assert_eq!(readers.lookup(&"s3://a".to_string()), None, "reconfiguring empties the registry");
    assert!(off.is_none());
    assert_eq!(
        tile_cache_stats(&off),
        TileCacheStats { hits: 0, misses: 0, evictions: 0, bytes: 0, max_bytes: 0 }
    );
    let on: Option<TileCache<u32, ()>> = configure_tile_cache(&mut readers, DEFAULT_TILE_CACHE_MB);
    assert_eq!(
        tile_cache_stats(&on),
        TileCacheStats { hits: 0, misses: 0, evictions: 0, bytes: 0, max_bytes: 64 * 1024 * 1024 }
    );
    readers.insert("s3://b".to_string(), 2);
    let small: Option<TileCache<u32, ()>> = configure_tile_cache(&mut readers, 2);
    assert_eq!(readers.lookup(&"s3://b".to_string()), None);
    assert_eq!(tile_cache_stats(&small).max_bytes, 2 * 1024 * 1024);
}
