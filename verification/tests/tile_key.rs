use cog_engine::{pack_tile_key, unpack_tile_key, MAX_TILE_INDEX};

#[test]
fn tile_key_roundtrip() {
    for (l, x, y) in [(0u8, 0u32, 0u32), (3, 123, 456), (8, (1 << 24) - 1, 1)] {
        let key = pack_tile_key(l, x, y).expect("in range");
        assert_eq!(unpack_tile_key(key), (l, x, y));
    }
}

#[test]
fn tile_key_rejects_out_of_range() {
    assert!(pack_tile_key(0, 1 << 24, 0).is_none());
    assert!(pack_tile_key(0, 0, 1 << 24).is_none());
}

#[test]
fn tile_key_bit_layout() {
    // level in bits 48..56, x in 24..48, y in 0..24
    assert_eq!(pack_tile_key(0, 1, 0), Some(16777216));
    assert_eq!(pack_tile_key(1, 0, 0), Some(281474976710656));
    assert_eq!(pack_tile_key(0, 0, 1), Some(1));
    assert_eq!(
        pack_tile_key(255, MAX_TILE_INDEX, MAX_TILE_INDEX),
        Some(0x00FF_FFFF_FFFF_FFFF)
    );
    assert_eq!(MAX_TILE_INDEX, (1 << 24) - 1);
}

#[test]
fn tile_key_unpack_ignores_top_byte() {
    // the top byte of a key is not part of any coordinate
    assert_eq!(unpack_tile_key(0xAB00_0000_0000_0000), (0, 0, 0));
    assert_eq!(unpack_tile_key(u64::MAX), (255, MAX_TILE_INDEX, MAX_TILE_INDEX));
    assert_eq!(unpack_tile_key(0x0003_0000_7B00_01C8), (3, 123, 456));
}

#[test]
fn tile_key_distinct_coordinates_distinct_keys() {
    let a = pack_tile_key(1, 2, 3).unwrap();
    let b = pack_tile_key(1, 3, 2).unwrap();
    let c = pack_tile_key(2, 2, 3).unwrap();
    assert_ne!(a, b);
    assert_ne!(a, c);
    assert_ne!(b, c);
}
