//! Tile keys: a tile coordinate packed into one `u64`
//! (level 8 bits | tile_x 24 bits | tile_y 24 bits).

use vstd::prelude::*;

verus! {

/// Largest tile index that a key can hold (24 bits).
pub const MAX_TILE_INDEX: u32 = 16777215;

/// The key of `(level, tile_x, tile_y)` as a number.
pub open spec fn tile_key_value(level: u8, tile_x: u32, tile_y: u32) -> int {
    level as int * 0x1_0000_0000_0000 + tile_x as int * 0x100_0000 + tile_y as int
}

/// Both tile indices fit in 24 bits.
pub open spec fn tile_indices_in_range(tile_x: u32, tile_y: u32) -> bool {
    tile_x <= MAX_TILE_INDEX && tile_y <= MAX_TILE_INDEX
}

/// The coordinate that a key stands for.
pub open spec fn tile_key_fields(key: u64) -> (u8, u32, u32) {
    (
        ((key as int / 0x1_0000_0000_0000) % 0x100) as u8,
        ((key as int / 0x100_0000) % 0x100_0000) as u32,
        (key as int % 0x100_0000) as u32,
    )
}

/// Packs a tile coordinate into a single key; `None` when an index needs more
/// than 24 bits.
pub fn pack_tile_key(level: u8, tile_x: u32, tile_y: u32) -> (key: Option<u64>)
    ensures
        key is Some <==> tile_indices_in_range(tile_x, tile_y),
        key matches Some(k) ==> k as int == tile_key_value(level, tile_x, tile_y),
{
    if tile_x > MAX_TILE_INDEX || tile_y > MAX_TILE_INDEX {
        return None;
    }
    let l = level as u64;
    let x = tile_x as u64;
    let y = tile_y as u64;
    let k = (l << 48u64) | (x << 24u64) | y;
    assert(k == l * 0x1_0000_0000_0000 + x * 0x100_0000 + y) by (bit_vector)
        requires
            k == (l << 48u64) | (x << 24u64) | y,
            l < 0x100,
            x < 0x100_0000,
            y < 0x100_0000,
    ;
    Some(k)
}

/// Splits a key back into `(level, tile_x, tile_y)`.
pub fn unpack_tile_key(key: u64) -> (r: (u8, u32, u32))
    ensures
        r == tile_key_fields(key),
{
    let l = key >> 48u64;
    let x = (key >> 24u64) & 0xFF_FFFFu64;
    let y = key & 0xFF_FFFFu64;
    assert(l == key / 0x1_0000_0000_0000 && l < 0x1_0000) by (bit_vector)
        requires
            l == key >> 48u64,
    ;
    assert(x == (key / 0x100_0000) % 0x100_0000) by (bit_vector)
        requires
            x == (key >> 24u64) & 0xFF_FFFFu64,
    ;
    assert(y == key % 0x100_0000) by (bit_vector)
        requires
            y == key & 0xFF_FFFFu64,
    ;
    let level: u8 = #[verifier::truncate] (l as u8);
    assert(level == l % 0x100) by (bit_vector)
        requires
            level == l as u8,
    ;
    (level, x as u32, y as u32)
}

/// A key packed from an in-range coordinate unpacks to that coordinate.
pub proof fn lemma_tile_key_roundtrip(level: u8, tile_x: u32, tile_y: u32)
    requires
        tile_indices_in_range(tile_x, tile_y),
    ensures
        0 <= tile_key_value(level, tile_x, tile_y) <= u64::MAX,
        tile_key_fields(tile_key_value(level, tile_x, tile_y) as u64) == (level, tile_x, tile_y),
{
    let v = tile_key_value(level, tile_x, tile_y);
    assert(v / 0x1_0000_0000_0000 == level as int) by (nonlinear_arith)
        requires
            v == level as int * 0x1_0000_0000_0000 + tile_x as int * 0x100_0000 + tile_y as int,
            0 <= tile_x < 0x100_0000,
            0 <= tile_y < 0x100_0000,
    ;
    assert(v / 0x100_0000 == level as int * 0x100_0000 + tile_x as int) by (nonlinear_arith)
        requires
            v == level as int * 0x1_0000_0000_0000 + tile_x as int * 0x100_0000 + tile_y as int,
            0 <= tile_y < 0x100_0000,
    ;
    assert((level as int * 0x100_0000 + tile_x as int) % 0x100_0000 == tile_x as int) by (nonlinear_arith)
        requires
            0 <= tile_x < 0x100_0000,
    ;
    assert(v % 0x100_0000 == tile_y as int) by (nonlinear_arith)
        requires
            v == level as int * 0x1_0000_0000_0000 + tile_x as int * 0x100_0000 + tile_y as int,
            0 <= tile_y < 0x100_0000,
    ;
}

/// Distinct in-range coordinates never share a key.
pub proof fn lemma_tile_key_injective(
    l1: u8, x1: u32, y1: u32,
    l2: u8, x2: u32, y2: u32,
)
    requires
        tile_indices_in_range(x1, y1),
        tile_indices_in_range(x2, y2),
        tile_key_value(l1, x1, y1) == tile_key_value(l2, x2, y2),
    ensures
        l1 == l2 && x1 == x2 && y1 == y2,
{
    lemma_tile_key_roundtrip(l1, x1, y1);
    lemma_tile_key_roundtrip(l2, x2, y2);
}

/// Every key below 2^56 is the packing of the coordinate it unpacks to.
pub proof fn lemma_tile_key_fields_repack(key: u64)
    requires
        key < 0x100_0000_0000_0000,
    ensures
        tile_indices_in_range(tile_key_fields(key).1, tile_key_fields(key).2),
        tile_key_value(tile_key_fields(key).0, tile_key_fields(key).1, tile_key_fields(key).2)
            == key as int,
{
    let k = key as int;
    assert(k == (k / 0x1_0000_0000_0000) * 0x1_0000_0000_0000 + ((k / 0x100_0000) % 0x100_0000)
        * 0x100_0000 + k % 0x100_0000 && k / 0x1_0000_0000_0000 < 0x100) by (nonlinear_arith)
        requires
            0 <= k < 0x100_0000_0000_0000,
    ;
}

} // verus!
