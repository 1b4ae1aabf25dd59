//! Deterministic scatter points for the I/O benchmark: a xorshift64 state
//! sequence from a fixed seed, so that every byte source under test reads the
//! same pixels.

use vstd::prelude::*;

verus! {

/// Seed of the benchmark's point sequence.
pub const SAMPLE_SEED: u64 = 0x9E37_79B9_7F4A_7C15;

/// Denominator of a sample: a sample `n` stands for `n / 2^53` in `[0, 1)`.
pub const SAMPLE_SCALE: u64 = 0x20_0000_0000_0000;

/// One xorshift64 step (shifts 13, 7, 17).
pub open spec fn xorshift(x: u64) -> u64 {
    let a = x ^ (x << 13u64);
    let b = a ^ (a >> 7u64);
    b ^ (b << 17u64)
}

/// Advances the state by one xorshift step and returns its top 53 bits: the
/// numerator of a sample in `[0, 1)` over `SAMPLE_SCALE`.
pub fn next_sample(state: &mut u64) -> (r: u64)
    ensures
        *final(state) == xorshift(*old(state)),
        r == *final(state) >> 11u64,
        r < SAMPLE_SCALE,
{
    let mut x: u64 = *state;
    x = x ^ (x << 13u64);
    x = x ^ (x >> 7u64);
    x = x ^ (x << 17u64);
    *state = x;
    assert(x >> 11u64 < 0x20_0000_0000_0000u64) by (bit_vector);
    x >> 11u64
}

/// A nonzero state stays nonzero: the sequence never collapses to the fixed
/// point 0.
pub proof fn lemma_xorshift_nonzero(x: u64)
    requires
        x != 0,
    ensures
        xorshift(x) != 0,
{
    let a = x ^ (x << 13u64);
    let b = a ^ (a >> 7u64);
    assert(x != 0 ==> x ^ (x << 13u64) != 0) by (bit_vector);
    assert(a != 0 ==> a ^ (a >> 7u64) != 0) by (bit_vector);
    assert(b != 0 ==> b ^ (b << 17u64) != 0) by (bit_vector);
}

} // verus!
