//! Morton (Z-order) encoding of a pair of 32-bit coordinates into one 64-bit key.
//!
//! The key holds the bits of `x` at its even positions and the bits of `y` at
//! its odd positions. `morton_encode` and `morton_decode` are exact inverses.
use vstd::prelude::*;

pub mod interleave;
pub mod portable;

pub use portable::{morton_decode, morton_encode};

use crate::interleave::{
    coord_bit, coords_of, interleaves, key_bit, key_of, lemma_coords_of, lemma_coords_unique,
    lemma_key_of, lemma_key_unique,
};
use crate::portable::{lemma_coords_exist, lemma_key_exists};

verus! {

/// Decoding the key of `(x, y)` gives back `(x, y)`, for every pair of coordinates.
pub proof fn lemma_round_trip(x: u32, y: u32)
    ensures
        coords_of(key_of(x, y)) == (x, y),
{
    lemma_key_exists(x, y);
    lemma_coords_of(key_of(x, y), x, y);
}

/// Encoding the coordinates held in a key gives back that key, for every key.
pub proof fn lemma_key_round_trip(k: u64)
    ensures
        key_of(coords_of(k).0, coords_of(k).1) == k,
{
    lemma_coords_exist(k);
    lemma_key_of(k, coords_of(k).0, coords_of(k).1);
}

/// A first coordinate with the single bit `n` set, and a zero second one, give the key
/// whose single set bit is `2n`; a second coordinate alone with bit `n` gives bit `2n + 1`.
pub proof fn lemma_single_bit(n: u32)
    requires
        n < 32,
    ensures
        key_of(1u32 << n, 0) == 1u64 << (2 * n) as u64,
        key_of(0, 1u32 << n) == 1u64 << (2 * n + 1) as u64,
{
    let kx = 1u64 << (2 * n) as u64;
    let ky = 1u64 << (2 * n + 1) as u64;
    assert forall|i: u32| i < 32 implies (#[trigger] key_bit(kx, (2 * i) as u64) == coord_bit(
        1u32 << n,
        i,
    ) && key_bit(kx, (2 * i + 1) as u64) == coord_bit(0u32, i)) by {
        assert(key_bit(kx, (2 * i) as u64) == coord_bit(1u32 << n, i) && key_bit(
            kx,
            (2 * i + 1) as u64,
        ) == coord_bit(0u32, i)) by (bit_vector)
            requires
                n < 32,
                i < 32,
                kx == 1u64 << (2 * n) as u64,
        ;
    }
    assert forall|i: u32| i < 32 implies (#[trigger] key_bit(ky, (2 * i) as u64) == coord_bit(
        0u32,
        i,
    ) && key_bit(ky, (2 * i + 1) as u64) == coord_bit(1u32 << n, i)) by {
        assert(key_bit(ky, (2 * i) as u64) == coord_bit(0u32, i) && key_bit(
            ky,
            (2 * i + 1) as u64,
        ) == coord_bit(1u32 << n, i)) by (bit_vector)
            requires
                n < 32,
                i < 32,
                ky == 1u64 << (2 * n + 1) as u64,
        ;
    }
    lemma_key_of(kx, 1u32 << n, 0);
    lemma_key_of(ky, 0, 1u32 << n);
}

/// Encoding has no hidden state: any two results of `morton_encode` on the same
/// coordinates are equal.
pub proof fn lemma_encode_deterministic(x: u32, y: u32, k1: u64, k2: u64)
    requires
        interleaves(k1, x, y),
        interleaves(k2, x, y),
    ensures
        k1 == k2,
{
    lemma_key_unique(k1, k2, x, y);
}

/// Decoding has no hidden state: any two results of `morton_decode` on the same key
/// are equal.
pub proof fn lemma_decode_deterministic(k: u64, r1: (u32, u32), r2: (u32, u32))
    requires
        interleaves(k, r1.0, r1.1),
        interleaves(k, r2.0, r2.1),
    ensures
        r1 == r2,
{
    lemma_coords_unique(k, r1.0, r1.1, r2.0, r2.1);
}

} // verus!
