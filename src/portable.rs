//! Interleaving by shifts and masks, on any target.
use vstd::prelude::*;

use crate::interleave::{
    coord_bit, coords_of, interleaves, key_bit, key_of, lemma_coords_of, lemma_even_bits_only,
    lemma_key_of,
};

verus! {

/// Five rounds of shift, xor and mask, each doubling the gap between the bits of `x`.
spec fn spread_rounds(x: u32) -> u64 {
    let s0 = (x as u64) & 0x0000_0000_ffff_ffffu64;
    let s1 = (s0 ^ (s0 << 16u64)) & 0x0000_ffff_0000_ffffu64;
    let s2 = (s1 ^ (s1 << 8u64)) & 0x00ff_00ff_00ff_00ffu64;
    let s3 = (s2 ^ (s2 << 4u64)) & 0x0f0f_0f0f_0f0f_0f0fu64;
    let s4 = (s3 ^ (s3 << 2u64)) & 0x3333_3333_3333_3333u64;
    (s4 ^ (s4 << 1u64)) & 0x5555_5555_5555_5555u64
}

/// After the rounds, bit `i` of `x` stands at position `2i` and every odd position is clear.
proof fn lemma_spread_bit(x: u32, i: u32)
    by (bit_vector)
    requires
        i < 32,
    ensures
        key_bit(spread_rounds(x), (2 * i) as u64) == coord_bit(x, i),
        key_bit(spread_rounds(x), (2 * i + 1) as u64) == coord_bit(0u32, i),
{
}

/// The rounds spread `x` to the even bits of a key whose odd bits are clear.
proof fn lemma_spread(x: u32)
    ensures
        interleaves(spread_rounds(x), x, 0),
{
    assert forall|i: u32| i < 32 implies (#[trigger] key_bit(spread_rounds(x), (2 * i) as u64)
        == coord_bit(x, i) && key_bit(spread_rounds(x), (2 * i + 1) as u64) == coord_bit(
        0u32,
        i,
    )) by {
        lemma_spread_bit(x, i);
    }
}

/// Spreads the bits of `x` to the even positions of a 64-bit word; the odd positions are clear.
pub fn part1by1(x: u32) -> (r: u64)
    ensures
        interleaves(r, x, 0),
        r == key_of(x, 0),
{
    let mut s: u64 = x as u64;
    s &= 0x0000_0000_ffff_ffff;
    s = (s ^ (s << 16u64)) & 0x0000_ffff_0000_ffff;
    s = (s ^ (s << 8u64)) & 0x00ff_00ff_00ff_00ff;
    s = (s ^ (s << 4u64)) & 0x0f0f_0f0f_0f0f_0f0f;
    s = (s ^ (s << 2u64)) & 0x3333_3333_3333_3333;
    s = (s ^ (s << 1u64)) & 0x5555_5555_5555_5555;
    proof {
        assert(s == spread_rounds(x));
        lemma_spread(x);
        lemma_key_of(s, x, 0);
    }
    s
}

/// Two words with only even bits set, one of them shifted into the odd positions,
/// add without carry.
proof fn lemma_merge_bit(a: u64, b: u64, i: u32)
    by (bit_vector)
    requires
        a & 0x5555_5555_5555_5555u64 == a,
        b & 0x5555_5555_5555_5555u64 == b,
        i < 32,
    ensures
        (a << 1u64) + b <= 0xffff_ffff_ffff_ffffu64,
        key_bit(((a << 1u64) + b) as u64, (2 * i) as u64) == key_bit(b, (2 * i) as u64),
        key_bit(((a << 1u64) + b) as u64, (2 * i + 1) as u64) == key_bit(a, (2 * i) as u64),
{
}

/// Spread `y`, shifted left by one, plus spread `x` is the key of `(x, y)`.
proof fn lemma_merge(a: u64, b: u64, x: u32, y: u32)
    requires
        interleaves(a, y, 0),
        interleaves(b, x, 0),
    ensures
        (a << 1u64) + b <= 0xffff_ffff_ffff_ffffu64,
        interleaves(((a << 1u64) + b) as u64, x, y),
{
    lemma_even_bits_only(a, y);
    lemma_even_bits_only(b, x);
    lemma_merge_bit(a, b, 0);
    assert forall|i: u32| i < 32 implies (#[trigger] key_bit(((a << 1u64) + b) as u64, (2 * i) as u64)
        == coord_bit(x, i) && key_bit(((a << 1u64) + b) as u64, (2 * i + 1) as u64) == coord_bit(
        y,
        i,
    )) by {
        lemma_merge_bit(a, b, i);
        assert(key_bit(a, (2 * i) as u64) == coord_bit(y, i));
        assert(key_bit(b, (2 * i) as u64) == coord_bit(x, i));
    }
}

/// Every pair of coordinates has a key.
pub proof fn lemma_key_exists(x: u32, y: u32)
    ensures
        interleaves(key_of(x, y), x, y),
{
    lemma_spread(x);
    lemma_spread(y);
    lemma_merge(spread_rounds(y), spread_rounds(x), x, y);
    lemma_key_of(((spread_rounds(y) << 1u64) + spread_rounds(x)) as u64, x, y);
}

/// Returns the key whose even bits are the bits of `x` and whose odd bits are those of `y`.
pub fn morton_encode(x: u32, y: u32) -> (r: u64)
    ensures
        interleaves(r, x, y),
        r == key_of(x, y),
{
    let a = part1by1(y);
    let b = part1by1(x);
    proof {
        lemma_merge(a, b, x, y);
        lemma_key_of(((a << 1u64) + b) as u64, x, y);
    }
    (a << 1u64) + b
}

/// Five rounds of mask, shift and xor, each halving the gap between the even bits of `k`.
spec fn compact_rounds(k: u64) -> u64 {
    let c0 = k & 0x5555_5555_5555_5555u64;
    let c1 = (c0 ^ (c0 >> 1u64)) & 0x3333_3333_3333_3333u64;
    let c2 = (c1 ^ (c1 >> 2u64)) & 0x0f0f_0f0f_0f0f_0f0fu64;
    let c3 = (c2 ^ (c2 >> 4u64)) & 0x00ff_00ff_00ff_00ffu64;
    let c4 = (c3 ^ (c3 >> 8u64)) & 0x0000_ffff_0000_ffffu64;
    (c4 ^ (c4 >> 16u64)) & 0x0000_0000_ffff_ffffu64
}

/// After the rounds, bit `2i` of `k` stands at position `i`; and bit `2i` of `k >> 1`
/// is bit `2i + 1` of `k`.
proof fn lemma_compact_bit(k: u64, i: u32)
    by (bit_vector)
    requires
        i < 32,
    ensures
        coord_bit(compact_rounds(k) as u32, i) == key_bit(k, (2 * i) as u64),
        coord_bit(compact_rounds(k >> 1u64) as u32, i) == key_bit(k, (2 * i + 1) as u64),
{
}

/// The rounds, on `k` and on `k >> 1`, give the coordinates held in `k`.
proof fn lemma_compact(k: u64)
    ensures
        interleaves(k, compact_rounds(k) as u32, compact_rounds(k >> 1u64) as u32),
{
    assert forall|i: u32| i < 32 implies (#[trigger] key_bit(k, (2 * i) as u64) == coord_bit(
        compact_rounds(k) as u32,
        i,
    ) && key_bit(k, (2 * i + 1) as u64) == coord_bit(compact_rounds(k >> 1u64) as u32, i)) by {
        lemma_compact_bit(k, i);
    }
}

/// Every key holds a pair of coordinates.
pub proof fn lemma_coords_exist(k: u64)
    ensures
        interleaves(k, coords_of(k).0, coords_of(k).1),
{
    lemma_compact(k);
    lemma_coords_of(k, compact_rounds(k) as u32, compact_rounds(k >> 1u64) as u32);
}

/// Gathers the even bits of `k` into a 32-bit word: the first coordinate held in `k`.
pub fn compact1by1(k: u64) -> (r: u32)
    ensures
        forall|i: u32| i < 32 ==> #[trigger] coord_bit(r, i) == key_bit(k, (2 * i) as u64),
        r == coords_of(k).0,
{
    let mut c: u64 = k;
    c &= 0x5555_5555_5555_5555;
    c = (c ^ (c >> 1u64)) & 0x3333_3333_3333_3333;
    c = (c ^ (c >> 2u64)) & 0x0f0f_0f0f_0f0f_0f0f;
    c = (c ^ (c >> 4u64)) & 0x00ff_00ff_00ff_00ff;
    c = (c ^ (c >> 8u64)) & 0x0000_ffff_0000_ffff;
    c = (c ^ (c >> 16u64)) & 0x0000_0000_ffff_ffff;
    proof {
        assert(c == compact_rounds(k));
        lemma_compact(k);
        lemma_coords_of(k, c as u32, compact_rounds(k >> 1u64) as u32);
        assert forall|i: u32| i < 32 implies #[trigger] coord_bit(c as u32, i) == key_bit(
            k,
            (2 * i) as u64,
        ) by {
            lemma_compact_bit(k, i);
        }
    }
    c as u32
}

/// Returns the coordinates `(x, y)` held at the even and the odd bits of `k`.
pub fn morton_decode(k: u64) -> (r: (u32, u32))
    ensures
        interleaves(k, r.0, r.1),
        r == coords_of(k),
{
    let x = compact1by1(k);
    let y = compact1by1(k >> 1u64);
    proof {
        lemma_compact(k);
        lemma_compact(k >> 1u64);
        lemma_coords_of(k, compact_rounds(k) as u32, compact_rounds(k >> 1u64) as u32);
        lemma_coords_of(
            k >> 1u64,
            compact_rounds(k >> 1u64) as u32,
            compact_rounds((k >> 1u64) >> 1u64) as u32,
        );
    }
    (x, y)
}

} // verus!
