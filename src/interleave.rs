//! The mathematical model of bit interleaving.
use vstd::prelude::*;

verus! {

/// Bit `i` of a coordinate.
pub open spec fn coord_bit(c: u32, i: u32) -> bool {
    (c >> i) & 1u32 == 1u32
}

/// Bit `i` of a key.
pub open spec fn key_bit(k: u64, i: u64) -> bool {
    (k >> i) & 1u64 == 1u64
}

/// `k` holds bit `i` of `x` at position `2i` and bit `i` of `y` at position `2i + 1`,
/// for every `i < 32`. These 64 positions make up the whole key.
pub open spec fn interleaves(k: u64, x: u32, y: u32) -> bool {
    forall|i: u32|
        i < 32 ==> (#[trigger] key_bit(k, (2 * i) as u64) == coord_bit(x, i) && key_bit(
            k,
            (2 * i + 1) as u64,
        ) == coord_bit(y, i))
}

/// The key that holds `x` at its even bits and `y` at its odd bits.
pub open spec fn key_of(x: u32, y: u32) -> u64 {
    choose|k: u64| interleaves(k, x, y)
}

/// The coordinates held at the even and the odd bits of `k`.
pub open spec fn coords_of(k: u64) -> (u32, u32) {
    choose|p: (u32, u32)| interleaves(k, p.0, p.1)
}

/// Two words whose bits agree at `n` and above agree after a shift right by `n`.
proof fn lemma_high_bits_eq(a: u64, b: u64, n: u64)
    requires
        n < 64,
        forall|i: u64| n <= i < 64 ==> #[trigger] key_bit(a, i) == key_bit(b, i),
    ensures
        a >> n == b >> n,
    decreases 64 - n,
{
    if n == 63 {
        assert(key_bit(a, 63) == key_bit(b, 63));
        assert(a >> 63u64 == b >> 63u64) by (bit_vector)
            requires
                key_bit(a, 63) == key_bit(b, 63),
        ;
    } else {
        lemma_high_bits_eq(a, b, (n + 1) as u64);
        assert(key_bit(a, n) == key_bit(b, n));
        assert(a >> n == b >> n) by (bit_vector)
            requires
                n < 63,
                a >> (n + 1) as u64 == b >> (n + 1) as u64,
                key_bit(a, n) == key_bit(b, n),
        ;
    }
}

/// A key is determined by its 64 bits.
proof fn lemma_key_ext(a: u64, b: u64)
    requires
        forall|i: u64| i < 64 ==> #[trigger] key_bit(a, i) == key_bit(b, i),
    ensures
        a == b,
{
    lemma_high_bits_eq(a, b, 0);
    assert(a >> 0u64 == a && b >> 0u64 == b) by (bit_vector);
}

/// A coordinate is determined by its 32 bits.
proof fn lemma_coord_ext(a: u32, b: u32)
    requires
        forall|i: u32| i < 32 ==> #[trigger] coord_bit(a, i) == coord_bit(b, i),
    ensures
        a == b,
{
    assert forall|i: u64| i < 64 implies #[trigger] key_bit(a as u64, i) == key_bit(b as u64, i) by {
        if i < 32 {
            let j = i as u32;
            assert(coord_bit(a, j) == coord_bit(b, j));
            assert(key_bit(a as u64, i) == coord_bit(a, j) && key_bit(b as u64, i) == coord_bit(b, j))
                by (bit_vector)
                requires
                    i < 32,
                    j == i as u32,
            ;
        } else {
            assert(!key_bit(a as u64, i) && !key_bit(b as u64, i)) by (bit_vector)
                requires
                    32 <= i < 64,
            ;
        }
    }
    lemma_key_ext(a as u64, b as u64);
}

/// Two keys that hold the same coordinates are equal.
pub proof fn lemma_key_unique(k1: u64, k2: u64, x: u32, y: u32)
    requires
        interleaves(k1, x, y),
        interleaves(k2, x, y),
    ensures
        k1 == k2,
{
    assert forall|j: u64| j < 64 implies #[trigger] key_bit(k1, j) == key_bit(k2, j) by {
        let i = (j / 2) as u32;
        assert(key_bit(k1, (2 * i) as u64) == coord_bit(x, i));
        assert(key_bit(k2, (2 * i) as u64) == coord_bit(x, i));
        if j % 2 == 0 {
            assert(j == (2 * i) as u64);
        } else {
            assert(j == (2 * i + 1) as u64);
        }
    }
    lemma_key_ext(k1, k2);
}

/// The coordinates held in a key are determined by it.
pub proof fn lemma_coords_unique(k: u64, x1: u32, y1: u32, x2: u32, y2: u32)
    requires
        interleaves(k, x1, y1),
        interleaves(k, x2, y2),
    ensures
        x1 == x2,
        y1 == y2,
{
    assert forall|i: u32| i < 32 implies #[trigger] coord_bit(x1, i) == coord_bit(x2, i) by {
        assert(key_bit(k, (2 * i) as u64) == coord_bit(x1, i));
        assert(key_bit(k, (2 * i) as u64) == coord_bit(x2, i));
    }
    assert forall|i: u32| i < 32 implies #[trigger] coord_bit(y1, i) == coord_bit(y2, i) by {
        assert(key_bit(k, (2 * i) as u64) == coord_bit(x1, i));
        assert(key_bit(k, (2 * i + 1) as u64) == coord_bit(y1, i));
        assert(key_bit(k, (2 * i + 1) as u64) == coord_bit(y2, i));
    }
    lemma_coord_ext(x1, x2);
    lemma_coord_ext(y1, y2);
}

/// A key that holds `x` and `y` is `key_of(x, y)`.
pub proof fn lemma_key_of(k: u64, x: u32, y: u32)
    requires
        interleaves(k, x, y),
    ensures
        key_of(x, y) == k,
{
    lemma_key_unique(key_of(x, y), k, x, y);
}

/// Coordinates held in `k` are `coords_of(k)`.
pub proof fn lemma_coords_of(k: u64, x: u32, y: u32)
    requires
        interleaves(k, x, y),
    ensures
        coords_of(k) == (x, y),
{
    let w = (x, y);
    assert(interleaves(k, w.0, w.1));
    let p = coords_of(k);
    assert(interleaves(k, p.0, p.1));
    lemma_coords_unique(k, p.0, p.1, x, y);
}

/// A key that holds `x` and a zero second coordinate has no odd bit set.
pub proof fn lemma_even_bits_only(k: u64, x: u32)
    requires
        interleaves(k, x, 0),
    ensures
        k & 0x5555_5555_5555_5555u64 == k,
{
    assert forall|j: u64| j < 64 implies #[trigger] key_bit(k & 0x5555_5555_5555_5555u64, j)
        == key_bit(k, j) by {
        let i = (j / 2) as u32;
        assert(key_bit(k & 0x5555_5555_5555_5555u64, j) == (key_bit(k, j) && j % 2 == 0))
            by (bit_vector)
            requires
                j < 64,
        ;
        if j % 2 == 1 {
            assert(j == (2 * i + 1) as u64);
            assert(key_bit(k, (2 * i) as u64) == coord_bit(x, i));
            assert(!coord_bit(0u32, i)) by (bit_vector);
        }
    }
    lemma_key_ext(k & 0x5555_5555_5555_5555u64, k);
}

} // verus!
