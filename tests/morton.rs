use morton::portable::{compact1by1, part1by1};
use morton::{morton_decode, morton_encode};

const INPUT: (u32, u32) = (0x123456, 0x456789);
const OUTPUT: u64 = 0x21262d3a9196;

#[test]
fn test_morton_encode() {
    let (x, y) = INPUT;
    let encoded = morton::portable::morton_encode(x, y);
    println!("portable::morton_encode({}, {}) -> {}", x, y, encoded);
    assert_eq!(OUTPUT, encoded);
}

#[test]
fn test_morton_decode() {
    let decoded = morton::portable::morton_decode(OUTPUT);
    println!("portable::morton_decode({}) -> {:?}", OUTPUT, decoded);
    assert_eq!(INPUT, decoded);
}

#[test]
fn lib_test_morton_encode() {
    let (x, y) = INPUT;
    let encoded = morton_encode(x, y);
    println!("morton_encode({}, {}) -> {}", x, y, encoded);
    assert_eq!(OUTPUT, encoded);
}

#[test]
fn lib_test_morton_decode() {
    let decoded = morton_decode(OUTPUT);
    println!("morton_decode({}) -> {:?}", OUTPUT, decoded);
    assert_eq!(INPUT, decoded);
}

#[test]
fn zero_is_identity() {
    assert_eq!(morton_encode(0, 0), 0);
    assert_eq!(morton_decode(0), (0, 0));
}

#[test]
fn all_ones() {
    assert_eq!(morton_encode(0xffff_ffff, 0xffff_ffff), u64::MAX);
    assert_eq!(morton_decode(u64::MAX), (0xffff_ffff, 0xffff_ffff));
    assert_eq!(morton_encode(0xffff_ffff, 0), 0x5555_5555_5555_5555);
    assert_eq!(morton_encode(0, 0xffff_ffff), 0xaaaa_aaaa_aaaa_aaaa);
    assert_eq!(morton_decode(0x5555_5555_5555_5555), (0xffff_ffff, 0));
    assert_eq!(morton_decode(0xaaaa_aaaa_aaaa_aaaa), (0, 0xffff_ffff));
}

#[test]
fn small_values() {
    assert_eq!(morton_encode(1, 0), 1);
    assert_eq!(morton_encode(0, 1), 2);
    assert_eq!(morton_encode(1, 1), 3);
    assert_eq!(morton_encode(2, 0), 4);
    assert_eq!(morton_encode(3, 5), 0b100111);
    assert_eq!(morton_decode(0b100111), (3, 5));
}

#[test]
fn round_trip_boundaries() {
    let values: [u32; 6] = [0, 1, 0xffff_ffff, 0x5555_5555, 0xaaaa_aaaa, 0x8000_0000];
    for &x in values.iter() {
        for &y in values.iter() {
            assert_eq!(morton_decode(morton_encode(x, y)), (x, y));
        }
    }
}

#[test]
fn round_trip_sample() {
    let mut state: u64 = 0x2545_f491_4f6c_dd1d;
    for _ in 0..10_000 {
        state = state
            .wrapping_mul(6364136223846793005)
            .wrapping_add(1442695040888963407);
        let x = (state >> 32) as u32;
        let y = state as u32;
        assert_eq!(morton_decode(morton_encode(x, y)), (x, y));
        let (a, b) = morton_decode(state);
        assert_eq!(morton_encode(a, b), state);
    }
}

#[test]
fn single_bit_lands_at_its_slot() {
    for k in 0..32u32 {
        let kx = morton_encode(1u32 << k, 0);
        assert_eq!(kx, 1u64 << (2 * k));
        assert_eq!(kx.count_ones(), 1);
        let ky = morton_encode(0, 1u32 << k);
        assert_eq!(ky, 1u64 << (2 * k + 1));
        assert_eq!(ky.count_ones(), 1);
    }
}

#[test]
fn repeated_calls_agree() {
    let (x, y) = (0xdead_beef, 0x0bad_f00d);
    assert_eq!(morton_encode(x, y), morton_encode(x, y));
    let k = 0x0123_4567_89ab_cdef;
    assert_eq!(morton_decode(k), morton_decode(k));
}

#[test]
fn spread_and_compact() {
    assert_eq!(part1by1(0), 0);
    assert_eq!(part1by1(0b1011), 0b1000101);
    assert_eq!(part1by1(0xffff_ffff), 0x5555_5555_5555_5555);
    assert_eq!(compact1by1(0b1000101), 0b1011);
    assert_eq!(compact1by1(0xaaaa_aaaa_aaaa_aaaa), 0);
    assert_eq!(compact1by1(u64::MAX), 0xffff_ffff);
    assert_eq!(compact1by1(part1by1(0x1234_5678)), 0x1234_5678);
}
