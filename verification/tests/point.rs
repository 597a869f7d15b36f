use c6::point::{deinterleave, interleave, zigzag_decode, zigzag_encode};
use c6::Point;

#[test]
fn zigzag_counts_outward_from_zero() {
    let expected: [(i32, u32); 7] = [(0, 0), (-1, 1), (1, 2), (-2, 3), (2, 4), (-9, 17), (9, 18)];
    for (x, code) in expected {
        assert_eq!(zigzag_encode(x), code);
        assert_eq!(zigzag_decode(code), x);
    }
    assert_eq!(zigzag_encode(i32::MAX), u32::MAX - 1);
    assert_eq!(zigzag_encode(i32::MIN), u32::MAX);
    assert_eq!(zigzag_decode(u32::MAX), i32::MIN);
    assert_eq!(zigzag_decode(u32::MAX - 1), i32::MAX);
}

#[test]
fn interleave_puts_x_on_even_bits() {
    assert_eq!(interleave(0, 0), 0);
    assert_eq!(interleave(1, 0), 1);
    assert_eq!(interleave(0, 1), 2);
    assert_eq!(interleave(0b11, 0b00), 0b0101);
    assert_eq!(interleave(0b00, 0b11), 0b1010);
    assert_eq!(interleave(u32::MAX, 0), 0x5555_5555_5555_5555);
    assert_eq!(interleave(0, u32::MAX), 0xaaaa_aaaa_aaaa_aaaa);
    assert_eq!(interleave(0x8000_0000, 0x8000_0000), 0xc000_0000_0000_0000);
    assert_eq!(deinterleave(0x5555_5555_5555_5555), (u32::MAX, 0));
    assert_eq!(deinterleave(0xc000_0000_0000_0003), (0x8000_0001, 0x8000_0001));
}

#[test]
fn index_of_known_points() {
    assert_eq!(Point::origin(), Point::new(0, 0));
    assert_eq!(Point::new(0, 0).index(), 0);
    assert_eq!(Point::new(-1, 0).index(), 1);
    assert_eq!(Point::new(0, -1).index(), 2);
    assert_eq!(Point::new(1, 0).index(), 4);
    assert_eq!(Point::new(1, 1).index(), 12);
    assert_eq!(Point::new(3, -5).index(), 150);
    assert_eq!(Point::new(-9, -9).index(), 771);
    assert_eq!(Point::new(9, 9).index(), 780);
    assert_eq!(Point::new(i32::MAX, i32::MAX).index(), 18446744073709551612);
    assert_eq!(Point::new(i32::MIN, i32::MIN).index(), u64::MAX);
}

#[test]
fn from_index_of_known_keys() {
    assert_eq!(Point::from_index(0), Point::new(0, 0));
    assert_eq!(Point::from_index(150), Point::new(3, -5));
    assert_eq!(Point::from_index(u64::MAX), Point::new(i32::MIN, i32::MIN));
    assert_eq!(Point::from_index(12345678901234567890), Point::new(252267398, -2020964765));
}

#[test]
fn index_round_trip_on_samples() {
    let samples = [
        0,
        1,
        -1,
        2,
        -2,
        9,
        -9,
        255,
        -256,
        65535,
        -65536,
        0x1234_5678,
        -0x1234_5678,
        i32::MAX,
        i32::MIN,
        i32::MAX - 1,
        i32::MIN + 1,
    ];
    for x in samples {
        for y in samples {
            let p = Point::new(x, y);
            assert_eq!(Point::from_index(p.index()), p);
        }
    }
    let mut key: u64 = 0x9e37_79b9_7f4a_7c15;
    for _ in 0..1000 {
        key = key.wrapping_mul(6364136223846793005).wrapping_add(1442695040888963407);
        assert_eq!(Point::from_index(key).index(), key);
    }
}

#[test]
fn indexes_split_the_key() {
    assert_eq!(Point::new(0, 0).indexes(), (0, 0, 0));
    // the key of (3, -5) is 150 = 4 * 32 + 22
    assert_eq!(Point::new(3, -5).indexes(), (0, 4, 22));
    // the key of (9, 9) is 780 = 3 * 256 + 0 * 32 + 12
    assert_eq!(Point::new(9, 9).indexes(), (3, 0, 12));
    assert_eq!(Point::new(i32::MIN, i32::MIN).indexes(), (u64::MAX >> 8, 7, 31));
}

#[test]
fn extract_lo_bits_takes_bits_off() {
    let mut i: u64 = 0b1011_0110;
    assert_eq!(c6::storage::extract_lo_bits(&mut i, 5), 0b10110);
    assert_eq!(i, 0b101);
    assert_eq!(c6::storage::extract_lo_bits(&mut i, 0), 0);
    assert_eq!(i, 0b101);
    let mut j: u64 = u64::MAX;
    assert_eq!(c6::storage::extract_lo_bits(&mut j, 63), u64::MAX >> 1);
    assert_eq!(j, 1);
}
