//! Tests of the bit-range utilities.

use rezos::tools::{bin_extract, bin_insert};

#[test]
fn extract_examples() {
    assert_eq!(bin_extract(0b11110011, 4, 1), 0b1001);
    assert_eq!(bin_extract(0x1234, 7, 4), 0x3);
    assert_eq!(bin_extract(0xFFFF_FFFF_FFFF_FFFF, 62, 0), 0x7FFF_FFFF_FFFF_FFFF);
    assert_eq!(bin_extract(0xAB00, 15, 8), 0xAB);
}

#[test]
fn insert_examples() {
    // Splice 0b1111 into bits 3..=6 of zero.
    assert_eq!(bin_insert(0, 0b1111, 6, 3), 0b111_1000);
    // Clearing a byte-wide field leaves the rest alone.
    assert_eq!(bin_insert(0xFFFF_FFFF_FFFF_FFFF, 0, 15, 8), 0xFFFF_FFFF_FFFF_00FF);
    // Bits below and above the field keep their values.
    let t = 0xDEAD_BEEF_1234_5678u64;
    let r = bin_insert(t, 0x2A, 20, 13);
    assert_eq!(r % (1 << 13), t % (1 << 13));
    assert_eq!(r >> 21, t >> 21);
}

#[test]
fn insert_then_extract_round_trip() {
    let t = 0x0123_4567_89AB_CDEFu64;
    for &(h, l, p) in &[(15usize, 0usize, 0x1234u64), (31, 16, 0xBEEF), (47, 40, 0x7F), (63, 60, 0x9)] {
        let r = bin_insert(t, p, h, l);
        assert_eq!(bin_extract(r, h, l), p);
    }
}

#[test]
fn insert_into_top_bits() {
    // The field may reach bit 63.
    let r = bin_insert(0, 0b101, 63, 61);
    assert_eq!(r, 0b101u64 << 61);
    assert_eq!(bin_extract(r, 62, 61), 0b01);
}
