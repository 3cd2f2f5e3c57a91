use cidr_matcher::bit_vec::{BitVec, MSB};

#[test]
fn test_bit_vec() {
    let m: u64 = 1;
    assert_eq!(m.msb(), 63);
}

#[test]
fn msb_of_each_width() {
    assert_eq!(0x8000_0000u32.msb(), 0);
    assert_eq!(1u32.msb(), 31);
    assert_eq!(0u32.msb(), 32);
    assert_eq!(0u64.msb(), 64);
    assert_eq!(1u128.msb(), 127);
    assert_eq!((1u128 << 100).msb(), 27);
    assert_eq!(0u128.msb(), 128);
}

#[test]
fn from_bit_str_reads_top_bits() {
    assert_eq!(u32::from_bit_str("00010000"), 0x1000_0000);
    assert_eq!(u32::from_bit_str("1"), 0x8000_0000);
    assert_eq!(u64::from_bit_str("11"), 0xC000_0000_0000_0000);
    assert_eq!(u128::from_bit_str("01"), 1u128 << 126);
    assert_eq!(u32::from_bit_str(""), 0);
}

#[test]
fn extract_bits_reads_a_field() {
    let x: u32 = 0b1011_0000 << 24;
    assert_eq!(x.extract_bits(0, 4), 0b1011);
    assert_eq!(x.extract_bits(1, 3), 0b011);
    assert_eq!(x.extract_bits(2, 1), 1);
    assert_eq!(x.extract_bits(1, 1), 0);
    assert_eq!(x.extract_bits(32, 4), 0);
    assert_eq!(x.extract_bits(30, 4), 0);
    assert_eq!(x.extract_bits(0, 0), 0);
    let y: u128 = 0xABu128 << 120;
    assert_eq!(y.extract_bits(0, 8), 0xAB);
    assert_eq!(y.extract_bits(4, 4), 0xB);
}

#[test]
fn sub_equal_compares_a_field() {
    let a: u32 = 0xF0F0_0000;
    let b: u32 = 0xF0FF_0000;
    assert!(a.sub_equal(0, 12, &b));
    assert!(!a.sub_equal(0, 13, &b));
    assert!(!a.sub_equal(12, 4, &b));
    assert!(a.sub_equal(16, 16, &b));
    assert!(a.sub_equal(5, 0, &b));
    assert!(a.sub_equal(40, 8, &b));
    assert!(!a.sub_equal(0, 100, &b));
}

#[test]
fn mismatch_finds_first_difference() {
    let a: u32 = 0xF0F0_0000;
    let b: u32 = 0xF0FF_0000;
    assert_eq!(a.mismatch(0, &b), 12);
    assert_eq!(a.mismatch(16, &b), 32);
    assert_eq!(a.mismatch(0, &a), 32);
    assert_eq!(a.mismatch(40, &b), 32);
    let c: u128 = 1;
    let d: u128 = 0;
    assert_eq!(c.mismatch(0, &d), 127);
    assert_eq!(5u64.mismatch(0, &4u64), 63);
}

#[test]
fn empty_and_usize() {
    assert_eq!(u32::empty(), 0);
    assert!(u128::empty().is_empty());
    assert!(!3u64.is_empty());
    assert_eq!(7u128.safe_to_usize(), 7);
    assert!(5u32.same(&5));
    assert!(!5u32.same(&6));
}
