use arithmetic_coding::{verify_gp2_minus_one, ArithmeticCoding, CodingError, Operation, Symbols};

fn coding_for(input: &[u8]) -> ArithmeticCoding {
    let mut ac = ArithmeticCoding::new(0, u32::MAX).unwrap();
    for byte in input {
        ac.symbols.add_symbol(*byte);
    }
    ac.symbols.calculate_accumulated_frequency();
    ac
}

#[test]
fn powers_of_two_less_one_are_accepted() {
    assert!(verify_gp2_minus_one(0));
    assert!(verify_gp2_minus_one(1));
    assert!(verify_gp2_minus_one(3));
    assert!(verify_gp2_minus_one(7));
    assert!(verify_gp2_minus_one(0xFFFF));
    assert!(verify_gp2_minus_one(0x7FFF_FFFF));
    assert!(verify_gp2_minus_one(u32::MAX));
    for k in 0..32u32 {
        assert!(verify_gp2_minus_one((1u32 << k) - 1));
    }
}

#[test]
fn other_numbers_are_refused() {
    assert!(!verify_gp2_minus_one(2));
    assert!(!verify_gp2_minus_one(4));
    assert!(!verify_gp2_minus_one(5));
    assert!(!verify_gp2_minus_one(6));
    assert!(!verify_gp2_minus_one(8));
    assert!(!verify_gp2_minus_one(0x8000_0000));
    assert!(!verify_gp2_minus_one(0xFFFF_FFFE));
}

#[test]
fn full_bounds_give_32_bits() {
    let ac = ArithmeticCoding::new(0, u32::MAX).unwrap();
    assert_eq!(ac.low, 0);
    assert_eq!(ac.high, u32::MAX);
    assert_eq!(ac.precision, 32);
    assert!(ac.symbols.table.is_empty());
    assert!(ac.verify_low_and_high());
}

#[test]
fn smaller_bounds_give_fewer_bits() {
    let ac = ArithmeticCoding::new(0, 0xFFFF).unwrap();
    assert_eq!((ac.low, ac.high, ac.precision), (0, 0xFFFF, 16));
    let ac = ArithmeticCoding::new(0, 15).unwrap();
    assert_eq!((ac.low, ac.high, ac.precision), (0, 15, 4));
    let ac = ArithmeticCoding::new(0, 1000).unwrap();
    assert_eq!((ac.low, ac.high, ac.precision), (0, 1000, 10));
}

#[test]
fn bits_of_low_are_taken_off_high() {
    let ac = ArithmeticCoding::new(15, 0xFFFF).unwrap();
    assert_eq!((ac.low, ac.high, ac.precision), (0, 0xFFF, 12));
    let ac = ArithmeticCoding::new(1, u32::MAX).unwrap();
    assert_eq!((ac.low, ac.high, ac.precision), (0, 0x7FFF_FFFF, 31));
}

#[test]
fn low_not_below_high_is_bad_precision() {
    assert_eq!(ArithmeticCoding::new(5, 5).err(), Some(CodingError::BadPrecision));
    assert_eq!(ArithmeticCoding::new(7, 3).err(), Some(CodingError::BadPrecision));
    assert_eq!(ArithmeticCoding::new(0, 0).err(), Some(CodingError::BadPrecision));
}

#[test]
fn fewer_than_four_bits_is_bad_precision() {
    assert_eq!(ArithmeticCoding::new(0, 7).err(), Some(CodingError::BadPrecision));
    assert_eq!(ArithmeticCoding::new(15, 127).err(), Some(CodingError::BadPrecision));
    assert_eq!(ArithmeticCoding::new(0x8000_0000, u32::MAX).err(), Some(CodingError::BadPrecision));
    assert!(ArithmeticCoding::new(0, 8).is_ok());
}

#[test]
fn masks_of_32_bits() {
    let ac = ArithmeticCoding::new(0, u32::MAX).unwrap();
    assert_eq!(ac.full_bit(), 0x8000_0000);
    assert_eq!(ac.full_mask(), 0xFFFF_FFFF);
    assert_eq!(ac.half_bit(), 0x4000_0000);
    assert_eq!(ac.half_mask(), 0x7FFF_FFFF);
}

#[test]
fn masks_of_16_and_4_bits() {
    let ac = ArithmeticCoding::new(0, 0xFFFF).unwrap();
    assert_eq!(ac.full_bit(), 0x8000);
    assert_eq!(ac.full_mask(), 0xFFFF);
    assert_eq!(ac.half_bit(), 0x4000);
    assert_eq!(ac.half_mask(), 0x7FFF);
    let ac = ArithmeticCoding::new(0, 15).unwrap();
    assert_eq!(ac.full_bit(), 8);
    assert_eq!(ac.full_mask(), 15);
    assert_eq!(ac.half_bit(), 4);
    assert_eq!(ac.half_mask(), 7);
}

#[test]
fn low_and_high_are_compared() {
    let mut ac = ArithmeticCoding::new(0, u32::MAX).unwrap();
    assert!(ac.verify_low_and_high());
    ac.low = 9;
    ac.high = 9;
    assert!(!ac.verify_low_and_high());
    ac.high = 8;
    assert!(!ac.verify_low_and_high());
}

#[test]
fn narrowing_takes_the_share_of_the_window() {
    let mut ac = coding_for(b"ABC");
    ac.narrow_to(1, 2);
    assert_eq!(ac.low, 0x5555_5555);
    assert_eq!(ac.high, 0xAAAA_AAA9);
    let mut ac = coding_for(b"ABC");
    ac.narrow_to(0, 1);
    assert_eq!((ac.low, ac.high), (0, 0x5555_5554));
    let mut ac = coding_for(b"ABC");
    ac.narrow_to(2, 3);
    assert_eq!((ac.low, ac.high), (0xAAAA_AAAA, 0xFFFF_FFFF));
}

#[test]
fn narrowing_to_the_whole_total_keeps_the_interval() {
    let mut ac = coding_for(b"AAAA");
    ac.narrow_to(0, 4);
    assert_eq!((ac.low, ac.high), (0, u32::MAX));
}

#[test]
fn ends_in_one_half_are_shifted() {
    let mut ac = coding_for(b"ABC");
    ac.narrow_to(0, 1);
    assert!(ac.can_shift());
    ac.shift_registers();
    assert_eq!((ac.low, ac.high), (0, 0xAAAA_AAA9));
    assert!(!ac.can_shift());
    assert!(!ac.can_underflow());
    let mut ac = coding_for(b"ABC");
    ac.narrow_to(2, 3);
    assert!(ac.can_shift());
    ac.shift_registers();
    assert_eq!((ac.low, ac.high), (0x5555_5554, 0xFFFF_FFFF));
}

#[test]
fn ends_around_the_middle_are_spread() {
    let mut ac = coding_for(b"ABC");
    ac.narrow_to(1, 2);
    assert!(!ac.can_shift());
    assert!(ac.can_underflow());
    ac.underflow_registers();
    assert_eq!((ac.low, ac.high), (0x2AAA_AAAA, 0xD555_5553));
    assert!(!ac.can_shift());
    assert!(!ac.can_underflow());
}

#[test]
fn operations_are_told_apart() {
    let decode = Operation::Decode;
    let encode = Operation::Encode;
    assert!(matches!(decode.clone(), Operation::Decode));
    assert!(matches!(encode.clone(), Operation::Encode));
    assert_eq!(format!("{:?}", encode), "Encode");
}

#[test]
fn table_can_be_put_into_the_registers() {
    let mut ac = ArithmeticCoding::new(0, 0xFFFF).unwrap();
    ac.symbols = Symbols::from_table(vec![(b'x', 3), (b'y', 1)]).unwrap();
    ac.narrow_to(3, 4);
    assert_eq!((ac.low, ac.high), (0xC000, 0xFFFF));
}

#[test]
fn a_copy_of_the_registers_holds_the_same() {
    let mut ac = coding_for(b"ABC");
    ac.narrow_to(1, 2);
    let copy = ac.clone();
    assert_eq!((copy.low, copy.high, copy.precision), (ac.low, ac.high, ac.precision));
    assert_eq!(copy.symbols.table, ac.symbols.table);
}
