use arithmetic_coding::{CodingError, Symbols};

fn table_of(input: &[u8]) -> Symbols {
    let mut symbols = Symbols::new();
    for byte in input {
        symbols.add_symbol(*byte);
    }
    symbols
}

#[test]
fn new_table_is_empty_and_open() {
    let symbols = Symbols::new();
    assert!(symbols.table.is_empty());
    assert_eq!(symbols.total, 0);
    assert!(symbols.accumulated.is_empty());
    assert!(!symbols.frozen);
}

#[test]
fn one_repeated_byte_makes_one_entry() {
    let symbols = table_of(b"AAAA");
    assert_eq!(symbols.table, vec![(b'A', 4)]);
    assert_eq!(symbols.total, 4);
}

#[test]
fn entries_of_an_open_table_stand_in_observation_order() {
    let symbols = table_of(b"ABABABAB");
    assert_eq!(symbols.table, vec![(b'A', 4), (b'B', 4)]);
    assert_eq!(symbols.total, 8);
    let symbols = table_of(b"ZAZ");
    assert_eq!(symbols.table, vec![(b'Z', 2), (b'A', 1)]);
    assert_eq!(symbols.total, 3);
}

#[test]
fn freezing_puts_the_entries_in_order_of_their_bytes() {
    let mut symbols = Symbols::new();
    symbols.add_symbol(66);
    symbols.add_symbol(65);
    assert_eq!(symbols.table, vec![(66, 1), (65, 1)]);
    symbols.calculate_accumulated_frequency();
    assert_eq!(symbols.table, vec![(65, 1), (66, 1)]);
    assert_eq!(symbols.accumulated, vec![1, 2]);
    assert_eq!(symbols.total, 2);
    assert_eq!(symbols.get_low_and_high(65), Ok((0, 1)));
    assert_eq!(symbols.get_low_and_high(66), Ok((1, 2)));
    let mut symbols = table_of(b"ZAZ");
    symbols.calculate_accumulated_frequency();
    assert_eq!(symbols.table, vec![(b'A', 1), (b'Z', 2)]);
    assert_eq!(symbols.accumulated, vec![1, 3]);
}

#[test]
fn freezing_lays_out_contiguous_windows() {
    let mut symbols = table_of(b"HELLO WORLD");
    symbols.calculate_accumulated_frequency();
    assert!(symbols.frozen);
    assert_eq!(
        symbols.table,
        vec![
            (b' ', 1),
            (b'D', 1),
            (b'E', 1),
            (b'H', 1),
            (b'L', 3),
            (b'O', 2),
            (b'R', 1),
            (b'W', 1)
        ]
    );
    assert_eq!(symbols.accumulated, vec![1, 2, 3, 4, 7, 9, 10, 11]);
    assert_eq!(symbols.total, 11);
}

#[test]
fn windows_tile_the_total_without_gap_or_overlap() {
    let mut symbols = table_of(b"HELLO WORLD");
    symbols.calculate_accumulated_frequency();
    let mut end = 0;
    for (byte, count) in symbols.table.clone() {
        let (low, high) = symbols.get_low_and_high(byte).unwrap();
        assert_eq!(low, end);
        assert_eq!(high, low + count);
        end = high;
    }
    assert_eq!(end, symbols.total);
    for value in 0..symbols.total {
        let byte = symbols.get_symbol_by_value(value).unwrap();
        let (low, high) = symbols.get_low_and_high(byte).unwrap();
        assert!(low <= value && value < high);
    }
}

#[test]
fn freezing_twice_changes_nothing() {
    let mut symbols = table_of(b"ABRACADABRA");
    symbols.calculate_accumulated_frequency();
    let table = symbols.table.clone();
    let accumulated = symbols.accumulated.clone();
    symbols.calculate_accumulated_frequency();
    assert_eq!(symbols.table, table);
    assert_eq!(symbols.accumulated, accumulated);
    assert_eq!(symbols.table, vec![(b'A', 5), (b'B', 2), (b'C', 1), (b'D', 1), (b'R', 2)]);
    assert_eq!(symbols.accumulated, vec![5, 7, 8, 9, 11]);
    assert_eq!(symbols.total, 11);
}

#[test]
fn window_of_each_byte() {
    let mut symbols = table_of(b"ABRACADABRA");
    symbols.calculate_accumulated_frequency();
    assert_eq!(symbols.get_low_and_high(b'A'), Ok((0, 5)));
    assert_eq!(symbols.get_low_and_high(b'B'), Ok((5, 7)));
    assert_eq!(symbols.get_low_and_high(b'C'), Ok((7, 8)));
    assert_eq!(symbols.get_low_and_high(b'D'), Ok((8, 9)));
    assert_eq!(symbols.get_low_and_high(b'R'), Ok((9, 11)));
}

#[test]
fn unknown_byte_has_no_window() {
    let mut symbols = table_of(b"ABRACADABRA");
    symbols.calculate_accumulated_frequency();
    assert_eq!(symbols.get_low_and_high(b'Z'), Err(CodingError::UnknownSymbol));
    let mut empty = Symbols::new();
    empty.calculate_accumulated_frequency();
    assert_eq!(empty.get_low_and_high(0), Err(CodingError::UnknownSymbol));
}

#[test]
fn byte_of_each_value() {
    let mut symbols = table_of(b"ABRACADABRA");
    symbols.calculate_accumulated_frequency();
    let expected = b"AAAAABBCDRR";
    for value in 0..11u64 {
        assert_eq!(symbols.get_symbol_by_value(value), Ok(expected[value as usize]));
    }
}

#[test]
fn value_at_or_beyond_the_total_is_out_of_range() {
    let mut symbols = table_of(b"ABRACADABRA");
    symbols.calculate_accumulated_frequency();
    assert_eq!(symbols.get_symbol_by_value(11), Err(CodingError::ValueOutOfRange));
    assert_eq!(symbols.get_symbol_by_value(u64::MAX), Err(CodingError::ValueOutOfRange));
    let mut empty = Symbols::new();
    empty.calculate_accumulated_frequency();
    assert_eq!(empty.get_symbol_by_value(0), Err(CodingError::ValueOutOfRange));
}

#[test]
fn table_from_entries_is_frozen_in_order_of_the_bytes() {
    let symbols = Symbols::from_table(vec![(b'B', 2), (b'A', 3)]).unwrap();
    assert!(symbols.frozen);
    assert_eq!(symbols.table, vec![(b'A', 3), (b'B', 2)]);
    assert_eq!(symbols.total, 5);
    assert_eq!(symbols.accumulated, vec![3, 5]);
    let empty = Symbols::from_table(Vec::new()).unwrap();
    assert_eq!(empty.total, 0);
    assert!(empty.frozen);
}

#[test]
fn table_from_entries_refuses_a_byte_twice() {
    let r = Symbols::from_table(vec![(b'A', 1), (b'B', 1), (b'A', 2)]);
    assert_eq!(r.err(), Some(CodingError::BadContainer));
}

#[test]
fn table_from_entries_refuses_a_count_of_zero() {
    let r = Symbols::from_table(vec![(b'A', 1), (b'B', 0)]);
    assert_eq!(r.err(), Some(CodingError::BadContainer));
}

#[test]
fn table_from_entries_refuses_a_total_beyond_64_bits() {
    let r = Symbols::from_table(vec![(b'A', u64::MAX), (b'B', 1)]);
    assert_eq!(r.err(), Some(CodingError::BadContainer));
    let r = Symbols::from_table(vec![(b'A', u64::MAX - 1), (b'B', 1)]);
    assert_eq!(r.map(|s| s.total), Ok(u64::MAX));
}

#[test]
fn a_copy_of_a_table_holds_the_same() {
    let mut symbols = table_of(b"ABRACADABRA");
    symbols.calculate_accumulated_frequency();
    let copy = symbols.clone();
    assert_eq!(copy.table, symbols.table);
    assert_eq!(copy.total, symbols.total);
    assert_eq!(copy.accumulated, symbols.accumulated);
    assert_eq!(copy.frozen, symbols.frozen);
}
