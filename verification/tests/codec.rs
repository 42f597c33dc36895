use arithmetic_coding::{
    compress, decompress, ArithmeticCoding, ArithmeticDecoder, ArithmeticEncoder, CodingError,
    Symbols,
};

const FULL: u32 = u32::MAX;

fn pseudo_random(seed: u64, n: usize) -> Vec<u8> {
    let mut x = seed;
    let mut out = Vec::with_capacity(n);
    for _ in 0..n {
        x = x.wrapping_mul(6364136223846793005).wrapping_add(1442695040888963407);
        out.push((x >> 56) as u8);
    }
    out
}

#[test]
fn four_equal_bytes_round_trip() {
    let input = b"AAAA".to_vec();
    let mut encoder = ArithmeticEncoder::new(0, 4294967295).unwrap();
    assert_eq!(encoder.verify_file_len(4), Ok(()));
    assert_eq!(encoder.encode(&input), Ok(()));
    assert_eq!(encoder.ac.symbols.table, vec![(b'A', 4)]);
    assert_eq!(
        encoder.sink.output,
        vec![
            0, 0, 0, 64, 1, 0, 0, 0, 0, 0, 0, 0, 65, 4, 0, 0, 0, 0, 0, 0, 0, 4, 0, 0, 0, 0, 0, 0,
            0, 2
        ]
    );
    assert_eq!(decompress(&encoder.sink.output, 0, 4294967295), Ok(input));
}

#[test]
fn two_alternating_bytes_round_trip() {
    let input = b"ABABABAB".to_vec();
    let mut encoder = ArithmeticEncoder::new(0, FULL).unwrap();
    encoder.encode(&input).unwrap();
    assert_eq!(encoder.ac.symbols.table, vec![(b'A', 4), (b'B', 4)]);
    assert_eq!(encoder.ac.symbols.total, 8);
    let artifact = encoder.sink.output;
    assert_eq!(
        artifact,
        vec![
            0, 0, 64, 85, 2, 0, 0, 0, 0, 0, 0, 0, 65, 4, 0, 0, 0, 0, 0, 0, 0, 66, 4, 0, 0, 0, 0, 0,
            0, 0, 4, 0, 0, 0, 0, 0, 0, 0, 10
        ]
    );
    assert_eq!(decompress(&artifact, 0, FULL), Ok(input));
}

#[test]
fn random_bytes_round_trip_with_small_overhead() {
    let input = pseudo_random(1, 65536);
    let artifact = compress(&input, 0, FULL).unwrap();
    assert_eq!(artifact.len(), 67837);
    assert!(artifact.len() <= input.len() + (8 + 9 * 256) + 16);
    assert_eq!(decompress(&artifact, 0, FULL), Ok(input));
}

#[test]
fn empty_input_gives_an_empty_code_region() {
    let input: Vec<u8> = Vec::new();
    let artifact = compress(&input, 0, FULL).unwrap();
    assert_eq!(artifact, vec![0, 0, 0, 0, 0, 0, 0, 0, 0, 0, 0, 0, 0, 0, 0, 0, 32]);
    assert_eq!(decompress(&artifact, 0, FULL), Ok(Vec::new()));
}

#[test]
fn text_round_trips() {
    let input = b"ABRACADABRA".to_vec();
    let artifact = compress(&input, 0, FULL).unwrap();
    assert_eq!(
        artifact,
        vec![
            0, 178, 94, 71, 5, 0, 0, 0, 0, 0, 0, 0, 65, 5, 0, 0, 0, 0, 0, 0, 0, 66, 2, 0, 0, 0, 0,
            0, 0, 0, 67, 1, 0, 0, 0, 0, 0, 0, 0, 68, 1, 0, 0, 0, 0, 0, 0, 0, 82, 2, 0, 0, 0, 0, 0,
            0, 0, 4, 0, 0, 0, 0, 0, 0, 0, 23
        ]
    );
    assert_eq!(decompress(&artifact, 0, FULL), Ok(input));
    let input = b"BANANA".to_vec();
    let artifact = compress(&input, 0, FULL).unwrap();
    assert_eq!(
        artifact,
        vec![
            0, 0, 192, 144, 3, 0, 0, 0, 0, 0, 0, 0, 65, 3, 0, 0, 0, 0, 0, 0, 0, 66, 1, 0, 0, 0, 0,
            0, 0, 0, 78, 2, 0, 0, 0, 0, 0, 0, 0, 4, 0, 0, 0, 0, 0, 0, 0, 10
        ]
    );
    assert_eq!(decompress(&artifact, 0, FULL), Ok(input));
}

#[test]
fn table_of_the_container_stands_in_order_of_the_bytes() {
    let input = b"HELLO WORLD".to_vec();
    let artifact = compress(&input, 0, FULL).unwrap();
    assert_eq!(
        artifact,
        vec![
            161, 166, 33, 75, 8, 0, 0, 0, 0, 0, 0, 0, 32, 1, 0, 0, 0, 0, 0, 0, 0, 68, 1, 0, 0, 0,
            0, 0, 0, 0, 69, 1, 0, 0, 0, 0, 0, 0, 0, 72, 1, 0, 0, 0, 0, 0, 0, 0, 76, 3, 0, 0, 0, 0,
            0, 0, 0, 79, 2, 0, 0, 0, 0, 0, 0, 0, 82, 1, 0, 0, 0, 0, 0, 0, 0, 87, 1, 0, 0, 0, 0, 0,
            0, 0, 4, 0, 0, 0, 0, 0, 0, 0, 32
        ]
    );
}

#[test]
fn container_with_entries_out_of_order_is_decoded_in_order_of_the_bytes() {
    let artifact = vec![
        0, 0, 192, 144, 3, 0, 0, 0, 0, 0, 0, 0, 78, 2, 0, 0, 0, 0, 0, 0, 0, 66, 1, 0, 0, 0, 0, 0,
        0, 0, 65, 3, 0, 0, 0, 0, 0, 0, 0, 4, 0, 0, 0, 0, 0, 0, 0, 10,
    ];
    assert_eq!(decompress(&artifact, 0, FULL), Ok(b"BANANA".to_vec()));
}

#[test]
fn flipped_code_byte_does_not_give_the_input_back() {
    let input = b"HELLO WORLD".to_vec();
    let mut artifact = compress(&input, 0, FULL).unwrap();
    artifact[2] ^= 0xFF;
    let decoded = decompress(&artifact, 0, FULL);
    assert_ne!(decoded, Ok(input));
    assert_eq!(decoded, Ok(b"HERLL  RE H".to_vec()));
    let input = b"ABRACADABRA".to_vec();
    let mut artifact = compress(&input, 0, FULL).unwrap();
    assert_eq!(decompress(&artifact, 0, FULL), Ok(input.clone()));
    artifact[2] ^= 0xFF;
    assert_eq!(decompress(&artifact, 0, FULL), Ok(b"ABRADRRCAAD".to_vec()));
}

#[test]
fn more_varied_input_is_not_coded_shorter() {
    let plain = compress(&b"AAAAAAAA".to_vec(), 0, FULL).unwrap();
    let varied = compress(&b"ABCDEFGH".to_vec(), 0, FULL).unwrap();
    assert!(varied.len() >= plain.len());
    assert_eq!(plain.len(), 30);
    assert_eq!(varied.len(), 93);
    let plain = compress(&vec![7u8; 65536], 0, FULL).unwrap();
    let varied = compress(&pseudo_random(1, 65536), 0, FULL).unwrap();
    assert!(varied.len() >= plain.len());
}

#[test]
fn same_input_and_bounds_give_the_same_container() {
    let input = pseudo_random(5, 3000);
    let first = compress(&input, 0, FULL).unwrap();
    let second = compress(&input, 0, FULL).unwrap();
    assert_eq!(first, second);
    let mut encoder = ArithmeticEncoder::new(0, FULL).unwrap();
    encoder.encode(&input).unwrap();
    assert_eq!(encoder.sink.output, first);
}

#[test]
fn sixteen_bit_registers_round_trip() {
    let input = b"HELLO WORLD".to_vec();
    let artifact = compress(&input, 0, 0xFFFF).unwrap();
    assert_eq!(&artifact[..4], &[245, 50, 33, 75]);
    assert_eq!(artifact[artifact.len() - 1], 32);
    assert_eq!(decompress(&artifact, 0, 0xFFFF), Ok(input));
    let input = b"MISSISSIPPI".to_vec();
    let artifact = compress(&input, 0, 0xFFFF).unwrap();
    assert_eq!(
        artifact,
        vec![
            0, 24, 204, 100, 4, 0, 0, 0, 0, 0, 0, 0, 73, 4, 0, 0, 0, 0, 0, 0, 0, 77, 1, 0, 0, 0, 0,
            0, 0, 0, 80, 2, 0, 0, 0, 0, 0, 0, 0, 83, 4, 0, 0, 0, 0, 0, 0, 0, 4, 0, 0, 0, 0, 0, 0,
            0, 21
        ]
    );
    assert_eq!(decompress(&artifact, 0, 0xFFFF), Ok(input));
}

#[test]
fn coding_empty_input_and_single_bytes_succeeds() {
    assert!(compress(&Vec::new(), 0, FULL).is_ok());
    assert!(compress(&Vec::new(), 0, 15).is_ok());
    for byte in 0..=255u8 {
        let artifact = compress(&vec![byte], 0, FULL).unwrap();
        assert_eq!(decompress(&artifact, 0, FULL), Ok(vec![byte]));
    }
}

#[test]
fn coding_that_ends_above_the_quarter_decodes_to_other_bytes() {
    let input = b"ABC".to_vec();
    let mut encoder = ArithmeticEncoder::new(0, FULL).unwrap();
    encoder.encode(&input).unwrap();
    assert_eq!(encoder.ac.low, 0x7B42_5ECC);
    assert!(encoder.ac.low > encoder.ac.half_bit());
    assert_eq!(&encoder.sink.output[..4], &[0, 0, 0, 0x28]);
    assert_eq!(decompress(&encoder.sink.output, 0, FULL), Ok(b"ABB".to_vec()));
    let artifact = compress(&b"HELLO WORLD".to_vec(), 0, FULL).unwrap();
    assert_eq!(decompress(&artifact, 0, FULL), Ok(b"HELLO WORL ".to_vec()));
}

#[test]
fn coding_that_ends_at_or_below_the_quarter_round_trips() {
    for seed in 0..200u64 {
        let n = 1 + (seed as usize % 40);
        let input: Vec<u8> = pseudo_random(seed, n).iter().map(|b| b'a' + b % 5).collect();
        let mut encoder = ArithmeticEncoder::new(0, FULL).unwrap();
        encoder.encode(&input).unwrap();
        let decoded = decompress(&encoder.sink.output, 0, FULL);
        if encoder.ac.low <= encoder.ac.half_bit() {
            assert_eq!(decoded, Ok(input));
        } else {
            assert_ne!(decoded, Ok(input));
        }
    }
}

#[test]
fn input_at_the_quarter_of_the_range_is_too_large() {
    assert_eq!(compress(&vec![1u8; 4], 0, 15), Err(CodingError::InputTooLarge));
    assert_eq!(compress(&vec![1u8; 5], 0, 15), Err(CodingError::InputTooLarge));
    let artifact = compress(&vec![1u8; 3], 0, 15).unwrap();
    assert_eq!(decompress(&artifact, 0, 15), Ok(vec![1u8; 3]));
    let encoder = ArithmeticEncoder::new(0, 0xFFFF).unwrap();
    assert_eq!(encoder.verify_file_len(0x3FFF), Ok(()));
    assert_eq!(encoder.verify_file_len(0x4000), Err(CodingError::InputTooLarge));
    let encoder = ArithmeticEncoder::new(0, FULL).unwrap();
    assert_eq!(encoder.verify_file_len(0x3FFF_FFFF), Ok(()));
    assert_eq!(encoder.verify_file_len(0x4000_0000), Err(CodingError::InputTooLarge));
}

#[test]
fn table_too_large_for_the_registers_is_refused() {
    let artifact = compress(&vec![1u8; 100], 0, FULL).unwrap();
    assert_eq!(decompress(&artifact, 0, 15), Err(CodingError::InputTooLarge));
    assert_eq!(decompress(&artifact, 0, 255), Err(CodingError::InputTooLarge));
    assert_eq!(decompress(&artifact, 0, 511), Ok(vec![1u8; 100]));
}

#[test]
fn bad_bounds_are_bad_precision() {
    assert_eq!(compress(&b"A".to_vec(), 5, 5), Err(CodingError::BadPrecision));
    assert_eq!(compress(&b"A".to_vec(), 0, 7), Err(CodingError::BadPrecision));
    assert_eq!(decompress(&vec![0u8; 17], 9, 3), Err(CodingError::BadPrecision));
    assert_eq!(ArithmeticEncoder::new(3, 3).err(), Some(CodingError::BadPrecision));
}

#[test]
fn short_container_is_corrupt() {
    assert_eq!(decompress(&Vec::new(), 0, FULL), Err(CodingError::Corrupt));
    assert_eq!(decompress(&vec![0u8; 8], 0, FULL), Err(CodingError::Corrupt));
}

#[test]
fn broken_layout_is_a_bad_container() {
    let good = compress(&b"ABABABAB".to_vec(), 0, FULL).unwrap();
    let n = good.len();
    let mut bad = good.clone();
    bad[n - 1] = 0;
    assert_eq!(decompress(&bad, 0, FULL), Err(CodingError::BadContainer));
    let mut bad = good.clone();
    bad[n - 1] = 33;
    assert_eq!(decompress(&bad, 0, FULL), Err(CodingError::BadContainer));
    let mut bad = good.clone();
    bad[n - 9] = 200;
    assert_eq!(decompress(&bad, 0, FULL), Err(CodingError::BadContainer));
    let mut bad = good.clone();
    bad[n - 9] = 5;
    assert_eq!(decompress(&bad, 0, FULL), Err(CodingError::BadContainer));
    let mut bad = good.clone();
    bad[4] = 3;
    assert_eq!(decompress(&bad, 0, FULL), Err(CodingError::BadContainer));
    let mut bad = good.clone();
    bad[21] = b'A';
    assert_eq!(decompress(&bad, 0, FULL), Err(CodingError::BadContainer));
    let mut bad = good.clone();
    bad[13] = 0;
    assert_eq!(decompress(&bad, 0, FULL), Err(CodingError::BadContainer));
    assert_eq!(decompress(&good, 0, FULL), Ok(b"ABABABAB".to_vec()));
}

#[test]
fn decoder_gives_as_many_bytes_as_the_table_counts() {
    let mut artifact = compress(&pseudo_random(9, 500), 0, FULL).unwrap();
    for k in 0..40 {
        artifact[k] = artifact[k].wrapping_mul(31).wrapping_add(k as u8);
    }
    let decoded = decompress(&artifact, 0, FULL).unwrap();
    assert_eq!(decoded.len(), 500);
}

#[test]
fn encoder_steps_keep_low_below_high() {
    let input = pseudo_random(3, 2000);
    let mut encoder = ArithmeticEncoder::new(0, FULL).unwrap();
    for byte in &input {
        encoder.ac.symbols.add_symbol(*byte);
    }
    encoder.ac.symbols.calculate_accumulated_frequency();
    for byte in &input {
        assert_eq!(encoder.update(*byte), Ok(()));
        assert!(encoder.ac.verify_low_and_high());
        assert!(encoder.ac.low < 0x8000_0000 && encoder.ac.high >= 0x8000_0000);
        assert!(!(encoder.ac.low >= 0x4000_0000 && encoder.ac.high < 0xC000_0000));
    }
}

#[test]
fn encoder_step_owes_a_bit_for_the_middle_window() {
    let mut encoder = ArithmeticEncoder::new(0, FULL).unwrap();
    encoder.ac.symbols = Symbols::from_table(vec![(b'A', 1), (b'B', 1), (b'C', 1)]).unwrap();
    assert_eq!(encoder.update(b'B'), Ok(()));
    assert_eq!((encoder.ac.low, encoder.ac.high), (0x2AAA_AAAA, 0xD555_5553));
    assert_eq!(encoder.underflow_count, 1);
    assert!(encoder.sink.output.is_empty());
    assert_eq!(encoder.sink.value_shifts, 0);
}

#[test]
fn encoder_step_sends_the_common_top_bit() {
    let mut encoder = ArithmeticEncoder::new(0, FULL).unwrap();
    encoder.ac.symbols = Symbols::from_table(vec![(b'A', 1), (b'B', 1), (b'C', 1)]).unwrap();
    assert_eq!(encoder.update(b'C'), Ok(()));
    assert_eq!((encoder.ac.low, encoder.ac.high), (0x5555_5554, 0xFFFF_FFFF));
    assert_eq!(encoder.underflow_count, 0);
    assert_eq!((encoder.sink.value, encoder.sink.value_shifts), (1, 1));
}

#[test]
fn encoder_step_refuses_an_unknown_byte() {
    let mut encoder = ArithmeticEncoder::new(0, FULL).unwrap();
    encoder.ac.symbols = Symbols::from_table(vec![(b'A', 1), (b'B', 1)]).unwrap();
    assert_eq!(encoder.update(b'Z'), Err(CodingError::UnknownSymbol));
    assert_eq!((encoder.ac.low, encoder.ac.high), (0, FULL));
    assert_eq!(encoder.underflow_count, 0);
}

#[test]
fn decoder_reads_the_code_region_of_its_input() {
    let mut ac = ArithmeticCoding::new(0, FULL).unwrap();
    ac.symbols = Symbols::from_table(vec![(b'A', 4), (b'B', 4)]).unwrap();
    let mut decoder = ArithmeticDecoder::new(ac, 1, 10);
    let input = vec![0, 0, 64, 85, 0xFF, 0xFF, 0xFF, 0xFF];
    assert_eq!(decoder.decode(&input), Ok(()));
    assert_eq!(decoder.output, b"ABABABAB".to_vec());
}

#[test]
fn decoder_step_follows_the_encoder() {
    let mut ac = ArithmeticCoding::new(0, FULL).unwrap();
    ac.symbols = Symbols::from_table(vec![(b'A', 1), (b'B', 1), (b'C', 1)]).unwrap();
    let mut decoder = ArithmeticDecoder::new(ac, 1, 32);
    let input = vec![0xFF, 0xFF, 0xFF, 0x7F];
    decoder.code = 0x6000_0000;
    assert_eq!(decoder.update(b'B', &input), Ok(()));
    assert_eq!((decoder.ac.low, decoder.ac.high), (0x2AAA_AAAA, 0xD555_5553));
    assert_eq!(decoder.code, 0x4000_0000);
    assert_eq!(decoder.source.position, 1);
    assert_eq!(decoder.update(b'Z', &input), Err(CodingError::UnknownSymbol));
}

#[test]
fn code_register_outside_the_interval_is_corrupt() {
    let mut ac = ArithmeticCoding::new(0, 1000).unwrap();
    ac.symbols = Symbols::from_table(vec![(b'A', 2), (b'B', 1)]).unwrap();
    let mut decoder = ArithmeticDecoder::new(ac, 1, 32);
    let input = vec![0xFF, 0xFF, 0xFF, 0xFF];
    assert_eq!(decoder.decode(&input), Err(CodingError::Corrupt));
    assert!(decoder.output.is_empty());
}

#[test]
fn decoder_steps_keep_the_code_inside_the_interval() {
    let input = pseudo_random(11, 1500);
    let mut artifact = compress(&input, 0, FULL).unwrap();
    for k in 0..64 {
        artifact[k] ^= (k as u8).wrapping_mul(37);
    }
    let n = artifact.len();
    let mut len_bytes = [0u8; 8];
    len_bytes.copy_from_slice(&artifact[n - 9..n - 1]);
    let code_len = u64::from_le_bytes(len_bytes);
    let mut table = Symbols::new();
    for byte in &input {
        table.add_symbol(*byte);
    }
    table.calculate_accumulated_frequency();
    let mut ac = ArithmeticCoding::new(0, FULL).unwrap();
    ac.symbols = table;
    let mut decoder = ArithmeticDecoder::new(ac, code_len / 4, artifact[n - 1] as u32);
    for _ in 0..32 {
        let bit = decoder.source.get_bit_from_value(&artifact);
        decoder.code = (decoder.code << 1) | bit;
    }
    let total = decoder.ac.symbols.total;
    for _ in 0..total {
        let (low, high, code) = (decoder.ac.low, decoder.ac.high, decoder.code);
        assert!(low < high);
        assert!(low <= code && code <= high);
        let range = (high - low) as u64 + 1;
        let value = (((code - low) as u64 + 1) * total - 1) / range;
        assert!(value < total);
        let symbol = decoder.ac.symbols.get_symbol_by_value(value).unwrap();
        let before = decoder.source.position;
        assert_eq!(decoder.update(symbol, &artifact), Ok(()));
        assert!(decoder.source.position - before <= 32);
    }
}

#[test]
fn encoder_leaves_the_registers_where_coding_ended() {
    let mut encoder = ArithmeticEncoder::new(0, FULL).unwrap();
    encoder.encode(&b"HELLO WORLD".to_vec()).unwrap();
    assert_eq!((encoder.ac.low, encoder.ac.high), (0x6B66_4ED0, 0xD373_3A7F));
    let mut encoder = ArithmeticEncoder::new(0, 0xFFFF).unwrap();
    encoder.encode(&b"MISSISSIPPI".to_vec()).unwrap();
    assert_eq!((encoder.ac.low, encoder.ac.high), (0x3F70, 0xBAC3));
}

#[test]
fn bounds_with_bits_of_low_taken_off_round_trip() {
    let input = b"MISSISSIPPI".to_vec();
    let artifact = compress(&input, 0xFFFF, FULL).unwrap();
    assert_eq!(artifact, compress(&input, 0, 0xFFFF).unwrap());
    assert_eq!(decompress(&artifact, 0xFFFF, FULL), Ok(input));
}
