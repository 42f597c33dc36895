use arithmetic_coding::bitpack::{BitSink, BitSource};

fn sink_of(bits: &[u32]) -> BitSink {
    let mut sink = BitSink::new();
    for bit in bits {
        sink.add_bit_to_value(*bit);
    }
    sink
}

#[test]
fn empty_stream_has_no_word_and_counts_as_full() {
    let mut sink = BitSink::new();
    let trailing = sink.finish();
    assert!(sink.output.is_empty());
    assert_eq!(trailing, 32);
}

#[test]
fn two_bits_fill_the_top_of_one_word() {
    let mut sink = sink_of(&[0, 1]);
    let trailing = sink.finish();
    assert_eq!(sink.output, vec![0x00, 0x00, 0x00, 0x40]);
    assert_eq!(trailing, 2);
}

#[test]
fn words_are_written_lowest_byte_first() {
    let mut bits = Vec::new();
    let word: u32 = 0x8D72_B202;
    for k in (0..32).rev() {
        bits.push((word >> k) & 1);
    }
    let mut sink = sink_of(&bits);
    assert_eq!(sink.output, vec![0x02, 0xB2, 0x72, 0x8D]);
    let trailing = sink.finish();
    assert_eq!(sink.output, vec![0x02, 0xB2, 0x72, 0x8D]);
    assert_eq!(trailing, 32);
}

#[test]
fn a_full_word_is_written_at_once() {
    let mut sink = BitSink::new();
    for _ in 0..31 {
        sink.add_bit_to_value(1);
    }
    assert!(sink.output.is_empty());
    assert_eq!(sink.value_shifts, 31);
    sink.add_bit_to_value(1);
    assert_eq!(sink.output, vec![0xFF, 0xFF, 0xFF, 0xFF]);
    assert_eq!(sink.value_shifts, 0);
}

#[test]
fn thirty_three_bits_take_two_words() {
    let mut bits = vec![1u32; 32];
    bits.push(1);
    let mut sink = sink_of(&bits);
    let trailing = sink.finish();
    assert_eq!(sink.output, vec![0xFF, 0xFF, 0xFF, 0xFF, 0x00, 0x00, 0x00, 0x80]);
    assert_eq!(trailing, 1);
}

#[test]
fn length_and_trailing_bits_account_for_every_bit() {
    for n in 0..100usize {
        let bits: Vec<u32> = (0..n).map(|i| ((i * 7) % 3 == 0) as u32).collect();
        let mut sink = sink_of(&bits);
        let trailing = sink.finish();
        assert_eq!(sink.output.len() % 4, 0);
        assert!(1 <= trailing && trailing <= 32);
        assert_eq!(8 * sink.output.len() + trailing as usize - 32, n);
    }
}

#[test]
fn source_serves_top_bits_first() {
    let input = vec![0x02, 0xB2, 0x72, 0x8D];
    let mut source = BitSource::new(1, 32);
    let mut word: u32 = 0;
    for _ in 0..32 {
        word = (word << 1) | source.get_bit_from_value(&input);
    }
    assert_eq!(word, 0x8D72_B202);
    assert_eq!(source.position, 32);
}

#[test]
fn source_serves_zeros_behind_the_valid_bits() {
    let input = vec![0xFF, 0xFF, 0xFF, 0xFF];
    let mut source = BitSource::new(1, 3);
    let served: Vec<u32> = (0..40).map(|_| source.get_bit_from_value(&input)).collect();
    let mut expected = vec![1u32, 1, 1];
    expected.resize(40, 0);
    assert_eq!(served, expected);
}

#[test]
fn source_stops_at_the_code_region() {
    let input = vec![0x00, 0x00, 0x00, 0x80, 0xFF, 0xFF, 0xFF, 0xFF];
    let mut source = BitSource::new(1, 32);
    let served: Vec<u32> = (0..64).map(|_| source.get_bit_from_value(&input)).collect();
    let mut expected = vec![1u32];
    expected.resize(64, 0);
    assert_eq!(served, expected);
}

#[test]
fn source_of_an_empty_region_serves_zeros() {
    let input: Vec<u8> = Vec::new();
    let mut source = BitSource::new(0, 32);
    for _ in 0..70 {
        assert_eq!(source.get_bit_from_value(&input), 0);
    }
}

#[test]
fn source_reads_back_what_the_sink_packed() {
    let bits: Vec<u32> = (0..77usize).map(|i| ((i * i + i / 3) % 2) as u32).collect();
    let mut sink = sink_of(&bits);
    let trailing = sink.finish();
    let mut source = BitSource::new((sink.output.len() / 4) as u64, trailing as u32);
    let served: Vec<u32> = (0..77).map(|_| source.get_bit_from_value(&sink.output)).collect();
    assert_eq!(served, bits);
    assert_eq!(source.get_bit_from_value(&sink.output), 0);
}
