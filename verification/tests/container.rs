use arithmetic_coding::container::{read_table, read_trailer, seal, write_container};
use arithmetic_coding::CodingError;

#[test]
fn container_is_code_table_length_and_trailing_bits() {
    let mut bytes = vec![0x00, 0x00, 0x00, 0x40];
    let r = write_container(&mut bytes, 2, &vec![(b'A', 4)]);
    assert_eq!(r, Ok(()));
    assert_eq!(
        bytes,
        vec![
            0, 0, 0, 64, 1, 0, 0, 0, 0, 0, 0, 0, 65, 4, 0, 0, 0, 0, 0, 0, 0, 4, 0, 0, 0, 0, 0, 0,
            0, 2
        ]
    );
}

#[test]
fn table_is_written_as_count_and_entries() {
    let mut bytes = Vec::new();
    write_container(&mut bytes, 32, &vec![(0xAB, 0x0102_0304_0506_0708), (0x01, 1)]).unwrap();
    assert_eq!(
        bytes,
        vec![
            2, 0, 0, 0, 0, 0, 0, 0, 0xAB, 8, 7, 6, 5, 4, 3, 2, 1, 0x01, 1, 0, 0, 0, 0, 0, 0, 0, 0,
            0, 0, 0, 0, 0, 0, 0, 32
        ]
    );
}

#[test]
fn failed_serialising_is_an_io_error() {
    let mut bytes = vec![1, 2, 3, 4];
    let r = seal(&mut bytes, 7, Err(Box::new(bincode::ErrorKind::SizeLimit)));
    assert_eq!(r, Err(CodingError::Io));
    assert_eq!(bytes, vec![1, 2, 3, 4]);
}

#[test]
fn sealing_puts_the_parts_behind_the_code() {
    let mut bytes = vec![9, 9, 9, 9];
    let r = seal(&mut bytes, 5, Ok(vec![0xAA, 0xBB]));
    assert_eq!(r, Ok(()));
    assert_eq!(bytes, vec![9, 9, 9, 9, 0xAA, 0xBB, 4, 0, 0, 0, 0, 0, 0, 0, 5]);
}

#[test]
fn trailer_is_read_from_the_end() {
    let bytes = vec![
        0, 0, 0, 64, 1, 0, 0, 0, 0, 0, 0, 0, 65, 4, 0, 0, 0, 0, 0, 0, 0, 4, 0, 0, 0, 0, 0, 0, 0, 2,
    ];
    assert_eq!(read_trailer(&bytes), Ok((4, 2)));
    let empty = vec![0, 0, 0, 0, 0, 0, 0, 0, 0, 0, 0, 0, 0, 0, 0, 0, 32];
    assert_eq!(read_trailer(&empty), Ok((0, 32)));
}

#[test]
fn container_without_room_for_a_trailer_is_corrupt() {
    assert_eq!(read_trailer(&Vec::new()), Err(CodingError::Corrupt));
    assert_eq!(read_trailer(&vec![0, 0, 0, 0, 0, 0, 0, 32]), Err(CodingError::Corrupt));
}

#[test]
fn code_length_beyond_the_container_is_bad() {
    let bytes = vec![0, 0, 0, 0, 8, 0, 0, 0, 0, 0, 0, 0, 32];
    assert_eq!(read_trailer(&bytes), Err(CodingError::BadContainer));
    let bytes = vec![0, 0, 0, 0, 4, 0, 0, 0, 0, 0, 0, 0, 32];
    assert_eq!(read_trailer(&bytes), Ok((4, 32)));
}

#[test]
fn code_length_of_broken_words_is_bad() {
    let bytes = vec![0, 0, 0, 0, 3, 0, 0, 0, 0, 0, 0, 0, 32];
    assert_eq!(read_trailer(&bytes), Err(CodingError::BadContainer));
}

#[test]
fn trailing_bits_outside_one_to_32_are_bad() {
    let bytes = vec![0, 0, 0, 0, 4, 0, 0, 0, 0, 0, 0, 0, 0];
    assert_eq!(read_trailer(&bytes), Err(CodingError::BadContainer));
    let bytes = vec![0, 0, 0, 0, 4, 0, 0, 0, 0, 0, 0, 0, 33];
    assert_eq!(read_trailer(&bytes), Err(CodingError::BadContainer));
    let bytes = vec![0, 0, 0, 0, 4, 0, 0, 0, 0, 0, 0, 0, 1];
    assert_eq!(read_trailer(&bytes), Ok((4, 1)));
}

#[test]
fn table_is_read_from_behind_the_code() {
    let bytes = vec![
        0, 0, 64, 85, 2, 0, 0, 0, 0, 0, 0, 0, 65, 4, 0, 0, 0, 0, 0, 0, 0, 66, 4, 0, 0, 0, 0, 0, 0,
        0, 4, 0, 0, 0, 0, 0, 0, 0, 10,
    ];
    assert_eq!(read_table(&bytes, 4), Ok(vec![(b'A', 4), (b'B', 4)]));
}

#[test]
fn table_that_ends_too_early_is_bad() {
    let bytes = vec![
        0, 0, 64, 85, 2, 0, 0, 0, 0, 0, 0, 0, 65, 4, 0, 0, 0, 0, 0, 0, 0, 66, 4, 0, 0, 0, 0, 4, 0,
        0, 0, 0, 0, 0, 0, 10,
    ];
    assert_eq!(read_table(&bytes, 4), Err(CodingError::BadContainer));
    let bytes = vec![1, 0, 0, 0, 4, 0, 0, 0, 0, 0, 0, 0, 0];
    assert_eq!(read_table(&bytes, 0), Err(CodingError::BadContainer));
}

#[test]
fn bytes_behind_the_table_are_not_minded() {
    let bytes = vec![
        1, 0, 0, 0, 0, 0, 0, 0, 65, 4, 0, 0, 0, 0, 0, 0, 0, 0xEE, 0xEE, 0, 0, 0, 0, 0, 0, 0, 0, 32,
    ];
    assert_eq!(read_table(&bytes, 0), Ok(vec![(b'A', 4)]));
}

#[test]
fn written_table_is_read_back() {
    let table = vec![(b'H', 1), (b'E', 1), (b'L', 3), (b'O', 2)];
    let mut bytes = vec![1, 2, 3, 4, 5, 6, 7, 8];
    write_container(&mut bytes, 32, &table).unwrap();
    assert_eq!(read_trailer(&bytes), Ok((8, 32)));
    assert_eq!(read_table(&bytes, 8), Ok(table));
}
