use vstd::prelude::*;
use vstd::bytes::{
    lemma_auto_spec_u64_to_from_le_bytes, spec_u64_from_le_bytes, spec_u64_to_le_bytes,
    u64_from_le_bytes, u64_to_le_bytes,
};
use vstd::slice::slice_subrange;
use crate::error::CodingError;

verus! {

/// `bincode::ErrorKind`, of which nothing is looked at: a failure of
/// bincode is told from a success and no more.
#[verifier::external_type_specification]
#[verifier::external_body]
pub struct ExBincodeErrorKind(bincode::ErrorKind);

/// The bytes of the entries of a table, nine for each: the byte, and its
/// count as eight bytes, the lowest first.
pub open spec fn entries_bytes(table: Seq<(u8, u64)>) -> Seq<u8> {
    Seq::new(
        9 * table.len(),
        |j: int|
            if j % 9 == 0 {
                table[j / 9].0
            } else {
                spec_u64_to_le_bytes(table[j / 9].1)[j % 9 - 1]
            },
    )
}

/// The model region of a table: the number of its entries as eight bytes,
/// the lowest first, and then the entries.
pub open spec fn table_bytes(table: Seq<(u8, u64)>) -> Seq<u8> {
    spec_u64_to_le_bytes(table.len() as u64) + entries_bytes(table)
}

/// The table whose model region the given bytes start with, if there is one.
pub open spec fn parsed_table(bytes: Seq<u8>) -> Option<Seq<(u8, u64)>> {
    if exists|t: Seq<(u8, u64)>| (#[trigger] table_bytes(t)).is_prefix_of(bytes) {
        Some(choose|t: Seq<(u8, u64)>| (#[trigger] table_bytes(t)).is_prefix_of(bytes))
    } else {
        None
    }
}

/// Calls `bincode::serialize` on the entries of a table. With the options
/// that this function of bincode fixes, a vector is written as its length in
/// eight bytes, the lowest first, followed by its items; a pair is written
/// as its two parts; a `u8` as itself and a `u64` as eight bytes, the lowest
/// first. The call cannot fail here: this function of bincode sets no
/// limit on the number of bytes, a vector knows its length, and the bytes
/// are written into memory. The contract says that the call succeeds and
/// what the bytes are.
#[verifier::external_body]
fn serialize_table(table: &Vec<(u8, u64)>) -> (r: Result<Vec<u8>, Box<bincode::ErrorKind>>)
    ensures
        r is Ok,
        r matches Ok(bytes) ==> bytes@ == table_bytes(table@),
{
    bincode::serialize(table)
}

/// Calls `bincode::deserialize` for the entries of a table. This function
/// of bincode reads a length of eight bytes and then as many pairs of a
/// byte and a count of eight bytes; it fails only where the bytes end too
/// early, and it does not mind bytes that follow. The contract says that
/// what comes back was written at the start of the bytes, and that a
/// failure means that no table was.
#[verifier::external_body]
fn deserialize_table(bytes: &[u8]) -> (r: Result<Vec<(u8, u64)>, Box<bincode::ErrorKind>>)
    ensures
        match r {
            Ok(table) => table_bytes(table@).is_prefix_of(bytes@),
            Err(_) => forall|t: Seq<(u8, u64)>| !(#[trigger] table_bytes(t)).is_prefix_of(bytes@),
        },
{
    bincode::deserialize(bytes)
}

/// No two tables start the same bytes.
pub proof fn lemma_table_bytes_unique(a: Seq<(u8, u64)>, b: Seq<(u8, u64)>, bytes: Seq<u8>)
    requires
        table_bytes(a).is_prefix_of(bytes),
        table_bytes(b).is_prefix_of(bytes),
        bytes.len() <= u64::MAX,
    ensures
        a == b,
{
    lemma_auto_spec_u64_to_from_le_bytes();
    let ta = table_bytes(a);
    let tb = table_bytes(b);
    let la = spec_u64_to_le_bytes(a.len() as u64);
    let lb = spec_u64_to_le_bytes(b.len() as u64);
    assert(la =~= lb) by {
        assert forall|j: int| 0 <= j < 8 implies la[j] == lb[j] by {
            assert(ta[j] == bytes[j]);
            assert(tb[j] == bytes[j]);
        }
    }
    assert(spec_u64_from_le_bytes(la) == a.len() as u64);
    assert(spec_u64_from_le_bytes(lb) == b.len() as u64);
    assert(a.len() == b.len());
    assert forall|i: int| 0 <= i < a.len() implies a[i] == b[i] by {
        let ca = spec_u64_to_le_bytes(a[i].1);
        let cb = spec_u64_to_le_bytes(b[i].1);
        let at = 8 + 9 * i;
        assert(ta[at] == bytes[at]);
        assert(tb[at] == bytes[at]);
        assert(entries_bytes(a)[9 * i] == a[i].0) by {
            assert((9 * i) % 9 == 0);
            assert((9 * i) / 9 == i);
        }
        assert(entries_bytes(b)[9 * i] == b[i].0) by {
            assert((9 * i) % 9 == 0);
            assert((9 * i) / 9 == i);
        }
        assert(ca =~= cb) by {
            assert forall|j: int| 0 <= j < 8 implies ca[j] == cb[j] by {
                let k = 9 * i + 1 + j;
                assert(k % 9 == 1 + j);
                assert(k / 9 == i);
                assert(ta[8 + k] == bytes[8 + k]);
                assert(tb[8 + k] == bytes[8 + k]);
                assert(entries_bytes(a)[k] == ca[j]);
                assert(entries_bytes(b)[k] == cb[j]);
            }
        }
        assert(spec_u64_from_le_bytes(ca) == a[i].1);
        assert(spec_u64_from_le_bytes(cb) == b[i].1);
    }
    assert(a =~= b);
}

/// Bytes that start with the model region of a table are parsed to it.
pub proof fn lemma_parsed_table(table: Seq<(u8, u64)>, bytes: Seq<u8>)
    requires
        table_bytes(table).is_prefix_of(bytes),
        bytes.len() <= u64::MAX,
    ensures
        parsed_table(bytes) == Some(table),
{
    let t = choose|t: Seq<(u8, u64)>| (#[trigger] table_bytes(t)).is_prefix_of(bytes);
    lemma_table_bytes_unique(t, table, bytes);
}

/// The container of a code region: the region, the model region of the
/// table, the length of the code region as eight bytes, the lowest first,
/// and the number of bits in use in the last code word.
pub open spec fn container_bytes(code: Seq<u8>, table: Seq<(u8, u64)>, trailing: u8) -> Seq<u8> {
    code + table_bytes(table) + spec_u64_to_le_bytes(code.len() as u64) + seq![trailing]
}

/// What the trailer of a container says: the length of the code region and
/// the number of bits in use in its last word. A container too short for
/// a trailer is corrupt; a code region longer than what stands before the
/// trailer, or not made of whole words, and a bit count outside `1..=32`
/// make a bad container.
pub open spec fn trailer_of(bytes: Seq<u8>) -> Result<(u64, u8), CodingError> {
    if bytes.len() < 9 {
        Err(CodingError::Corrupt)
    } else {
        let code_len = spec_u64_from_le_bytes(bytes.subrange(bytes.len() - 9, bytes.len() - 1));
        let trailing = bytes[bytes.len() - 1];
        if code_len > bytes.len() - 9 || code_len % 4 != 0 || trailing < 1 || trailing > 32 {
            Err(CodingError::BadContainer)
        } else {
            Ok((code_len, trailing))
        }
    }
}

/// The bytes between the code region and the trailer.
pub open spec fn model_region(bytes: Seq<u8>, code_len: u64) -> Seq<u8> {
    bytes.subrange(code_len as int, bytes.len() - 9)
}

/// Makes a container of a code region: puts behind it what serialising the
/// table gave, the length of the region, and the number of bits in use in
/// its last word. Where serialising failed, the region stays as it is.
pub fn seal(
    bytes: &mut Vec<u8>,
    trailing: u8,
    model: Result<Vec<u8>, Box<bincode::ErrorKind>>,
) -> (r: Result<(), CodingError>)
    ensures
        match model {
            Ok(m) => r is Ok && final(bytes)@ == old(bytes)@ + m@ + spec_u64_to_le_bytes(
                old(bytes)@.len() as u64,
            ) + seq![trailing],
            Err(_) => r == Err::<(), CodingError>(CodingError::Io) && final(bytes)@ == old(bytes)@,
        },
{
    match model {
        Ok(m) => {
            let mut m = m;
            let encoded_data_len = bytes.len() as u64;
            let mut len_bytes = u64_to_le_bytes(encoded_data_len);
            bytes.append(&mut m);
            bytes.append(&mut len_bytes);
            bytes.push(trailing);
            Ok(())
        },
        Err(_) => Err(CodingError::Io),
    }
}

/// Makes a container of a code region and a table: behind the code region
/// go the model region of the table, the length of the code region and the
/// number of bits in use in its last word.
pub fn write_container(bytes: &mut Vec<u8>, trailing: u8, table: &Vec<(u8, u64)>) -> (r: Result<
    (),
    CodingError,
>)
    ensures
        r is Ok,
        final(bytes)@ == container_bytes(old(bytes)@, table@, trailing),
{
    seal(bytes, trailing, serialize_table(table))
}

/// Reads the trailer of a container.
pub fn read_trailer(bytes: &Vec<u8>) -> (r: Result<(u64, u8), CodingError>)
    ensures
        r == trailer_of(bytes@),
{
    let len = bytes.len();
    if len < 9 {
        return Err(CodingError::Corrupt);
    }
    let trailing = bytes[len - 1];
    let code_len = u64_from_le_bytes(slice_subrange(bytes.as_slice(), len - 9, len - 1));
    if code_len > (len - 9) as u64 || code_len % 4 != 0 || trailing < 1 || trailing > 32 {
        return Err(CodingError::BadContainer);
    }
    Ok((code_len, trailing))
}

/// Reads the table that stands behind a code region of `code_len` bytes.
pub fn read_table(bytes: &Vec<u8>, code_len: u64) -> (r: Result<Vec<(u8, u64)>, CodingError>)
    requires
        code_len + 9 <= bytes@.len(),
    ensures
        match parsed_table(model_region(bytes@, code_len)) {
            Some(table) => r matches Ok(t) && t@ == table,
            None => r == Err::<Vec<(u8, u64)>, CodingError>(CodingError::BadContainer),
        },
{
    let len = bytes.len();
    let region = slice_subrange(bytes.as_slice(), code_len as usize, len - 9);
    match deserialize_table(region) {
        Ok(table) => {
            proof {
                lemma_parsed_table(table@, region@);
            }
            Ok(table)
        },
        Err(_) => Err(CodingError::BadContainer),
    }
}

} // verus!
