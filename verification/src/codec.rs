use vstd::prelude::*;
use vstd::arithmetic::power2::{
    lemma2_to64, lemma_pow2_pos, lemma_pow2_strictly_increases, lemma_pow2_unfold, pow2,
};
use vstd::bytes::{lemma_auto_spec_u64_to_from_le_bytes, spec_u64_to_le_bytes};
use crate::bitpack::{lemma_bit_accounting, lemma_unpack_packed, packed, trailing_bits, unpacked};
use crate::bitseq::{lemma_window_head, window};
use crate::agreement::{ends_low, lemma_agreement, lemma_run_len};
use crate::coder::{Coder, dec, settled};
use crate::coding::{
    ArithmeticCoding, bit_length, lemma_bit_length, lemma_bit_length_below, precision_of,
    start_high,
};
use crate::container::{
    lemma_parsed_table, model_region, parsed_table, read_table, read_trailer, table_bytes,
    trailer_of,
};
use crate::decoder::ArithmeticDecoder;
use crate::encoder::{ArithmeticEncoder, artifact, code_bits, entries_of};
use crate::error::CodingError;
use crate::symbols::{
    Symbols, by_byte, census, lemma_by_byte, lemma_census, lemma_lower_monotonic, lower, model_of,
    positive, total_of, valid_table,
};

verus! {

/// Bounds that registers can be made for: `low` below `high`, and at least
/// four bits of precision.
pub open spec fn bounds_ok(low: u32, high: u32) -> bool {
    low < high && precision_of(low, high) >= 4
}

/// The quarter of the register range that the bounds ask for.
pub open spec fn quarter_of(low: u32, high: u32) -> int {
    pow2((precision_of(low, high) - 2) as nat) as int
}

/// The state in which coding between the bounds starts.
pub open spec fn start_of(low: u32, high: u32) -> Coder {
    Coder { low: 0, high: start_high(low, high) as int, pending: 0 }
}

/// The container of an input, coded between the bounds `low` and `high`,
/// or why there is none.
pub open spec fn encoded(input: Seq<u8>, low: u32, high: u32) -> Result<Seq<u8>, CodingError> {
    if !bounds_ok(low, high) {
        Err(CodingError::BadPrecision)
    } else if input.len() >= quarter_of(low, high) {
        Err(CodingError::InputTooLarge)
    } else {
        Ok(artifact(quarter_of(low, high), start_high(low, high) as int, input))
    }
}

/// The bytes that a container holds, decoded between the bounds `low` and
/// `high`, or why it holds none.
pub open spec fn decoded(bytes: Seq<u8>, low: u32, high: u32) -> Result<Seq<u8>, CodingError> {
    if !bounds_ok(low, high) {
        Err(CodingError::BadPrecision)
    } else {
        match trailer_of(bytes) {
            Err(e) => Err(e),
            Ok((code_len, trailing)) => match parsed_table(model_region(bytes, code_len)) {
                None => Err(CodingError::BadContainer),
                Some(table) => if !valid_table(table) {
                    Err(CodingError::BadContainer)
                } else if total_of(model_of(table)) >= quarter_of(low, high) {
                    Err(CodingError::InputTooLarge)
                } else {
                    let s = unpacked(bytes.subrange(0, code_len as int), trailing as nat);
                    let p = precision_of(low, high);
                    dec(
                        quarter_of(low, high),
                        start_of(low, high),
                        window(s, 0, p as int),
                        by_byte(model_of(table)),
                        s,
                        p as int,
                        total_of(model_of(table)),
                    )
                },
            },
        }
    }
}

/// Codes `input` between the bounds `low` and `high` into a container.
pub fn compress(input: &Vec<u8>, low: u32, high: u32) -> (r: Result<Vec<u8>, CodingError>)
    ensures
        match encoded(input@, low, high) {
            Ok(bytes) => r matches Ok(v) && v@ == bytes,
            Err(e) => r == Err::<Vec<u8>, CodingError>(e),
        },
{
    let mut encoder = match ArithmeticEncoder::new(low, high) {
        Ok(encoder) => encoder,
        Err(e) => {
            return Err(e);
        },
    };
    match encoder.encode(input) {
        Ok(_) => Ok(encoder.sink.output),
        Err(e) => Err(e),
    }
}

/// Decodes a container between the bounds `low` and `high`.
pub fn decompress(bytes: &Vec<u8>, low: u32, high: u32) -> (r: Result<Vec<u8>, CodingError>)
    ensures
        match decoded(bytes@, low, high) {
            Ok(output) => r matches Ok(v) && v@ == output,
            Err(e) => r == Err::<Vec<u8>, CodingError>(e),
        },
{
    let mut ac = match ArithmeticCoding::new(low, high) {
        Ok(ac) => ac,
        Err(e) => {
            return Err(e);
        },
    };
    let (code_len, trailing) = match read_trailer(bytes) {
        Ok(trailer) => trailer,
        Err(e) => {
            return Err(e);
        },
    };
    let table = match read_table(bytes, code_len) {
        Ok(table) => table,
        Err(e) => {
            return Err(e);
        },
    };
    proof {
        if valid_table(table@) {
            lemma_by_byte(model_of(table@));
        }
    }
    let symbols = match Symbols::from_table(table) {
        Ok(symbols) => symbols,
        Err(e) => {
            return Err(e);
        },
    };
    if symbols.total >= ac.half_bit() as u64 {
        return Err(CodingError::InputTooLarge);
    }
    ac.symbols = symbols;
    let mut decoder = ArithmeticDecoder::new(ac, code_len / 4, trailing as u32);
    assert(decoder.source.code(bytes@) == bytes@.subrange(0, code_len as int));
    match decoder.decode(bytes) {
        Ok(_) => Ok(decoder.output),
        Err(e) => Err(e),
    }
}

/// A table has no more entries than observations.
pub proof fn lemma_entries_bound(m: Seq<(u8, nat)>, n: int)
    requires
        positive(m),
        0 <= n <= m.len(),
    ensures
        n <= lower(m, n),
    decreases n,
{
    if n > 0 {
        lemma_entries_bound(m, n - 1);
    }
}

/// Whether the interval in which coding `input` ends reaches down to the
/// quarter. The bits that end the code name the quarter point; where the
/// last interval lies above it, they name no point of the interval.
pub open spec fn ends_well(input: Seq<u8>, low: u32, high: u32) -> bool {
    input.len() > 0 ==> ends_low(
        quarter_of(low, high),
        start_of(low, high),
        census(input),
        input,
        0,
    )
}

/// The registers that bounds ask for have at most 32 bits, and coding
/// between them starts in a settled state.
pub proof fn lemma_start(low: u32, high: u32)
    requires
        bounds_ok(low, high),
    ensures
        4 <= precision_of(low, high) <= 32,
        1 <= quarter_of(low, high) <= 0x4000_0000,
        settled(quarter_of(low, high), start_of(low, high)),
{
    let p = precision_of(low, high);
    lemma2_to64();
    lemma_pow2_pos((p - 2) as nat);
    lemma_pow2_unfold((p - 1) as nat);
    lemma_pow2_unfold(p);
    lemma_bit_length(start_high(low, high));
    lemma_bit_length(low as nat);
    lemma_pow2_pos(bit_length(low as nat));
    let d = pow2(bit_length(low as nat)) as int;
    vstd::arithmetic::div_mod::lemma_div_nonincreasing(high as int, d);
    lemma_bit_length_below(start_high(low, high), 32);
    if p < 32 {
        lemma_pow2_strictly_increases(p, 32);
    }
}

/// Decoding a container that was coded takes the container apart into what
/// it was made of: the decoder runs on the bits that the encoder sent, with
/// the table of the input.
pub proof fn lemma_container_opens(input: Seq<u8>, low: u32, high: u32)
    requires
        bounds_ok(low, high),
        input.len() < quarter_of(low, high),
    ensures
        encoded(input, low, high) is Ok,
        decoded(encoded(input, low, high)->Ok_0, low, high) == dec(
            quarter_of(low, high),
            start_of(low, high),
            window(
                code_bits(quarter_of(low, high), start_high(low, high) as int, input),
                0,
                precision_of(low, high) as int,
            ),
            census(input),
            code_bits(quarter_of(low, high), start_high(low, high) as int, input),
            precision_of(low, high) as int,
            input.len(),
        ),
{
    let p = precision_of(low, high);
    let q = quarter_of(low, high);
    let c0 = start_of(low, high);
    let m = census(input);
    let n = input.len();
    let bits = code_bits(q, start_high(low, high) as int, input);
    let code = packed(bits);
    let table = entries_of(m);
    let trailing = trailing_bits(bits.len()) as u8;
    let bytes = artifact(q, start_high(low, high) as int, input);
    lemma_auto_spec_u64_to_from_le_bytes();
    lemma_census(input);
    lemma_bit_accounting(bits);
    lemma_unpack_packed(bits);
    lemma_start(low, high);
    assert(model_of(table) =~= m) by {
        assert forall|i: int| 0 <= i < m.len() implies model_of(table)[i] == m[i] by {
            lemma_lower_monotonic(m, i + 1, m.len() as int);
        }
    }
    lemma_entries_bound(m, m.len() as int);
    // the stream is short enough for its length to be written down
    if n > 0 {
        lemma_run_len(p, q, c0, m, input, 0);
        assert(p * (n - 0) <= 32 * 0x4000_0000) by (nonlinear_arith)
            requires
                p <= 32,
                0 <= n <= 0x4000_0000,
        ;
    }
    assert(bits.len() <= 2 + 32 * 0x4000_0000);
    let len = bytes.len();
    assert(len == code.len() + 8 + 9 * table.len() + 8 + 1);
    assert(bytes.subrange(len - 9, len - 1) =~= spec_u64_to_le_bytes(code.len() as u64));
    assert(bytes[len - 1] == trailing);
    assert(trailer_of(bytes) == Ok::<(u64, u8), CodingError>((code.len() as u64, trailing)));
    assert(model_region(bytes, code.len() as u64) =~= table_bytes(table));
    lemma_parsed_table(table, table_bytes(table));
    assert(bytes.subrange(0, code.len() as int) =~= code);
}

/// Decoding what was coded gives the input back: for every input that
/// lies below the quarter of the register range and whose coding ends
/// well, the container exists, and decoding it between the same bounds
/// gives the input.
pub proof fn lemma_round_trip(input: Seq<u8>, low: u32, high: u32)
    requires
        bounds_ok(low, high),
        input.len() < quarter_of(low, high),
        ends_well(input, low, high),
    ensures
        encoded(input, low, high) is Ok,
        decoded(encoded(input, low, high)->Ok_0, low, high) == Ok::<Seq<u8>, CodingError>(input),
{
    let p = precision_of(low, high);
    let q = quarter_of(low, high);
    let bits = code_bits(q, start_high(low, high) as int, input);
    lemma_container_opens(input, low, high);
    lemma_start(low, high);
    lemma_census(input);
    if input.len() > 0 {
        assert(bits.subrange(0, bits.len() as int) =~= bits);
        lemma_agreement(p, q, start_of(low, high), census(input), input, 0, bits, 0);
        lemma_window_head(bits, 0, p as int);
        assert(input.subrange(0, input.len() as int) =~= input);
    } else {
        assert(input =~= Seq::<u8>::empty());
    }
}

/// Where coding does not end well, decoding what was coded does not give
/// the input back.
pub proof fn lemma_round_trip_needs_good_end(input: Seq<u8>, low: u32, high: u32)
    requires
        bounds_ok(low, high),
        input.len() < quarter_of(low, high),
        !ends_well(input, low, high),
    ensures
        encoded(input, low, high) is Ok,
        decoded(encoded(input, low, high)->Ok_0, low, high) != Ok::<Seq<u8>, CodingError>(input),
{
    let p = precision_of(low, high);
    let q = quarter_of(low, high);
    let bits = code_bits(q, start_high(low, high) as int, input);
    lemma_container_opens(input, low, high);
    lemma_start(low, high);
    lemma_census(input);
    assert(bits.subrange(0, bits.len() as int) =~= bits);
    lemma_agreement(p, q, start_of(low, high), census(input), input, 0, bits, 0);
    lemma_window_head(bits, 0, p as int);
    assert(input.subrange(0, input.len() as int) =~= input);
}

/// Decoding fails on the container alone: where coding starts from the
/// whole register range, as it does for bounds that are one less than a
/// power of two, every container with a good trailer and a valid table that
/// fits the registers is decoded, whatever its code region holds, to as
/// many bytes as its table counts.
pub proof fn lemma_decoder_succeeds(bytes: Seq<u8>, low: u32, high: u32)
    requires
        bounds_ok(low, high),
        start_high(low, high) == pow2(precision_of(low, high)) - 1,
        trailer_of(bytes) is Ok,
        parsed_table(model_region(bytes, (trailer_of(bytes)->Ok_0).0)) is Some,
        valid_table(parsed_table(model_region(bytes, (trailer_of(bytes)->Ok_0).0))->Some_0),
        total_of(
            model_of(parsed_table(model_region(bytes, (trailer_of(bytes)->Ok_0).0))->Some_0),
        ) < quarter_of(low, high),
    ensures
        decoded(bytes, low, high) is Ok,
        decoded(bytes, low, high)->Ok_0.len() == total_of(
            model_of(parsed_table(model_region(bytes, (trailer_of(bytes)->Ok_0).0))->Some_0),
        ),
{
    let p = precision_of(low, high);
    let q = quarter_of(low, high);
    let (code_len, trailing) = trailer_of(bytes)->Ok_0;
    let table = parsed_table(model_region(bytes, code_len))->Some_0;
    let s = unpacked(bytes.subrange(0, code_len as int), trailing as nat);
    lemma_start(low, high);
    lemma_by_byte(model_of(table));
    crate::bitseq::lemma_window_bound(s, 0, p as int);
    crate::coder::lemma_decoder_keeps_code(
        q,
        start_of(low, high),
        window(s, 0, p as int),
        by_byte(model_of(table)),
        s,
        p as int,
        total_of(model_of(table)),
    );
}

} // verus!
