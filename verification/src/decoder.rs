use vstd::prelude::*;
use vstd::arithmetic::power2::{lemma2_to64, lemma_pow2_strictly_increases, lemma_pow2_unfold};
use crate::bitpack::{BitSource, lemma_shift_in};
use crate::bitseq::{bit_at, lemma_window_bound, window};
use crate::coder::{
    Coder, code_after, code_half, code_middle, dec, in_range, lemma_dec_owing, lemma_dec_renorm,
    lemma_owing_same, lemma_rescaling_progress, lemma_target_bound, lemma_window_of_known, narrow,
    owing, renorm_state, rescalings, settled, shift_half, shift_middle, target, width,
};
use crate::coding::ArithmeticCoding;
use crate::error::CodingError;
use crate::registers::{lemma_code_half_bits, lemma_code_middle_bits};
use crate::symbols::{has_byte, in_window, lemma_windows_partition, window_of};

verus! {

/// Decoded bytes in front of what decoding gives from there on.
pub open spec fn after(
    done: Seq<u8>,
    rest: Result<Seq<u8>, CodingError>,
) -> Result<Seq<u8>, CodingError> {
    match rest {
        Ok(bytes) => Ok(done + bytes),
        Err(e) => Err(e),
    }
}

/// Decodes the code region of a container by its table.
pub struct ArithmeticDecoder {
    pub ac: ArithmeticCoding,
    /// The window of code bits that is held against the interval.
    pub code: u32,
    /// Where the code bits come from.
    pub source: BitSource,
    /// The bytes decoded so far.
    pub output: Vec<u8>,
}

impl ArithmeticDecoder {
    /// The registers as numbers.
    pub open spec fn state(&self) -> Coder {
        self.ac.registers(0)
    }

    /// The registers and the source are well formed, the table is frozen
    /// with a total below the quarter of the register range, and the code
    /// register fits the registers' width.
    pub open spec fn wf(&self, input: Seq<u8>) -> bool {
        &&& self.ac.wf()
        &&& self.ac.symbols.frozen
        &&& self.ac.symbols.total < self.ac.quarter()
        &&& self.source.wf(input)
        &&& self.code < 4 * self.ac.quarter()
    }

    /// The state that `new` gives for registers that are settled: no bit
    /// read, no byte decoded.
    pub open spec fn fresh(&self, input: Seq<u8>) -> bool {
        &&& self.wf(input)
        &&& settled(self.ac.quarter(), self.state())
        &&& self.code == 0
        &&& self.source.position == 0
        &&& self.output@ == Seq::<u8>::empty()
    }

    /// What decoding the code region of `input` gives: the code register
    /// takes the first bits of the stream, as many as a register has, and
    /// then as many symbols are decoded as the table counts.
    pub open spec fn decoded(&self, input: Seq<u8>) -> Result<Seq<u8>, CodingError> {
        let s = self.source.stream(input);
        dec(
            self.ac.quarter(),
            self.state(),
            window(s, 0, self.ac.precision as int),
            self.ac.symbols@,
            s,
            self.ac.precision as int,
            self.ac.symbols.total as nat,
        )
    }

    /// A decoder for a code region of `value_count` words, of whose last
    /// word `last_value_shifts` bits are in use.
    pub fn new(ac: ArithmeticCoding, value_count: u64, last_value_shifts: u32) -> (r: Self)
        ensures
            r.ac == ac,
            r.code == 0,
            r.source.value == 0,
            r.source.value_count == value_count,
            r.source.last_value_shifts == last_value_shifts,
            r.source.position == 0,
            r.output@ == Seq::<u8>::empty(),
    {
        let code: u32 = 0;
        let source = BitSource::new(value_count, last_value_shifts);
        Self { ac, code, source, output: Vec::new() }
    }

    /// Decodes as many symbols as the table counts into the output. The
    /// code region is read from the start of `input`.
    pub fn decode(&mut self, input: &Vec<u8>) -> (r: Result<(), CodingError>)
        requires
            old(self).fresh(input@),
        ensures
            match old(self).decoded(input@) {
                Ok(bytes) => r is Ok && final(self).output@ == bytes,
                Err(e) => r == Err::<(), CodingError>(e),
            },
    {
        let ghost q = self.ac.quarter();
        let ghost m = self.ac.symbols@;
        let ghost s = self.source.stream(input@);
        let ghost start = self.state();
        let precision = self.ac.precision;
        proof {
            self.ac.lemma_masks_values();
            lemma2_to64();
            lemma_pow2_unfold(precision as nat);
            lemma_pow2_unfold((precision - 1) as nat);
        }
        let mut filled: u32 = 0;
        while filled < precision
            invariant
                filled <= precision <= 32,
                self.ac == old(self).ac,
                self.source.wf(input@),
                self.source.stream(input@) == s,
                self.source.position == filled,
                self.output@ == Seq::<u8>::empty(),
                self.code == window(s, 0, filled as int),
            decreases precision - filled,
        {
            let bit = self.source.get_bit_from_value(input);
            proof {
                lemma_window_bound(s, 0, filled as int);
                if filled < 31 {
                    lemma_pow2_strictly_increases(filled as nat, 31);
                }
                lemma2_to64();
                lemma_shift_in(self.code, bit);
            }
            self.code = (self.code << 1) | bit;
            filled += 1;
        }
        proof {
            lemma_window_bound(s, 0, precision as int);
        }
        let ghost first = self.code as int;
        let total = self.ac.symbols.total;
        let mut count: u64 = 0;
        while count < total
            invariant
                count <= total,
                total == self.ac.symbols.total,
                old(self).decoded(input@) == dec(
                    q,
                    start,
                    first,
                    m,
                    s,
                    precision as int,
                    total as nat,
                ),
                total < q,
                q <= 0x4000_0000,
                self.wf(input@),
                settled(q, self.state()),
                self.ac.quarter() == q,
                self.ac.precision == precision,
                self.ac.symbols@ == m,
                self.source.stream(input@) == s,
                self.source.position <= precision + 32 * count,
                after(
                    self.output@,
                    dec(
                        q,
                        self.state(),
                        self.code as int,
                        m,
                        s,
                        self.source.position as int,
                        (total - count) as nat,
                    ),
                ) == dec(q, start, first, m, s, precision as int, total as nat),
            decreases total - count,
        {
            let low = self.ac.low;
            let high = self.ac.high;
            if self.code < low || self.code > high {
                assert(dec(
                    q,
                    self.state(),
                    self.code as int,
                    m,
                    s,
                    self.source.position as int,
                    (total - count) as nat,
                ) == Err::<Seq<u8>, CodingError>(CodingError::Corrupt));
                return Err(CodingError::Corrupt);
            }
            let range: u64 = (high - low) as u64 + 1;
            let offset: u64 = (self.code - low) as u64;
            proof {
                assert((offset + 1) * total <= 0x1_0000_0000 * 0x4000_0000) by (nonlinear_arith)
                    requires
                        offset + 1 <= 0x1_0000_0000,
                        total <= 0x4000_0000,
                ;
                assert((offset + 1) * total >= 1) by (nonlinear_arith)
                    requires
                        offset + 1 >= 1,
                        total >= 1,
                ;
                lemma_target_bound(self.state(), self.code as int, total as nat);
            }
            let value: u64 = ((offset + 1) * total - 1) / range;
            assert(value == target(self.state(), self.code as int, total as nat));
            let symbol = match self.ac.symbols.get_symbol_by_value(value) {
                Ok(symbol) => symbol,
                Err(e) => {
                    return Err(e);
                },
            };
            let ghost c = self.state();
            let ghost w = window_of(m, symbol);
            let ghost c1 = narrow(c, w.0, w.1, total as nat);
            let ghost done = self.output@;
            let ghost pos = self.source.position as int;
            let ghost rest = dec(q, c1, self.code as int, m, s, pos, (total - count - 1) as nat);
            proof {
                lemma_windows_partition(m, value as nat);
                let i = choose|i: int| in_window(m, i, value as nat);
                assert(m[i].0 == symbol);
                assert(has_byte(m, symbol));
                lemma_window_of_known(m, symbol);
                crate::coder::lemma_narrow_inside(q, c, w.0, w.1, total as nat);
                lemma_dec_renorm(q, c1, self.code as int, m, s, pos, (total - count - 1) as nat);
                lemma_rescaling_progress(precision as nat, q, c1);
            }
            self.write_decoded_symbol(symbol);
            match self.update(symbol, input) {
                Ok(_) => {},
                Err(e) => {
                    return Err(e);
                },
            }
            proof {
                lemma_dec_owing(
                    q,
                    renorm_state(q, c1),
                    0,
                    self.code as int,
                    m,
                    s,
                    self.source.position as int,
                    (total - count - 1) as nat,
                );
                assert(owing(renorm_state(q, c1), 0) == self.state());
                assert(after(done.push(symbol), rest) == after(
                    done,
                    match rest {
                        Ok(bytes) => Ok(seq![symbol] + bytes),
                        Err(e) => Err(e),
                    },
                )) by {
                    if let Ok(bytes) = rest {
                        assert(done.push(symbol) + bytes =~= done + (seq![symbol] + bytes));
                    }
                }
            }
            count += 1;
        }
        proof {
            assert(self.output@ + Seq::<u8>::empty() =~= self.output@);
        }
        Ok(())
    }

    /// Follows the encoder for one decoded symbol: narrows the interval to
    /// the symbol's window, and rescales as the encoder does, taking one more
    /// code bit into the code register with each step. A symbol without an
    /// entry is refused and changes nothing. A code register that lies in
    /// the narrowed interval lies in the interval in the end.
    pub fn update(&mut self, symbol: u8, input: &Vec<u8>) -> (r: Result<(), CodingError>)
        requires
            old(self).wf(input@),
            settled(old(self).ac.quarter(), old(self).state()),
            old(self).source.position <= u64::MAX - 32,
        ensures
            final(self).ac.symbols == old(self).ac.symbols,
            final(self).ac.precision == old(self).ac.precision,
            final(self).output == old(self).output,
            final(self).source.stream(input@) == old(self).source.stream(input@),
            match r {
                Ok(_) => {
                    let q = old(self).ac.quarter();
                    let s = old(self).source.stream(input@);
                    let w = window_of(old(self).ac.symbols@, symbol);
                    let c = narrow(old(self).state(), w.0, w.1, old(self).ac.symbols.total as nat);
                    &&& has_byte(old(self).ac.symbols@, symbol)
                    &&& final(self).wf(input@)
                    &&& settled(q, final(self).state())
                    &&& final(self).ac.low < final(self).ac.high
                    &&& final(self).ac.low == renorm_state(q, c).low
                    &&& final(self).ac.high == renorm_state(q, c).high
                    &&& final(self).code == code_after(
                        q,
                        c,
                        old(self).code as int,
                        s,
                        old(self).source.position as int,
                    )
                    &&& final(self).source.position == old(self).source.position + rescalings(q, c)
                    &&& rescalings(q, c) <= old(self).ac.precision
                    &&& c.low <= old(self).code <= c.high ==> final(self).ac.low <= final(self).code
                        <= final(self).ac.high
                },
                Err(e) => e == CodingError::UnknownSymbol && !has_byte(
                    old(self).ac.symbols@,
                    symbol,
                ) && *final(self) == *old(self),
            },
    {
        let (low_of_symbol, high_of_symbol) = match self.ac.symbols.get_low_and_high(symbol) {
            Ok(window) => window,
            Err(e) => {
                return Err(e);
            },
        };
        let ghost q = self.ac.quarter();
        let ghost s = self.source.stream(input@);
        proof {
            lemma_window_of_known(self.ac.symbols@, symbol);
        }
        self.ac.narrow_to(low_of_symbol, high_of_symbol);
        let ghost c = self.state();
        let ghost code = self.code as int;
        let ghost pos = self.source.position as int;
        proof {
            lemma_rescaling_progress(self.ac.precision as nat, q, c);
            lemma_dec_renorm(q, c, code, self.ac.symbols@, s, pos, 0);
        }
        loop
            invariant
                self.wf(input@),
                self.ac.quarter() == q,
                self.ac.symbols == old(self).ac.symbols,
                self.ac.precision == old(self).ac.precision,
                self.output == old(self).output,
                self.source.stream(input@) == s,
                in_range(q, self.state()),
                renorm_state(q, self.state()).low == renorm_state(q, c).low,
                renorm_state(q, self.state()).high == renorm_state(q, c).high,
                code_after(q, self.state(), self.code as int, s, self.source.position as int)
                    == code_after(q, c, code, s, pos),
                self.source.position + rescalings(q, self.state()) == pos + rescalings(q, c),
                rescalings(q, c) <= 32,
                pos <= u64::MAX - 32,
            ensures
                self.wf(input@),
                self.ac.symbols == old(self).ac.symbols,
                self.ac.precision == old(self).ac.precision,
                self.output == old(self).output,
                self.source.stream(input@) == s,
                settled(q, self.state()),
                self.ac.low == renorm_state(q, c).low,
                self.ac.high == renorm_state(q, c).high,
                self.code == code_after(q, c, code, s, pos),
                self.source.position == pos + rescalings(q, c),
            decreases 4 * q - width(self.state()),
        {
            let ghost before = self.state();
            if self.ac.can_shift() {
                self.shift(input);
                self.ac.shift_registers();
                proof {
                    assert(self.state() == shift_half(q, before));
                }
            } else if self.ac.can_underflow() {
                self.underflow(input);
                self.ac.underflow_registers();
                proof {
                    assert(self.state() == owing(shift_middle(q, before), 0));
                    lemma_owing_same(
                        q,
                        shift_middle(q, before),
                        self.code as int,
                        s,
                        self.source.position as int,
                    );
                }
            } else {
                break ;
            }
        }
        Ok(())
    }

    /// Takes the next code bit in at the bottom of the code register, whose
    /// top bit leaves.
    fn shift(&mut self, input: &Vec<u8>)
        requires
            old(self).wf(input@),
            old(self).source.position < u64::MAX,
        ensures
            final(self).wf(input@),
            final(self).ac == old(self).ac,
            final(self).output == old(self).output,
            final(self).source.stream(input@) == old(self).source.stream(input@),
            final(self).source.position == old(self).source.position + 1,
            final(self).code == code_half(
                old(self).ac.quarter(),
                old(self).code as int,
                bit_at(old(self).source.stream(input@), old(self).source.position as int),
            ),
    {
        let bit = self.source.get_bit_from_value(input);
        let full_mask = self.ac.full_mask();
        proof {
            self.ac.lemma_masks_values();
            let n = (self.ac.precision - 1) as u32;
            lemma_code_half_bits(self.code, bit, n, 1u32 << n, full_mask);
        }
        self.code = ((self.code << 1) & full_mask) | bit;
    }

    /// Takes the next code bit in at the bottom of the code register, whose
    /// second bit leaves while its top bit stays.
    fn underflow(&mut self, input: &Vec<u8>)
        requires
            old(self).wf(input@),
            old(self).source.position < u64::MAX,
        ensures
            final(self).wf(input@),
            final(self).ac == old(self).ac,
            final(self).output == old(self).output,
            final(self).source.stream(input@) == old(self).source.stream(input@),
            final(self).source.position == old(self).source.position + 1,
            final(self).code == code_middle(
                old(self).ac.quarter(),
                old(self).code as int,
                bit_at(old(self).source.stream(input@), old(self).source.position as int),
            ),
    {
        let bit = self.source.get_bit_from_value(input);
        let full_bit = self.ac.full_bit();
        let half_mask = self.ac.half_mask();
        proof {
            self.ac.lemma_masks_values();
            let n = (self.ac.precision - 1) as u32;
            lemma_code_middle_bits(
                self.code,
                bit,
                n,
                full_bit,
                1u32 << ((n - 1) as u32),
                half_mask,
                u32::MAX >> ((31 - n) as u32),
            );
        }
        self.code = (self.code & full_bit) | ((self.code << 1) & half_mask) | bit;
    }

    /// Puts a decoded symbol behind the output.
    fn write_decoded_symbol(&mut self, symbol: u8)
        ensures
            final(self).output@ == old(self).output@.push(symbol),
            final(self).ac == old(self).ac,
            final(self).code == old(self).code,
            final(self).source == old(self).source,
    {
        self.output.push(symbol);
    }
}

} // verus!
