use vstd::prelude::*;
use crate::bitpack::{BitSink, packed, trailing_bits};
use crate::coder::{
    Coder, emit, in_range, last_state, lemma_rescaling_progress, lemma_run_renorm,
    lemma_window_of_known, narrow, owing, renorm_bits, renorm_state, rescalings, run, settled,
    shift_half, shift_middle,
};
use crate::coding::{ArithmeticCoding, precision_of, start_high};
use crate::container::{container_bytes, write_container};
use crate::error::CodingError;
use crate::symbols::{census, has_byte, lemma_census, tally, total_of, window_of};

verus! {

/// The bits that coding `input` sends, with registers of quarter `q` that
/// start at `[0, high]`. An empty input sends nothing.
pub open spec fn code_bits(q: int, high: int, input: Seq<u8>) -> Seq<bool> {
    if input.len() == 0 {
        Seq::empty()
    } else {
        run(q, Coder { low: 0, high, pending: 0 }, census(input), input, 0)
    }
}

/// The entries of a table with counts of sixty-four bits.
pub open spec fn entries_of(m: Seq<(u8, nat)>) -> Seq<(u8, u64)> {
    m.map_values(|e: (u8, nat)| (e.0, e.1 as u64))
}

/// The container that coding `input` gives.
pub open spec fn artifact(q: int, high: int, input: Seq<u8>) -> Seq<u8> {
    let bits = code_bits(q, high, input);
    container_bytes(packed(bits), entries_of(census(input)), trailing_bits(bits.len()) as u8)
}

/// Codes an input into a container.
pub struct ArithmeticEncoder {
    pub ac: ArithmeticCoding,
    /// Number of rescalings across the middle whose bit is still owed.
    pub underflow_count: u64,
    /// Where the bits go; in the end its output is the container.
    pub sink: BitSink,
}

impl ArithmeticEncoder {
    /// The registers and the count of owed bits as numbers.
    pub open spec fn state(&self) -> Coder {
        self.ac.registers(self.underflow_count as nat)
    }

    /// The registers and the sink are well formed.
    pub open spec fn wf(&self) -> bool {
        self.ac.wf() && self.sink.wf()
    }

    /// The state in which symbols are coded: the table is frozen and its
    /// total lies below the quarter of the register range.
    pub open spec fn ready(&self) -> bool {
        &&& self.wf()
        &&& self.ac.symbols.frozen
        &&& self.ac.symbols.total < self.ac.quarter()
    }

    /// The state that `new` gives: nothing observed, nothing sent.
    pub open spec fn fresh(&self) -> bool {
        &&& self.wf()
        &&& self.ac.symbols@ == Seq::<(u8, nat)>::empty()
        &&& !self.ac.symbols.frozen
        &&& self.ac.low == 0
        &&& settled(self.ac.quarter(), self.state())
        &&& self.underflow_count == 0
        &&& self.sink@ == Seq::<bool>::empty()
    }

    /// An encoder for the bounds `low` and `high`, which are refused as
    /// `ArithmeticCoding::new` refuses them.
    pub fn new(low: u32, high: u32) -> (r: Result<Self, CodingError>)
        ensures
            match r {
                Ok(encoder) => {
                    &&& low < high
                    &&& precision_of(low, high) >= 4
                    &&& encoder.fresh()
                    &&& encoder.ac.precision == precision_of(low, high)
                    &&& encoder.ac.high == start_high(low, high)
                },
                Err(e) => e == CodingError::BadPrecision && (low >= high || precision_of(low, high)
                    < 4),
            },
    {
        match ArithmeticCoding::new(low, high) {
            Ok(ac) => {
                let underflow_count: u64 = 0;
                Ok(Self { ac, underflow_count, sink: BitSink::new() })
            },
            Err(e) => Err(e),
        }
    }

    /// Tells whether an input of `file_len` bytes fits the precision: its
    /// length has to lie below the quarter of the register range.
    pub fn verify_file_len(&self, file_len: u64) -> (r: Result<(), CodingError>)
        requires
            4 <= self.ac.precision <= 32,
        ensures
            match r {
                Ok(_) => file_len < self.ac.quarter(),
                Err(e) => e == CodingError::InputTooLarge && file_len >= self.ac.quarter(),
            },
    {
        if file_len >= self.ac.half_bit() as u64 {
            Err(CodingError::InputTooLarge)
        } else {
            Ok(())
        }
    }

    /// Gathers the table of the input and freezes it in order of the bytes.
    fn generate_table(&mut self, input: &Vec<u8>)
        requires
            old(self).fresh(),
        ensures
            final(self).ac.symbols@ == census(input@),
            final(self).ac.symbols.total == input@.len(),
            final(self).ac.symbols.wf(),
            final(self).ac.symbols.frozen,
            final(self).ac.low == old(self).ac.low,
            final(self).ac.high == old(self).ac.high,
            final(self).ac.precision == old(self).ac.precision,
            final(self).underflow_count == old(self).underflow_count,
            final(self).sink == old(self).sink,
            final(self).wf(),
    {
        let mut i: usize = 0;
        assert(input@.take(0) =~= Seq::<u8>::empty());
        while i < input.len()
            invariant
                i <= input@.len(),
                self.ac.symbols.wf(),
                !self.ac.symbols.frozen,
                self.ac.symbols@ == tally(input@.take(i as int)),
                self.ac.symbols.total == i,
                self.ac.low == old(self).ac.low,
                self.ac.high == old(self).ac.high,
                self.ac.precision == old(self).ac.precision,
                self.underflow_count == old(self).underflow_count,
                self.sink == old(self).sink,
            decreases input@.len() - i,
        {
            proof {
                let next = input@.take(i as int + 1);
                assert(next.drop_last() =~= input@.take(i as int));
                assert(next.last() == input@[i as int]);
            }
            self.ac.symbols.add_symbol(input[i]);
            i += 1;
        }
        assert(input@.take(i as int) =~= input@);
        self.ac.symbols.calculate_accumulated_frequency();
    }

    /// Codes one symbol: narrows the interval to the symbol's window, and
    /// rescales while the ends share their top bit, whose bit is sent, or
    /// straddle the middle, whose bit is owed. A symbol without an entry
    /// is refused and changes nothing.
    pub fn update(&mut self, symbol: u8) -> (r: Result<(), CodingError>)
        requires
            old(self).ready(),
            settled(old(self).ac.quarter(), old(self).state()),
            old(self).underflow_count <= u64::MAX - 32,
        ensures
            final(self).ac.symbols == old(self).ac.symbols,
            final(self).ac.precision == old(self).ac.precision,
            match r {
                Ok(_) => {
                    let q = old(self).ac.quarter();
                    let w = window_of(old(self).ac.symbols@, symbol);
                    let c = narrow(old(self).state(), w.0, w.1, old(self).ac.symbols.total as nat);
                    &&& has_byte(old(self).ac.symbols@, symbol)
                    &&& final(self).ready()
                    &&& settled(q, final(self).state())
                    &&& final(self).ac.low < final(self).ac.high
                    &&& final(self).state() == renorm_state(q, c)
                    &&& final(self).sink@ == old(self).sink@ + renorm_bits(q, c)
                    &&& rescalings(q, c) <= old(self).ac.precision
                    &&& final(self).underflow_count <= old(self).underflow_count + rescalings(q, c)
                },
                Err(e) => e == CodingError::UnknownSymbol && !has_byte(
                    old(self).ac.symbols@,
                    symbol,
                ) && *final(self) == *old(self),
            },
    {
        let (low_of_symbol, high_of_symbol) = match self.ac.symbols.get_low_and_high(symbol) {
            Ok(window) => window,
            Err(e) => {
                return Err(e);
            },
        };
        let ghost q = self.ac.quarter();
        proof {
            lemma_window_of_known(self.ac.symbols@, symbol);
        }
        self.ac.narrow_to(low_of_symbol, high_of_symbol);
        let ghost c = self.state();
        let ghost sent = self.sink@;
        proof {
            lemma_rescaling_progress(self.ac.precision as nat, q, c);
        }
        loop
            invariant
                self.wf(),
                self.ac.quarter() == q,
                self.ac.symbols == old(self).ac.symbols,
                self.ac.precision == old(self).ac.precision,
                in_range(q, self.state()),
                renorm_state(q, self.state()) == renorm_state(q, c),
                self.sink@ + renorm_bits(q, self.state()) == sent + renorm_bits(q, c),
                self.underflow_count + rescalings(q, self.state()) <= c.pending + rescalings(q, c),
                rescalings(q, c) <= 32,
                c.pending <= u64::MAX - 32,
            ensures
                self.wf(),
                self.ac.symbols == old(self).ac.symbols,
                self.ac.precision == old(self).ac.precision,
                settled(q, self.state()),
                self.state() == renorm_state(q, c),
                self.sink@ == sent + renorm_bits(q, c),
                self.underflow_count <= c.pending + rescalings(q, c),
            decreases 4 * q - crate::coder::width(self.state()),
        {
            let ghost before = self.state();
            let ghost bits = self.sink@;
            if self.ac.can_shift() {
                self.shift();
                self.ac.shift_registers();
                proof {
                    assert(self.state() == shift_half(q, before));
                    assert(self.sink@ + renorm_bits(q, self.state()) =~= bits + renorm_bits(
                        q,
                        before,
                    ));
                }
            } else if self.ac.can_underflow() {
                self.underflow();
                self.ac.underflow_registers();
                proof {
                    assert(self.state() == shift_middle(q, before));
                }
            } else {
                proof {
                    assert(renorm_bits(q, before) =~= Seq::<bool>::empty());
                    assert(self.sink@ =~= sent + renorm_bits(q, c));
                }
                break ;
            }
        }
        Ok(())
    }

    /// Sends the top bit of `low`, and behind it the owed bits, which are
    /// its complement.
    fn shift(&mut self)
        requires
            old(self).wf(),
        ensures
            final(self).wf(),
            final(self).ac == old(self).ac,
            final(self).underflow_count == 0,
            final(self).sink@ == old(self).sink@ + emit(
                old(self).ac.low >= 2 * old(self).ac.quarter(),
                old(self).underflow_count as nat,
            ),
    {
        let bit: u32 = if self.ac.low >= self.ac.full_bit() {
            1
        } else {
            0
        };
        self.sink.add_bit_to_value(bit);
        let underflow_bit: u32 = 1 - bit;
        let mut sent: u64 = 0;
        assert(self.sink@ =~= old(self).sink@ + emit(bit == 1, 0));
        while sent < self.underflow_count
            invariant
                self.sink.wf(),
                self.ac == old(self).ac,
                self.underflow_count == old(self).underflow_count,
                sent <= self.underflow_count,
                underflow_bit == 1 - bit,
                bit <= 1,
                self.sink@ == old(self).sink@ + emit(bit == 1, sent as nat),
            decreases self.underflow_count - sent,
        {
            self.sink.add_bit_to_value(underflow_bit);
            assert(emit(bit == 1, sent as nat).push(underflow_bit == 1) =~= emit(
                bit == 1,
                (sent + 1) as nat,
            ));
            assert(self.sink@ =~= old(self).sink@ + emit(bit == 1, (sent + 1) as nat));
            sent += 1;
        }
        self.underflow_count = 0;
    }

    /// Owes one more bit.
    fn underflow(&mut self)
        requires
            old(self).underflow_count < u64::MAX,
        ensures
            final(self).underflow_count == old(self).underflow_count + 1,
            final(self).ac == old(self).ac,
            final(self).sink == old(self).sink,
    {
        self.underflow_count += 1;
    }

    /// Ends the code region and makes the container of it: behind the code
    /// words go the table, the length of the code region and the number of
    /// bits in use in its last word.
    fn finish(&mut self) -> (r: Result<(), CodingError>)
        requires
            old(self).wf(),
        ensures
            final(self).ac == old(self).ac,
            final(self).underflow_count == old(self).underflow_count,
            r is Ok,
            final(self).sink.output@ == container_bytes(
                packed(old(self).sink@),
                old(self).ac.symbols.table@,
                trailing_bits(old(self).sink@.len()) as u8,
            ),
    {
        let trailing = self.sink.finish();
        write_container(&mut self.sink.output, trailing, &self.ac.symbols.table)
    }

    /// Codes `input` into a container, which is then the sink's output: the
    /// table is gathered in a first pass and frozen in order of the bytes,
    /// the symbols are coded in a second, and a last bit with one complement
    /// more than is owed ends the code of an input that is not empty. Every
    /// input that lies below the quarter of the register range is coded; any
    /// other is refused.
    pub fn encode(&mut self, input: &Vec<u8>) -> (r: Result<(), CodingError>)
        requires
            old(self).fresh(),
        ensures
            match r {
                Ok(_) => {
                    &&& input@.len() < old(self).ac.quarter()
                    &&& final(self).sink.output@ == artifact(
                        old(self).ac.quarter(),
                        old(self).ac.high as int,
                        input@,
                    )
                    &&& final(self).ac.symbols@ == census(input@)
                    &&& final(self).ac.precision == old(self).ac.precision
                    &&& final(self).ac.registers(0) == owing(
                        last_state(
                            old(self).ac.quarter(),
                            old(self).state(),
                            census(input@),
                            input@,
                            0,
                        ),
                        0,
                    )
                },
                Err(e) => e == CodingError::InputTooLarge && input@.len() >= old(
                    self,
                ).ac.quarter(),
            },
    {
        let ghost q = self.ac.quarter();
        let ghost start = self.state();
        let ghost m = census(input@);
        match self.verify_file_len(input.len() as u64) {
            Ok(_) => {},
            Err(e) => {
                return Err(e);
            },
        }
        self.generate_table(input);
        proof {
            lemma_census(input@);
            self.ac.lemma_masks_values();
        }
        let mut i: usize = 0;
        while i < input.len()
            invariant
                i <= input@.len(),
                input@.len() < q,
                q <= 0x4000_0000,
                self.ready(),
                self.ac.quarter() == q,
                self.ac.symbols@ == m,
                m == census(input@),
                self.ac.symbols.total == input@.len(),
                forall|j: int| 0 <= j < input@.len() ==> has_byte(m, #[trigger] input@[j]),
                settled(q, self.state()),
                self.underflow_count <= 32 * i,
                self.ac.precision == old(self).ac.precision,
                last_state(q, self.state(), m, input@, i as int) == last_state(
                    q,
                    start,
                    m,
                    input@,
                    0,
                ),
                self.sink@ + run(q, self.state(), m, input@, i as int) == run(
                    q,
                    start,
                    m,
                    input@,
                    0,
                ),
            decreases input@.len() - i,
        {
            let ghost before = self.state();
            let ghost sent = self.sink@;
            match self.update(input[i]) {
                Ok(_) => {},
                Err(e) => {
                    return Err(e);
                },
            }
            proof {
                let w = window_of(m, input@[i as int]);
                let c = narrow(before, w.0, w.1, total_of(m));
                lemma_window_of_known(m, input@[i as int]);
                crate::coder::lemma_narrow_inside(q, before, w.0, w.1, total_of(m));
                lemma_run_renorm(q, c, m, input@, i as int + 1);
                assert(run(q, before, m, input@, i as int) == run(q, c, m, input@, i as int + 1));
                assert(last_state(q, before, m, input@, i as int) == last_state(
                    q,
                    c,
                    m,
                    input@,
                    i as int + 1,
                ));
                assert(self.sink@ + run(q, self.state(), m, input@, i as int + 1) =~= sent + run(
                    q,
                    before,
                    m,
                    input@,
                    i as int,
                ));
            }
            i += 1;
        }
        let ghost end = self.state();
        assert(last_state(q, end, m, input@, i as int) == end);
        if input.len() > 0 {
            let ghost sent = self.sink@;
            let ghost last = self.state();
            self.underflow();
            self.shift();
            proof {
                assert(run(q, last, m, input@, i as int) == emit(
                    last.low >= 2 * q,
                    last.pending + 1,
                ));
            }
        } else {
            assert(self.sink@ =~= Seq::<bool>::empty());
        }
        proof {
            assert(self.sink@ == code_bits(q, start.high, input@));
            assert(self.ac.symbols.table@ =~= entries_of(m));
        }
        self.finish()
    }
}

} // verus!
