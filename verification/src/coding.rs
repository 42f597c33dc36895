use vstd::prelude::*;
use vstd::arithmetic::power2::{
    lemma2_to64, lemma_pow2_pos, lemma_pow2_strictly_increases, lemma_pow2_unfold, pow2,
};
use vstd::bits::{lemma_u32_shl_is_mul, lemma_u32_shr_is_div};
use crate::coder::{
    Coder, lemma_div_floor, lemma_narrow_inside, narrow, same_half, settled, shift_half,
    shift_middle, straddles, width,
};
use crate::error::CodingError;
use crate::registers::{
    lemma_masks, lemma_same_half_bits, lemma_shift_half_bits, lemma_shift_middle_bits,
    lemma_straddles_bits,
};
use crate::symbols::Symbols;

verus! {

/// What the program is asked to do with a file.
#[derive(Debug, Clone)]
pub enum Operation {
    Decode,
    Encode,
}

/// Number of bits that it takes to write `x`.
pub open spec fn bit_length(x: nat) -> nat
    decreases x,
{
    if x == 0 {
        0
    } else {
        1 + bit_length(x / 2)
    }
}

/// `x` takes its bit length and no less: it lies in `[2^(n-1), 2^n)`.
pub proof fn lemma_bit_length(x: nat)
    ensures
        x < pow2(bit_length(x)),
        x > 0 ==> pow2((bit_length(x) - 1) as nat) <= x,
    decreases x,
{
    if x == 0 {
        lemma_pow2_pos(0);
    } else {
        lemma_bit_length(x / 2);
        lemma_pow2_unfold(bit_length(x));
        if x / 2 > 0 {
            lemma_pow2_unfold((bit_length(x) - 1) as nat);
        } else {
            lemma2_to64();
        }
    }
}

/// A number below `2^n` takes at most `n` bits.
pub proof fn lemma_bit_length_below(x: nat, n: nat)
    requires
        x < pow2(n),
    ensures
        bit_length(x) <= n,
    decreases x,
{
    if x > 0 {
        if n == 0 {
            lemma2_to64();
        } else {
            lemma_pow2_unfold(n);
            lemma_bit_length_below(x / 2, (n - 1) as nat);
        }
    }
}

/// The upper bound that coding starts from: `high` without as many of its
/// low bits as `low` has bits.
pub open spec fn start_high(low: u32, high: u32) -> nat {
    high as nat / pow2(bit_length(low as nat))
}

/// The register width that the bounds `low` and `high` ask for.
pub open spec fn precision_of(low: u32, high: u32) -> nat {
    bit_length(start_high(low, high))
}

/// Whether `number` is one less than a power of two, from `2^0` to `2^32`.
pub open spec fn gp2_minus_one(number: u32) -> bool {
    exists|k: nat| k <= 32 && number == #[trigger] pow2(k) - 1
}

/// The bit length of `x` is the one `n` with `x` in `[2^(n-1), 2^n)`.
pub proof fn lemma_bit_length_is(x: nat, n: nat)
    requires
        x < pow2(n),
        n > 0 ==> pow2((n - 1) as nat) <= x,
    ensures
        bit_length(x) == n,
{
    let b = bit_length(x);
    lemma_bit_length(x);
    lemma_pow2_pos(0);
    lemma2_to64();
    if b < n {
        if b < n - 1 {
            lemma_pow2_strictly_increases(b, (n - 1) as nat);
        }
    } else if b > n {
        if n < b - 1 {
            lemma_pow2_strictly_increases(n, (b - 1) as nat);
        }
    }
}

/// Bounds that are both one less than a power of two make registers that
/// start with all their bits set: coding starts from the whole range.
pub proof fn lemma_validated_bounds(low: u32, high: u32)
    requires
        gp2_minus_one(low),
        gp2_minus_one(high),
        low < high,
    ensures
        start_high(low, high) == pow2(precision_of(low, high)) - 1,
        precision_of(low, high) >= 1,
{
    let j = choose|k: nat| k <= 32 && low == #[trigger] pow2(k) - 1;
    let k = choose|k: nat| k <= 32 && high == #[trigger] pow2(k) - 1;
    lemma_pow2_pos(j);
    lemma_pow2_pos(k);
    if k <= j {
        if k < j {
            lemma_pow2_strictly_increases(k, j);
        }
    }
    assert(j < k);
    let d = (k - j) as nat;
    if j > 0 {
        lemma_pow2_unfold(j);
        lemma_pow2_pos((j - 1) as nat);
    }
    lemma_bit_length_is(low as nat, j);
    vstd::arithmetic::power2::lemma_pow2_adds(j, d);
    lemma_pow2_pos(d);
    let a = pow2(j) as int;
    let b = pow2(d) as int;
    assert(high as int == (b - 1) * a + (a - 1)) by (nonlinear_arith)
        requires
            high as int == a * b - 1,
    ;
    vstd::arithmetic::div_mod::lemma_fundamental_div_mod_converse(
        high as int,
        a,
        b - 1,
        a - 1,
    );
    assert(start_high(low, high) == b - 1);
    lemma_pow2_unfold(d);
    lemma_pow2_pos((d - 1) as nat);
    lemma_bit_length_is((b - 1) as nat, d);
}

/// Tells whether `number` is one less than a power of two.
pub fn verify_gp2_minus_one(number: u32) -> (r: bool)
    ensures
        r == gp2_minus_one(number),
{
    let wide = number as u64;
    let mut gp: u64 = 1;
    let mut k: u32 = 0;
    proof {
        lemma2_to64();
        lemma_pow2_unfold(33);
    }
    while k <= 32
        invariant
            k <= 33,
            wide == number,
            gp == pow2(k as nat),
            1 <= gp <= 0x2_0000_0000,
            pow2(33) == 0x2_0000_0000,
            forall|j: nat| j < k ==> number != #[trigger] pow2(j) - 1,
        decreases 33 - k,
    {
        if wide == gp - 1 {
            assert(number == pow2(k as nat) - 1);
            return true;
        }
        proof {
            lemma_pow2_unfold((k + 1) as nat);
            if k < 32 {
                lemma_pow2_strictly_increases((k + 1) as nat, 33);
            }
        }
        gp = gp * 2;
        k += 1;
    }
    false
}

/// Counts the bits that it takes to write `x`.
fn bits_of(x: u32) -> (n: u32)
    ensures
        n == bit_length(x as nat),
        n <= 32,
{
    let mut v: u32 = x;
    let mut n: u32 = 0;
    proof {
        lemma2_to64();
        lemma_bit_length_below(x as nat, 32);
    }
    while v > 0
        invariant
            bit_length(v as nat) + n == bit_length(x as nat),
            bit_length(x as nat) <= 32,
        decreases v,
    {
        v = v / 2;
        n += 1;
    }
    n
}

/// The registers of the coder, their width, and the table that is coded by.
#[derive(Debug, Clone)]
pub struct ArithmeticCoding {
    pub low: u32,
    pub high: u32,
    pub precision: u32,
    pub symbols: Symbols,
}

impl ArithmeticCoding {
    /// A quarter of the register range, `2^(precision - 2)`.
    pub open spec fn quarter(&self) -> int {
        pow2((self.precision - 2) as nat) as int
    }

    /// The registers as numbers, with `pending` bits owed.
    pub open spec fn registers(&self, pending: nat) -> Coder {
        Coder { low: self.low as int, high: self.high as int, pending }
    }

    /// The precision lies between four and 32 bits, the interval is not
    /// empty and fits the registers, and the table is well formed.
    pub open spec fn wf(&self) -> bool {
        &&& 4 <= self.precision <= 32
        &&& self.low <= self.high
        &&& self.high < 4 * self.quarter()
        &&& self.symbols.wf()
    }

    /// Registers for coding between `low` and `high`: `low` becomes zero,
    /// `high` loses as many bits as `low` had, and the precision is the
    /// number of bits that `high` then takes. Fewer than four bits are
    /// refused, and so is a `low` that is not below `high`.
    pub fn new(low: u32, high: u32) -> (r: Result<Self, CodingError>)
        ensures
            match r {
                Ok(ac) => {
                    &&& low < high
                    &&& precision_of(low, high) >= 4
                    &&& ac.low == 0
                    &&& ac.high == start_high(low, high)
                    &&& ac.precision == precision_of(low, high)
                    &&& ac.symbols@ == Seq::<(u8, nat)>::empty()
                    &&& !ac.symbols.frozen
                    &&& ac.wf()
                    &&& settled(ac.quarter(), ac.registers(0))
                },
                Err(e) => e == CodingError::BadPrecision && (low >= high || precision_of(low, high)
                    < 4),
            },
    {
        if low >= high {
            return Err(CodingError::BadPrecision);
        }
        let shift: u32 = bits_of(low);
        let high: u32 = if shift >= 32 {
            proof {
                lemma2_to64();
                assert(shift == 32);
                lemma_div_floor(high as int, pow2(shift as nat) as int);
                assert(high as nat / pow2(shift as nat) == 0) by (nonlinear_arith)
                    requires
                        pow2(shift as nat) > high,
                        pow2(shift as nat) * (high as int / pow2(shift as nat) as int) <= high,
                        high as int / pow2(shift as nat) as int >= 0,
                ;
            }
            0
        } else {
            proof {
                lemma_u32_shr_is_div(high, shift);
            }
            high >> shift
        };
        let precision: u32 = bits_of(high);
        if precision < 4 {
            return Err(CodingError::BadPrecision);
        }
        let symbols: Symbols = Symbols::new();
        proof {
            lemma_bit_length(high as nat);
            lemma_pow2_unfold(precision as nat);
            lemma_pow2_unfold((precision - 1) as nat);
            lemma_pow2_pos((precision - 2) as nat);
        }
        Ok(Self { low: 0, high, precision, symbols })
    }

    /// Whether `low` lies below `high`.
    pub fn verify_low_and_high(&self) -> (r: bool)
        ensures
            r == (self.low < self.high),
    {
        self.low < self.high
    }

    /// The top bit of a register: half of the range.
    pub fn full_bit(&self) -> (r: u32)
        requires
            4 <= self.precision <= 32,
        ensures
            r == 2 * self.quarter(),
            r == 1u32 << ((self.precision - 1) as u32),
    {
        proof {
            self.lemma_masks_values();
        }
        1 << (self.precision - 1)
    }

    /// All bits of a register: the last value of the range.
    pub fn full_mask(&self) -> (r: u32)
        requires
            4 <= self.precision <= 32,
        ensures
            r == 4 * self.quarter() - 1,
            r == u32::MAX >> ((32 - self.precision) as u32),
    {
        proof {
            self.lemma_masks_values();
        }
        u32::MAX >> (32 - self.precision)
    }

    /// The second bit of a register: a quarter of the range.
    pub fn half_bit(&self) -> (r: u32)
        requires
            4 <= self.precision <= 32,
        ensures
            r == self.quarter(),
            r == 1u32 << ((self.precision - 2) as u32),
    {
        proof {
            self.lemma_masks_values();
        }
        1 << (self.precision - 2)
    }

    /// All bits of a register but the top one.
    pub fn half_mask(&self) -> (r: u32)
        requires
            4 <= self.precision <= 32,
        ensures
            r == 2 * self.quarter() - 1,
            r == u32::MAX >> ((32 - (self.precision - 1)) as u32),
    {
        proof {
            self.lemma_masks_values();
        }
        u32::MAX >> (32 - (self.precision - 1))
    }

    /// Narrows the interval to the window `[low_of_symbol, high_of_symbol)`
    /// of the table's total.
    pub fn narrow_to(&mut self, low_of_symbol: u64, high_of_symbol: u64)
        requires
            old(self).wf(),
            settled(old(self).quarter(), old(self).registers(0)),
            low_of_symbol < high_of_symbol <= old(self).symbols.total,
            old(self).symbols.total < old(self).quarter(),
        ensures
            final(self).registers(0) == narrow(
                old(self).registers(0),
                low_of_symbol as nat,
                high_of_symbol as nat,
                old(self).symbols.total as nat,
            ),
            final(self).precision == old(self).precision,
            final(self).symbols == old(self).symbols,
            final(self).wf(),
            old(self).low <= final(self).low,
            final(self).high <= old(self).high,
    {
        let range: u64 = (self.high - self.low) as u64 + 1;
        let total: u64 = self.symbols.total;
        let old_low: u64 = self.low as u64;
        proof {
            self.lemma_masks_values();
            let c = self.registers(0);
            lemma_narrow_inside(
                self.quarter(),
                c,
                low_of_symbol as nat,
                high_of_symbol as nat,
                total as nat,
            );
            assert(width(c) == range);
            assert(high_of_symbol * range <= 0x4000_0000 * 0x1_0000_0000) by (nonlinear_arith)
                requires
                    high_of_symbol <= 0x4000_0000,
                    range <= 0x1_0000_0000,
            ;
            assert(low_of_symbol * range <= high_of_symbol * range) by (nonlinear_arith)
                requires
                    low_of_symbol <= high_of_symbol,
                    range >= 0,
            ;
            assert(low_of_symbol * range == width(c) * (low_of_symbol as nat)) by (nonlinear_arith)
                requires
                    width(c) == range,
            ;
            assert(high_of_symbol * range == width(c) * (high_of_symbol as nat))
                by (nonlinear_arith)
                requires
                    width(c) == range,
            ;
        }
        let new_low: u64 = old_low + (low_of_symbol * range) / total;
        let new_high: u64 = old_low + (high_of_symbol * range) / total - 1;
        self.low = new_low as u32;
        self.high = new_high as u32;
    }

    /// Whether both ends have the same top bit, so that it can be sent.
    pub fn can_shift(&self) -> (r: bool)
        requires
            self.wf(),
        ensures
            r == same_half(self.quarter(), self.registers(0)),
    {
        let full_bit = self.full_bit();
        proof {
            self.lemma_masks_values();
            let n = (self.precision - 1) as u32;
            lemma_same_half_bits(
                self.low,
                self.high,
                n,
                full_bit,
                u32::MAX >> ((31 - n) as u32),
            );
        }
        ((self.low ^ self.high) & full_bit) == 0
    }

    /// Whether the ends, lying in different halves, both lie in the inner
    /// quarters, so that the interval can be spread about the middle.
    pub fn can_underflow(&self) -> (r: bool)
        requires
            self.wf(),
            !same_half(self.quarter(), self.registers(0)),
        ensures
            r == straddles(self.quarter(), self.registers(0)),
    {
        let half_bit = self.half_bit();
        proof {
            self.lemma_masks_values();
            let n = (self.precision - 1) as u32;
            lemma_straddles_bits(self.low, self.high, n, 1u32 << n, half_bit);
        }
        (self.low & !self.high & half_bit) != 0
    }

    /// Drops the common top bit of both ends.
    pub fn shift_registers(&mut self)
        requires
            old(self).wf(),
            same_half(old(self).quarter(), old(self).registers(0)),
        ensures
            final(self).registers(0) == shift_half(old(self).quarter(), old(self).registers(0)),
            final(self).precision == old(self).precision,
            final(self).symbols == old(self).symbols,
            final(self).wf(),
    {
        let full_mask = self.full_mask();
        proof {
            self.lemma_masks_values();
            let n = (self.precision - 1) as u32;
            lemma_shift_half_bits(self.low, n, 1u32 << n, full_mask);
            lemma_shift_half_bits(self.high, n, 1u32 << n, full_mask);
        }
        self.low = (self.low << 1) & full_mask;
        self.high = ((self.high << 1) & full_mask) | 1;
    }

    /// Drops the second bit of both ends, which differ in their top bits.
    pub fn underflow_registers(&mut self)
        requires
            old(self).wf(),
            straddles(old(self).quarter(), old(self).registers(0)),
        ensures
            final(self).low == shift_middle(old(self).quarter(), old(self).registers(0)).low,
            final(self).high == shift_middle(old(self).quarter(), old(self).registers(0)).high,
            final(self).precision == old(self).precision,
            final(self).symbols == old(self).symbols,
            final(self).wf(),
    {
        let full_bit = self.full_bit();
        let half_mask = self.half_mask();
        proof {
            self.lemma_masks_values();
            let n = (self.precision - 1) as u32;
            lemma_shift_middle_bits(
                self.low,
                self.high,
                n,
                full_bit,
                1u32 << ((n - 1) as u32),
                half_mask,
            );
        }
        self.low = (self.low << 1) & half_mask;
        self.high = full_bit | ((self.high << 1) & half_mask) | 1;
    }

    /// The masks of a register as numbers.
    pub proof fn lemma_masks_values(&self)
        requires
            4 <= self.precision <= 32,
        ensures
            1 <= self.quarter() <= 0x4000_0000,
            (1u32 << ((self.precision - 1) as u32)) == 2 * self.quarter(),
            (1u32 << ((self.precision - 2) as u32)) == self.quarter(),
            (u32::MAX >> ((32 - self.precision) as u32)) == 4 * self.quarter() - 1,
            (u32::MAX >> ((32 - (self.precision - 1)) as u32)) == 2 * self.quarter() - 1,
    {
        let n = (self.precision - 1) as u32;
        let q = pow2((n - 1) as nat);
        lemma2_to64();
        lemma_pow2_pos((n - 1) as nat);
        lemma_pow2_unfold(n as nat);
        if n < 31 {
            lemma_pow2_strictly_increases(n as nat, 31);
        }
        lemma_u32_shl_is_mul(1, n);
        lemma_u32_shl_is_mul(1, (n - 1) as u32);
        let h = 1u32 << n;
        let hb = 1u32 << ((n - 1) as u32);
        let m = u32::MAX >> ((31 - n) as u32);
        let hm = u32::MAX >> ((32 - n) as u32);
        lemma_masks(n, h, m, hb, hm);
    }
}

} // verus!
