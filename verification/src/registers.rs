use vstd::prelude::*;

verus! {

// The register operations as they are written with shifts and masks, held
// against the arithmetic that the coder is stated in. Registers have `n + 1`
// bits; `h` is their top bit, `m` all their bits, `hb` their second bit and
// `hm` all their bits but the top one.

/// The masks as numbers: the top bit is twice the second, and the masks are
/// one less than the next power of two.
pub proof fn lemma_masks(n: u32, h: u32, m: u32, hb: u32, hm: u32)
    by (bit_vector)
    requires
        3 <= n <= 31,
        h == 1u32 << n,
        m == u32::MAX >> ((31 - n) as u32),
        hb == 1u32 << ((n - 1) as u32),
        hm == u32::MAX >> ((32 - n) as u32),
    ensures
        h == 2 * hb,
        hm == h - 1,
        m == 2 * h - 1,
        hb >= 4,
{
}

/// The top bits of two registers agree where both lie in the same half.
pub proof fn lemma_same_half_bits(x: u32, y: u32, n: u32, h: u32, m: u32)
    by (bit_vector)
    requires
        3 <= n <= 31,
        h == 1u32 << n,
        m == u32::MAX >> ((31 - n) as u32),
        x <= m,
        y <= m,
    ensures
        ((x ^ y) & h == 0) <==> ((x >= h) == (y >= h)),
{
}

/// Of two registers in different halves, the lower has its second bit set
/// and the upper has not where both lie in the inner quarters.
pub proof fn lemma_straddles_bits(x: u32, y: u32, n: u32, h: u32, hb: u32)
    by (bit_vector)
    requires
        3 <= n <= 31,
        h == 1u32 << n,
        hb == 1u32 << ((n - 1) as u32),
        x < h,
        h <= y,
        y - h < h,
    ensures
        (x & !y & hb != 0) <==> (x >= hb && y < h + hb),
{
}

/// Shifting a register up by one within its width doubles what lies below
/// its top bit; setting the lowest bit then adds one.
pub proof fn lemma_shift_half_bits(x: u32, n: u32, h: u32, m: u32)
    by (bit_vector)
    requires
        3 <= n <= 31,
        h == 1u32 << n,
        m == u32::MAX >> ((31 - n) as u32),
        x <= m,
    ensures
        (x << 1) & m == (if x >= h { 2 * x - 2 * h } else { 2 * x }),
        ((x << 1) & m) | 1 == (if x >= h { 2 * x - 2 * h } else { 2 * x }) + 1,
{
}

/// Dropping the second bit of registers in the inner quarters doubles
/// their distance from the quarter.
pub proof fn lemma_shift_middle_bits(x: u32, y: u32, n: u32, h: u32, hb: u32, hm: u32)
    by (bit_vector)
    requires
        3 <= n <= 31,
        h == 1u32 << n,
        hb == 1u32 << ((n - 1) as u32),
        hm == u32::MAX >> ((32 - n) as u32),
        hb <= x < h,
        h <= y < h + hb,
    ensures
        (x << 1) & hm == 2 * x - h,
        h | ((y << 1) & hm) | 1 == 2 * y - h + 1,
{
}

/// Shifting the code register up by one within its width and taking a bit
/// in at the bottom.
pub proof fn lemma_code_half_bits(x: u32, bit: u32, n: u32, h: u32, m: u32)
    by (bit_vector)
    requires
        3 <= n <= 31,
        h == 1u32 << n,
        m == u32::MAX >> ((31 - n) as u32),
        x <= m,
        bit <= 1,
    ensures
        ((x << 1) & m) | bit == (if x >= h { 2 * x - 2 * h } else { 2 * x }) + bit,
{
}

/// Dropping the second bit of the code register, keeping its top bit, and
/// taking a bit in at the bottom.
pub proof fn lemma_code_middle_bits(x: u32, bit: u32, n: u32, h: u32, hb: u32, hm: u32, m: u32)
    by (bit_vector)
    requires
        3 <= n <= 31,
        h == 1u32 << n,
        hb == 1u32 << ((n - 1) as u32),
        hm == u32::MAX >> ((32 - n) as u32),
        m == u32::MAX >> ((31 - n) as u32),
        x <= m,
        bit <= 1,
    ensures
        (x & h) | ((x << 1) & hm) | bit == (if x < hb {
            2 * x
        } else if x < h + hb {
            2 * x - h
        } else {
            2 * x - 2 * h
        }) + bit,
{
}

} // verus!
