use vstd::prelude::*;
use vstd::arithmetic::power2::{lemma_pow2_pos, lemma_pow2_unfold, pow2};
use vstd::arithmetic::div_mod::{lemma_fundamental_div_mod, lemma_mod_bound};
use crate::bitseq::{bit_at, window};
use crate::error::CodingError;
use crate::symbols::{
    has_byte, index_of, lemma_lower_monotonic, lemma_lower_strict, lower, symbol_at, total_of,
    valid_model, window_of,
};

verus! {

/// The registers of the coder as numbers: the interval `[low, high]` and the
/// count of rescalings whose bit is still owed.
///
/// All functions below take the quarter `q` of the register range: registers
/// of `p` bits range over `[0, 4q)` with `q = 2^(p-2)`.
pub struct Coder {
    pub low: int,
    pub high: int,
    pub pending: nat,
}

/// Number of register values in the interval.
pub open spec fn width(c: Coder) -> int {
    c.high - c.low + 1
}

/// The interval is not empty and lies within the register range.
pub open spec fn in_range(q: int, c: Coder) -> bool {
    0 <= c.low <= c.high < 4 * q
}

/// Both ends lie in the same half: their top bits agree.
pub open spec fn same_half(q: int, c: Coder) -> bool {
    (c.low >= 2 * q) == (c.high >= 2 * q)
}

/// The ends straddle the middle within the two inner quarters.
pub open spec fn straddles(q: int, c: Coder) -> bool {
    q <= c.low < 2 * q && 2 * q <= c.high < 3 * q
}

/// No rescaling applies: the state in which the next symbol is taken.
pub open spec fn settled(q: int, c: Coder) -> bool {
    in_range(q, c) && !same_half(q, c) && !straddles(q, c)
}

/// Rescaling of an interval within one half: the common top bit leaves,
/// `low` takes a zero and `high` a one from the right.
pub open spec fn shift_half(q: int, c: Coder) -> Coder {
    let t = if c.low >= 2 * q {
        4 * q
    } else {
        0
    };
    Coder { low: 2 * c.low - t, high: 2 * c.high - t + 1, pending: 0 }
}

/// Rescaling of an interval that straddles the middle: the second bit
/// leaves, and one more bit is owed.
pub open spec fn shift_middle(q: int, c: Coder) -> Coder {
    Coder { low: 2 * c.low - 2 * q, high: 2 * c.high - 2 * q + 1, pending: c.pending + 1 }
}

/// The part of the interval that belongs to the window `[lo, hi)` of `t`.
pub open spec fn narrow(c: Coder, lo: nat, hi: nat, t: nat) -> Coder {
    let r = width(c);
    Coder {
        low: c.low + (r * lo) / (t as int),
        high: c.low + (r * hi) / (t as int) - 1,
        pending: c.pending,
    }
}

/// A bit, and behind it the owed bits, which are its complement.
pub open spec fn emit(bit: bool, pending: nat) -> Seq<bool> {
    seq![bit] + Seq::new(pending, |i: int| !bit)
}

/// The bits that the encoder sends from state `c` on for the symbols
/// `s[i..]`: those of every rescaling, and at the end the top bit of `low`
/// with one complement more than is owed.
pub open spec fn run(q: int, c: Coder, m: Seq<(u8, nat)>, s: Seq<u8>, i: int) -> Seq<bool>
    decreases s.len() - i, 4 * q - width(c),
{
    if !in_range(q, c) || i < 0 {
        Seq::empty()
    } else if same_half(q, c) {
        emit(c.low >= 2 * q, c.pending) + run(q, shift_half(q, c), m, s, i)
    } else if straddles(q, c) {
        run(q, shift_middle(q, c), m, s, i)
    } else if i >= s.len() {
        emit(c.low >= 2 * q, c.pending + 1)
    } else {
        let w = window_of(m, s[i]);
        run(q, narrow(c, w.0, w.1, total_of(m)), m, s, i + 1)
    }
}

/// The settled state in which the encoder ends.
pub open spec fn last_state(q: int, c: Coder, m: Seq<(u8, nat)>, s: Seq<u8>, i: int) -> Coder
    decreases s.len() - i, 4 * q - width(c),
{
    if !in_range(q, c) || i < 0 {
        c
    } else if same_half(q, c) {
        last_state(q, shift_half(q, c), m, s, i)
    } else if straddles(q, c) {
        last_state(q, shift_middle(q, c), m, s, i)
    } else if i >= s.len() {
        c
    } else {
        let w = window_of(m, s[i]);
        last_state(q, narrow(c, w.0, w.1, total_of(m)), m, s, i + 1)
    }
}

/// The code register after a rescaling within one half.
pub open spec fn code_half(q: int, code: int, bit: int) -> int {
    (if code >= 2 * q {
        2 * code - 4 * q
    } else {
        2 * code
    }) + bit
}

/// The code register after a rescaling across the middle: the top bit
/// stays, the second bit leaves.
pub open spec fn code_middle(q: int, code: int, bit: int) -> int {
    (if code < q {
        2 * code
    } else if code < 3 * q {
        2 * code - 2 * q
    } else {
        2 * code - 4 * q
    }) + bit
}

/// The cumulative value that a code register points at within `c`.
pub open spec fn target(c: Coder, code: int, t: nat) -> int {
    ((code - c.low + 1) * t - 1) / width(c)
}

/// What the decoder gives for `n` more symbols from state `c` and code
/// register `code`, reading the stream `s` from position `pos` on.
pub open spec fn dec(
    q: int,
    c: Coder,
    code: int,
    m: Seq<(u8, nat)>,
    s: Seq<bool>,
    pos: int,
    n: nat,
) -> Result<Seq<u8>, CodingError>
    decreases n, 4 * q - width(c),
{
    if !in_range(q, c) {
        Err(CodingError::Corrupt)
    } else if same_half(q, c) {
        dec(q, shift_half(q, c), code_half(q, code, bit_at(s, pos)), m, s, pos + 1, n)
    } else if straddles(q, c) {
        dec(q, shift_middle(q, c), code_middle(q, code, bit_at(s, pos)), m, s, pos + 1, n)
    } else if n == 0 {
        Ok(Seq::empty())
    } else if !(c.low <= code <= c.high) {
        Err(CodingError::Corrupt)
    } else if target(c, code, total_of(m)) >= total_of(m) {
        Err(CodingError::ValueOutOfRange)
    } else {
        let b = symbol_at(m, target(c, code, total_of(m)) as nat);
        let w = window_of(m, b);
        match dec(q, narrow(c, w.0, w.1, total_of(m)), code, m, s, pos, (n - 1) as nat) {
            Ok(rest) => Ok(seq![b] + rest),
            Err(e) => Err(e),
        }
    }
}

/// The quotient is the greatest multiple that does not exceed the dividend.
pub proof fn lemma_div_floor(a: int, b: int)
    requires
        b > 0,
    ensures
        b * (a / b) <= a < b * (a / b) + b,
{
    lemma_fundamental_div_mod(a, b);
    lemma_mod_bound(a, b);
}

/// Narrowing a settled interval by a non-empty window of a total below the
/// quarter leaves a non-empty interval inside the old one.
pub proof fn lemma_narrow_inside(q: int, c: Coder, lo: nat, hi: nat, t: nat)
    requires
        settled(q, c),
        lo < hi <= t,
        1 <= t < q,
    ensures
        c.low <= narrow(c, lo, hi, t).low <= narrow(c, lo, hi, t).high <= c.high,
        in_range(q, narrow(c, lo, hi, t)),
{
    let r = width(c);
    let a = (r * lo) / (t as int);
    let b = (r * hi) / (t as int);
    lemma_div_floor(r * lo, t as int);
    lemma_div_floor(r * hi, t as int);
    assert(r > t);
    assert(r * hi >= r * lo + r) by (nonlinear_arith)
        requires
            r > 0,
            hi >= lo + 1,
    ;
    assert(r * hi <= r * t) by (nonlinear_arith)
        requires
            r > 0,
            hi <= t,
    ;
    assert(a >= 0) by (nonlinear_arith)
        requires
            t > 0,
            r * lo >= 0,
            r * lo < t * a + t,
    ;
    assert(a < b) by (nonlinear_arith)
        requires
            t > 0,
            r > t,
            t * a <= r * lo,
            r * hi < t * b + t,
            r * hi >= r * lo + r,
    ;
    assert(b <= r) by (nonlinear_arith)
        requires
            t > 0,
            t * b <= r * hi,
            r * hi <= r * t,
    ;
    assert(r * lo >= 0) by (nonlinear_arith)
        requires
            r > 0,
            lo >= 0,
    ;
}

/// A code register inside the narrowed interval points into the window.
pub proof fn lemma_target_forward(c: Coder, code: int, lo: nat, hi: nat, t: nat)
    requires
        c.low <= c.high,
        lo < hi <= t,
        narrow(c, lo, hi, t).low <= code <= narrow(c, lo, hi, t).high,
    ensures
        lo <= target(c, code, t) < hi,
{
    let r = width(c);
    let off = code - c.low;
    let a = (r * lo) / (t as int);
    let b = (r * hi) / (t as int);
    let x = (off + 1) * t - 1;
    lemma_div_floor(r * lo, t as int);
    lemma_div_floor(r * hi, t as int);
    lemma_div_floor(x, r);
    let v = x / r;
    assert(x >= r * lo) by (nonlinear_arith)
        requires
            t > 0,
            a <= off,
            r * lo < t * a + t,
            x == (off + 1) * t - 1,
    ;
    assert(x < r * hi) by (nonlinear_arith)
        requires
            t > 0,
            off + 1 <= b,
            t * b <= r * hi,
            x == (off + 1) * t - 1,
    ;
    assert(v >= lo) by (nonlinear_arith)
        requires
            r > 0,
            x >= r * lo,
            x < r * v + r,
    ;
    assert(v < hi) by (nonlinear_arith)
        requires
            r > 0,
            x < r * hi,
            r * v <= x,
    ;
}

/// A code register inside the interval that points into a window lies
/// inside the interval narrowed by that window.
pub proof fn lemma_target_backward(c: Coder, code: int, lo: nat, hi: nat, t: nat)
    requires
        c.low <= code <= c.high,
        hi <= t,
        lo <= target(c, code, t) < hi,
    ensures
        narrow(c, lo, hi, t).low <= code <= narrow(c, lo, hi, t).high,
{
    let r = width(c);
    let off = code - c.low;
    let a = (r * lo) / (t as int);
    let b = (r * hi) / (t as int);
    let x = (off + 1) * t - 1;
    lemma_div_floor(r * lo, t as int);
    lemma_div_floor(r * hi, t as int);
    lemma_div_floor(x, r);
    let v = x / r;
    assert(r * lo <= x) by (nonlinear_arith)
        requires
            r > 0,
            lo <= v,
            r * v <= x,
    ;
    assert(x < r * hi) by (nonlinear_arith)
        requires
            r > 0,
            v + 1 <= hi,
            x < r * v + r,
    ;
    assert(a <= off) by (nonlinear_arith)
        requires
            t > 0,
            t * a <= r * lo,
            r * lo <= x,
            x == (off + 1) * t - 1,
    ;
    assert(off + 1 <= b) by (nonlinear_arith)
        requires
            t > 0,
            r * hi < t * b + t,
            x < r * hi,
            x == (off + 1) * t - 1,
    ;
}

/// A code register inside the interval points below the total.
pub proof fn lemma_target_bound(c: Coder, code: int, t: nat)
    requires
        c.low <= code <= c.high,
        t >= 1,
    ensures
        0 <= target(c, code, t) < t,
{
    let r = width(c);
    let off = code - c.low;
    let x = (off + 1) * t - 1;
    lemma_div_floor(x, r);
    let v = x / r;
    assert(x >= 0) by (nonlinear_arith)
        requires
            off >= 0,
            t >= 1,
            x == (off + 1) * t - 1,
    ;
    assert(x < r * t) by (nonlinear_arith)
        requires
            off + 1 <= r,
            t >= 1,
            x == (off + 1) * t - 1,
    ;
    assert(v >= 0) by (nonlinear_arith)
        requires
            r > 0,
            x >= 0,
            x < r * v + r,
    ;
    assert(v < t) by (nonlinear_arith)
        requires
            r > 0,
            x < r * t,
            r * v <= x,
    ;
}

/// The window of a known byte is a non-empty part of `[0, total)`.
pub proof fn lemma_window_of_known(m: Seq<(u8, nat)>, b: u8)
    requires
        valid_model(m),
        has_byte(m, b),
    ensures
        window_of(m, b).0 < window_of(m, b).1 <= total_of(m),
{
    let i = index_of(m, b);
    lemma_lower_strict(m, i, i + 1);
    lemma_lower_monotonic(m, i + 1, m.len() as int);
}

/// The bits that rescaling sends from state `c` until it settles.
pub open spec fn renorm_bits(q: int, c: Coder) -> Seq<bool>
    decreases 4 * q - width(c),
{
    if !in_range(q, c) {
        Seq::empty()
    } else if same_half(q, c) {
        emit(c.low >= 2 * q, c.pending) + renorm_bits(q, shift_half(q, c))
    } else if straddles(q, c) {
        renorm_bits(q, shift_middle(q, c))
    } else {
        Seq::empty()
    }
}

/// The state in which rescaling from state `c` settles.
pub open spec fn renorm_state(q: int, c: Coder) -> Coder
    decreases 4 * q - width(c),
{
    if !in_range(q, c) {
        c
    } else if same_half(q, c) {
        renorm_state(q, shift_half(q, c))
    } else if straddles(q, c) {
        renorm_state(q, shift_middle(q, c))
    } else {
        c
    }
}

/// Number of rescalings from state `c` until it settles.
pub open spec fn rescalings(q: int, c: Coder) -> nat
    decreases 4 * q - width(c),
{
    if !in_range(q, c) {
        0
    } else if same_half(q, c) {
        1 + rescalings(q, shift_half(q, c))
    } else if straddles(q, c) {
        1 + rescalings(q, shift_middle(q, c))
    } else {
        0
    }
}

/// Rescaling comes to an end: from any interval of registers of `p` bits
/// it settles after at most `p` steps, each of which doubles the width of
/// the interval, and the settled interval has its lower end below its
/// upper end.
pub proof fn lemma_rescaling_progress(p: nat, q: int, c: Coder)
    requires
        p >= 2,
        q == pow2((p - 2) as nat),
        in_range(q, c),
    ensures
        settled(q, renorm_state(q, c)),
        renorm_state(q, c).low < renorm_state(q, c).high,
        width(renorm_state(q, c)) == width(c) * pow2(rescalings(q, c)),
        rescalings(q, c) <= p,
        renorm_state(q, c).pending <= c.pending + rescalings(q, c),
    decreases 4 * q - width(c),
{
    lemma_pow2_pos((p - 2) as nat);
    lemma_pow2_unfold((p - 1) as nat);
    lemma_pow2_unfold(p);
    assert(pow2(p) == 4 * q);
    if same_half(q, c) || straddles(q, c) {
        let c1 = if same_half(q, c) {
            shift_half(q, c)
        } else {
            shift_middle(q, c)
        };
        lemma_rescaling_progress(p, q, c1);
        let k = rescalings(q, c1);
        lemma_pow2_unfold(k + 1);
        assert(width(c1) * pow2(k) == width(c) * pow2(k + 1)) by (nonlinear_arith)
            requires
                width(c1) == 2 * width(c),
                pow2(k + 1) == 2 * pow2(k),
        ;
        assert(rescalings(q, c) == k + 1);
        assert(renorm_state(q, c) == renorm_state(q, c1));
    } else {
        assert(pow2(0) == 1) by {
            vstd::arithmetic::power2::lemma2_to64();
        }
        assert(rescalings(q, c) == 0);
        assert(width(c) * 1 == width(c));
    }
    let n = rescalings(q, c);
    if n > p {
        vstd::arithmetic::power2::lemma_pow2_strictly_increases(p, n);
        assert(width(c) * pow2(n) >= pow2(n)) by (nonlinear_arith)
            requires
                width(c) >= 1,
        ;
    }
}

/// The encoder's bits from a state are those of its rescaling and then
/// those from the settled state.
pub proof fn lemma_run_renorm(q: int, c: Coder, m: Seq<(u8, nat)>, s: Seq<u8>, i: int)
    requires
        in_range(q, c),
        0 <= i,
    ensures
        run(q, c, m, s, i) == renorm_bits(q, c) + run(q, renorm_state(q, c), m, s, i),
        last_state(q, c, m, s, i) == last_state(q, renorm_state(q, c), m, s, i),
    decreases 4 * q - width(c),
{
    if same_half(q, c) {
        let c1 = shift_half(q, c);
        lemma_run_renorm(q, c1, m, s, i);
        assert(run(q, c, m, s, i) =~= renorm_bits(q, c) + run(q, renorm_state(q, c), m, s, i));
    } else if straddles(q, c) {
        lemma_run_renorm(q, shift_middle(q, c), m, s, i);
    } else {
        assert(run(q, c, m, s, i) =~= renorm_bits(q, c) + run(q, renorm_state(q, c), m, s, i));
    }
}

/// The code register after the rescalings from state `c`, which read the
/// stream `s` from position `pos` on.
pub open spec fn code_after(q: int, c: Coder, code: int, s: Seq<bool>, pos: int) -> int
    decreases 4 * q - width(c),
{
    if !in_range(q, c) {
        code
    } else if same_half(q, c) {
        code_after(q, shift_half(q, c), code_half(q, code, bit_at(s, pos)), s, pos + 1)
    } else if straddles(q, c) {
        code_after(q, shift_middle(q, c), code_middle(q, code, bit_at(s, pos)), s, pos + 1)
    } else {
        code
    }
}

/// The same interval with another count of owed bits.
pub open spec fn owing(c: Coder, k: nat) -> Coder {
    Coder { low: c.low, high: c.high, pending: k }
}

/// The decoder does not look at the count of owed bits.
pub proof fn lemma_dec_owing(
    q: int,
    c: Coder,
    k: nat,
    code: int,
    m: Seq<(u8, nat)>,
    s: Seq<bool>,
    pos: int,
    n: nat,
)
    ensures
        dec(q, owing(c, k), code, m, s, pos, n) == dec(q, c, code, m, s, pos, n),
    decreases n, 4 * q - width(c),
{
    let d = owing(c, k);
    if !in_range(q, c) {
    } else if same_half(q, c) {
        assert(shift_half(q, d) == shift_half(q, c));
    } else if straddles(q, c) {
        let code1 = code_middle(q, code, bit_at(s, pos));
        lemma_dec_owing(q, shift_middle(q, c), k + 1, code1, m, s, pos + 1, n);
        assert(shift_middle(q, d) == owing(shift_middle(q, c), k + 1));
    } else if n == 0 {
    } else if !(c.low <= code <= c.high) {
    } else if target(c, code, total_of(m)) >= total_of(m) {
        assert(target(d, code, total_of(m)) == target(c, code, total_of(m)));
    } else {
        assert(target(d, code, total_of(m)) == target(c, code, total_of(m)));
        let b = symbol_at(m, target(c, code, total_of(m)) as nat);
        let w = window_of(m, b);
        let c1 = narrow(c, w.0, w.1, total_of(m));
        lemma_dec_owing(q, c1, k, code, m, s, pos, (n - 1) as nat);
        assert(narrow(d, w.0, w.1, total_of(m)) == owing(c1, k));
    }
}

/// Rescaling in the decoder: the interval settles as in the encoder, the
/// code register follows, one bit is read for each step, a code register
/// inside the interval stays inside, and decoding goes on from there.
pub proof fn lemma_dec_renorm(
    q: int,
    c: Coder,
    code: int,
    m: Seq<(u8, nat)>,
    s: Seq<bool>,
    pos: int,
    n: nat,
)
    requires
        in_range(q, c),
    ensures
        dec(q, c, code, m, s, pos, n) == dec(
            q,
            renorm_state(q, c),
            code_after(q, c, code, s, pos),
            m,
            s,
            pos + rescalings(q, c),
            n,
        ),
        0 <= code < 4 * q ==> 0 <= code_after(q, c, code, s, pos) < 4 * q,
        c.low <= code <= c.high ==> renorm_state(q, c).low <= code_after(q, c, code, s, pos)
            <= renorm_state(q, c).high,
    decreases 4 * q - width(c),
{
    if same_half(q, c) {
        lemma_dec_renorm(q, shift_half(q, c), code_half(q, code, bit_at(s, pos)), m, s, pos + 1, n);
    } else if straddles(q, c) {
        lemma_dec_renorm(
            q,
            shift_middle(q, c),
            code_middle(q, code, bit_at(s, pos)),
            m,
            s,
            pos + 1,
            n,
        );
    }
}

/// Narrowing by any window of the total stays inside the interval.
pub proof fn lemma_narrow_bounds(c: Coder, lo: nat, hi: nat, t: nat)
    requires
        c.low <= c.high,
        hi <= t,
        1 <= t,
    ensures
        c.low <= narrow(c, lo, hi, t).low,
        narrow(c, lo, hi, t).high <= c.high,
{
    let r = width(c);
    let a = (r * lo) / (t as int);
    let b = (r * hi) / (t as int);
    lemma_div_floor(r * lo, t as int);
    lemma_div_floor(r * hi, t as int);
    assert(r * lo >= 0) by (nonlinear_arith)
        requires
            r > 0,
            lo >= 0,
    ;
    assert(a >= 0) by (nonlinear_arith)
        requires
            t > 0,
            r * lo >= 0,
            r * lo < t * a + t,
    ;
    assert(r * hi <= r * t) by (nonlinear_arith)
        requires
            r > 0,
            hi <= t,
    ;
    assert(b <= r) by (nonlinear_arith)
        requires
            t > 0,
            t * b <= r * hi,
            r * hi <= r * t,
    ;
}

/// The decoder keeps its code register inside the interval, whatever the
/// stream holds: started with the register inside, it finds it inside at
/// every symbol, never points at or beyond the total, and gives as many
/// bytes as it is asked for.
pub proof fn lemma_decoder_keeps_code(
    q: int,
    c: Coder,
    code: int,
    m: Seq<(u8, nat)>,
    s: Seq<bool>,
    pos: int,
    n: nat,
)
    requires
        in_range(q, c),
        c.low <= code <= c.high,
        valid_model(m),
        n > 0 ==> total_of(m) >= 1,
    ensures
        dec(q, c, code, m, s, pos, n) is Ok,
        dec(q, c, code, m, s, pos, n)->Ok_0.len() == n,
    decreases n, 4 * q - width(c),
{
    if same_half(q, c) {
        lemma_decoder_keeps_code(
            q,
            shift_half(q, c),
            code_half(q, code, bit_at(s, pos)),
            m,
            s,
            pos + 1,
            n,
        );
    } else if straddles(q, c) {
        lemma_decoder_keeps_code(
            q,
            shift_middle(q, c),
            code_middle(q, code, bit_at(s, pos)),
            m,
            s,
            pos + 1,
            n,
        );
    } else if n > 0 {
        let t = total_of(m);
        lemma_target_bound(c, code, t);
        let v = target(c, code, t) as nat;
        crate::symbols::lemma_windows_partition(m, v);
        let i = choose|i: int| crate::symbols::in_window(m, i, v);
        let b = symbol_at(m, v);
        crate::symbols::lemma_index_unique(m, i);
        let w = window_of(m, b);
        lemma_lower_monotonic(m, i + 1, m.len() as int);
        lemma_target_backward(c, code, w.0, w.1, t);
        lemma_narrow_bounds(c, w.0, w.1, t);
        lemma_decoder_keeps_code(q, narrow(c, w.0, w.1, t), code, m, s, pos, (n - 1) as nat);
    }
}

/// Rescaling does not look at the count of owed bits.
pub proof fn lemma_owing_same(q: int, c: Coder, code: int, s: Seq<bool>, pos: int)
    ensures
        renorm_state(q, owing(c, 0)).low == renorm_state(q, c).low,
        renorm_state(q, owing(c, 0)).high == renorm_state(q, c).high,
        rescalings(q, owing(c, 0)) == rescalings(q, c),
        code_after(q, owing(c, 0), code, s, pos) == code_after(q, c, code, s, pos),
    decreases 4 * q - width(c),
{
    let d = owing(c, 0);
    if !in_range(q, c) {
    } else if same_half(q, c) {
        assert(shift_half(q, d) == shift_half(q, c));
    } else if straddles(q, c) {
        let c1 = shift_middle(q, c);
        let code1 = code_middle(q, code, bit_at(s, pos));
        lemma_owing_same(q, c1, code1, s, pos + 1);
        lemma_owing_same(q, shift_middle(q, d), code1, s, pos + 1);
        assert(owing(shift_middle(q, d), 0) == owing(c1, 0));
    }
}

/// Each rescaling sends a bit or owes one: the bits that rescaling sends
/// and the bits owed at its end are the bits owed at its start and one for
/// each step.
pub proof fn lemma_rescaling_bits(q: int, c: Coder)
    requires
        in_range(q, c),
    ensures
        renorm_bits(q, c).len() + renorm_state(q, c).pending == c.pending + rescalings(q, c),
    decreases 4 * q - width(c),
{
    if same_half(q, c) {
        lemma_rescaling_bits(q, shift_half(q, c));
    } else if straddles(q, c) {
        lemma_rescaling_bits(q, shift_middle(q, c));
    }
}

/// A step of the encoder keeps the coder in order and comes to an end. From
/// a settled interval of registers of `p` bits, narrowing to a non-empty
/// window of a total below the quarter and rescaling ends after at most `p`
/// steps in a settled interval whose lower end lies below its upper end; the
/// bits sent and the bits owed then are the bits owed before and one for
/// each step.
pub proof fn lemma_encoder_step(p: nat, q: int, c: Coder, lo: nat, hi: nat, t: nat)
    requires
        p >= 2,
        q == pow2((p - 2) as nat),
        settled(q, c),
        lo < hi <= t,
        1 <= t < q,
    ensures
        settled(q, renorm_state(q, narrow(c, lo, hi, t))),
        renorm_state(q, narrow(c, lo, hi, t)).low < renorm_state(q, narrow(c, lo, hi, t)).high,
        rescalings(q, narrow(c, lo, hi, t)) <= p,
        renorm_bits(q, narrow(c, lo, hi, t)).len() + renorm_state(q, narrow(c, lo, hi, t)).pending
            == c.pending + rescalings(q, narrow(c, lo, hi, t)),
{
    let c1 = narrow(c, lo, hi, t);
    lemma_narrow_inside(q, c, lo, hi, t);
    lemma_rescaling_progress(p, q, c1);
    lemma_rescaling_bits(q, c1);
}

/// A step of the decoder keeps the coder in order and comes to an end. From
/// a settled interval of registers of `p` bits and a code register inside
/// the part of it that belongs to a non-empty window of a total below the
/// quarter, narrowing to that window and rescaling ends after at most `p`
/// steps, for each of which one bit is read, in a settled interval whose
/// lower end lies below its upper end and which holds the code register;
/// decoding goes on from there.
pub proof fn lemma_decoder_step(
    p: nat,
    q: int,
    c: Coder,
    code: int,
    lo: nat,
    hi: nat,
    t: nat,
    m: Seq<(u8, nat)>,
    s: Seq<bool>,
    pos: int,
    n: nat,
)
    requires
        p >= 2,
        q == pow2((p - 2) as nat),
        settled(q, c),
        lo < hi <= t,
        1 <= t < q,
        narrow(c, lo, hi, t).low <= code <= narrow(c, lo, hi, t).high,
    ensures
        settled(q, renorm_state(q, narrow(c, lo, hi, t))),
        renorm_state(q, narrow(c, lo, hi, t)).low < renorm_state(q, narrow(c, lo, hi, t)).high,
        renorm_state(q, narrow(c, lo, hi, t)).low <= code_after(
            q,
            narrow(c, lo, hi, t),
            code,
            s,
            pos,
        ) <= renorm_state(q, narrow(c, lo, hi, t)).high,
        rescalings(q, narrow(c, lo, hi, t)) <= p,
        dec(q, narrow(c, lo, hi, t), code, m, s, pos, n) == dec(
            q,
            renorm_state(q, narrow(c, lo, hi, t)),
            code_after(q, narrow(c, lo, hi, t), code, s, pos),
            m,
            s,
            pos + rescalings(q, narrow(c, lo, hi, t)),
            n,
        ),
{
    let c1 = narrow(c, lo, hi, t);
    lemma_narrow_inside(q, c, lo, hi, t);
    lemma_rescaling_progress(p, q, c1);
    lemma_dec_renorm(q, c1, code, m, s, pos, n);
}

} // verus!
