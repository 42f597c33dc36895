use vstd::prelude::*;
use vstd::arithmetic::power2::{lemma_pow2_pos, lemma_pow2_unfold, pow2};
use crate::bitseq::{bit_at, lemma_window_bound, lemma_window_head, lemma_window_zero, window};
use crate::coder::{
    Coder, code_half, code_middle, dec, emit, in_range, last_state, lemma_narrow_inside,
    lemma_rescaling_progress, lemma_target_backward, lemma_target_bound, lemma_target_forward,
    lemma_window_of_known, narrow, rescalings, run, same_half, settled, shift_half, shift_middle,
    straddles, target, width,
};
use crate::error::CodingError;
use crate::symbols::{
    has_byte, in_window, lemma_index_unique, lemma_symbol_at_window, lemma_windows_partition,
    symbol_at, total_of, valid_model, window_of,
};

verus! {

/// The code register that belongs to the bits of `s` from position `e` on,
/// where `k` bits are owed: the bit at `e`, and the `p - 1` bits behind the
/// owed ones.
pub open spec fn code_of(p: nat, s: Seq<bool>, e: int, k: nat) -> int {
    (if bit_at(s, e) == 1 {
        pow2((p - 1) as nat) as int
    } else {
        0
    }) + window(s, e + 1 + k, p - 1)
}

/// Every symbol from position `i` on has an entry in the table.
pub open spec fn symbols_known(m: Seq<(u8, nat)>, s: Seq<u8>, i: int) -> bool {
    forall|j: int| i <= j < s.len() ==> has_byte(m, #[trigger] s[j])
}

/// The interval in which the encoder ends reaches down to the quarter, so
/// that the bits sent at the end name a point inside it.
pub open spec fn ends_low(q: int, c: Coder, m: Seq<(u8, nat)>, s: Seq<u8>, i: int) -> bool {
    last_state(q, c, m, s, i).low <= q
}

/// What the laws on encoder and decoder take for granted: registers of `p`
/// bits, an interval within their range, a valid table with a total below
/// the quarter, and symbols that the table knows.
pub open spec fn setting(
    p: nat,
    q: int,
    c: Coder,
    m: Seq<(u8, nat)>,
    syms: Seq<u8>,
    i: int,
) -> bool {
    &&& p >= 4
    &&& q == pow2((p - 2) as nat)
    &&& in_range(q, c)
    &&& valid_model(m)
    &&& 1 <= total_of(m) < q
    &&& 0 <= i <= syms.len()
    &&& symbols_known(m, syms, i)
}

/// The stream `s` holds from position `e` on the bits that the encoder
/// sends from state `c` for the symbols `syms[i..]`.
pub open spec fn carries(
    q: int,
    c: Coder,
    m: Seq<(u8, nat)>,
    syms: Seq<u8>,
    i: int,
    s: Seq<bool>,
    e: int,
) -> bool {
    0 <= e <= s.len() && s.subrange(e, s.len() as int) == run(q, c, m, syms, i)
}

/// The code register that belongs to position `e` lies inside `c`, and the
/// decoder, started in `c` with that register, gives `syms[i..]`.
pub open spec fn agrees(
    p: nat,
    q: int,
    c: Coder,
    m: Seq<(u8, nat)>,
    syms: Seq<u8>,
    i: int,
    s: Seq<bool>,
    e: int,
) -> bool {
    &&& c.low <= code_of(p, s, e, c.pending) <= c.high
    &&& dec(q, c, code_of(p, s, e, c.pending), m, s, e + c.pending + p, (syms.len() - i) as nat)
        == Ok::<Seq<u8>, CodingError>(syms.subrange(i, syms.len() as int))
}

/// The encoder's bits from a state start with a bit and, behind it, the
/// owed bits as its complements, and there are at least two more bits than
/// are owed.
pub proof fn lemma_run_shape(q: int, c: Coder, m: Seq<(u8, nat)>, syms: Seq<u8>, i: int)
    requires
        q >= 1,
        in_range(q, c),
        valid_model(m),
        1 <= total_of(m) < q,
        0 <= i <= syms.len(),
        symbols_known(m, syms, i),
    ensures
        run(q, c, m, syms, i).len() >= c.pending + 2,
        forall|j: int|
            1 <= j <= c.pending ==> #[trigger] run(q, c, m, syms, i)[j] != run(q, c, m, syms, i)[0],
    decreases syms.len() - i, 4 * q - width(c),
{
    if same_half(q, c) {
        lemma_run_shape(q, shift_half(q, c), m, syms, i);
    } else if straddles(q, c) {
        lemma_run_shape(q, shift_middle(q, c), m, syms, i);
    } else if i >= syms.len() {
    } else {
        let w = window_of(m, syms[i]);
        lemma_window_of_known(m, syms[i]);
        lemma_narrow_inside(q, c, w.0, w.1, total_of(m));
        lemma_run_shape(q, narrow(c, w.0, w.1, total_of(m)), m, syms, i + 1);
    }
}

/// The encoder sends two bits at the end, one bit for each rescaling, and
/// the bits that were owed at the start; it rescales at most `p` times for
/// each symbol.
pub proof fn lemma_run_len(p: nat, q: int, c: Coder, m: Seq<(u8, nat)>, syms: Seq<u8>, i: int)
    requires
        setting(p, q, c, m, syms, i),
    ensures
        run(q, c, m, syms, i).len() <= c.pending + rescalings(q, c) + 2 + p * (syms.len() - i),
    decreases syms.len() - i, 4 * q - width(c),
{
    lemma_pow2_pos((p - 2) as nat);
    if same_half(q, c) {
        lemma_run_len(p, q, shift_half(q, c), m, syms, i);
    } else if straddles(q, c) {
        lemma_run_len(p, q, shift_middle(q, c), m, syms, i);
    } else if i >= syms.len() {
        assert(p * (syms.len() - i) == 0) by (nonlinear_arith)
            requires
                syms.len() - i == 0,
        ;
    } else {
        let w = window_of(m, syms[i]);
        let c1 = narrow(c, w.0, w.1, total_of(m));
        lemma_window_of_known(m, syms[i]);
        lemma_narrow_inside(q, c, w.0, w.1, total_of(m));
        lemma_run_len(p, q, c1, m, syms, i + 1);
        lemma_rescaling_progress(p, q, c1);
        assert(p * (syms.len() - i) == p * (syms.len() - (i + 1)) + p) by (nonlinear_arith);
    }
}

/// A rescaling within one half keeps the agreement of decoder and encoder
/// as it is.
proof fn lemma_step_half(
    p: nat,
    q: int,
    c: Coder,
    m: Seq<(u8, nat)>,
    syms: Seq<u8>,
    i: int,
    s: Seq<bool>,
    e: int,
)
    requires
        setting(p, q, c, m, syms, i),
        same_half(q, c),
        carries(q, c, m, syms, i, s, e),
    ensures
        carries(q, shift_half(q, c), m, syms, i, s, e + 1 + c.pending),
        agrees(p, q, c, m, syms, i, s, e) == agrees(
            p,
            q,
            shift_half(q, c),
            m,
            syms,
            i,
            s,
            e + 1 + c.pending,
        ),
{
    lemma_pow2_unfold((p - 1) as nat);
    lemma_pow2_pos((p - 2) as nat);
    let k = c.pending;
    let t = c.low >= 2 * q;
    let c1 = shift_half(q, c);
    let e1 = e + 1 + k;
    let tail = s.subrange(e, s.len() as int);
    let rest = run(q, c1, m, syms, i);
    let code = code_of(p, s, e, k);
    let pos = e + k + p;
    let n = (syms.len() - i) as nat;
    assert(tail == emit(t, k) + rest);
    assert(tail.len() == 1 + k + rest.len());
    assert(tail[0] == s[e + 0]);
    assert(s.subrange(e1, s.len() as int) =~= rest) by {
        assert forall|j: int| 0 <= j < rest.len() implies s.subrange(e1, s.len() as int)[j]
            == rest[j] by {
            assert(tail[1 + k + j] == s[e + (1 + k + j)]);
        }
    }
    let x = window(s, e1, p - 1);
    lemma_window_bound(s, e1, p - 1);
    lemma_window_head(s, e1, p as int);
    assert(window(s, e1, p as int) == 2 * x + bit_at(s, e1 + p - 1));
    assert(code_of(p, s, e1, 0) == window(s, e1, p as int));
    assert(code == (if t {
        2 * q
    } else {
        0
    }) + x);
    assert(code_half(q, code, bit_at(s, pos)) == code_of(p, s, e1, 0));
    assert(dec(q, c, code, m, s, pos, n) == dec(
        q,
        c1,
        code_half(q, code, bit_at(s, pos)),
        m,
        s,
        pos + 1,
        n,
    ));
}

/// A rescaling across the middle keeps the agreement of decoder and
/// encoder as it is.
proof fn lemma_step_middle(
    p: nat,
    q: int,
    c: Coder,
    m: Seq<(u8, nat)>,
    syms: Seq<u8>,
    i: int,
    s: Seq<bool>,
    e: int,
)
    requires
        setting(p, q, c, m, syms, i),
        !same_half(q, c),
        straddles(q, c),
        carries(q, c, m, syms, i, s, e),
    ensures
        carries(q, shift_middle(q, c), m, syms, i, s, e),
        agrees(p, q, c, m, syms, i, s, e) == agrees(p, q, shift_middle(q, c), m, syms, i, s, e),
{
    lemma_pow2_unfold((p - 1) as nat);
    lemma_pow2_pos((p - 2) as nat);
    let k = c.pending;
    let c1 = shift_middle(q, c);
    let tail = s.subrange(e, s.len() as int);
    let code = code_of(p, s, e, k);
    let pos = e + k + p;
    let n = (syms.len() - i) as nat;
    assert(run(q, c, m, syms, i) == run(q, c1, m, syms, i));
    lemma_run_shape(q, c1, m, syms, i);
    assert(tail[0] == s[e + 0]);
    assert(tail[k as int + 1] == s[e + (k + 1)]);
    assert(tail[k as int + 1] != tail[0]);
    assert(bit_at(s, e + k + 1) == 1 - bit_at(s, e));
    let y = window(s, e + k + 2, p - 2);
    lemma_window_bound(s, e + k + 2, p - 2);
    lemma_window_head(s, e + 1 + k, p - 1);
    assert(window(s, e + k + 2, p - 1) == 2 * y + bit_at(s, e + k + 2 + (p - 1) - 1));
    let code1 = code_of(p, s, e, k + 1);
    assert(code_middle(q, code, bit_at(s, pos)) == code1);
    assert(dec(q, c, code, m, s, pos, n) == dec(
        q,
        c1,
        code_middle(q, code, bit_at(s, pos)),
        m,
        s,
        pos + 1,
        n,
    ));
}

/// At the end the code register names the quarter point: decoder and
/// encoder agree where the last interval reaches down to it.
proof fn lemma_step_end(
    p: nat,
    q: int,
    c: Coder,
    m: Seq<(u8, nat)>,
    syms: Seq<u8>,
    i: int,
    s: Seq<bool>,
    e: int,
)
    requires
        setting(p, q, c, m, syms, i),
        settled(q, c),
        i >= syms.len(),
        carries(q, c, m, syms, i, s, e),
    ensures
        agrees(p, q, c, m, syms, i, s, e) == (c.low <= q),
{
    lemma_pow2_unfold((p - 1) as nat);
    lemma_pow2_pos((p - 2) as nat);
    let k = c.pending;
    let tail = s.subrange(e, s.len() as int);
    assert(tail == emit(c.low >= 2 * q, k + 1));
    assert(tail.len() == k + 2);
    assert(tail[0] == s[e + 0]);
    assert(tail[k as int + 1] == s[e + (k + 1)]);
    lemma_window_head(s, e + 1 + k, p - 1);
    lemma_window_zero(s, e + k + 2, p - 2);
    assert(code_of(p, s, e, k) == q);
    assert(syms.subrange(i, syms.len() as int) =~= Seq::<u8>::empty());
}

/// Narrowing for a symbol keeps the agreement of decoder and encoder as
/// it is: the code register lies in the narrowed interval exactly where the
/// decoder finds the symbol.
proof fn lemma_step_symbol(
    p: nat,
    q: int,
    c: Coder,
    m: Seq<(u8, nat)>,
    syms: Seq<u8>,
    i: int,
    s: Seq<bool>,
    e: int,
)
    requires
        setting(p, q, c, m, syms, i),
        settled(q, c),
        i < syms.len(),
        carries(q, c, m, syms, i, s, e),
    ensures
        setting(
            p,
            q,
            narrow(c, window_of(m, syms[i]).0, window_of(m, syms[i]).1, total_of(m)),
            m,
            syms,
            i + 1,
        ),
        carries(
            q,
            narrow(c, window_of(m, syms[i]).0, window_of(m, syms[i]).1, total_of(m)),
            m,
            syms,
            i + 1,
            s,
            e,
        ),
        agrees(p, q, c, m, syms, i, s, e) == agrees(
            p,
            q,
            narrow(c, window_of(m, syms[i]).0, window_of(m, syms[i]).1, total_of(m)),
            m,
            syms,
            i + 1,
            s,
            e,
        ),
{
    let k = c.pending;
    let code = code_of(p, s, e, k);
    let pos = e + k + p;
    let n = (syms.len() - i) as nat;
    let b = syms[i];
    let w = window_of(m, b);
    let t = total_of(m);
    let c1 = narrow(c, w.0, w.1, t);
    let whole = syms.subrange(i, syms.len() as int);
    let later = syms.subrange(i + 1, syms.len() as int);
    lemma_window_of_known(m, b);
    lemma_narrow_inside(q, c, w.0, w.1, t);
    assert(run(q, c, m, syms, i) == run(q, c1, m, syms, i + 1));
    assert(seq![b] + later =~= whole);
    if agrees(p, q, c1, m, syms, i + 1, s, e) {
        lemma_target_forward(c, code, w.0, w.1, t);
        lemma_symbol_at_window(m, b, target(c, code, t) as nat);
    }
    if agrees(p, q, c, m, syms, i, s, e) {
        lemma_target_bound(c, code, t);
        let v = target(c, code, t) as nat;
        let found = symbol_at(m, v);
        let wf = window_of(m, found);
        let inner = dec(q, narrow(c, wf.0, wf.1, t), code, m, s, pos, (n - 1) as nat);
        assert(inner is Ok);
        let rest = inner->Ok_0;
        assert(seq![found] + rest == whole);
        assert((seq![found] + rest)[0] == found);
        assert(whole[0] == b);
        assert(rest =~= later) by {
            assert forall|j: int| 0 <= j < rest.len() implies rest[j] == syms[i + 1 + j] by {
                assert((seq![found] + rest)[j + 1] == rest[j]);
                assert(whole[j + 1] == syms[i + (j + 1)]);
            }
        }
        lemma_windows_partition(m, v);
        let at = choose|at: int| in_window(m, at, v);
        lemma_index_unique(m, at);
        lemma_target_backward(c, code, w.0, w.1, t);
    }
}

/// The decoder follows the encoder exactly where the encoder ends low. Let
/// the stream `s` hold from position `e` on the bits that the encoder sends
/// from state `c` for the symbols `syms[i..]`. If the interval in which the
/// encoder ends reaches down to the quarter, the code register that belongs
/// to `e` lies inside `c`, and the decoder, started in `c` with that
/// register, gives `syms[i..]`. If it does not, the register lies outside
/// `c`, or the decoder gives something else.
pub proof fn lemma_agreement(
    p: nat,
    q: int,
    c: Coder,
    m: Seq<(u8, nat)>,
    syms: Seq<u8>,
    i: int,
    s: Seq<bool>,
    e: int,
)
    requires
        setting(p, q, c, m, syms, i),
        carries(q, c, m, syms, i, s, e),
    ensures
        agrees(p, q, c, m, syms, i, s, e) == ends_low(q, c, m, syms, i),
    decreases syms.len() - i, 4 * q - width(c),
{
    if same_half(q, c) {
        let c1 = shift_half(q, c);
        lemma_step_half(p, q, c, m, syms, i, s, e);
        assert(last_state(q, c1, m, syms, i) == last_state(q, c, m, syms, i));
        lemma_agreement(p, q, c1, m, syms, i, s, e + 1 + c.pending);
    } else if straddles(q, c) {
        let c1 = shift_middle(q, c);
        lemma_step_middle(p, q, c, m, syms, i, s, e);
        assert(last_state(q, c1, m, syms, i) == last_state(q, c, m, syms, i));
        lemma_agreement(p, q, c1, m, syms, i, s, e);
    } else if i >= syms.len() {
        assert(last_state(q, c, m, syms, i) == c);
        lemma_step_end(p, q, c, m, syms, i, s, e);
    } else {
        let w = window_of(m, syms[i]);
        let c1 = narrow(c, w.0, w.1, total_of(m));
        lemma_step_symbol(p, q, c, m, syms, i, s, e);
        assert(last_state(q, c1, m, syms, i + 1) == last_state(q, c, m, syms, i));
        lemma_agreement(p, q, c1, m, syms, i + 1, s, e);
    }
}

} // verus!
