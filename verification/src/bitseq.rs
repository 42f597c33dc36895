use vstd::prelude::*;
use vstd::arithmetic::power2::{lemma_pow2_pos, lemma_pow2_unfold, pow2};

verus! {

/// The bit at position `i` of a stream that goes on with zeros behind its end.
pub open spec fn bit_at(s: Seq<bool>, i: int) -> int {
    if 0 <= i < s.len() && s[i] {
        1
    } else {
        0
    }
}

/// The number that the `n` bits from position `start` on spell, the first
/// one being the most significant.
pub open spec fn window(s: Seq<bool>, start: int, n: int) -> int
    decreases n,
{
    if n <= 0 {
        0
    } else {
        2 * window(s, start, n - 1) + bit_at(s, start + n - 1)
    }
}

pub proof fn lemma_window_bound(s: Seq<bool>, start: int, n: int)
    requires
        0 <= n,
    ensures
        0 <= window(s, start, n) < pow2(n as nat),
    decreases n,
{
    if n > 0 {
        lemma_window_bound(s, start, n - 1);
        lemma_pow2_unfold(n as nat);
    } else {
        lemma_pow2_pos(0);
    }
}

/// A window is its first bit, weighted, and the window behind that bit.
pub proof fn lemma_window_head(s: Seq<bool>, start: int, n: int)
    requires
        1 <= n,
    ensures
        window(s, start, n) == (if bit_at(s, start) == 1 {
            pow2((n - 1) as nat) as int
        } else {
            0
        }) + window(s, start + 1, n - 1),
    decreases n,
{
    if n == 1 {
        assert(window(s, start, 0) == 0);
        assert(window(s, start + 1, 0) == 0);
        assert(pow2(0) == 1) by {
            vstd::arithmetic::power2::lemma2_to64();
        }
        assert(window(s, start, 1) == 2 * window(s, start, 0) + bit_at(s, start));
    } else {
        lemma_window_head(s, start, n - 1);
        lemma_pow2_unfold((n - 1) as nat);
        assert(window(s, start + 1, n - 1) == 2 * window(s, start + 1, n - 2) + bit_at(
            s,
            start + n - 1,
        ));
    }
}

/// A window reads only the bits that it covers.
pub proof fn lemma_window_agree(s: Seq<bool>, t: Seq<bool>, start: int, at: int, n: int)
    requires
        0 <= n,
        forall|j: int|
            start <= j < start + n ==> #[trigger] bit_at(s, j) == bit_at(t, j + (at - start)),
    ensures
        window(s, start, n) == window(t, at, n),
    decreases n,
{
    if n > 0 {
        lemma_window_agree(s, t, start, at, n - 1);
    }
}

/// Behind the end of the stream every window is zero.
pub proof fn lemma_window_zero(s: Seq<bool>, start: int, n: int)
    requires
        s.len() <= start,
    ensures
        window(s, start, n) == 0,
    decreases n,
{
    if n > 0 {
        lemma_window_zero(s, start, n - 1);
    }
}

/// One more bit behind a window doubles it and adds the bit.
pub proof fn lemma_window_push(s: Seq<bool>, b: bool, start: int, n: int)
    requires
        0 <= n,
        0 <= start,
        start + n == s.len(),
    ensures
        window(s.push(b), start, n + 1) == 2 * window(s, start, n) + if b { 1int } else { 0int },
{
    let t = s.push(b);
    assert forall|j: int| start <= j < start + n implies #[trigger] bit_at(t, j) == bit_at(
        s,
        j + (start - start),
    ) by {
        assert(t[j] == s[j]);
    }
    lemma_window_agree(t, s, start, start, n);
    assert(t[start + n] == b);
}

} // verus!
