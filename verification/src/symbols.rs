use vstd::prelude::*;
use crate::error::CodingError;

verus! {

/// Sum of the counts of the first `i` entries: the lower end of entry `i`'s
/// window, and the upper end of entry `i - 1`'s.
pub open spec fn lower(m: Seq<(u8, nat)>, i: int) -> nat
    decreases i,
{
    if i <= 0 {
        0
    } else {
        lower(m, i - 1) + m[i - 1].1
    }
}

/// Number of observations that a table stands for.
pub open spec fn total_of(m: Seq<(u8, nat)>) -> nat {
    lower(m, m.len() as int)
}

/// The table has an entry for `b`.
pub open spec fn has_byte(m: Seq<(u8, nat)>, b: u8) -> bool {
    exists|i: int| 0 <= i < m.len() && (#[trigger] m[i]).0 == b
}

/// Where the entry for `b` stands.
pub open spec fn index_of(m: Seq<(u8, nat)>, b: u8) -> int {
    choose|i: int| 0 <= i < m.len() && (#[trigger] m[i]).0 == b
}

/// No byte has two entries.
pub open spec fn distinct(m: Seq<(u8, nat)>) -> bool {
    forall|i: int, j: int| 0 <= i < j < m.len() ==> (#[trigger] m[i]).0 != (#[trigger] m[j]).0
}

/// Every entry was seen at least once, so every window is non-empty.
pub open spec fn positive(m: Seq<(u8, nat)>) -> bool {
    forall|i: int| 0 <= i < m.len() ==> (#[trigger] m[i]).1 >= 1
}

/// What holds of every table: no byte twice, no count of zero.
pub open spec fn valid_model(m: Seq<(u8, nat)>) -> bool {
    distinct(m) && positive(m)
}

/// The table after one more occurrence of `b`: its entry grows by one, or a
/// new entry with count one is appended behind the others.
pub open spec fn observe(m: Seq<(u8, nat)>, b: u8) -> Seq<(u8, nat)> {
    if has_byte(m, b) {
        let i = index_of(m, b);
        m.update(i, (b, m[i].1 + 1))
    } else {
        m.push((b, 1))
    }
}

/// The table of a whole input: its entries stand in order of first occurrence.
pub open spec fn tally(s: Seq<u8>) -> Seq<(u8, nat)>
    decreases s.len(),
{
    if s.len() == 0 {
        Seq::empty()
    } else {
        observe(tally(s.drop_last()), s.last())
    }
}

/// The cumulative window `[lo, hi)` of byte `b`.
pub open spec fn window_of(m: Seq<(u8, nat)>, b: u8) -> (nat, nat) {
    let i = index_of(m, b);
    (lower(m, i), lower(m, i + 1))
}

/// Whether `v` lies in the window of entry `i`.
pub open spec fn in_window(m: Seq<(u8, nat)>, i: int, v: nat) -> bool {
    0 <= i < m.len() && lower(m, i) <= v < lower(m, i + 1)
}

/// The byte whose window holds `v`.
pub open spec fn symbol_at(m: Seq<(u8, nat)>, v: nat) -> u8 {
    m[choose|i: int| in_window(m, i, v)].0
}

/// Window ends do not fall from entry to entry.
pub proof fn lemma_lower_monotonic(m: Seq<(u8, nat)>, i: int, j: int)
    requires
        i <= j,
    ensures
        lower(m, i) <= lower(m, j),
    decreases j - i,
{
    if i < j {
        lemma_lower_monotonic(m, i, j - 1);
    }
}

/// With counts of at least one, window ends rise from entry to entry.
pub proof fn lemma_lower_strict(m: Seq<(u8, nat)>, i: int, j: int)
    requires
        positive(m),
        0 <= i < j <= m.len(),
    ensures
        lower(m, i) < lower(m, j),
    decreases j - i,
{
    if i + 1 < j {
        lemma_lower_strict(m, i, j - 1);
    }
}

/// The windows of a table tile `[0, total)`: each point below the total lies
/// in the window of exactly one entry, neighbours share an end point, the
/// first window starts at zero and the last one ends at the total.
pub proof fn lemma_windows_partition(m: Seq<(u8, nat)>, v: nat)
    requires
        positive(m),
        v < total_of(m),
    ensures
        exists|i: int| in_window(m, i, v),
        forall|i: int, j: int| in_window(m, i, v) && in_window(m, j, v) ==> i == j,
        lower(m, 0) == 0,
        forall|i: int| 0 <= i < m.len() ==> lower(m, i) < #[trigger] lower(m, i + 1),
{
    lemma_window_exists(m, v, m.len() as int);
    assert forall|i: int, j: int| in_window(m, i, v) && in_window(m, j, v) implies i == j by {
        if i < j {
            lemma_lower_monotonic(m, i + 1, j);
        } else if j < i {
            lemma_lower_monotonic(m, j + 1, i);
        }
    }
    assert forall|i: int| 0 <= i < m.len() implies lower(m, i) < #[trigger] lower(m, i + 1) by {
        lemma_lower_strict(m, i, i + 1);
    }
}

/// A point below a window end lies in the window of an entry before it.
proof fn lemma_window_exists(m: Seq<(u8, nat)>, v: nat, n: int)
    requires
        0 <= n <= m.len(),
        v < lower(m, n),
    ensures
        exists|i: int| in_window(m, i, v),
    decreases n,
{
    if v >= lower(m, n - 1) {
        assert(in_window(m, n - 1, v));
    } else {
        lemma_window_exists(m, v, n - 1);
    }
}

/// In a table without double entries, the entry of a byte is found by its byte.
pub proof fn lemma_index_unique(m: Seq<(u8, nat)>, i: int)
    requires
        distinct(m),
        0 <= i < m.len(),
    ensures
        has_byte(m, m[i].0),
        index_of(m, m[i].0) == i,
{
    let b = m[i].0;
    assert(has_byte(m, b));
    let j = index_of(m, b);
    assert(0 <= j < m.len() && m[j].0 == b);
    if j != i {
        if j < i {
            assert(m[j].0 != m[i].0);
        } else {
            assert(m[i].0 != m[j].0);
        }
    }
}

/// A point of a byte's window is looked up to that byte.
pub proof fn lemma_symbol_at_window(m: Seq<(u8, nat)>, b: u8, v: nat)
    requires
        valid_model(m),
        has_byte(m, b),
        window_of(m, b).0 <= v < window_of(m, b).1,
    ensures
        v < total_of(m),
        symbol_at(m, v) == b,
{
    let i = index_of(m, b);
    assert(in_window(m, i, v));
    lemma_lower_monotonic(m, i + 1, m.len() as int);
    lemma_windows_partition(m, v);
}

/// Window ends depend on the counts before them alone.
pub proof fn lemma_lower_prefix(m: Seq<(u8, nat)>, k: Seq<(u8, nat)>, n: int)
    requires
        0 <= n <= m.len(),
        n <= k.len(),
        forall|i: int| 0 <= i < n ==> m[i].1 == k[i].1,
    ensures
        lower(m, n) == lower(k, n),
    decreases n,
{
    if n > 0 {
        lemma_lower_prefix(m, k, n - 1);
    }
}

/// One more occurrence of an entry raises the window ends behind it by one.
proof fn lemma_lower_bump(m: Seq<(u8, nat)>, i: int, b: u8, n: int)
    requires
        0 <= i < m.len(),
        0 <= n <= m.len(),
    ensures
        lower(m.update(i, (b, m[i].1 + 1)), n) == lower(m, n) + if n > i { 1nat } else { 0nat },
    decreases n,
{
    if n > 0 {
        lemma_lower_bump(m, i, b, n - 1);
    }
}

/// One observation keeps a table valid, adds one to its total, leaves the
/// bytes it held in their places, and makes the observed byte known.
pub proof fn lemma_observe(m: Seq<(u8, nat)>, b: u8)
    requires
        valid_model(m),
    ensures
        valid_model(observe(m, b)),
        total_of(observe(m, b)) == total_of(m) + 1,
        has_byte(observe(m, b), b),
        forall|c: u8| has_byte(m, c) ==> has_byte(observe(m, b), c),
        observe(m, b).len() >= m.len(),
        forall|i: int| 0 <= i < m.len() ==> (#[trigger] observe(m, b)[i]).0 == m[i].0,
{
    let r = observe(m, b);
    if has_byte(m, b) {
        let i = index_of(m, b);
        lemma_lower_bump(m, i, b, m.len() as int);
        assert(r[i].0 == b);
        assert forall|c: u8| has_byte(m, c) implies has_byte(r, c) by {
            let j = index_of(m, c);
            assert(r[j].0 == c);
        }
    } else {
        lemma_lower_prefix(m, r, m.len() as int);
        assert(r[m.len() as int].0 == b);
        assert forall|c: u8| has_byte(m, c) implies has_byte(r, c) by {
            let j = index_of(m, c);
            assert(r[j].0 == c);
        }
    }
}

/// The table of an input is valid, counts every byte of it, and knows each
/// byte that occurs in it.
pub proof fn lemma_tally(s: Seq<u8>)
    ensures
        valid_model(tally(s)),
        total_of(tally(s)) == s.len(),
        forall|j: int| 0 <= j < s.len() ==> has_byte(tally(s), #[trigger] s[j]),
    decreases s.len(),
{
    if s.len() > 0 {
        let p = s.drop_last();
        lemma_tally(p);
        lemma_observe(tally(p), s.last());
        assert forall|j: int| 0 <= j < s.len() implies has_byte(tally(s), #[trigger] s[j]) by {
            if j < s.len() - 1 {
                assert(p[j] == s[j]);
            }
        }
    }
}

/// No entry stands before one with a smaller or the same byte.
pub open spec fn ascending(m: Seq<(u8, nat)>) -> bool {
    forall|i: int, j: int| 0 <= i < j < m.len() ==> (#[trigger] m[i]).0 < (#[trigger] m[j]).0
}

/// The entries of a table whose byte lies below `k`, ascending by byte.
pub open spec fn by_byte_below(m: Seq<(u8, nat)>, k: int) -> Seq<(u8, nat)>
    decreases k,
{
    if k <= 0 {
        Seq::empty()
    } else if has_byte(m, (k - 1) as u8) {
        by_byte_below(m, k - 1).push(m[index_of(m, (k - 1) as u8)])
    } else {
        by_byte_below(m, k - 1)
    }
}

/// The entries of a table, ascending by byte: the order of a frozen table.
pub open spec fn by_byte(m: Seq<(u8, nat)>) -> Seq<(u8, nat)> {
    by_byte_below(m, 256)
}

/// The frozen table of a whole input: one entry for each byte that occurs,
/// with the number of its occurrences, ascending by byte.
pub open spec fn census(s: Seq<u8>) -> Seq<(u8, nat)> {
    by_byte(tally(s))
}

/// How often byte `b` is counted by the first `n` entries.
pub open spec fn hits(m: Seq<(u8, nat)>, n: int, b: int) -> nat
    decreases n,
{
    if n <= 0 {
        0
    } else {
        hits(m, n - 1, b) + if m[n - 1].0 == b {
            m[n - 1].1
        } else {
            0
        }
    }
}

/// How often the bytes below `k` are counted by the first `n` entries.
pub open spec fn mass(m: Seq<(u8, nat)>, n: int, k: int) -> nat
    decreases k,
{
    if k <= 0 {
        0
    } else {
        mass(m, n, k - 1) + hits(m, n, k - 1)
    }
}

/// An ascending table has no byte twice.
pub proof fn lemma_ascending_distinct(m: Seq<(u8, nat)>)
    requires
        ascending(m),
    ensures
        distinct(m),
{
    assert forall|i: int, j: int| 0 <= i < j < m.len() implies (#[trigger] m[i]).0 != (
    #[trigger] m[j]).0 by {
        assert(m[i].0 < m[j].0);
    }
}

/// What the entries below `k` are: they ascend, each is the entry that the
/// table has for its byte, and each byte below `k` that the table knows has
/// its entry among them.
pub proof fn lemma_by_byte_below(m: Seq<(u8, nat)>, k: int)
    requires
        0 <= k <= 256,
    ensures
        ascending(by_byte_below(m, k)),
        forall|i: int|
            0 <= i < by_byte_below(m, k).len() ==> {
                let e = #[trigger] by_byte_below(m, k)[i];
                e.0 < k && has_byte(m, e.0) && e == m[index_of(m, e.0)]
            },
        forall|b: u8|
            b < k && has_byte(m, b) ==> #[trigger] has_byte(by_byte_below(m, k), b)
                && by_byte_below(m, k)[index_of(by_byte_below(m, k), b)] == m[index_of(m, b)],
    decreases k,
{
    if k > 0 {
        lemma_by_byte_below(m, k - 1);
        let u = by_byte_below(m, k - 1);
        let v = by_byte_below(m, k);
        let top = (k - 1) as u8;
        if has_byte(m, top) {
            let e = m[index_of(m, top)];
            assert(v == u.push(e));
            assert forall|i: int, j: int| 0 <= i < j < v.len() implies (#[trigger] v[i]).0 < (
            #[trigger] v[j]).0 by {
                if j < u.len() {
                    assert(u[i].0 < u[j].0);
                } else {
                    assert(v[i] == u[i]);
                }
            }
        } else {
            assert(v == u);
        }
        lemma_ascending_distinct(v);
        assert forall|i: int| 0 <= i < v.len() implies ({
            let e = #[trigger] v[i];
            e.0 < k && has_byte(m, e.0) && e == m[index_of(m, e.0)]
        }) by {
            if i < u.len() {
                assert(v[i] == u[i]);
            }
        }
        assert forall|b: u8| b < k && has_byte(m, b) implies #[trigger] has_byte(v, b)
            && v[index_of(v, b)] == m[index_of(m, b)] by {
            if b == top {
                let last = v.len() - 1;
                assert(v[last] == m[index_of(m, top)]);
                assert(v[last].0 == b);
                lemma_index_unique(v, last);
            } else {
                let i = index_of(u, b);
                assert(has_byte(u, b));
                assert(0 <= i < u.len() && u[i].0 == b);
                assert(v[i] == u[i]);
                lemma_index_unique(v, i);
            }
        }
    }
}

/// In a table without double entries, a byte is counted as often as its
/// entry says, and not at all where it has none.
pub proof fn lemma_hits(m: Seq<(u8, nat)>, n: int, b: int)
    requires
        distinct(m),
        0 <= n <= m.len(),
    ensures
        (forall|j: int| 0 <= j < n ==> (#[trigger] m[j]).0 != b) ==> hits(m, n, b) == 0,
        forall|j: int| 0 <= j < n && (#[trigger] m[j]).0 == b ==> hits(m, n, b) == m[j].1,
    decreases n,
{
    if n > 0 {
        lemma_hits(m, n - 1, b);
        assert forall|j: int| 0 <= j < n && (#[trigger] m[j]).0 == b implies hits(m, n, b)
            == m[j].1 by {
            if j == n - 1 {
                assert forall|l: int| 0 <= l < n - 1 implies (#[trigger] m[l]).0 != b by {
                    assert(m[l].0 != m[n - 1].0);
                }
            } else {
                assert(m[j].0 != m[n - 1].0);
            }
        }
    }
}

/// One more entry adds its count to the mass of the bytes above its own.
pub proof fn lemma_mass_step(m: Seq<(u8, nat)>, n: int, k: int)
    requires
        0 < n,
        0 <= k,
    ensures
        mass(m, n, k) == mass(m, n - 1, k) + if m[n - 1].0 < k {
            m[n - 1].1
        } else {
            0
        },
    decreases k,
{
    if k > 0 {
        lemma_mass_step(m, n, k - 1);
    }
}

/// All entries together count as much as the table's windows span.
pub proof fn lemma_mass_all(m: Seq<(u8, nat)>, n: int)
    requires
        0 <= n <= m.len(),
    ensures
        mass(m, n, 256) == lower(m, n),
    decreases n,
{
    if n > 0 {
        lemma_mass_all(m, n - 1);
        lemma_mass_step(m, n, 256);
    } else {
        lemma_mass_none(m, 256);
    }
}

/// No entries count nothing.
pub proof fn lemma_mass_none(m: Seq<(u8, nat)>, k: int)
    ensures
        mass(m, 0, k) == 0,
    decreases k,
{
    if k > 0 {
        lemma_mass_none(m, k - 1);
    }
}

/// The entries below `k` count what the table counts for the bytes below `k`.
pub proof fn lemma_by_byte_below_total(m: Seq<(u8, nat)>, k: int)
    requires
        distinct(m),
        0 <= k <= 256,
    ensures
        total_of(by_byte_below(m, k)) == mass(m, m.len() as int, k),
    decreases k,
{
    if k > 0 {
        lemma_by_byte_below_total(m, k - 1);
        let u = by_byte_below(m, k - 1);
        let top = (k - 1) as u8;
        lemma_hits(m, m.len() as int, k - 1);
        if has_byte(m, top) {
            let e = m[index_of(m, top)];
            let v = u.push(e);
            lemma_lower_prefix(u, v, u.len() as int);
            assert(v[u.len() as int] == e);
        }
    }
}

/// An ascending table holds its entries below `k` as a prefix.
pub proof fn lemma_by_byte_prefix(a: Seq<(u8, nat)>, k: int) -> (n: int)
    requires
        ascending(a),
        0 <= k <= 256,
    ensures
        0 <= n <= a.len(),
        forall|i: int| 0 <= i < n ==> (#[trigger] a[i]).0 < k,
        forall|i: int| n <= i < a.len() ==> (#[trigger] a[i]).0 >= k,
        by_byte_below(a, k) == a.take(n),
    decreases k,
{
    if k <= 0 {
        assert(by_byte_below(a, k) =~= a.take(0));
        0
    } else {
        let n1 = lemma_by_byte_prefix(a, k - 1);
        let top = (k - 1) as u8;
        lemma_ascending_distinct(a);
        if n1 < a.len() && a[n1].0 == top {
            lemma_index_unique(a, n1);
            assert(a.take(n1).push(a[n1]) =~= a.take(n1 + 1));
            assert forall|i: int| n1 + 1 <= i < a.len() implies (#[trigger] a[i]).0 >= k by {
                assert(a[n1].0 < a[i].0);
            }
            n1 + 1
        } else {
            assert forall|i: int| n1 <= i < a.len() implies (#[trigger] a[i]).0 >= k by {
                if i > n1 {
                    assert(a[n1].0 < a[i].0);
                }
            }
            assert(!has_byte(a, top)) by {
                if has_byte(a, top) {
                    let j = index_of(a, top);
                    assert(a[j].0 == top);
                }
            }
            n1
        }
    }
}

/// Each byte that `m` knows has in `u` the entry that it has in `m`.
pub open spec fn keeps_entries(m: Seq<(u8, nat)>, u: Seq<(u8, nat)>) -> bool {
    forall|b: u8|
        has_byte(m, b) ==> #[trigger] has_byte(u, b) && u[index_of(u, b)] == m[index_of(m, b)]
}

/// The table with every count set to one.
pub open spec fn ones(m: Seq<(u8, nat)>) -> Seq<(u8, nat)> {
    m.map_values(|e: (u8, nat)| (e.0, 1nat))
}

/// With every count set to one, the windows end at the number of entries.
pub proof fn lemma_ones_total(m: Seq<(u8, nat)>, n: int)
    requires
        0 <= n <= m.len(),
    ensures
        lower(ones(m), n) == n,
    decreases n,
{
    if n > 0 {
        lemma_ones_total(m, n - 1);
    }
}

/// Setting every count to one leaves each byte where it stands.
pub proof fn lemma_ones_has(m: Seq<(u8, nat)>, b: u8)
    requires
        distinct(m),
    ensures
        distinct(ones(m)),
        has_byte(ones(m), b) == has_byte(m, b),
        has_byte(m, b) ==> index_of(ones(m), b) == index_of(m, b),
{
    let o = ones(m);
    assert forall|i: int, j: int| 0 <= i < j < o.len() implies (#[trigger] o[i]).0 != (
    #[trigger] o[j]).0 by {
        assert(m[i].0 != m[j].0);
    }
    if has_byte(m, b) {
        let i = index_of(m, b);
        assert(o[i].0 == b);
        lemma_index_unique(o, i);
    }
    if has_byte(o, b) {
        let i = index_of(o, b);
        assert(m[i].0 == b);
    }
}

/// Ordering by byte and setting every count to one can be done in either
/// order.
pub proof fn lemma_by_byte_below_ones(m: Seq<(u8, nat)>, k: int)
    requires
        distinct(m),
        0 <= k <= 256,
    ensures
        by_byte_below(ones(m), k) == ones(by_byte_below(m, k)),
    decreases k,
{
    if k > 0 {
        lemma_by_byte_below_ones(m, k - 1);
        lemma_ones_has(m, (k - 1) as u8);
    }
    assert(by_byte_below(ones(m), k) =~= ones(by_byte_below(m, k)));
}

/// Ordering by byte neither drops an entry nor adds one.
pub proof fn lemma_by_byte_len(m: Seq<(u8, nat)>)
    requires
        distinct(m),
    ensures
        by_byte(m).len() == m.len(),
{
    lemma_ones_has(m, 0);
    lemma_by_byte_below_total(ones(m), 256);
    lemma_mass_all(ones(m), m.len() as int);
    lemma_ones_total(m, m.len() as int);
    lemma_by_byte_below_ones(m, 256);
    lemma_ones_total(by_byte(m), by_byte(m).len() as int);
}

/// Ordering by byte keeps a table valid, keeps its length, counts and knows
/// what the table counts and knows, gives each byte the entry it had, and
/// leaves a table alone that ascends already, so that ordering twice is
/// ordering once.
pub proof fn lemma_by_byte(m: Seq<(u8, nat)>)
    requires
        valid_model(m),
    ensures
        valid_model(by_byte(m)),
        ascending(by_byte(m)),
        by_byte(m).len() == m.len(),
        total_of(by_byte(m)) == total_of(m),
        forall|b: u8| has_byte(m, b) == #[trigger] has_byte(by_byte(m), b),
        keeps_entries(m, by_byte(m)),
        by_byte(by_byte(m)) == by_byte(m),
{
    let u = by_byte(m);
    lemma_by_byte_below(m, 256);
    lemma_by_byte_len(m);
    lemma_ascending_distinct(u);
    lemma_by_byte_below_total(m, 256);
    lemma_mass_all(m, m.len() as int);
    assert forall|i: int| 0 <= i < u.len() implies (#[trigger] u[i]).1 >= 1 by {
        let e = u[i];
        assert(e == m[index_of(m, e.0)]);
    }
    assert forall|b: u8| has_byte(m, b) == #[trigger] has_byte(u, b) by {
        if has_byte(u, b) {
            let i = index_of(u, b);
            assert(u[i].0 == b);
        }
    }
    lemma_by_byte_of_ascending(u);
}

/// A table that ascends by byte is in the order of a frozen table.
pub proof fn lemma_by_byte_of_ascending(a: Seq<(u8, nat)>)
    requires
        ascending(a),
    ensures
        by_byte(a) == a,
{
    let n = lemma_by_byte_prefix(a, 256);
    if n < a.len() {
        assert(a[n].0 >= 256);
    }
    assert(a.take(n) =~= a);
}

/// The frozen table of an input is valid and ascends by byte, counts every
/// byte of the input, and knows each byte that occurs in it.
pub proof fn lemma_census(s: Seq<u8>)
    ensures
        valid_model(census(s)),
        ascending(census(s)),
        total_of(census(s)) == s.len(),
        forall|j: int| 0 <= j < s.len() ==> has_byte(census(s), #[trigger] s[j]),
        by_byte(census(s)) == census(s),
{
    lemma_tally(s);
    lemma_by_byte(tally(s));
}

/// The entries of a table as numbers.
pub open spec fn model_of(table: Seq<(u8, u64)>) -> Seq<(u8, nat)> {
    table.map_values(|e: (u8, u64)| (e.0, e.1 as nat))
}

/// Entries that a table can be made of: no byte twice, no count of zero,
/// and a total that sixty-four bits hold.
pub open spec fn valid_table(table: Seq<(u8, u64)>) -> bool {
    valid_model(model_of(table)) && total_of(model_of(table)) <= u64::MAX
}

/// The upper ends of all windows of a table, entry by entry.
pub open spec fn uppers(m: Seq<(u8, nat)>) -> Seq<nat> {
    Seq::new(m.len(), |i: int| lower(m, i + 1))
}

/// Byte frequencies of an input, and, once frozen, the cumulative windows
/// that the coder narrows by.
///
/// While the table is open, entries stand in the order in which their
/// bytes were first observed. Freezing puts them in ascending order of their
/// bytes, and the windows are laid out in that order.
#[derive(Debug, Clone)]
pub struct Symbols {
    /// One entry per observed byte: the byte and how often it was observed.
    pub table: Vec<(u8, u64)>,
    /// Number of observations.
    pub total: u64,
    /// Once frozen: for each entry the upper end of its window.
    pub accumulated: Vec<u64>,
    /// Whether the windows have been laid out.
    pub frozen: bool,
}

impl View for Symbols {
    type V = Seq<(u8, nat)>;

    open spec fn view(&self) -> Seq<(u8, nat)> {
        model_of(self.table@)
    }
}

impl Symbols {
    /// The windows are those of the table.
    pub open spec fn windows_set(&self) -> bool {
        self.accumulated@.map_values(|a: u64| a as nat) == uppers(self@)
    }

    /// The entries are valid, the total is their sum, and a frozen table
    /// holds the windows of its entries.
    pub open spec fn wf(&self) -> bool {
        &&& valid_model(self@)
        &&& self.total == total_of(self@)
        &&& self.frozen ==> self.windows_set()
    }

    /// An empty table that is still open for observations: no entry, no
    /// observation counted, and no window laid out.
    pub fn new() -> (r: Self)
        ensures
            r.wf(),
            r@ == Seq::<(u8, nat)>::empty(),
            r.total == 0,
            r.accumulated@ == Seq::<u64>::empty(),
            !r.frozen,
    {
        let table: Vec<(u8, u64)> = Vec::new();
        let total: u64 = 0;
        let r = Self { table, total, accumulated: Vec::new(), frozen: false };
        assert(r@ =~= Seq::<(u8, nat)>::empty());
        r
    }

    /// A frozen table of the given entries, put in ascending order of
    /// their bytes. Entries that name a byte twice, count nothing, or sum up
    /// beyond sixty-four bits are refused.
    pub fn from_table(table: Vec<(u8, u64)>) -> (r: Result<Self, CodingError>)
        ensures
            match r {
                Ok(symbols) => valid_table(table@) && symbols@ == by_byte(model_of(table@))
                    && symbols.wf() && symbols.frozen,
                Err(e) => e == CodingError::BadContainer && !valid_table(table@),
            },
    {
        let ghost m = model_of(table@);
        let mut seen: Vec<bool> = Vec::new();
        let mut k: usize = 0;
        while k < 256
            invariant
                k <= 256,
                seen@.len() == k,
                forall|b: int| 0 <= b < k ==> !(#[trigger] seen@[b]),
            decreases 256 - k,
        {
            seen.push(false);
            k += 1;
        }
        let mut total: u64 = 0;
        let mut i: usize = 0;
        while i < table.len()
            invariant
                m == model_of(table@),
                i <= table@.len(),
                seen@.len() == 256,
                total == lower(m, i as int),
                forall|j: int| 0 <= j < i ==> (#[trigger] m[j]).1 >= 1,
                forall|j: int, l: int|
                    0 <= j < l < i ==> (#[trigger] m[j]).0 != (#[trigger] m[l]).0,
                forall|b: int|
                    0 <= b < 256 ==> (#[trigger] seen@[b] <==> exists|j: int|
                        0 <= j < i && (#[trigger] m[j]).0 == b),
            decreases table@.len() - i,
        {
            let byte = table[i].0;
            let count = table[i].1;
            assert(m[i as int] == (byte, count as nat));
            if count == 0 {
                assert(!positive(m));
                return Err(CodingError::BadContainer);
            }
            if seen[byte as usize] {
                proof {
                    let j = choose|j: int| 0 <= j < i && (#[trigger] m[j]).0 == byte;
                    assert(m[j].0 == m[i as int].0);
                    assert(!distinct(m));
                }
                return Err(CodingError::BadContainer);
            }
            proof {
                lemma_lower_monotonic(m, i as int + 1, m.len() as int);
            }
            match total.checked_add(count) {
                Some(sum) => {
                    total = sum;
                },
                None => {
                    return Err(CodingError::BadContainer);
                },
            }
            let ghost before = seen@;
            seen.set(byte as usize, true);
            proof {
                assert forall|b: int| 0 <= b < 256 implies (#[trigger] seen@[b] <==> exists|j: int|
                    0 <= j < i + 1 && (#[trigger] m[j]).0 == b) by {
                    if b == byte {
                        assert(m[i as int].0 == b);
                    } else {
                        assert(seen@[b] == before[b]);
                        if before[b] {
                            let j = choose|j: int| 0 <= j < i && (#[trigger] m[j]).0 == b;
                            assert(0 <= j < i + 1 && m[j].0 == b);
                        }
                    }
                }
            }
            i += 1;
        }
        let mut symbols = Self { table, total, accumulated: Vec::new(), frozen: false };
        symbols.calculate_accumulated_frequency();
        Ok(symbols)
    }

    /// Index of the entry of `symbol`, or the table's length if it has none.
    fn position(&self, symbol: u8) -> (i: usize)
        requires
            distinct(self@),
        ensures
            i <= self.table@.len(),
            i < self.table@.len() ==> has_byte(self@, symbol) && index_of(self@, symbol) == i,
            i == self.table@.len() ==> !has_byte(self@, symbol),
    {
        let mut i: usize = 0;
        while i < self.table.len()
            invariant
                distinct(self@),
                i <= self.table@.len(),
                forall|j: int| 0 <= j < i ==> (#[trigger] self@[j]).0 != symbol,
            decreases self.table@.len() - i,
        {
            if self.table[i].0 == symbol {
                proof {
                    assert(self@[i as int].0 == symbol);
                    lemma_index_unique(self@, i as int);
                }
                return i;
            }
            i += 1;
        }
        i
    }

    /// Counts one more occurrence of `symbol`.
    pub fn add_symbol(&mut self, symbol: u8)
        requires
            old(self).wf(),
            !old(self).frozen,
            old(self).total < u64::MAX,
        ensures
            final(self).wf(),
            !final(self).frozen,
            final(self)@ == observe(old(self)@, symbol),
            final(self).total == old(self).total + 1,
    {
        let position = self.position(symbol);
        proof {
            lemma_observe(self@, symbol);
        }
        if position < self.table.len() {
            let count = self.table[position].1;
            proof {
                lemma_lower_monotonic(self@, position as int + 1, self@.len() as int);
            }
            self.table.set(position, (symbol, count + 1));
        } else {
            self.table.push((symbol, 1));
        }
        self.total += 1;
        assert(self@ =~= observe(old(self)@, symbol));
    }

    /// Freezes the table: puts the entries in ascending order of their
    /// bytes, and lays the windows out in that order, each one starting where
    /// the one before it ends. A table that is in that order stays as it is,
    /// so that a second call changes nothing.
    pub fn calculate_accumulated_frequency(&mut self)
        requires
            old(self).wf(),
        ensures
            final(self).wf(),
            final(self).frozen,
            final(self)@ == by_byte(old(self)@),
            ascending(final(self)@),
            final(self)@.len() == old(self)@.len(),
            keeps_entries(old(self)@, final(self)@),
            final(self).total == old(self).total,
            final(self).windows_set(),
    {
        let mut sorted: Vec<(u8, u64)> = Vec::new();
        let mut byte: usize = 0;
        while byte < 256
            invariant
                byte <= 256,
                *self == *old(self),
                distinct(self@),
                model_of(sorted@) == by_byte_below(self@, byte as int),
            decreases 256 - byte,
        {
            let position = self.position(byte as u8);
            if position < self.table.len() {
                let entry = self.table[position];
                proof {
                    assert(model_of(sorted@.push(entry)) =~= model_of(sorted@).push(
                        self@[position as int],
                    ));
                }
                sorted.push(entry);
            }
            byte += 1;
        }
        proof {
            lemma_by_byte(self@);
        }
        self.table = sorted;
        let mut accumulated: Vec<u64> = Vec::new();
        let mut accumulated_frequency: u64 = 0;
        let mut i: usize = 0;
        while i < self.table.len()
            invariant
                i <= self.table@.len(),
                self.total == total_of(self@),
                accumulated@.len() == i,
                accumulated_frequency == lower(self@, i as int),
                forall|j: int| 0 <= j < i ==> #[trigger] accumulated@[j] == lower(self@, j + 1),
            decreases self.table@.len() - i,
        {
            proof {
                lemma_lower_monotonic(self@, i as int + 1, self@.len() as int);
            }
            accumulated_frequency = accumulated_frequency + self.table[i].1;
            accumulated.push(accumulated_frequency);
            i += 1;
        }
        self.accumulated = accumulated;
        self.frozen = true;
        proof {
            lemma_by_byte(old(self)@);
            assert(self.accumulated@.map_values(|a: u64| a as nat) =~= uppers(self@));
        }
    }

    /// The window `[low, high)` of `symbol`.
    pub fn get_low_and_high(&self, symbol: u8) -> (r: Result<(u64, u64), CodingError>)
        requires
            self.wf(),
            self.frozen,
        ensures
            match r {
                Ok((low, high)) => has_byte(self@, symbol) && (low as nat, high as nat)
                    == window_of(self@, symbol),
                Err(e) => e == CodingError::UnknownSymbol && !has_byte(self@, symbol),
            },
    {
        let position = self.position(symbol);
        if position < self.table.len() {
            proof {
                self.lemma_accumulated(position as int);
                if position > 0 {
                    self.lemma_accumulated(position as int - 1);
                }
            }
            let low = if position == 0 {
                0
            } else {
                self.accumulated[position - 1]
            };
            let high = self.accumulated[position];
            Ok((low, high))
        } else {
            Err(CodingError::UnknownSymbol)
        }
    }

    /// The byte whose window holds `value`.
    pub fn get_symbol_by_value(&mut self, value: u64) -> (r: Result<u8, CodingError>)
        requires
            old(self).wf(),
            old(self).frozen,
        ensures
            *final(self) == *old(self),
            match r {
                Ok(b) => value < old(self).total && b == symbol_at(old(self)@, value as nat),
                Err(e) => e == CodingError::ValueOutOfRange && value >= old(self).total,
            },
    {
        let mut i: usize = 0;
        while i < self.table.len()
            invariant
                *self == *old(self),
                self.wf(),
                self.frozen,
                i <= self.table@.len(),
                lower(self@, i as int) <= value,
            decreases self.table@.len() - i,
        {
            proof {
                self.lemma_accumulated(i as int);
            }
            if value < self.accumulated[i] {
                proof {
                    assert(in_window(self@, i as int, value as nat));
                    lemma_lower_monotonic(self@, i as int + 1, self@.len() as int);
                    lemma_windows_partition(self@, value as nat);
                }
                return Ok(self.table[i].0);
            }
            i += 1;
        }
        Err(CodingError::ValueOutOfRange)
    }

    /// What a frozen table keeps for entry `i`.
    pub proof fn lemma_accumulated(&self, i: int)
        requires
            self.wf(),
            self.frozen,
            0 <= i < self.table@.len(),
        ensures
            self.accumulated@.len() == self.table@.len(),
            self.accumulated@[i] == lower(self@, i + 1),
    {
        let a = self.accumulated@.map_values(|a: u64| a as nat);
        assert(a.len() == uppers(self@).len());
        assert(a[i] == uppers(self@)[i]);
    }
}

} // verus!
