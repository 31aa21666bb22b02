//! Integer statistics of a round: the compute-operation percentiles and the
//! enemy tallies.
use vstd::prelude::*;
use crate::enemy::{Enemy, EnemyState};

verus! {

broadcast use vstd::seq_lib::group_to_multiset_ensures;

/// Index of the 99th percentile in a sorted list of `n > 0` values:
/// `floor(0.99 * (n - 1))`.
pub open spec fn p99_index(n: nat) -> int {
    (99 * (n - 1)) / 100
}

/// p50: the value at index `len / 2` (the higher of the two middles when the
/// length is even); 0 for an empty list.
pub fn p50_compute_ops(sorted: &[u64]) -> (r: u64)
    ensures
        r == if sorted@.len() == 0 { 0 } else { sorted@[(sorted@.len() / 2) as int] },
{
    if sorted.len() == 0 {
        return 0;
    }
    sorted[sorted.len() / 2]
}

/// p99: the value at index `floor(0.99 * (n - 1))`; 0 for an empty list.
pub fn p99_compute_ops(sorted: &[u64]) -> (r: u64)
    ensures
        r == if sorted@.len() == 0 { 0 } else { sorted@[p99_index(sorted@.len())] },
{
    if sorted.len() == 0 {
        return 0;
    }
    let n = sorted.len();
    let m = n - 1;
    let q = m / 100;
    let rem = m % 100;
    let idx = q * 99 + rem * 99 / 100;
    proof {
        lemma_p99_split(m as int, q as int, rem as int);
    }
    sorted[idx]
}

proof fn lemma_p99_split(m: int, q: int, rem: int)
    requires
        m >= 0,
        q == m / 100,
        rem == m % 100,
    ensures
        q * 99 + rem * 99 / 100 == (99 * m) / 100,
        q * 99 + rem * 99 / 100 <= m,
{
    assert(m == 100 * q + rem) by (nonlinear_arith)
        requires
            q == m / 100,
            rem == m % 100,
    ;
    assert(0 <= rem < 100);
    assert(99 * m == 100 * (99 * q) + 99 * rem) by (nonlinear_arith)
        requires
            m == 100 * q + rem,
    ;
    assert((100 * (99 * q) + 99 * rem) / 100 == 99 * q + (99 * rem) / 100) by (nonlinear_arith)
        requires
            0 <= rem < 100,
            q >= 0,
    ;
    assert(99 * rem / 100 <= rem) by (nonlinear_arith)
        requires
            0 <= rem < 100,
    ;
    assert(q * 99 <= 100 * q) by (nonlinear_arith)
        requires
            q >= 0,
    ;
}

/// Values in non-decreasing order.
pub open spec fn sorted_u64(s: Seq<u64>) -> bool {
    forall|i: int, j: int| 0 <= i <= j < s.len() ==> s[i] <= s[j]
}

/// The sum of the values.
pub open spec fn sum_u64(s: Seq<u64>) -> int
    decreases s.len(),
{
    if s.len() == 0 {
        0
    } else {
        sum_u64(s.drop_last()) + s.last()
    }
}

/// The largest value, 0 for an empty list.
pub open spec fn max_u64(s: Seq<u64>) -> u64
    decreases s.len(),
{
    if s.len() == 0 {
        0
    } else {
        let m = max_u64(s.drop_last());
        if s.last() > m {
            s.last()
        } else {
            m
        }
    }
}

/// The compute-operation statistics of a round.
#[derive(Clone, Copy, Debug, PartialEq, Eq, Structural)]
pub struct OpsSummary {
    pub decision_count: u64,
    pub total_compute_ops: u64,
    pub p50_compute_ops: u64,
    pub p99_compute_ops: u64,
    pub max_compute_ops: u64,
}

/// `<[u64]>::sort_unstable`: the same values in non-decreasing order.
#[verifier::external_body]
fn sort_unstable_u64(v: &mut Vec<u64>)
    ensures
        sorted_u64(final(v)@),
        final(v)@.to_multiset() == old(v)@.to_multiset(),
{
    v.sort_unstable()
}

proof fn lemma_sum_bounded(s: Seq<u64>, k: int)
    requires
        0 <= k <= s.len(),
    ensures
        0 <= sum_u64(s.take(k)),
        k < s.len() ==> sum_u64(s.take(k + 1)) == sum_u64(s.take(k)) + s[k],
        sum_u64(s.take(k)) <= sum_u64(s),
    decreases s.len() - k,
{
    if k < s.len() {
        assert(s.take(k + 1).drop_last() == s.take(k));
        lemma_sum_bounded(s, k + 1);
    } else {
        assert(s.take(k) == s);
    }
    lemma_sum_nonneg(s.take(k));
}

proof fn lemma_sum_nonneg(s: Seq<u64>)
    ensures
        0 <= sum_u64(s),
    decreases s.len(),
{
    if s.len() > 0 {
        lemma_sum_nonneg(s.drop_last());
    }
}

/// A list of values has one sorted arrangement: two sorted sequences that
/// hold the same values, each as often, are equal. So the percentiles and
/// the maximum that `summarize_compute_ops` states of every sorted
/// arrangement of the costs are those of the costs sorted.
pub proof fn lemma_sorted_unique(a: Seq<u64>, b: Seq<u64>)
    requires
        sorted_u64(a),
        sorted_u64(b),
        a.to_multiset() == b.to_multiset(),
    ensures
        a == b,
    decreases a.len(),
{
    vstd::seq_lib::to_multiset_len(a);
    vstd::seq_lib::to_multiset_len(b);
    if a.len() > 0 {
        let x = a.last();
        let y = b.last();
        assert(a.to_multiset().contains(x));
        assert(b.contains(x));
        assert(b[b.len() - 1] == y);
        assert(b.contains(y));
        assert(b.to_multiset().contains(y));
        assert(a.contains(y));
        assert(x == y) by {
            let i = choose|i: int| 0 <= i < b.len() && b[i] == x;
            let j = choose|j: int| 0 <= j < a.len() && a[j] == y;
            assert(b[i] <= y);
            assert(a[j] <= x);
        }
        vstd::seq_lib::to_multiset_remove(a, a.len() - 1);
        vstd::seq_lib::to_multiset_remove(b, b.len() - 1);
        assert(a.remove(a.len() - 1) == a.drop_last());
        assert(b.remove(b.len() - 1) == b.drop_last());
        lemma_sorted_unique(a.drop_last(), b.drop_last());
        assert(a == a.drop_last().push(x));
        assert(b == b.drop_last().push(y));
    }
}

/// Sorts the decision costs of a round and summarises them: how many
/// decisions there were, their total, p50, p99 and maximum.
pub fn summarize_compute_ops(compute_ops: Vec<u64>) -> (r: OpsSummary)
    requires
        sum_u64(compute_ops@) <= u64::MAX,
    ensures
        r.decision_count == compute_ops@.len(),
        r.total_compute_ops == sum_u64(compute_ops@),
        forall|s: Seq<u64>|
            sorted_u64(s) && s.to_multiset() == compute_ops@.to_multiset() ==> {
                &&& r.p50_compute_ops == (if s.len() == 0 { 0 } else { s[(s.len() / 2) as int] })
                &&& r.p99_compute_ops == (if s.len() == 0 { 0 } else { s[p99_index(s.len())] })
                &&& r.max_compute_ops == (if s.len() == 0 { 0 } else { s.last() })
            },
        r.max_compute_ops == max_u64(compute_ops@),
        exists|s: Seq<u64>| sorted_u64(s) && s.to_multiset() == compute_ops@.to_multiset(),
{
    let n = compute_ops.len();
    let mut total: u64 = 0;
    let mut max: u64 = 0;
    for i in 0..n
        invariant
            n == compute_ops@.len(),
            sum_u64(compute_ops@) <= u64::MAX,
            total == sum_u64(compute_ops@.take(i as int)),
            max == max_u64(compute_ops@.take(i as int)),
    {
        proof {
            lemma_sum_bounded(compute_ops@, i as int);
            lemma_sum_bounded(compute_ops@, i as int + 1);
            assert(compute_ops@.take(i as int + 1).drop_last() == compute_ops@.take(i as int));
        }
        total = total + compute_ops[i];
        if compute_ops[i] > max {
            max = compute_ops[i];
        }
    }
    assert(compute_ops@.take(n as int) == compute_ops@);
    let ghost original = compute_ops@;
    let mut sorted = compute_ops;
    sort_unstable_u64(&mut sorted);
    proof {
        vstd::seq_lib::to_multiset_len(original);
        vstd::seq_lib::to_multiset_len(sorted@);
        assert forall|s: Seq<u64>|
            sorted_u64(s) && s.to_multiset() == original.to_multiset() implies s == sorted@ by {
            lemma_sorted_unique(s, sorted@);
        }
        if n > 0 {
            lemma_max_is_last_sorted(original, sorted@);
        }
        assert(sorted_u64(sorted@) && sorted@.to_multiset() == original.to_multiset());
    }
    let p50 = p50_compute_ops(sorted.as_slice());
    let p99 = p99_compute_ops(sorted.as_slice());
    OpsSummary {
        decision_count: n as u64,
        total_compute_ops: total,
        p50_compute_ops: p50,
        p99_compute_ops: p99,
        max_compute_ops: max,
    }
}

/// The maximum of the values is the last of them once sorted.
proof fn lemma_max_is_last_sorted(original: Seq<u64>, sorted: Seq<u64>)
    requires
        original.len() > 0,
        sorted_u64(sorted),
        sorted.to_multiset() == original.to_multiset(),
    ensures
        max_u64(original) == sorted.last(),
{
    vstd::seq_lib::to_multiset_len(original);
    vstd::seq_lib::to_multiset_len(sorted);
    lemma_max_bounds(original);
    let m = max_u64(original);
    assert(original.to_multiset().contains(m));
    assert(sorted.contains(m));
    assert(sorted[sorted.len() - 1] == sorted.last());
    assert(sorted.contains(sorted.last()));
    assert(sorted.to_multiset().contains(sorted.last()));
    assert(original.contains(sorted.last()));
    let i = choose|i: int| 0 <= i < sorted.len() && sorted[i] == m;
    let j = choose|j: int| 0 <= j < original.len() && original[j] == sorted.last();
    assert(sorted[i] <= sorted.last());
    assert(original[j] <= m);
}

/// The maximum is one of the values and no value exceeds it.
proof fn lemma_max_bounds(s: Seq<u64>)
    requires
        s.len() > 0,
    ensures
        s.contains(max_u64(s)),
        forall|i: int| 0 <= i < s.len() ==> s[i] <= max_u64(s),
    decreases s.len(),
{
    if s.len() > 1 {
        lemma_max_bounds(s.drop_last());
        assert forall|i: int| 0 <= i < s.len() implies s[i] <= max_u64(s) by {
            if i < s.len() - 1 {
                assert(s[i] == s.drop_last()[i]);
            }
        }
        if max_u64(s) != s.last() {
            let k = choose|k: int| 0 <= k < s.drop_last().len() && s.drop_last()[k] == max_u64(s.drop_last());
            assert(s[k] == max_u64(s));
        }
    } else {
        assert(max_u64(s.drop_last()) == 0);
        assert(s[0] == s.last());
    }
}

/// How many of the enemies are neutralized.
pub open spec fn count_neutralized(enemies: Seq<Enemy>) -> nat
    decreases enemies.len(),
{
    if enemies.len() == 0 {
        0
    } else {
        count_neutralized(enemies.drop_last()) + if enemies.last().state is Neutralized {
            1nat
        } else {
            0nat
        }
    }
}

/// The enemy outcome of a round.
#[derive(Clone, Copy, Debug, PartialEq, Eq, Structural)]
pub struct EnemyTally {
    pub enemies_neutralized: u32,
    pub remaining_enemies: u32,
}

/// Counts the neutralized enemies and those remaining.
pub fn tally_enemies(enemies: &[Enemy]) -> (r: EnemyTally)
    requires
        enemies@.len() <= u32::MAX,
    ensures
        r.enemies_neutralized == count_neutralized(enemies@),
        r.remaining_enemies == enemies@.len() - count_neutralized(enemies@),
{
    let n = enemies.len();
    let mut neutralized: u32 = 0;
    for i in 0..n
        invariant
            n == enemies@.len(),
            n <= u32::MAX,
            neutralized == count_neutralized(enemies@.take(i as int)),
            neutralized <= i,
    {
        assert(enemies@.take(i as int + 1).drop_last() == enemies@.take(i as int));
        match enemies[i].state {
            EnemyState::Neutralized { .. } => {
                neutralized = neutralized + 1;
            },
            EnemyState::Alive => {},
        }
    }
    assert(enemies@.take(n as int) == enemies@);
    EnemyTally { enemies_neutralized: neutralized, remaining_enemies: n as u32 - neutralized }
}

} // verus!
