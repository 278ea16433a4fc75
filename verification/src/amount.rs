//! Exact cost arithmetic over keyed events: how much of the cost falls on a
//! set of dimension values and a set of periods, and the facts that let sums
//! be regrouped (by period, by key) and bounded.

use vstd::prelude::*;

verus! {

/// A keyed event: dimension value, period start, cost.
pub type Keyed = (Seq<char>, int, int);

/// Sum of the costs of the entries whose value is in `keys` and whose period
/// is in `periods`.
pub closed spec fn amount(s: Seq<Keyed>, keys: Set<Seq<char>>, periods: Set<int>) -> int
    decreases s.len(),
{
    if s.len() == 0 {
        0
    } else {
        let e = s.last();
        amount(s.drop_last(), keys, periods) + if keys.contains(e.0) && periods.contains(e.1) {
            e.2
        } else {
            0
        }
    }
}

pub open spec fn abs(x: int) -> int {
    if x < 0 { -x } else { x }
}

/// Sum of the absolute costs of the same entries as `amount`.
pub closed spec fn abs_amount(s: Seq<Keyed>, keys: Set<Seq<char>>, periods: Set<int>) -> int
    decreases s.len(),
{
    if s.len() == 0 {
        0
    } else {
        let e = s.last();
        abs_amount(s.drop_last(), keys, periods) + if keys.contains(e.0) && periods.contains(
            e.1,
        ) {
            abs(e.2)
        } else {
            0
        }
    }
}

/// Sum of a sequence of amounts.
pub open spec fn total_of(xs: Seq<i128>) -> int
    decreases xs.len(),
{
    if xs.len() == 0 {
        0
    } else {
        total_of(xs.drop_last()) + xs.last()
    }
}

/// Every cost fits in a signed 64-bit integer.
pub open spec fn costs_fit(s: Seq<Keyed>) -> bool {
    forall|i: int| 0 <= i < s.len() ==> i64::MIN <= #[trigger] s[i].2 <= i64::MAX
}

pub proof fn lemma_amount_push(s: Seq<Keyed>, e: Keyed, keys: Set<Seq<char>>, periods: Set<int>)
    ensures
        amount(s.push(e), keys, periods) == amount(s, keys, periods) + if keys.contains(e.0)
            && periods.contains(e.1) {
            e.2
        } else {
            0
        },
        abs_amount(s.push(e), keys, periods) == abs_amount(s, keys, periods) + if keys.contains(
            e.0,
        ) && periods.contains(e.1) {
            abs(e.2)
        } else {
            0
        },
{
    assert(s.push(e).drop_last() =~= s);
}

/// Amounts only depend on which entries are selected.
pub proof fn lemma_amount_congruent(
    s: Seq<Keyed>,
    k1: Set<Seq<char>>,
    p1: Set<int>,
    k2: Set<Seq<char>>,
    p2: Set<int>,
)
    requires
        forall|i: int|
            0 <= i < s.len() ==> ((k1.contains(#[trigger] s[i].0) && p1.contains(s[i].1)) == (
            k2.contains(s[i].0) && p2.contains(s[i].1))),
    ensures
        amount(s, k1, p1) == amount(s, k2, p2),
        abs_amount(s, k1, p1) == abs_amount(s, k2, p2),
    decreases s.len(),
{
    if s.len() > 0 {
        let t = s.drop_last();
        assert forall|i: int| 0 <= i < t.len() implies ((k1.contains(#[trigger] t[i].0)
            && p1.contains(t[i].1)) == (k2.contains(t[i].0) && p2.contains(t[i].1))) by {
            assert(t[i] == s[i]);
        }
        lemma_amount_congruent(t, k1, p1, k2, p2);
        assert(s[s.len() - 1] == s.last());
    }
}

/// Nothing selected, nothing summed.
pub proof fn lemma_amount_none(s: Seq<Keyed>, keys: Set<Seq<char>>, periods: Set<int>)
    requires
        forall|i: int|
            0 <= i < s.len() ==> !(keys.contains(#[trigger] s[i].0) && periods.contains(s[i].1)),
    ensures
        amount(s, keys, periods) == 0,
        abs_amount(s, keys, periods) == 0,
{
    lemma_amount_congruent(s, keys, periods, Set::empty(), Set::empty());
    lemma_amount_empty(s);
}

proof fn lemma_amount_empty(s: Seq<Keyed>)
    ensures
        amount(s, Set::empty(), Set::empty()) == 0,
        abs_amount(s, Set::empty(), Set::empty()) == 0,
    decreases s.len(),
{
    if s.len() > 0 {
        lemma_amount_empty(s.drop_last());
    }
}

/// Taking one entry out of the sequence takes its cost out of the amount.
pub proof fn lemma_amount_remove(s: Seq<Keyed>, j: int, keys: Set<Seq<char>>, periods: Set<int>)
    requires
        0 <= j < s.len(),
    ensures
        amount(s, keys, periods) == amount(s.remove(j), keys, periods) + if keys.contains(s[j].0)
            && periods.contains(s[j].1) {
            s[j].2
        } else {
            0
        },
    decreases s.len(),
{
    if j == s.len() - 1 {
        assert(s.remove(j) =~= s.drop_last());
    } else {
        lemma_amount_remove(s.drop_last(), j, keys, periods);
        assert(s.remove(j).drop_last() =~= s.drop_last().remove(j));
        assert(s.remove(j).last() == s.last());
        assert(s.drop_last()[j] == s[j]);
    }
}

/// Costs of disjoint period sets add up.
pub proof fn lemma_amount_split_periods(
    s: Seq<Keyed>,
    keys: Set<Seq<char>>,
    a: Set<int>,
    b: Set<int>,
)
    requires
        a.disjoint(b),
    ensures
        amount(s, keys, a.union(b)) == amount(s, keys, a) + amount(s, keys, b),
        abs_amount(s, keys, a.union(b)) == abs_amount(s, keys, a) + abs_amount(s, keys, b),
    decreases s.len(),
{
    if s.len() > 0 {
        lemma_amount_split_periods(s.drop_last(), keys, a, b);
    }
}

/// Costs of disjoint key sets add up.
pub proof fn lemma_amount_split_keys(
    s: Seq<Keyed>,
    a: Set<Seq<char>>,
    b: Set<Seq<char>>,
    periods: Set<int>,
)
    requires
        a.disjoint(b),
    ensures
        amount(s, a.union(b), periods) == amount(s, a, periods) + amount(s, b, periods),
        abs_amount(s, a.union(b), periods) == abs_amount(s, a, periods) + abs_amount(
            s,
            b,
            periods,
        ),
    decreases s.len(),
{
    if s.len() > 0 {
        lemma_amount_split_keys(s.drop_last(), a, b, periods);
    }
}

/// An amount is bounded by the absolute costs it selects, which are bounded
/// by all absolute costs.
pub proof fn lemma_amount_bound(s: Seq<Keyed>, keys: Set<Seq<char>>, periods: Set<int>)
    ensures
        abs(amount(s, keys, periods)) <= abs_amount(s, keys, periods),
        0 <= abs_amount(s, keys, periods) <= abs_amount(s, Set::full(), Set::full()),
    decreases s.len(),
{
    if s.len() > 0 {
        lemma_amount_bound(s.drop_last(), keys, periods);
    }
}

/// All absolute costs together stay below `len * 2^63`.
pub proof fn lemma_abs_total_bound(s: Seq<Keyed>)
    requires
        costs_fit(s),
    ensures
        abs_amount(s, Set::full(), Set::full()) <= s.len() * 0x8000_0000_0000_0000,
    decreases s.len(),
{
    if s.len() > 0 {
        let t = s.drop_last();
        assert forall|i: int| 0 <= i < t.len() implies i64::MIN <= #[trigger] t[i].2
            <= i64::MAX by {
            assert(t[i] == s[i]);
        }
        lemma_abs_total_bound(t);
        assert(s[s.len() - 1] == s.last());
    }
}

/// Amounts of keyed events drawn from fewer than 2^64 events fit in an `i128`.
pub proof fn lemma_amount_fits(s: Seq<Keyed>, keys: Set<Seq<char>>, periods: Set<int>)
    requires
        costs_fit(s),
        s.len() <= usize::MAX,
    ensures
        abs_amount(s, keys, periods) <= 0x8000_0000_0000_0000 * 0xffff_ffff_ffff_ffff,
        i128::MIN < amount(s, keys, periods) < i128::MAX,
{
    lemma_amount_bound(s, keys, periods);
    lemma_abs_total_bound(s);
    assert(s.len() * 0x8000_0000_0000_0000 <= 0xffff_ffff_ffff_ffff * 0x8000_0000_0000_0000)
        by (nonlinear_arith)
        requires
            s.len() <= 0xffff_ffff_ffff_ffff,
    ;
}

/// The integers of a sequence of 64-bit values.
pub open spec fn as_ints(ps: Seq<i64>) -> Seq<int> {
    Seq::new(ps.len(), |j: int| ps[j] as int)
}

/// Summing per-period amounts over distinct periods gives the amount over all of them.
pub proof fn lemma_sum_over_periods(
    s: Seq<Keyed>,
    keys: Set<Seq<char>>,
    ps: Seq<int>,
    xs: Seq<i128>,
    c: int,
)
    requires
        ps.no_duplicates(),
        xs.len() == ps.len(),
        0 <= c <= ps.len(),
        forall|j: int| 0 <= j < ps.len() ==> #[trigger] xs[j] == amount(s, keys, set![ps[j]]),
    ensures
        total_of(xs.take(c)) == amount(s, keys, ps.take(c).to_set()),
    decreases c,
{
    if c == 0 {
        assert(ps.take(0).to_set() =~= Set::empty());
        lemma_amount_none(s, keys, Set::empty());
    } else {
        lemma_sum_over_periods(s, keys, ps, xs, c - 1);
        assert(xs.take(c).drop_last() =~= xs.take(c - 1));
        let before = ps.take(c - 1);
        let upto = ps.take(c);
        let prev = before.to_set();
        assert(ps.take(c).to_set() =~= prev.union(set![ps[c - 1]])) by {
            assert(ps.take(c) =~= ps.take(c - 1).push(ps[c - 1]));
            assert forall|p: int| ps.take(c).to_set().contains(p) <==> prev.union(
                set![ps[c - 1]],
            ).contains(p) by {
                if ps.take(c).to_set().contains(p) {
                    let j = choose|j: int| 0 <= j < c && upto[j] == p;
                    if j < c - 1 {
                        assert(before[j] == p);
                    }
                }
                if prev.contains(p) {
                    let j = choose|j: int| 0 <= j < c - 1 && before[j] == p;
                    assert(upto[j] == p);
                }
                if p == ps[c - 1] {
                    assert(upto[c - 1] == p);
                }
            }
        }
        assert(prev.disjoint(set![ps[c - 1]])) by {
            if prev.contains(ps[c - 1]) {
                let j = choose|j: int| 0 <= j < c - 1 && before[j] == ps[c - 1];
                assert(ps[j] == ps[c - 1]);
            }
        }
        lemma_amount_split_periods(s, keys, prev, set![ps[c - 1]]);
    }
}

/// Summing per-key amounts over distinct keys gives the amount over all of them.
pub proof fn lemma_sum_over_keys(
    s: Seq<Keyed>,
    ks: Seq<Seq<char>>,
    periods: Set<int>,
    xs: Seq<i128>,
    c: int,
)
    requires
        ks.no_duplicates(),
        xs.len() == ks.len(),
        0 <= c <= ks.len(),
        forall|i: int| 0 <= i < ks.len() ==> #[trigger] xs[i] == amount(s, set![ks[i]], periods),
    ensures
        total_of(xs.take(c)) == amount(s, ks.take(c).to_set(), periods),
    decreases c,
{
    if c == 0 {
        assert(ks.take(0).to_set() =~= Set::empty());
        lemma_amount_none(s, Set::empty(), periods);
    } else {
        lemma_sum_over_keys(s, ks, periods, xs, c - 1);
        assert(xs.take(c).drop_last() =~= xs.take(c - 1));
        let before = ks.take(c - 1);
        let upto = ks.take(c);
        let prev = before.to_set();
        assert(ks.take(c).to_set() =~= prev.union(set![ks[c - 1]])) by {
            assert forall|k: Seq<char>| ks.take(c).to_set().contains(k) <==> prev.union(
                set![ks[c - 1]],
            ).contains(k) by {
                if ks.take(c).to_set().contains(k) {
                    let j = choose|j: int| 0 <= j < c && upto[j] == k;
                    if j < c - 1 {
                        assert(before[j] == k);
                    }
                }
                if prev.contains(k) {
                    let j = choose|j: int| 0 <= j < c - 1 && before[j] == k;
                    assert(upto[j] == k);
                }
                if k == ks[c - 1] {
                    assert(upto[c - 1] == k);
                }
            }
        }
        assert(prev.disjoint(set![ks[c - 1]])) by {
            if prev.contains(ks[c - 1]) {
                let j = choose|j: int| 0 <= j < c - 1 && before[j] == ks[c - 1];
                assert(ks[j] == ks[c - 1]);
            }
        }
        lemma_amount_split_keys(s, prev, set![ks[c - 1]], periods);
    }
}

/// The difference of the amounts of two distinct periods fits in an `i128`.
pub proof fn lemma_difference_fits(s: Seq<Keyed>, keys: Set<Seq<char>>, a: int, b: int)
    requires
        a != b,
        costs_fit(s),
        s.len() <= usize::MAX,
    ensures
        i128::MIN <= amount(s, keys, set![a]) - amount(s, keys, set![b]) <= i128::MAX,
{
    lemma_amount_bound(s, keys, set![a]);
    lemma_amount_bound(s, keys, set![b]);
    lemma_amount_split_periods(s, keys, set![a], set![b]);
    lemma_amount_fits(s, keys, set![a].union(set![b]));
}

/// Sum of all costs.
pub open spec fn cost_sum(s: Seq<Keyed>) -> int
    decreases s.len(),
{
    if s.len() == 0 {
        0
    } else {
        cost_sum(s.drop_last()) + s.last().2
    }
}

/// Selecting every value and every period selects every cost.
pub proof fn lemma_amount_all(s: Seq<Keyed>)
    ensures
        amount(s, Set::full(), Set::full()) == cost_sum(s),
    decreases s.len(),
{
    if s.len() > 0 {
        lemma_amount_all(s.drop_last());
    }
}

} // verus!
