//! View builders. Three canonical shapes:
//! 1. `render`: wide table, one row per dimension value, one column per period.
//! 2. `trend`: the same data with the period-over-period change of each row.
//! 3. `top`: the dimension values with the largest cost in the latest period.

use vstd::prelude::*;

use crate::amount::{
    amount, as_ints, costs_fit, lemma_amount_congruent, lemma_amount_fits, lemma_amount_none,
    lemma_amount_push, lemma_difference_fits, lemma_sum_over_keys, lemma_sum_over_periods,
    total_of, Keyed,
};
use crate::event::{align_bucket, dim_value, period_start, Event};
use crate::time::{current_timestamp, is_timestamp};
use crate::ordering::{
    is_permutation, key_texts, lemma_text_less_irreflexive, rank_before, rank_order, text_less,
};

verus! {

/// The keyed form of the events: for each event, its value of `dimension`,
/// the start of its period of `period_s` seconds, and its cost.
pub open spec fn keyed_events(events: Seq<Event>, dimension: Seq<char>, period_s: int) -> Seq<
    Keyed,
> {
    Seq::new(
        events.len(),
        |i: int|
            (
                dim_value(events[i].dimensions@, dimension),
                period_start(events[i].ts as int, period_s),
                events[i].cost_usd as int,
            ),
    )
}

/// The periods that some keyed event falls in.
pub open spec fn period_set(s: Seq<Keyed>) -> Set<int> {
    Set::new(|p: int| exists|i: int| 0 <= i < s.len() && #[trigger] s[i].1 == p)
}

/// The dimension values that some keyed event carries.
pub open spec fn key_set(s: Seq<Keyed>) -> Set<Seq<char>> {
    Set::new(|k: Seq<char>| exists|i: int| 0 <= i < s.len() && #[trigger] s[i].0 == k)
}

pub proof fn lemma_keyed_costs_fit(events: Seq<Event>, dimension: Seq<char>, period_s: int)
    ensures
        costs_fit(keyed_events(events, dimension, period_s)),
        keyed_events(events, dimension, period_s).len() == events.len(),
{
}

/// The (value, period) pairs of a keyed sequence.
pub open spec fn entry_pairs(s: Seq<Keyed>) -> Seq<(Seq<char>, int)> {
    Seq::new(s.len(), |t: int| (s[t].0, s[t].1))
}

/// The pairs of two parallel sequences.
pub open spec fn zip_pairs(keys: Seq<Seq<char>>, periods: Seq<int>) -> Seq<(Seq<char>, int)> {
    Seq::new(keys.len(), |a: int| (keys[a], periods[a]))
}

/// `keys`, `periods` and `costs` list exactly the (value, period) pairs of
/// `s`, once each, with their summed costs.
pub open spec fn table_describes(
    keys: Seq<Seq<char>>,
    periods: Seq<int>,
    costs: Seq<int>,
    s: Seq<Keyed>,
) -> bool {
    &&& keys.len() == periods.len()
    &&& keys.len() == costs.len()
    &&& zip_pairs(keys, periods).no_duplicates()
    &&& forall|a: int|
        0 <= a < keys.len() ==> #[trigger] costs[a] == amount(s, set![keys[a]], set![periods[a]])
    &&& forall|a: int|
        0 <= a < keys.len() ==> entry_pairs(s).contains(#[trigger] zip_pairs(keys, periods)[a])
    &&& forall|t: int|
        0 <= t < s.len() ==> zip_pairs(keys, periods).contains(#[trigger] entry_pairs(s)[t])
}

proof fn lemma_table_add_to(
    keys: Seq<Seq<char>>,
    periods: Seq<int>,
    costs: Seq<int>,
    s: Seq<Keyed>,
    e: Keyed,
    a: int,
)
    requires
        table_describes(keys, periods, costs, s),
        0 <= a < keys.len(),
        keys[a] == e.0,
        periods[a] == e.1,
    ensures
        table_describes(keys, periods, costs.update(a, costs[a] + e.2), s.push(e)),
{
    let post = s.push(e);
    let nc = costs.update(a, costs[a] + e.2);
    let zp = zip_pairs(keys, periods);
    let ep = entry_pairs(s);
    let ep2 = entry_pairs(post);
    assert(ep2 =~= ep.push((e.0, e.1)));
    assert forall|x: int| 0 <= x < keys.len() implies #[trigger] nc[x] == amount(
        post,
        set![keys[x]],
        set![periods[x]],
    ) by {
        lemma_amount_push(s, e, set![keys[x]], set![periods[x]]);
        if x != a {
            assert(zp[x] != zp[a]);
            assert(!(set![keys[x]].contains(e.0) && set![periods[x]].contains(e.1)));
        }
    }
    assert forall|x: int| 0 <= x < keys.len() implies ep2.contains(#[trigger] zp[x]) by {
        assert(ep.contains(zp[x]));
        let t = choose|t: int| 0 <= t < ep.len() && ep[t] == zp[x];
        assert(ep2[t] == zp[x]);
    }
    assert forall|t: int| 0 <= t < post.len() implies zp.contains(#[trigger] ep2[t]) by {
        if t < s.len() {
            assert(ep2[t] == ep[t]);
        } else {
            assert(zp[a] == ep2[t]);
        }
    }
}

proof fn lemma_table_add_new(
    keys: Seq<Seq<char>>,
    periods: Seq<int>,
    costs: Seq<int>,
    s: Seq<Keyed>,
    e: Keyed,
)
    requires
        table_describes(keys, periods, costs, s),
        !zip_pairs(keys, periods).contains((e.0, e.1)),
    ensures
        table_describes(keys.push(e.0), periods.push(e.1), costs.push(e.2), s.push(e)),
{
    let post = s.push(e);
    let nk = keys.push(e.0);
    let np = periods.push(e.1);
    let nc = costs.push(e.2);
    let zp = zip_pairs(keys, periods);
    let zp2 = zip_pairs(nk, np);
    let ep = entry_pairs(s);
    let ep2 = entry_pairs(post);
    assert(ep2 =~= ep.push((e.0, e.1)));
    assert(zp2 =~= zp.push((e.0, e.1)));
    assert forall|t: int| 0 <= t < s.len() implies !(set![e.0].contains(#[trigger] s[t].0)
        && set![e.1].contains(s[t].1)) by {
        assert(zp.contains(ep[t]));
    }
    lemma_amount_none(s, set![e.0], set![e.1]);
    assert forall|x: int| 0 <= x < nk.len() implies #[trigger] nc[x] == amount(
        post,
        set![nk[x]],
        set![np[x]],
    ) by {
        lemma_amount_push(s, e, set![nk[x]], set![np[x]]);
        if x < keys.len() {
            assert(zp2[x] == zp[x]);
            assert(zp[x] != (e.0, e.1));
        }
    }
    assert forall|x: int| 0 <= x < nk.len() implies ep2.contains(#[trigger] zp2[x]) by {
        if x < keys.len() {
            assert(zp2[x] == zp[x]);
            assert(ep.contains(zp[x]));
            let t = choose|t: int| 0 <= t < ep.len() && ep[t] == zp[x];
            assert(ep2[t] == zp[x]);
        } else {
            assert(ep2[s.len() as int] == zp2[x]);
        }
    }
    assert forall|t: int| 0 <= t < post.len() implies zp2.contains(#[trigger] ep2[t]) by {
        if t < s.len() {
            assert(ep2[t] == ep[t]);
            assert(zp.contains(ep[t]));
            let x = choose|x: int| 0 <= x < zp.len() && zp[x] == ep[t];
            assert(zp2[x] == zp[x]);
        } else {
            assert(zp2[keys.len() as int] == ep2[t]);
        }
    }
}

/// Cost per (dimension value, period start): distinct pairs, each with the
/// sum of the costs of its events.
struct Buckets {
    keys: Vec<String>,
    periods: Vec<i64>,
    costs: Vec<i128>,
}

impl Buckets {
    spec fn key_view(&self) -> Seq<Seq<char>> {
        Seq::new(self.keys.len() as nat, |a: int| self.keys[a]@)
    }

    spec fn period_view(&self) -> Seq<int> {
        Seq::new(self.periods.len() as nat, |a: int| self.periods[a] as int)
    }

    spec fn cost_view(&self) -> Seq<int> {
        Seq::new(self.costs.len() as nat, |a: int| self.costs[a] as int)
    }

    /// The buckets hold exactly the (value, period) pairs of `s`, once each,
    /// with their summed costs.
    spec fn describes(&self, s: Seq<Keyed>) -> bool {
        table_describes(self.key_view(), self.period_view(), self.cost_view(), s)
    }

    /// Position of the bucket of `(key, period)`, if there is one.
    fn find(&self, key: &String, period: i64) -> (pos: Option<usize>)
        requires
            self.keys.len() == self.periods.len(),
        ensures
            match pos {
                Some(a) => a < self.keys.len() && self.keys[a as int]@ == key@ && self.periods[a
                    as int] == period,
                None => forall|a: int|
                    0 <= a < self.keys.len() ==> !(self.keys[a]@ == key@ && self.periods[a]
                        == period),
            },
    {
        let mut a: usize = 0;
        while a < self.keys.len()
            invariant
                self.keys.len() == self.periods.len(),
                a <= self.keys.len(),
                forall|b: int|
                    0 <= b < a ==> !(self.keys[b]@ == key@ && self.periods[b] == period),
            decreases self.keys.len() - a,
        {
            if self.periods[a] == period && self.keys[a] == *key {
                return Some(a);
            }
            a = a + 1;
        }
        None
    }


    /// Add one keyed event to the buckets of the events before it.
    fn add(&mut self, key: String, period: i64, cost: i64, Ghost(pre): Ghost<Seq<Keyed>>)
        requires
            old(self).describes(pre),
            costs_fit(pre.push((key@, period as int, cost as int))),
            pre.len() + 1 <= usize::MAX,
        ensures
            final(self).describes(pre.push((key@, period as int, cost as int))),
    {
        match self.find(&key, period) {
            Some(a) => self.add_to(a, key, period, cost, Ghost(pre)),
            None => self.add_new(key, period, cost, Ghost(pre)),
        }
    }

    /// Add one keyed event to the existing bucket at position `a`.
    fn add_to(
        &mut self,
        a: usize,
        key: String,
        period: i64,
        cost: i64,
        Ghost(pre): Ghost<Seq<Keyed>>,
    )
        requires
            old(self).describes(pre),
            costs_fit(pre.push((key@, period as int, cost as int))),
            pre.len() + 1 <= usize::MAX,
            a < old(self).keys.len(),
            old(self).keys[a as int]@ == key@,
            old(self).periods[a as int] == period,
        ensures
            final(self).describes(pre.push((key@, period as int, cost as int))),
    {
        let ghost e: Keyed = (key@, period as int, cost as int);
        let ghost post = pre.push(e);
        let ghost kv = self.key_view();
        let ghost pv = self.period_view();
        let ghost cv = self.cost_view();
        proof {
            assert(cv[a as int] == self.costs[a as int]);
            lemma_amount_push(pre, e, set![key@], set![period as int]);
            lemma_amount_fits(post, set![key@], set![period as int]);
            lemma_table_add_to(kv, pv, cv, pre, e, a as int);
        }
        let c = self.costs[a] + cost as i128;
        self.costs.set(a, c);
        assert(self.key_view() =~= kv);
        assert(self.period_view() =~= pv);
        assert(self.cost_view() =~= cv.update(a as int, cv[a as int] + e.2));
    }

    /// Add one keyed event whose (value, period) has no bucket yet.
    fn add_new(&mut self, key: String, period: i64, cost: i64, Ghost(pre): Ghost<Seq<Keyed>>)
        requires
            old(self).describes(pre),
            forall|a: int|
                0 <= a < old(self).keys.len() ==> !(old(self).keys[a]@ == key@ && old(
                    self,
                ).periods[a] == period),
        ensures
            final(self).describes(pre.push((key@, period as int, cost as int))),
    {
        let ghost e: Keyed = (key@, period as int, cost as int);
        let ghost kv = self.key_view();
        let ghost pv = self.period_view();
        let ghost cv = self.cost_view();
        proof {
            if zip_pairs(kv, pv).contains((e.0, e.1)) {
                let x = choose|x: int| 0 <= x < kv.len() && zip_pairs(kv, pv)[x] == (e.0, e.1);
                assert(kv[x] == self.keys[x]@);
                assert(pv[x] == self.periods[x] as int);
            }
            lemma_table_add_new(kv, pv, cv, pre, e);
        }
        self.keys.push(key);
        self.periods.push(period);
        self.costs.push(cost as i128);
        assert(self.key_view() =~= kv.push(e.0));
        assert(self.period_view() =~= pv.push(e.1));
        assert(self.cost_view() =~= cv.push(e.2));
    }

    /// The cost of `(key, period)`: its bucket's cost, or zero without one.
    fn cost_of(&self, key: &String, period: i64, Ghost(s): Ghost<Seq<Keyed>>) -> (c: i128)
        requires
            self.describes(s),
        ensures
            c == amount(s, set![key@], set![period as int]),
    {
        match self.find(key, period) {
            Some(a) => {
                assert(self.cost_view()[a as int] == self.costs[a as int]);
                assert(self.key_view()[a as int] == self.keys[a as int]@);
                assert(self.period_view()[a as int] == self.periods[a as int] as int);
                self.costs[a]
            },
            None => {
                proof {
                    let kv = self.key_view();
                    let pv = self.period_view();
                    assert forall|t: int| 0 <= t < s.len() implies !(set![key@].contains(
                        #[trigger] s[t].0,
                    ) && set![period as int].contains(s[t].1)) by {
                        if s[t].0 == key@ && s[t].1 == period {
                            assert(zip_pairs(kv, pv).contains(entry_pairs(s)[t]));
                            let a = choose|a: int|
                                0 <= a < kv.len() && zip_pairs(kv, pv)[a] == entry_pairs(s)[t];
                            assert(kv[a] == self.keys[a]@);
                            assert(pv[a] == self.periods[a] as int);
                        }
                    }
                    lemma_amount_none(s, set![key@], set![period as int]);
                }
                0
            },
        }
    }
}

/// Group the events by (value of `dimension`, period start) and sum the costs.
fn bucketize(events: &[Event], dimension: &str, period_s: u64) -> (b: Buckets)
    requires
        period_s > 0 || events.len() == 0,
    ensures
        b.describes(keyed_events(events@, dimension@, period_s as int)),
{
    let ghost s = keyed_events(events@, dimension@, period_s as int);
    let mut b = Buckets { keys: Vec::new(), periods: Vec::new(), costs: Vec::new() };
    let n = events.len();
    let mut i: usize = 0;
    proof {
        lemma_keyed_costs_fit(events@, dimension@, period_s as int);
    }
    assert(s.take(0) =~= Seq::<Keyed>::empty());
    while i < n
        invariant
            n == events.len(),
            i <= n,
            period_s > 0 || n == 0,
            s == keyed_events(events@, dimension@, period_s as int),
            s.len() == n,
            costs_fit(s),
            b.describes(s.take(i as int)),
        decreases n - i,
    {
        let key = String::from_str(events[i].dim(dimension));
        let period = align_bucket(events[i].ts, period_s);
        let cost = events[i].cost_usd;
        let ghost pre = s.take(i as int);
        let ghost post = s.take(i + 1);
        let ghost e: Keyed = (key@, period as int, cost as int);
        assert(s[i as int] == e);
        assert(post =~= pre.push(e));
        assert forall|t: int| 0 <= t < post.len() implies i64::MIN <= #[trigger] post[t].2
            <= i64::MAX by {
            assert(post[t] == s[t]);
        }
        assert(costs_fit(post));
        b.add(key, period, cost, Ghost(pre));
        i = i + 1;
    }
    assert(s.take(n as int) =~= s);
    b
}


impl Buckets {
    /// The periods of the buckets are the periods of the events.
    proof fn lemma_periods(&self, s: Seq<Keyed>)
        requires
            self.describes(s),
        ensures
            forall|a: int|
                0 <= a < self.periods.len() ==> period_set(s).contains(
                    #[trigger] self.periods[a] as int,
                ),
            forall|p: int|
                period_set(s).contains(p) ==> exists|a: int|
                    0 <= a < self.periods.len() && #[trigger] self.periods[a] == p,
    {
        let zp = zip_pairs(self.key_view(), self.period_view());
        let ep = entry_pairs(s);
        assert forall|a: int| 0 <= a < self.periods.len() implies period_set(s).contains(
            #[trigger] self.periods[a] as int,
        ) by {
            assert(zp[a].1 == self.periods[a] as int);
            assert(ep.contains(zp[a]));
            let t = choose|t: int| 0 <= t < ep.len() && ep[t] == zp[a];
            assert(s[t].1 == self.periods[a] as int);
        }
        assert forall|p: int| period_set(s).contains(p) implies exists|a: int|
            0 <= a < self.periods.len() && #[trigger] self.periods[a] == p by {
            let t = choose|t: int| 0 <= t < s.len() && #[trigger] s[t].1 == p;
            assert(zp.contains(ep[t]));
            let a = choose|a: int| 0 <= a < zp.len() && zp[a] == ep[t];
            assert(self.periods[a] == p);
        }
    }

    /// The keys of the buckets are the keys of the events.
    proof fn lemma_keys(&self, s: Seq<Keyed>)
        requires
            self.describes(s),
        ensures
            forall|a: int|
                0 <= a < self.keys.len() ==> key_set(s).contains(#[trigger] self.keys[a]@),
            forall|k: Seq<char>|
                key_set(s).contains(k) ==> exists|a: int|
                    0 <= a < self.keys.len() && #[trigger] self.keys[a]@ == k,
    {
        let zp = zip_pairs(self.key_view(), self.period_view());
        let ep = entry_pairs(s);
        assert forall|a: int| 0 <= a < self.keys.len() implies key_set(s).contains(
            #[trigger] self.keys[a]@,
        ) by {
            assert(zp[a].0 == self.keys[a]@);
            assert(ep.contains(zp[a]));
            let t = choose|t: int| 0 <= t < ep.len() && ep[t] == zp[a];
            assert(s[t].0 == self.keys[a]@);
        }
        assert forall|k: Seq<char>| key_set(s).contains(k) implies exists|a: int|
            0 <= a < self.keys.len() && #[trigger] self.keys[a]@ == k by {
            let t = choose|t: int| 0 <= t < s.len() && #[trigger] s[t].0 == k;
            assert(zp.contains(ep[t]));
            let a = choose|a: int| 0 <= a < zp.len() && zp[a] == ep[t];
            assert(self.keys[a]@ == k);
        }
    }
}

/// `r` lists the newest `n` periods of `all` (all of them if there are
/// fewer), newest first.
pub open spec fn is_newest_first(r: Seq<i64>, all: Set<int>, n: int) -> bool {
    &&& r.len() <= n
    &&& forall|a: int, b: int| 0 <= a < b < r.len() ==> r[a] > r[b]
    &&& forall|a: int| 0 <= a < r.len() ==> all.contains(#[trigger] r[a] as int)
    &&& forall|p: int|
        all.contains(p) && !as_ints(r).contains(p) ==> r.len() == n && forall|a: int|
            0 <= a < r.len() ==> p < #[trigger] r[a]
}

/// Return the most recent `n` periods, descending. The caller reverses if it
/// wants ascending.
fn recent_periods(buckets: &Buckets, n: usize, Ghost(s): Ghost<Seq<Keyed>>) -> (r: Vec<i64>)
    requires
        buckets.describes(s),
    ensures
        is_newest_first(r@, period_set(s), n as int),
{
    proof {
        buckets.lemma_periods(s);
    }
    let ghost all = period_set(s);
    let mut r: Vec<i64> = Vec::new();
    let mut done = false;
    while r.len() < n && !done
        invariant
            buckets.describes(s),
            all == period_set(s),
            forall|a: int|
                0 <= a < buckets.periods.len() ==> all.contains(
                    #[trigger] buckets.periods[a] as int,
                ),
            forall|p: int|
                all.contains(p) ==> exists|a: int|
                    0 <= a < buckets.periods.len() && #[trigger] buckets.periods[a] == p,
            r.len() <= n,
            forall|a: int, b: int| 0 <= a < b < r.len() ==> r[a] > r[b],
            forall|a: int| 0 <= a < r.len() ==> all.contains(#[trigger] r[a] as int),
            forall|p: int|
                all.contains(p) && !as_ints(r@).contains(p) ==> (r.len() == 0 || p < r[r.len()
                    - 1]),
            done ==> forall|p: int| all.contains(p) ==> as_ints(r@).contains(p),
        decreases n - r.len(), if done { 0int } else { 1int },
    {
        let mut found = false;
        let mut best: i64 = 0;
        let m = buckets.periods.len();
        let mut j: usize = 0;
        while j < m
            invariant
                m == buckets.periods.len(),
                j <= m,
                found ==> all.contains(best as int) && (r.len() == 0 || best < r[r.len() - 1]),
                forall|x: int|
                    0 <= x < j && (r.len() == 0 || buckets.periods[x] < r[r.len() - 1]) ==> found
                        && #[trigger] buckets.periods[x] <= best,
                forall|a: int|
                    0 <= a < buckets.periods.len() ==> all.contains(
                        #[trigger] buckets.periods[a] as int,
                    ),
            decreases m - j,
        {
            let p = buckets.periods[j];
            if (r.len() == 0 || p < r[r.len() - 1]) && (!found || p > best) {
                best = p;
                found = true;
            }
            j = j + 1;
        }
        if found {
            let ghost old_r = r@;
            r.push(best);
            proof {
                assert(as_ints(r@) =~= as_ints(old_r).push(best as int));
                assert forall|p: int| all.contains(p) && !as_ints(r@).contains(p) implies (
                r.len() == 0 || p < r[r.len() - 1]) by {
                    assert(!as_ints(old_r).contains(p)) by {
                        if as_ints(old_r).contains(p) {
                            let x = choose|x: int| 0 <= x < old_r.len() && as_ints(old_r)[x] == p;
                            assert(as_ints(r@)[x] == p);
                        }
                    }
                    let a = choose|a: int|
                        0 <= a < buckets.periods.len() && #[trigger] buckets.periods[a] == p;
                    assert(buckets.periods[a] <= best);
                    assert(as_ints(r@)[old_r.len() as int] == best);
                }
            }
        } else {
            done = true;
            proof {
                assert forall|p: int| all.contains(p) implies as_ints(r@).contains(p) by {
                    if !as_ints(r@).contains(p) {
                        let a = choose|a: int|
                            0 <= a < buckets.periods.len() && #[trigger] buckets.periods[a] == p;
                    }
                }
            }
        }
    }
    proof {
        assert forall|p: int| all.contains(p) && !as_ints(r@).contains(p) implies r.len() == n
            && forall|a: int| 0 <= a < r.len() ==> p < #[trigger] r[a] by {
            assert forall|a: int| 0 <= a < r.len() implies p < #[trigger] r[a] by {
                if a < r.len() - 1 {
                    assert(r[a] > r[r.len() - 1]);
                }
            }
        }
    }
    r
}


/// Wide table: rows by dimension value, columns by period. Amounts are in
/// micro-dollars.
pub struct WideTable {
    pub dimension: String,
    pub period: String,
    /// Period starts (seconds since the epoch), oldest first.
    pub periods: Vec<i64>,
    pub rows: Vec<WideRow>,
    /// Cost per period over all rows.
    pub totals: Vec<i128>,
}

/// One dimension value of a wide table.
pub struct WideRow {
    pub key: String,
    /// Cost per period, in the order of the table's periods.
    pub period_costs: Vec<i128>,
    pub row_total: i128,
}

/// The row holds the costs of its value in the periods `ps`, and their sum.
pub open spec fn row_matches(row: WideRow, s: Seq<Keyed>, ps: Seq<int>) -> bool {
    &&& row.period_costs.len() == ps.len()
    &&& forall|j: int|
        0 <= j < ps.len() ==> #[trigger] row.period_costs[j] == amount(
            s,
            set![row.key@],
            set![ps[j]],
        )
    &&& row.row_total == total_of(row.period_costs@)
    &&& row.row_total == amount(s, set![row.key@], ps.to_set())
}

/// Row order of a wide table: larger total first, then the value in text order.
pub open spec fn row_before(a: WideRow, b: WideRow) -> bool {
    ||| a.row_total > b.row_total
    ||| a.row_total == b.row_total && text_less(a.key@, b.key@)
}

/// The `j`-th cost of every row.
pub open spec fn column(rows: Seq<WideRow>, j: int) -> Seq<i128> {
    Seq::new(rows.len(), |i: int| rows[i].period_costs[j])
}

/// The values of the rows.
pub open spec fn row_keys(rows: Seq<WideRow>) -> Seq<Seq<char>> {
    Seq::new(rows.len(), |i: int| rows[i].key@)
}

/// `table` is the wide table of the keyed events `s` over their `n` most
/// recent periods: the periods oldest first, one row per value holding its
/// cost per period and in all, rows by descending total then by value, and
/// the cost of each period over all values.
pub open spec fn wide_table_of(table: WideTable, s: Seq<Keyed>, n: int) -> bool {
    &&& is_newest_first(table.periods@.reverse(), period_set(s), n)
    &&& forall|i: int|
        0 <= i < table.rows.len() ==> row_matches(
            #[trigger] table.rows[i],
            s,
            as_ints(table.periods@),
        )
    &&& forall|k: Seq<char>|
        key_set(s).contains(k) <==> exists|i: int|
            0 <= i < table.rows.len() && #[trigger] table.rows[i].key@ == k
    &&& forall|a: int, b: int|
        0 <= a < b < table.rows.len() ==> row_before(#[trigger] table.rows[a], #[trigger] table.rows[b])
    &&& table.totals.len() == table.periods.len()
    &&& forall|j: int|
        0 <= j < table.periods.len() ==> #[trigger] table.totals[j] == total_of(
            column(table.rows@, j),
        ) && table.totals[j] == amount(s, Set::full(), set![table.periods[j] as int])
}

/// The distinct keys of the buckets, in order of first appearance.
fn distinct_keys(buckets: &Buckets, Ghost(s): Ghost<Seq<Keyed>>) -> (keys: Vec<String>)
    requires
        buckets.describes(s),
    ensures
        key_texts(keys@).no_duplicates(),
        forall|i: int| 0 <= i < keys.len() ==> key_set(s).contains(#[trigger] keys[i]@),
        forall|k: Seq<char>|
            key_set(s).contains(k) ==> exists|i: int| 0 <= i < keys.len() && #[trigger] keys[i]@ == k,
{
    proof {
        buckets.lemma_keys(s);
    }
    let mut keys: Vec<String> = Vec::new();
    let m = buckets.keys.len();
    let mut a: usize = 0;
    while a < m
        invariant
            m == buckets.keys.len(),
            a <= m,
            key_texts(keys@).no_duplicates(),
            forall|i: int| 0 <= i < keys.len() ==> key_set(s).contains(#[trigger] keys[i]@),
            forall|x: int|
                0 <= x < a ==> exists|i: int|
                    0 <= i < keys.len() && #[trigger] keys[i]@ == #[trigger] buckets.keys[x]@,
            forall|x: int|
                0 <= x < buckets.keys.len() ==> key_set(s).contains(#[trigger] buckets.keys[x]@),
        decreases m - a,
    {
        let mut i: usize = 0;
        let mut seen = false;
        while i < keys.len()
            invariant
                i <= keys.len(),
                a < buckets.keys.len(),
                !seen ==> forall|y: int| 0 <= y < i ==> keys[y]@ != buckets.keys[a as int]@,
                seen ==> exists|y: int|
                    0 <= y < keys.len() && #[trigger] keys[y]@ == buckets.keys[a as int]@,
            decreases keys.len() - i,
        {
            if keys[i] == buckets.keys[a] {
                seen = true;
            }
            i = i + 1;
        }
        if !seen {
            let ghost old_keys = keys@;
            keys.push(buckets.keys[a].clone());
            proof {
                assert(key_texts(keys@) =~= key_texts(old_keys).push(buckets.keys[a as int]@));
                assert forall|x: int, y: int|
                    0 <= x < y < key_texts(keys@).len() implies key_texts(keys@)[x]
                    != key_texts(keys@)[y] by {
                    if y < old_keys.len() {
                        assert(key_texts(old_keys)[x] != key_texts(old_keys)[y]);
                    }
                }
                assert forall|x: int|
                    0 <= x < a + 1 implies exists|i: int|
                    0 <= i < keys.len() && #[trigger] keys[i]@ == #[trigger] buckets.keys[x]@ by {
                    if x < a {
                        let i = choose|i: int|
                            0 <= i < old_keys.len() && #[trigger] old_keys[i]@
                                == #[trigger] buckets.keys[x]@;
                        assert(keys[i] == old_keys[i]);
                    } else {
                        assert(keys[old_keys.len() as int]@ == buckets.keys[x]@);
                    }
                }
            }
        }
        a = a + 1;
    }
    proof {
        assert forall|k: Seq<char>| key_set(s).contains(k) implies exists|i: int|
            0 <= i < keys.len() && #[trigger] keys[i]@ == k by {
            let x = choose|x: int| 0 <= x < buckets.keys.len() && #[trigger] buckets.keys[x]@ == k;
            let i = choose|i: int|
                0 <= i < keys.len() && #[trigger] keys[i]@ == #[trigger] buckets.keys[x]@;
        }
    }
    keys
}

/// A copy of a list of amounts.
fn copy_amounts(v: &Vec<i128>) -> (r: Vec<i128>)
    ensures
        r@ == v@,
{
    let mut r: Vec<i128> = Vec::new();
    let mut i: usize = 0;
    while i < v.len()
        invariant
            i <= v.len(),
            r@ =~= v@.take(i as int),
        decreases v.len() - i,
    {
        r.push(v[i]);
        i = i + 1;
    }
    assert(v@.take(v.len() as int) =~= v@);
    r
}

proof fn lemma_total_of_push(xs: Seq<i128>, x: i128)
    ensures
        total_of(xs.push(x)) == total_of(xs) + x,
{
    assert(xs.push(x).drop_last() =~= xs);
}

/// The costs of `key` in each of `periods`, and their sum.
fn row_cells(
    buckets: &Buckets,
    key: &String,
    periods: &Vec<i64>,
    Ghost(s): Ghost<Seq<Keyed>>,
) -> (r: (Vec<i128>, i128))
    requires
        buckets.describes(s),
        costs_fit(s),
        s.len() <= usize::MAX,
        as_ints(periods@).no_duplicates(),
    ensures
        r.0.len() == periods.len(),
        forall|j: int|
            0 <= j < periods.len() ==> #[trigger] r.0[j] == amount(
                s,
                set![key@],
                set![periods[j] as int],
            ),
        r.1 == total_of(r.0@),
        r.1 == amount(s, set![key@], as_ints(periods@).to_set()),
{
    let ghost ps = as_ints(periods@);
    let mut cells: Vec<i128> = Vec::new();
    let mut total: i128 = 0;
    let mut j: usize = 0;
    while j < periods.len()
        invariant
            buckets.describes(s),
            costs_fit(s),
            s.len() <= usize::MAX,
            ps == as_ints(periods@),
            ps.no_duplicates(),
            j <= periods.len(),
            cells.len() == j,
            forall|x: int|
                0 <= x < j ==> #[trigger] cells[x] == amount(s, set![key@], set![ps[x]]),
            total == total_of(cells@),
        decreases periods.len() - j,
    {
        let c = buckets.cost_of(key, periods[j], Ghost(s));
        proof {
            let ps1 = ps.take(j + 1);
            let xs1 = cells@.push(c);
            assert forall|a: int, b: int| 0 <= a < b < ps1.len() implies ps1[a] != ps1[b] by {
                assert(ps1[a] == ps[a] && ps1[b] == ps[b]);
            }
            assert forall|x: int| 0 <= x < ps1.len() implies #[trigger] xs1[x] == amount(
                s,
                set![key@],
                set![ps1[x]],
            ) by {
                assert(ps1[x] == ps[x]);
            }
            lemma_sum_over_periods(s, set![key@], ps1, xs1, j + 1);
            assert(xs1.take(j + 1) =~= xs1);
            assert(ps1.take(j + 1) =~= ps1);
            lemma_amount_fits(s, set![key@], ps1.to_set());
            lemma_total_of_push(cells@, c);
        }
        cells.push(c);
        total = total + c;
        j = j + 1;
    }
    proof {
        assert(ps.take(j as int) =~= ps);
        let xs = cells@;
        lemma_sum_over_periods(s, set![key@], ps, xs, j as int);
        assert(xs.take(j as int) =~= xs);
    }
    (cells, total)
}


/// Per-period totals over the rows: the sum of each column.
fn column_totals(
    rows: &Vec<WideRow>,
    n_cols: usize,
    Ghost(s): Ghost<Seq<Keyed>>,
    Ghost(ps): Ghost<Seq<int>>,
) -> (totals: Vec<i128>)
    requires
        n_cols == ps.len(),
        costs_fit(s),
        s.len() <= usize::MAX,
        row_keys(rows@).no_duplicates(),
        forall|i: int| 0 <= i < rows.len() ==> row_matches(#[trigger] rows[i], s, ps),
        forall|t: int| 0 <= t < s.len() ==> row_keys(rows@).contains(#[trigger] s[t].0),
    ensures
        totals.len() == ps.len(),
        forall|j: int|
            0 <= j < ps.len() ==> #[trigger] totals[j] == total_of(column(rows@, j)) && totals[j]
                == amount(s, Set::full(), set![ps[j]]),
{
    let ghost ks = row_keys(rows@);
    let mut totals: Vec<i128> = Vec::new();
    let mut j: usize = 0;
    while j < n_cols
        invariant
            n_cols == ps.len(),
            costs_fit(s),
            s.len() <= usize::MAX,
            ks == row_keys(rows@),
            ks.no_duplicates(),
            forall|i: int| 0 <= i < rows.len() ==> row_matches(#[trigger] rows[i], s, ps),
            forall|t: int| 0 <= t < s.len() ==> ks.contains(#[trigger] s[t].0),
            j <= n_cols,
            totals.len() == j,
            forall|x: int|
                0 <= x < j ==> #[trigger] totals[x] == total_of(column(rows@, x)) && totals[x]
                    == amount(s, Set::full(), set![ps[x]]),
        decreases n_cols - j,
    {
        let ghost col = column(rows@, j as int);
        proof {
            assert forall|i: int| 0 <= i < ks.len() implies #[trigger] col[i] == amount(
                s,
                set![ks[i]],
                set![ps[j as int]],
            ) by {
                assert(row_matches(rows[i], s, ps));
            }
        }
        let mut acc: i128 = 0;
        let mut i: usize = 0;
        while i < rows.len()
            invariant
                j < n_cols,
                n_cols == ps.len(),
                costs_fit(s),
                s.len() <= usize::MAX,
                ks == row_keys(rows@),
                ks.no_duplicates(),
                col == column(rows@, j as int),
                forall|r: int| 0 <= r < rows.len() ==> row_matches(#[trigger] rows[r], s, ps),
                forall|x: int|
                    0 <= x < ks.len() ==> #[trigger] col[x] == amount(
                        s,
                        set![ks[x]],
                        set![ps[j as int]],
                    ),
                i <= rows.len(),
                acc == total_of(col.take(i as int)),
            decreases rows.len() - i,
        {
            proof {
                lemma_sum_over_keys(s, ks, set![ps[j as int]], col, i + 1);
                lemma_amount_fits(s, ks.take(i + 1).to_set(), set![ps[j as int]]);
                assert(col.take(i + 1) =~= col.take(i as int).push(col[i as int]));
                lemma_total_of_push(col.take(i as int), col[i as int]);
                assert(row_matches(rows[i as int], s, ps));
            }
            acc = acc + rows[i].period_costs[j];
            i = i + 1;
        }
        proof {
            assert(col.take(rows.len() as int) =~= col);
            lemma_sum_over_keys(s, ks, set![ps[j as int]], col, rows.len() as int);
            assert(ks.take(rows.len() as int) =~= ks);
            lemma_amount_congruent(s, ks.to_set(), set![ps[j as int]], Set::full(), set![ps[j as int]]);
        }
        totals.push(acc);
        j = j + 1;
    }
    totals
}

/// The wide table of the events: one row per value of `dimension`, one column
/// per period of `period_s` seconds among the `n_periods` most recent ones
/// (oldest first); rows by descending total, then by value.
pub fn render(
    events: &[Event],
    dimension: &str,
    period: &str,
    period_s: u64,
    n_periods: usize,
) -> (table: WideTable)
    requires
        period_s > 0 || events.len() == 0,
    ensures
        table.dimension@ == dimension@,
        table.period@ == period@,
        wide_table_of(table, keyed_events(events@, dimension@, period_s as int), n_periods as int),
{
    let ghost s = keyed_events(events@, dimension@, period_s as int);
    let n_events = events.len();
    proof {
        lemma_keyed_costs_fit(events@, dimension@, period_s as int);
    }
    let buckets = bucketize(events, dimension, period_s);
    let newest = recent_periods(&buckets, n_periods, Ghost(s));
    let mut periods: Vec<i64> = Vec::new();
    let mut k: usize = newest.len();
    while k > 0
        invariant
            k <= newest.len(),
            periods@ =~= newest@.subrange(k as int, newest.len() as int).reverse(),
        decreases k,
    {
        k = k - 1;
        periods.push(newest[k]);
    }
    let ghost ps = as_ints(periods@);
    proof {
        assert(newest@.subrange(0, newest.len() as int) =~= newest@);
        assert(periods@.reverse() =~= newest@);
        assert forall|a: int, b: int| 0 <= a < b < ps.len() implies ps[a] != ps[b] by {
            let n = newest.len() as int;
            assert(periods[a] == newest[n - 1 - a]);
            assert(periods[b] == newest[n - 1 - b]);
        }
    }
    let keys = distinct_keys(&buckets, Ghost(s));
    let mut cells: Vec<Vec<i128>> = Vec::new();
    let mut row_totals: Vec<i128> = Vec::new();
    let mut zeros: Vec<i128> = Vec::new();
    let mut r: usize = 0;
    while r < keys.len()
        invariant
            buckets.describes(s),
            costs_fit(s),
            s.len() <= usize::MAX,
            ps == as_ints(periods@),
            ps.no_duplicates(),
            r <= keys.len(),
            cells.len() == r,
            row_totals.len() == r,
            zeros.len() == r,
            forall|x: int| 0 <= x < r ==> #[trigger] zeros[x] == 0,
            forall|x: int|
                0 <= x < r ==> {
                    &&& #[trigger] cells[x].len() == periods.len()
                    &&& forall|j: int|
                        0 <= j < periods.len() ==> #[trigger] cells[x][j] == amount(
                            s,
                            set![keys[x]@],
                            set![periods[j] as int],
                        )
                    &&& row_totals[x] == total_of(cells[x]@)
                    &&& row_totals[x] == amount(s, set![keys[x]@], ps.to_set())
                },
        decreases keys.len() - r,
    {
        let (row, total) = row_cells(&buckets, &keys[r], &periods, Ghost(s));
        cells.push(row);
        row_totals.push(total);
        zeros.push(0);
        r = r + 1;
    }
    let order = rank_order(&row_totals, &zeros, &keys);
    let mut rows: Vec<WideRow> = Vec::new();
    let mut t: usize = 0;
    while t < order.len()
        invariant
            is_permutation(order@, keys.len() as int),
            cells.len() == keys.len(),
            row_totals.len() == keys.len(),
            zeros.len() == keys.len(),
            forall|x: int| 0 <= x < keys.len() ==> #[trigger] zeros[x] == 0,
            forall|x: int|
                0 <= x < keys.len() ==> {
                    &&& #[trigger] cells[x].len() == periods.len()
                    &&& forall|j: int|
                        0 <= j < periods.len() ==> #[trigger] cells[x][j] == amount(
                            s,
                            set![keys[x]@],
                            set![periods[j] as int],
                        )
                    &&& row_totals[x] == total_of(cells[x]@)
                    &&& row_totals[x] == amount(s, set![keys[x]@], ps.to_set())
                },
            ps == as_ints(periods@),
            t <= order.len(),
            rows.len() == t,
            forall|x: int|
                0 <= x < t ==> {
                    &&& #[trigger] rows[x].key@ == keys[order[x] as int]@
                    &&& rows[x].period_costs@ == cells[order[x] as int]@
                    &&& rows[x].row_total == row_totals[order[x] as int]
                },
        decreases order.len() - t,
    {
        let o = order[t];
        let row = WideRow {
            key: keys[o].clone(),
            period_costs: copy_amounts(&cells[o]),
            row_total: row_totals[o],
        };
        rows.push(row);
        t = t + 1;
    }
    proof {
        let ks = key_texts(keys@);
        assert forall|i: int| 0 <= i < rows.len() implies row_matches(#[trigger] rows[i], s, ps) by {
            let o = order[i] as int;
            assert(rows[i].key@ == keys[o]@);
            assert(cells[o].len() == periods.len());
            assert(row_totals[o] == total_of(cells[o]@));
            assert(row_totals[o] == amount(s, set![keys[o]@], ps.to_set()));
            assert forall|j: int| 0 <= j < ps.len() implies #[trigger] rows[i].period_costs[j]
                == amount(s, set![rows[i].key@], set![ps[j]]) by {
                assert(rows[i].period_costs[j] == cells[o][j]);
            }
        }
        assert forall|a: int, b: int| 0 <= a < b < rows.len() implies row_before(
            #[trigger] rows[a],
            #[trigger] rows[b],
        ) by {
            let oa = order[a] as int;
            let ob = order[b] as int;
            assert(rank_before(row_totals@, zeros@, ks, oa, ob));
            assert(ks[oa] == keys[oa]@ && ks[ob] == keys[ob]@);
            assert(oa != ob);
        }
        assert(row_keys(rows@).no_duplicates()) by {
            assert forall|a: int, b: int| 0 <= a < b < rows.len() implies row_keys(rows@)[a]
                != row_keys(rows@)[b] by {
                let oa = order[a] as int;
                let ob = order[b] as int;
                assert(oa != ob);
                assert(ks[oa] == keys[oa]@ && ks[ob] == keys[ob]@);
            }
        }
        assert forall|k: Seq<char>| key_set(s).contains(k) <==> exists|i: int|
            0 <= i < rows.len() && #[trigger] rows[i].key@ == k by {
            if key_set(s).contains(k) {
                let x = choose|x: int| 0 <= x < keys.len() && #[trigger] keys[x]@ == k;
                assert(order@.contains(x as usize));
                let i = choose|i: int| 0 <= i < order.len() && order[i] == x as usize;
                assert(rows[i].key@ == k);
            }
            if exists|i: int| 0 <= i < rows.len() && #[trigger] rows[i].key@ == k {
                let i = choose|i: int| 0 <= i < rows.len() && #[trigger] rows[i].key@ == k;
                assert(key_set(s).contains(keys[order[i] as int]@));
            }
        }
        assert forall|tt: int| 0 <= tt < s.len() implies row_keys(rows@).contains(
            #[trigger] s[tt].0,
        ) by {
            assert(key_set(s).contains(s[tt].0));
            let i = choose|i: int| 0 <= i < rows.len() && #[trigger] rows[i].key@ == s[tt].0;
            assert(row_keys(rows@)[i] == s[tt].0);
        }
    }
    let totals = column_totals(&rows, periods.len(), Ghost(s), Ghost(ps));
    let table = WideTable {
        dimension: String::from_str(dimension),
        period: String::from_str(period),
        periods,
        rows,
        totals,
    };
    assert(table.rows@ == rows@);
    assert forall|k: Seq<char>| key_set(s).contains(k) <==> exists|i: int|
        0 <= i < table.rows.len() && #[trigger] table.rows[i].key@ == k by {
        if key_set(s).contains(k) {
            let i = choose|i: int| 0 <= i < rows.len() && #[trigger] rows[i].key@ == k;
            assert(table.rows[i].key@ == k);
        }
    }
    table
}


/// A percentage given exactly: `100 * part / whole` percent (`whole` is never zero).
pub struct Ratio {
    pub part: i128,
    pub whole: i128,
}

/// Period-over-period change: a finite percentage, or growth from nothing.
pub enum PercentChange {
    Finite(Ratio),
    Unbounded,
}

/// Period-over-period trend of each dimension value.
pub struct TrendReport {
    pub dimension: String,
    pub period: String,
    /// Period starts (seconds since the epoch), oldest first.
    pub periods: Vec<i64>,
    pub rows: Vec<TrendRow>,
}

/// One dimension value of a trend report. Amounts are in micro-dollars.
pub struct TrendRow {
    pub key: String,
    pub period_costs: Vec<i128>,
    /// Cost in the newest period (zero without periods).
    pub current_cost: i128,
    /// Cost in the period before it (zero without one).
    pub previous_cost: i128,
    pub delta_usd: i128,
    /// `None` when both costs are zero.
    pub delta_pct: Option<PercentChange>,
}

/// The change from `previous` to `current` as a percentage.
pub open spec fn change_matches(pct: Option<PercentChange>, current: int, previous: int) -> bool {
    match pct {
        Some(PercentChange::Finite(r)) => previous != 0 && r.part == current - previous && r.whole
            == previous,
        Some(PercentChange::Unbounded) => previous == 0 && current != 0,
        None => previous == 0 && current == 0,
    }
}

/// The trend row of its value for the events `s` over the periods `ps`.
pub open spec fn trend_row_matches(row: TrendRow, s: Seq<Keyed>, ps: Seq<int>) -> bool {
    let n = ps.len() as int;
    &&& row.period_costs.len() == n
    &&& forall|j: int|
        0 <= j < n ==> #[trigger] row.period_costs[j] == amount(s, set![row.key@], set![ps[j]])
    &&& row.current_cost == if n > 0 {
        row.period_costs[n - 1] as int
    } else {
        0
    }
    &&& row.previous_cost == if n > 1 {
        row.period_costs[n - 2] as int
    } else {
        0
    }
    &&& row.delta_usd == row.current_cost - row.previous_cost
    &&& change_matches(row.delta_pct, row.current_cost as int, row.previous_cost as int)
}

/// Trend order: larger current cost first, then larger total over the
/// periods, then the value in text order.
pub open spec fn trend_before(a: TrendRow, b: TrendRow) -> bool {
    ||| a.current_cost > b.current_cost
    ||| a.current_cost == b.current_cost && total_of(a.period_costs@) > total_of(
        b.period_costs@,
    )
    ||| a.current_cost == b.current_cost && total_of(a.period_costs@) == total_of(
        b.period_costs@,
    ) && text_less(a.key@, b.key@)
}

/// `report` is the trend of the keyed events `s` over their `n` most recent
/// periods: the periods oldest first, one row per value with its change,
/// rows in trend order.
pub open spec fn trend_report_of(report: TrendReport, s: Seq<Keyed>, n: int) -> bool {
    &&& is_newest_first(report.periods@.reverse(), period_set(s), n)
    &&& forall|i: int|
        0 <= i < report.rows.len() ==> trend_row_matches(
            #[trigger] report.rows[i],
            s,
            as_ints(report.periods@),
        )
    &&& forall|k: Seq<char>|
        key_set(s).contains(k) <==> exists|i: int|
            0 <= i < report.rows.len() && #[trigger] report.rows[i].key@ == k
    &&& forall|a: int, b: int|
        0 <= a < b < report.rows.len() ==> trend_before(
            #[trigger] report.rows[a],
            #[trigger] report.rows[b],
        )
}

/// The change from `previous` to `current`.
fn percent_change(current: i128, previous: i128) -> (pct: Option<PercentChange>)
    requires
        i128::MIN <= current - previous <= i128::MAX,
    ensures
        change_matches(pct, current as int, previous as int),
{
    if previous != 0 {
        Some(PercentChange::Finite(Ratio { part: current - previous, whole: previous }))
    } else if current != 0 {
        Some(PercentChange::Unbounded)
    } else {
        None
    }
}

/// The wide table's rows with their period-over-period change, by descending
/// current cost (ties keep the table's order).
pub fn trend(
    events: &[Event],
    dimension: &str,
    period: &str,
    period_s: u64,
    n_periods: usize,
) -> (report: TrendReport)
    requires
        period_s > 0 || events.len() == 0,
    ensures
        report.dimension@ == dimension@,
        report.period@ == period@,
        trend_report_of(report, keyed_events(events@, dimension@, period_s as int), n_periods as int),
{
    let ghost s = keyed_events(events@, dimension@, period_s as int);
    let n_events = events.len();
    proof {
        lemma_keyed_costs_fit(events@, dimension@, period_s as int);
    }
    let table = render(events, dimension, period, period_s, n_periods);
    let ghost ps = as_ints(table.periods@);
    proof {
        let r = table.periods@.reverse();
        assert forall|a: int, b: int| 0 <= a < b < ps.len() implies ps[a] != ps[b] by {
            let n = ps.len() as int;
            assert(r[n - 1 - a] == table.periods[a]);
            assert(r[n - 1 - b] == table.periods[b]);
        }
    }
    let np = table.periods.len();
    let mut currents: Vec<i128> = Vec::new();
    let mut totals: Vec<i128> = Vec::new();
    let mut keys: Vec<String> = Vec::new();
    let mut i: usize = 0;
    while i < table.rows.len()
        invariant
            costs_fit(s),
            s.len() <= usize::MAX,
            ps == as_ints(table.periods@),
            ps.no_duplicates(),
            np == table.periods.len(),
            forall|x: int|
                0 <= x < table.rows.len() ==> row_matches(#[trigger] table.rows[x], s, ps),
            i <= table.rows.len(),
            currents.len() == i,
            totals.len() == i,
            keys.len() == i,
            forall|x: int| 0 <= x < i ==> #[trigger] keys[x]@ == table.rows[x].key@,
            forall|x: int| 0 <= x < i ==> #[trigger] totals[x] == table.rows[x].row_total,
            forall|x: int|
                0 <= x < i ==> #[trigger] currents[x] == (if np > 0 {
                    table.rows[x].period_costs[np - 1] as int
                } else {
                    0
                }),
        decreases table.rows.len() - i,
    {
        let row = &table.rows[i];
        assert(row_matches(*row, s, ps));
        let current = if np > 0 {
            row.period_costs[np - 1]
        } else {
            0
        };
        currents.push(current);
        totals.push(row.row_total);
        keys.push(row.key.clone());
        i = i + 1;
    }
    let order = rank_order(&currents, &totals, &keys);
    let mut rows: Vec<TrendRow> = Vec::new();
    let mut t: usize = 0;
    while t < order.len()
        invariant
            costs_fit(s),
            s.len() <= usize::MAX,
            ps == as_ints(table.periods@),
            ps.no_duplicates(),
            np == table.periods.len(),
            forall|x: int|
                0 <= x < table.rows.len() ==> row_matches(#[trigger] table.rows[x], s, ps),
            is_permutation(order@, table.rows.len() as int),
            currents.len() == table.rows.len(),
            totals.len() == table.rows.len(),
            keys.len() == table.rows.len(),
            forall|x: int| 0 <= x < table.rows.len() ==> #[trigger] keys[x]@ == table.rows[x].key@,
            forall|x: int| 0 <= x < table.rows.len() ==> #[trigger] totals[x] == table.rows[x].row_total,
            forall|x: int|
                0 <= x < table.rows.len() ==> #[trigger] currents[x] == (if np > 0 {
                    table.rows[x].period_costs[np - 1] as int
                } else {
                    0
                }),
            t <= order.len(),
            rows.len() == t,
            forall|x: int|
                0 <= x < t ==> {
                    &&& trend_row_matches(#[trigger] rows[x], s, ps)
                    &&& rows[x].key@ == table.rows[order[x] as int].key@
                    &&& rows[x].period_costs@ == table.rows[order[x] as int].period_costs@
                },
        decreases order.len() - t,
    {
        let o = order[t];
        let src = &table.rows[o];
        assert(row_matches(*src, s, ps));
        let current = if np > 0 {
            src.period_costs[np - 1]
        } else {
            0
        };
        let previous = if np > 1 {
            src.period_costs[np - 2]
        } else {
            0
        };
        proof {
            if np > 1 {
                lemma_difference_fits(s, set![src.key@], ps[np - 1], ps[np - 2]);
            } else if np == 1 {
                lemma_amount_fits(s, set![src.key@], set![ps[0]]);
            }
        }
        let delta = current - previous;
        let row = TrendRow {
            key: src.key.clone(),
            period_costs: copy_amounts(&src.period_costs),
            current_cost: current,
            previous_cost: previous,
            delta_usd: delta,
            delta_pct: percent_change(current, previous),
        };
        rows.push(row);
        t = t + 1;
    }
    proof {
        let ks = key_texts(keys@);
        assert forall|a: int, b: int| 0 <= a < b < rows.len() implies trend_before(
            #[trigger] rows[a],
            #[trigger] rows[b],
        ) by {
            let oa = order[a] as int;
            let ob = order[b] as int;
            assert(rank_before(currents@, totals@, ks, oa, ob));
            assert(ks[oa] == keys[oa]@ && ks[ob] == keys[ob]@);
            assert(oa != ob);
            assert(row_matches(table.rows[oa], s, ps));
            assert(row_matches(table.rows[ob], s, ps));
            // distinct values: the table's rows are strictly ordered
            if keys[oa]@ == keys[ob]@ {
                if oa < ob {
                    assert(row_before(table.rows[oa], table.rows[ob]));
                } else {
                    assert(row_before(table.rows[ob], table.rows[oa]));
                }
                lemma_text_less_irreflexive(keys[oa]@);
            }
        }
        assert forall|k: Seq<char>| key_set(s).contains(k) <==> exists|x: int|
            0 <= x < rows.len() && #[trigger] rows[x].key@ == k by {
            if key_set(s).contains(k) {
                let y = choose|y: int| 0 <= y < table.rows.len() && #[trigger] table.rows[y].key@ == k;
                assert(order@.contains(y as usize));
                let x = choose|x: int| 0 <= x < order.len() && order[x] == y as usize;
                assert(rows[x].key@ == k);
            }
            if exists|x: int| 0 <= x < rows.len() && #[trigger] rows[x].key@ == k {
                let x = choose|x: int| 0 <= x < rows.len() && #[trigger] rows[x].key@ == k;
                let y = order[x] as int;
                assert(table.rows[y].key@ == k);
            }
        }
    }
    TrendReport {
        dimension: String::from_str(dimension),
        period: String::from_str(period),
        periods: table.periods,
        rows,
    }
}


/// The values with the largest cost in the most recent period.
pub struct TopReport {
    pub dimension: String,
    pub period: String,
    /// Start of the most recent period (seconds since the epoch); the current
    /// time when there are no events.
    pub period_start: i64,
    pub limit: usize,
    pub rows: Vec<TopRow>,
    /// Cost of all values in that period, in micro-dollars.
    pub total: i128,
}

/// One value of a top report.
pub struct TopRow {
    pub key: String,
    /// Cost in micro-dollars.
    pub cost_usd: i128,
    /// Share of the period's total; zero when the total is not positive.
    pub pct_of_total: Ratio,
}

/// The values that carry some event of period `p`.
pub open spec fn keys_in_period(s: Seq<Keyed>, p: int) -> Set<Seq<char>> {
    Set::new(|k: Seq<char>| exists|i: int| 0 <= i < s.len() && #[trigger] s[i] == (k, p, s[i].2))
}

/// Top order: larger cost first, then the value in text order.
pub open spec fn top_before(a_cost: int, a_key: Seq<char>, b_cost: int, b_key: Seq<char>) -> bool {
    ||| a_cost > b_cost
    ||| a_cost == b_cost && text_less(a_key, b_key)
}

/// `r` is `cost` as a share of `total`, or zero when `total` is not positive.
pub open spec fn share_matches(r: Ratio, cost: int, total: int) -> bool {
    if total > 0 {
        r.part == cost && r.whole == total
    } else {
        r.part == 0 && r.whole == 1
    }
}

/// The values that have a bucket in period `start`, with their costs there.
fn latest_costs(
    buckets: &Buckets,
    start: i64,
    Ghost(s): Ghost<Seq<Keyed>>,
) -> (r: (Vec<String>, Vec<i128>))
    requires
        buckets.describes(s),
    ensures
        r.0.len() == r.1.len(),
        key_texts(r.0@).no_duplicates(),
        forall|x: int|
            0 <= x < r.0.len() ==> #[trigger] r.1[x] == amount(
                s,
                set![r.0[x]@],
                set![start as int],
            ),
        forall|x: int|
            0 <= x < r.0.len() ==> keys_in_period(s, start as int).contains(#[trigger] r.0[x]@),
        forall|k: Seq<char>|
            keys_in_period(s, start as int).contains(k) ==> exists|x: int|
                0 <= x < r.0.len() && #[trigger] r.0[x]@ == k,
{
    let ghost kv = buckets.key_view();
    let ghost pv = buckets.period_view();
    let ghost zp = zip_pairs(kv, pv);
    let ghost ep = entry_pairs(s);
    let mut keys: Vec<String> = Vec::new();
    let mut costs: Vec<i128> = Vec::new();
    let mut a: usize = 0;
    while a < buckets.keys.len()
        invariant
            buckets.describes(s),
            kv == buckets.key_view(),
            pv == buckets.period_view(),
            zp == zip_pairs(kv, pv),
            ep == entry_pairs(s),
            a <= buckets.keys.len(),
            keys.len() == costs.len(),
            key_texts(keys@).no_duplicates(),
            forall|x: int|
                0 <= x < keys.len() ==> #[trigger] costs[x] == amount(
                    s,
                    set![keys[x]@],
                    set![start as int],
                ),
            forall|x: int|
                0 <= x < keys.len() ==> keys_in_period(s, start as int).contains(
                    #[trigger] keys[x]@,
                ),
            forall|x: int|
                0 <= x < keys.len() ==> zp.subrange(0, a as int).contains(
                    (#[trigger] keys[x]@, start as int),
                ),
            forall|b: int|
                0 <= b < a && pv[b] == start ==> key_texts(keys@).contains(#[trigger] kv[b]),
        decreases buckets.keys.len() - a,
    {
        let ghost before = key_texts(keys@);
        proof {
            assert(kv[a as int] == buckets.keys[a as int]@);
            assert(pv[a as int] == buckets.periods[a as int] as int);
            assert(zp[a as int] == (kv[a as int], pv[a as int]));
        }
        if buckets.periods[a] == start {
            let ghost old_keys = keys@;
            let ghost old_sub = zp.subrange(0, a as int);
            proof {
                assert(buckets.cost_view()[a as int] == buckets.costs[a as int]);
                assert(ep.contains(zp[a as int]));
                let tt = choose|tt: int| 0 <= tt < ep.len() && ep[tt] == zp[a as int];
                assert(s[tt] == (kv[a as int], start as int, s[tt].2));
                assert(keys_in_period(s, start as int).contains(kv[a as int]));
                if key_texts(old_keys).contains(kv[a as int]) {
                    let x = choose|x: int|
                        0 <= x < old_keys.len() && key_texts(old_keys)[x] == kv[a as int];
                    assert(old_keys[x]@ == key_texts(old_keys)[x]);
                    assert(old_sub.contains((old_keys[x]@, start as int)));
                    let b = choose|b: int| 0 <= b < old_sub.len() && old_sub[b] == (
                        old_keys[x]@,
                        start as int,
                    );
                    assert(zp[b] == zp[a as int]);
                }
            }
            keys.push(buckets.keys[a].clone());
            costs.push(buckets.costs[a]);
            proof {
                assert(key_texts(keys@) =~= key_texts(old_keys).push(kv[a as int]));
            }
        }
        proof {
            let sub = zp.subrange(0, a + 1);
            assert forall|x: int| 0 <= x < keys.len() implies sub.contains(
                (#[trigger] keys[x]@, start as int),
            ) by {
                if x < keys.len() && zp.subrange(0, a as int).contains((keys[x]@, start as int)) {
                    let b = choose|b: int|
                        0 <= b < a && zp.subrange(0, a as int)[b] == (keys[x]@, start as int);
                    assert(sub[b] == zp.subrange(0, a as int)[b]);
                } else {
                    assert(sub[a as int] == (keys[x]@, start as int));
                }
            }
            assert forall|b: int| 0 <= b < a + 1 && pv[b] == start implies key_texts(
                keys@,
            ).contains(#[trigger] kv[b]) by {
                if b == a {
                    assert(key_texts(keys@)[keys.len() - 1] == kv[b]);
                } else {
                    let x = choose|x: int| 0 <= x < before.len() && before[x] == kv[b];
                    assert(key_texts(keys@)[x] == before[x]);
                }
            }
        }
        a = a + 1;
    }
    proof {
        assert forall|k: Seq<char>| keys_in_period(s, start as int).contains(k) implies exists|
            x: int,
        | 0 <= x < keys.len() && #[trigger] keys[x]@ == k by {
            let tt = choose|tt: int| 0 <= tt < s.len() && #[trigger] s[tt] == (k, start as int, s[tt].2);
            assert(zp.contains(ep[tt]));
            let b = choose|b: int| 0 <= b < zp.len() && zp[b] == ep[tt];
            assert(key_texts(keys@).contains(kv[b]));
            let x = choose|x: int| 0 <= x < keys.len() && key_texts(keys@)[x] == kv[b];
            assert(keys[x]@ == k);
        }
    }
    (keys, costs)
}

/// The cost of period `start` over the listed values, which hold every value of it.
fn sum_latest(
    keys: &Vec<String>,
    costs: &Vec<i128>,
    start: i64,
    Ghost(s): Ghost<Seq<Keyed>>,
) -> (total: i128)
    requires
        costs_fit(s),
        s.len() <= usize::MAX,
        keys.len() == costs.len(),
        key_texts(keys@).no_duplicates(),
        forall|x: int|
            0 <= x < keys.len() ==> #[trigger] costs[x] == amount(
                s,
                set![keys[x]@],
                set![start as int],
            ),
        forall|k: Seq<char>|
            keys_in_period(s, start as int).contains(k) ==> exists|x: int|
                0 <= x < keys.len() && #[trigger] keys[x]@ == k,
    ensures
        total == amount(s, Set::full(), set![start as int]),
        total == total_of(costs@),
{
    let ghost ks = key_texts(keys@);
    proof {
        assert forall|x: int| 0 <= x < ks.len() implies #[trigger] costs@[x] == amount(
            s,
            set![ks[x]],
            set![start as int],
        ) by {
            assert(ks[x] == keys[x]@);
        }
        assert forall|t: int| 0 <= t < s.len() implies (ks.to_set().contains(#[trigger] s[t].0)
            && set![start as int].contains(s[t].1)) == (Set::<Seq<char>>::full().contains(s[t].0)
            && set![start as int].contains(s[t].1)) by {
            if s[t].1 == start {
                assert(s[t] == (s[t].0, start as int, s[t].2));
                assert(keys_in_period(s, start as int).contains(s[t].0));
                let x = choose|x: int| 0 <= x < keys.len() && #[trigger] keys[x]@ == s[t].0;
                assert(ks[x] == s[t].0);
            }
        }
        lemma_amount_congruent(s, ks.to_set(), set![start as int], Set::full(), set![start as int]);
    }
    let mut total: i128 = 0;
    let mut i: usize = 0;
    while i < costs.len()
        invariant
            costs_fit(s),
            s.len() <= usize::MAX,
            ks == key_texts(keys@),
            ks.no_duplicates(),
            keys.len() == costs.len(),
            forall|x: int|
                0 <= x < ks.len() ==> #[trigger] costs@[x] == amount(
                    s,
                    set![ks[x]],
                    set![start as int],
                ),
            i <= costs.len(),
            total == total_of(costs@.take(i as int)),
        decreases costs.len() - i,
    {
        proof {
            lemma_sum_over_keys(s, ks, set![start as int], costs@, i + 1);
            lemma_amount_fits(s, ks.take(i + 1).to_set(), set![start as int]);
            assert(costs@.take(i + 1) =~= costs@.take(i as int).push(costs@[i as int]));
            lemma_total_of_push(costs@.take(i as int), costs@[i as int]);
        }
        total = total + costs[i];
        i = i + 1;
    }
    proof {
        assert(costs@.take(costs.len() as int) =~= costs@);
        lemma_sum_over_keys(s, ks, set![start as int], costs@, costs.len() as int);
        assert(ks.take(ks.len() as int) =~= ks);
    }
    total
}

/// `report` ranks the values of the most recent period of the keyed events
/// `s` (at least one) by cost: the period is the latest one, the total is its
/// cost, and the rows are the first `report.limit` values in top order, each
/// with its cost and share.
pub open spec fn top_report_of(report: TopReport, s: Seq<Keyed>) -> bool {
    let limit = report.limit as int;
    let start = report.period_start as int;
    &&& period_set(s).contains(start)
    &&& forall|p: int| period_set(s).contains(p) ==> p <= start
    &&& report.total == amount(s, Set::full(), set![start])
    &&& report.rows.len() <= limit
    &&& forall|i: int|
        0 <= i < report.rows.len() ==> {
            &&& keys_in_period(s, start).contains(#[trigger] report.rows[i].key@)
            &&& report.rows[i].cost_usd == amount(s, set![report.rows[i].key@], set![start])
            &&& share_matches(
                report.rows[i].pct_of_total,
                report.rows[i].cost_usd as int,
                report.total as int,
            )
        }
    &&& forall|a: int, b: int|
        0 <= a < b < report.rows.len() ==> top_before(
            #[trigger] report.rows[a].cost_usd as int,
            report.rows[a].key@,
            #[trigger] report.rows[b].cost_usd as int,
            report.rows[b].key@,
        )
    &&& forall|k: Seq<char>|
        #[trigger] keys_in_period(s, start).contains(k) ==> (exists|i: int|
            0 <= i < report.rows.len() && report.rows[i].key@ == k) || (report.rows.len()
            == limit && forall|i: int|
            0 <= i < report.rows.len() ==> top_before(
                #[trigger] report.rows[i].cost_usd as int,
                report.rows[i].key@,
                amount(s, set![k], set![start]),
                k,
            ))
}

/// Top `limit` values of `dimension` by cost in the most recent period of
/// `period_s` seconds; with no events, an empty report stamped with the
/// current time.
pub fn top(events: &[Event], dimension: &str, period: &str, period_s: u64, limit: usize) -> (report:
    TopReport)
    requires
        period_s > 0 || events.len() == 0,
    ensures
        report.dimension@ == dimension@,
        report.period@ == period@,
        report.limit == limit,
        events.len() == 0 ==> report.rows.len() == 0 && report.total == 0 && is_timestamp(
            report.period_start as int,
        ),
        events.len() > 0 ==> top_report_of(
            report,
            keyed_events(events@, dimension@, period_s as int),
        ),
{
    let ghost s = keyed_events(events@, dimension@, period_s as int);
    let n_events = events.len();
    proof {
        lemma_keyed_costs_fit(events@, dimension@, period_s as int);
    }
    let buckets = bucketize(events, dimension, period_s);
    let latest = recent_periods(&buckets, 1, Ghost(s));
    if latest.len() == 0 {
        proof {
            if s.len() > 0 {
                assert(period_set(s).contains(s[0].1));
                assert(!as_ints(latest@).contains(s[0].1));
            }
        }
        return TopReport {
            dimension: String::from_str(dimension),
            period: String::from_str(period),
            period_start: current_timestamp(),
            limit,
            rows: Vec::new(),
            total: 0,
        };
    }
    let start = latest[0];
    proof {
        assert forall|p: int| period_set(s).contains(p) implies p <= start by {
            if p != start {
                assert(!as_ints(latest@).contains(p)) by {
                    if as_ints(latest@).contains(p) {
                        let x = choose|x: int| 0 <= x < latest.len() && as_ints(latest@)[x] == p;
                    }
                }
            }
        }
    }
    let (keys, costs) = latest_costs(&buckets, start, Ghost(s));
    let ghost ks = key_texts(keys@);
    let total = sum_latest(&keys, &costs, start, Ghost(s));
    let mut zeros: Vec<i128> = Vec::new();
    while zeros.len() < keys.len()
        invariant
            zeros.len() <= keys.len(),
            forall|x: int| 0 <= x < zeros.len() ==> #[trigger] zeros[x] == 0,
        decreases keys.len() - zeros.len(),
    {
        zeros.push(0);
    }
    let order = rank_order(&costs, &zeros, &keys);
    let count = if limit < order.len() {
        limit
    } else {
        order.len()
    };
    let mut rows: Vec<TopRow> = Vec::new();
    let mut t: usize = 0;
    while t < count
        invariant
            count <= order.len(),
            count <= limit,
            is_permutation(order@, keys.len() as int),
            keys.len() == costs.len(),
            t <= count,
            rows.len() == t,
            forall|x: int| 0 <= x < t ==> #[trigger] rows[x].key@ == keys[order[x] as int]@,
            forall|x: int| 0 <= x < t ==> #[trigger] rows[x].cost_usd == costs[order[x] as int],
            forall|x: int|
                0 <= x < t ==> share_matches(
                    #[trigger] rows[x].pct_of_total,
                    rows[x].cost_usd as int,
                    total as int,
                ),
        decreases count - t,
    {
        let o = order[t];
        let cost = costs[o];
        let share = if total > 0 {
            Ratio { part: cost, whole: total }
        } else {
            Ratio { part: 0, whole: 1 }
        };
        let row = TopRow { key: keys[o].clone(), cost_usd: cost, pct_of_total: share };
        assert(row.key@ == keys[order[t as int] as int]@);
        let ghost before = rows@;
        rows.push(row);
        assert forall|x: int| 0 <= x < t + 1 implies #[trigger] rows[x].key@ == keys[order[x]
            as int]@ by {
            if x < t {
                assert(rows[x] == before[x]);
                assert(before[x].key@ == keys[order[x] as int]@);
            }
        }
        t = t + 1;
    }
    let report = TopReport {
        dimension: String::from_str(dimension),
        period: String::from_str(period),
        period_start: start,
        limit,
        rows,
        total,
    };
    proof {
        assert(s.len() > 0) by {
            assert(period_set(s).contains(start as int));
        }
        assert forall|x: int| 0 <= x < report.rows.len() implies {
            &&& keys_in_period(s, start as int).contains(#[trigger] report.rows[x].key@)
            &&& report.rows[x].cost_usd == amount(s, set![report.rows[x].key@], set![start as int])
        } by {
            let o = order[x] as int;
            assert(report.rows[x] == rows[x]);
            assert(ks[o] == keys[o]@);
        }
        assert forall|a: int, b: int| 0 <= a < b < report.rows.len() implies top_before(
            #[trigger] report.rows[a].cost_usd as int,
            report.rows[a].key@,
            #[trigger] report.rows[b].cost_usd as int,
            report.rows[b].key@,
        ) by {
            let oa = order[a] as int;
            let ob = order[b] as int;
            assert(report.rows[a] == rows[a] && report.rows[b] == rows[b]);
            assert(rank_before(costs@, zeros@, ks, oa, ob));
            assert(ks[oa] == keys[oa]@ && ks[ob] == keys[ob]@);
            assert(oa != ob);
        }
        assert forall|k: Seq<char>|
            #[trigger] keys_in_period(s, start as int).contains(k) implies (exists|i: int|
                0 <= i < report.rows.len() && report.rows[i].key@ == k) || (report.rows.len()
                == limit && forall|i: int|
                0 <= i < report.rows.len() ==> top_before(
                    #[trigger] report.rows[i].cost_usd as int,
                    report.rows[i].key@,
                    amount(s, set![k], set![start as int]),
                    k,
                )) by {
            let x = choose|x: int| 0 <= x < keys.len() && #[trigger] keys[x]@ == k;
            assert(order@.contains(x as usize));
            let u = choose|u: int| 0 <= u < order.len() && order[u] == x as usize;
            if u < count {
                assert(report.rows[u] == rows[u]);
                assert(report.rows[u].key@ == k);
            } else {
                assert forall|i: int| 0 <= i < report.rows.len() implies top_before(
                    #[trigger] report.rows[i].cost_usd as int,
                    report.rows[i].key@,
                    amount(s, set![k], set![start as int]),
                    k,
                ) by {
                    let oi = order[i] as int;
                    assert(report.rows[i] == rows[i]);
                    assert(rank_before(costs@, zeros@, ks, oi, x));
                    assert(ks[oi] == keys[oi]@ && ks[x] == k);
                    assert(oi != x);
                }
            }
        }
    }
    report
}

} // verus!
