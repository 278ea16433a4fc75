//! Each view is a function of the events: whatever result meets a view's
//! description is the only one, and reordering the events changes nothing.

use vstd::prelude::*;

use crate::amount::{amount, as_ints, lemma_amount_push, lemma_amount_remove, Keyed};
use crate::event::Event;
use crate::laws::{lemma_newest_first_unique, lemma_table_keys_distinct};
use crate::ordering::is_permutation;
use crate::ordering::{lemma_text_less_irreflexive, lemma_text_less_transitive, text_less};
use crate::amount::total_of;
use crate::view::{
    change_matches, key_set, keyed_events, keys_in_period, period_set, share_matches, top_before,
    top_report_of, TopReport, row_keys, row_matches, trend_before,
    trend_report_of, trend_row_matches, wide_table_of, PercentChange, TrendReport, TrendRow,
    WideTable,
};

verus! {

/// `items` lists values of `pool` in the strict order `before`, and leaves
/// out a value of `pool` only when it is full (`limit` items) and every item
/// comes before that value.
pub open spec fn ranked<T>(
    items: Seq<T>,
    before: spec_fn(T, T) -> bool,
    pool: Set<T>,
    limit: int,
) -> bool {
    &&& items.len() <= limit
    &&& forall|i: int, j: int| 0 <= i < j < items.len() ==> before(#[trigger] items[i], #[trigger] items[j])
    &&& forall|i: int| 0 <= i < items.len() ==> pool.contains(#[trigger] items[i])
    &&& forall|x: T|
        #[trigger] pool.contains(x) ==> items.contains(x) || (items.len() == limit && forall|i: int|
            0 <= i < items.len() ==> before(#[trigger] items[i], x))
}

/// At the first place where two rankings of one pool could differ, the item
/// of the second comes before that of the first.
proof fn lemma_ranked_step<T>(
    a: Seq<T>,
    b: Seq<T>,
    before: spec_fn(T, T) -> bool,
    pool: Set<T>,
    limit: int,
    i: int,
)
    requires
        forall|x: T, y: T| #[trigger] before(x, y) ==> !before(y, x),
        ranked(a, before, pool, limit),
        ranked(b, before, pool, limit),
        0 <= i < a.len(),
        i < b.len(),
        forall|j: int| 0 <= j < i ==> a[j] == b[j],
        a[i] != b[i],
    ensures
        before(b[i], a[i]),
{
    let x = a[i];
    assert(pool.contains(x));
    if b.contains(x) {
        let t = choose|t: int| 0 <= t < b.len() && b[t] == x;
        if t < i {
            assert(a[t] == x);
            assert(before(a[t], a[i]));
        } else {
            assert(t > i);
            assert(before(b[i], b[t]));
        }
    } else {
        assert(before(b[i], x));
    }
}

proof fn lemma_ranked_agree_upto<T>(
    a: Seq<T>,
    b: Seq<T>,
    before: spec_fn(T, T) -> bool,
    pool: Set<T>,
    limit: int,
    i: int,
)
    requires
        forall|x: T, y: T| #[trigger] before(x, y) ==> !before(y, x),
        ranked(a, before, pool, limit),
        ranked(b, before, pool, limit),
        0 <= i < a.len(),
        i < b.len(),
    ensures
        forall|j: int| 0 <= j <= i ==> a[j] == b[j],
    decreases i,
{
    if i > 0 {
        lemma_ranked_agree_upto(a, b, before, pool, limit, i - 1);
    }
    if a[i] != b[i] {
        lemma_ranked_step(a, b, before, pool, limit, i);
        lemma_ranked_step(b, a, before, pool, limit, i);
    }
}

proof fn lemma_ranked_not_longer<T>(
    a: Seq<T>,
    b: Seq<T>,
    before: spec_fn(T, T) -> bool,
    pool: Set<T>,
    limit: int,
)
    requires
        forall|x: T, y: T| #[trigger] before(x, y) ==> !before(y, x),
        ranked(a, before, pool, limit),
        ranked(b, before, pool, limit),
        forall|j: int| 0 <= j < a.len() && j < b.len() ==> a[j] == b[j],
    ensures
        a.len() <= b.len(),
{
    if a.len() > b.len() {
        let m = b.len() as int;
        let y = a[m];
        assert(pool.contains(y));
        if b.contains(y) {
            let t = choose|t: int| 0 <= t < b.len() && b[t] == y;
            assert(a[t] == y);
            assert(before(a[t], a[m]));
        }
    }
}

/// Two rankings of the same pool in the same strict order, with the same
/// limit, are the same list.
pub proof fn lemma_ranked_unique<T>(
    a: Seq<T>,
    b: Seq<T>,
    before: spec_fn(T, T) -> bool,
    pool: Set<T>,
    limit: int,
)
    requires
        forall|x: T, y: T| #[trigger] before(x, y) ==> !before(y, x),
        ranked(a, before, pool, limit),
        ranked(b, before, pool, limit),
    ensures
        a == b,
{
    assert forall|j: int| 0 <= j < a.len() && j < b.len() implies a[j] == b[j] by {
        lemma_ranked_agree_upto(a, b, before, pool, limit, j);
    }
    lemma_ranked_not_longer(a, b, before, pool, limit);
    lemma_ranked_not_longer(b, a, before, pool, limit);
    assert(a =~= b);
}

/// Text order is asymmetric.
pub proof fn lemma_text_less_asymmetric(x: Seq<char>, y: Seq<char>)
    ensures
        text_less(x, y) ==> !text_less(y, x),
{
    if text_less(x, y) && text_less(y, x) {
        lemma_text_less_transitive(x, y, x);
        lemma_text_less_irreflexive(x);
    }
}

/// Two wide tables agree field by field: names, periods, rows (value, costs
/// and total, in order) and period totals.
pub open spec fn same_table(a: WideTable, b: WideTable) -> bool {
    &&& a.dimension@ == b.dimension@
    &&& a.period@ == b.period@
    &&& a.periods@ == b.periods@
    &&& a.rows.len() == b.rows.len()
    &&& forall|i: int|
        0 <= i < a.rows.len() ==> #[trigger] a.rows[i].key@ == b.rows[i].key@
            && a.rows[i].period_costs@ == b.rows[i].period_costs@ && a.rows[i].row_total
            == b.rows[i].row_total
    &&& a.totals@ == b.totals@
}

/// The wide table of given events is unique: two tables that both meet
/// `render`'s description for the same events, dimension, period and window
/// are equal field by field, so `render` is a function of its arguments.
pub proof fn law_table_is_determined(
    events: Seq<Event>,
    dimension: Seq<char>,
    period: Seq<char>,
    period_s: int,
    n: int,
    a: WideTable,
    b: WideTable,
)
    requires
        a.dimension@ == dimension && a.period@ == period,
        b.dimension@ == dimension && b.period@ == period,
        wide_table_of(a, keyed_events(events, dimension, period_s), n),
        wide_table_of(b, keyed_events(events, dimension, period_s), n),
    ensures
        same_table(a, b),
{
    let s = keyed_events(events, dimension, period_s);
    lemma_newest_first_unique(a.periods@.reverse(), b.periods@.reverse(), period_set(s), n);
    assert(a.periods@ =~= a.periods@.reverse().reverse());
    assert(b.periods@ =~= b.periods@.reverse().reverse());
    let ps = as_ints(a.periods@);
    let before = |x: Seq<char>, y: Seq<char>|
        amount(s, set![x], ps.to_set()) > amount(s, set![y], ps.to_set()) || (amount(
            s,
            set![x],
            ps.to_set(),
        ) == amount(s, set![y], ps.to_set()) && text_less(x, y));
    assert forall|x: Seq<char>, y: Seq<char>| #[trigger] before(x, y) implies !before(y, x) by {
        lemma_text_less_asymmetric(x, y);
    }
    let limit = a.rows.len() + b.rows.len();
    lemma_table_ranked(a, s, n, ps, before, limit);
    lemma_table_ranked(b, s, n, ps, before, limit);
    lemma_ranked_unique(row_keys(a.rows@), row_keys(b.rows@), before, key_set(s), limit);
    assert forall|i: int| 0 <= i < a.rows.len() implies #[trigger] a.rows[i].key@ == b.rows[i].key@
        && a.rows[i].period_costs@ == b.rows[i].period_costs@ && a.rows[i].row_total
        == b.rows[i].row_total by {
        assert(row_keys(a.rows@)[i] == row_keys(b.rows@)[i]);
        assert(row_matches(a.rows[i], s, ps));
        assert(row_matches(b.rows[i], s, ps));
        assert(a.rows[i].period_costs@ =~= b.rows[i].period_costs@);
    }
    assert(a.totals@ =~= b.totals@);
}

/// The values of a wide table's rows are ranked by total, then text.
proof fn lemma_table_ranked(
    t: WideTable,
    s: Seq<Keyed>,
    n: int,
    ps: Seq<int>,
    before: spec_fn(Seq<char>, Seq<char>) -> bool,
    limit: int,
)
    requires
        wide_table_of(t, s, n),
        ps == as_ints(t.periods@),
        t.rows.len() <= limit,
        forall|x: Seq<char>, y: Seq<char>|
            #[trigger] before(x, y) == (amount(s, set![x], ps.to_set()) > amount(
                s,
                set![y],
                ps.to_set(),
            ) || (amount(s, set![x], ps.to_set()) == amount(s, set![y], ps.to_set())
                && text_less(x, y))),
    ensures
        ranked(row_keys(t.rows@), before, key_set(s), limit),
{
    let ks = row_keys(t.rows@);
    assert forall|i: int, j: int| 0 <= i < j < ks.len() implies before(
        #[trigger] ks[i],
        #[trigger] ks[j],
    ) by {
        assert(crate::view::row_before(t.rows[i], t.rows[j]));
        assert(row_matches(t.rows[i], s, ps));
        assert(row_matches(t.rows[j], s, ps));
    }
    assert forall|i: int| 0 <= i < ks.len() implies key_set(s).contains(#[trigger] ks[i]) by {
        assert(t.rows[i].key@ == ks[i]);
    }
    assert forall|x: Seq<char>| #[trigger] key_set(s).contains(x) implies ks.contains(x) by {
        let i = choose|i: int| 0 <= i < t.rows.len() && #[trigger] t.rows[i].key@ == x;
        assert(ks[i] == x);
    }
}


/// What places a trend row: its current cost, its total over the periods
/// and its value.
pub open spec fn trend_rank(r: TrendRow) -> (int, int, Seq<char>) {
    (r.current_cost as int, total_of(r.period_costs@), r.key@)
}

/// The places of the rows of a trend report.
pub open spec fn trend_ranks(rows: Seq<TrendRow>) -> Seq<(int, int, Seq<char>)> {
    Seq::new(rows.len(), |i: int| trend_rank(rows[i]))
}

/// Trend order on places: larger current cost, then larger total, then the
/// value in text order.
pub open spec fn rank_precedes(a: (int, int, Seq<char>), b: (int, int, Seq<char>)) -> bool {
    ||| a.0 > b.0
    ||| a.0 == b.0 && a.1 > b.1
    ||| a.0 == b.0 && a.1 == b.1 && text_less(a.2, b.2)
}

/// Two trend reports agree field by field: names, periods, and rows (value,
/// costs, current and previous cost, change) in order.
pub open spec fn same_trend(a: TrendReport, b: TrendReport) -> bool {
    &&& a.dimension@ == b.dimension@
    &&& a.period@ == b.period@
    &&& a.periods@ == b.periods@
    &&& a.rows.len() == b.rows.len()
    &&& forall|i: int|
        0 <= i < a.rows.len() ==> {
            &&& #[trigger] a.rows[i].key@ == b.rows[i].key@
            &&& a.rows[i].period_costs@ == b.rows[i].period_costs@
            &&& a.rows[i].current_cost == b.rows[i].current_cost
            &&& a.rows[i].previous_cost == b.rows[i].previous_cost
            &&& a.rows[i].delta_usd == b.rows[i].delta_usd
            &&& a.rows[i].delta_pct == b.rows[i].delta_pct
        }
}

/// A change is fixed by the two costs it compares.
proof fn lemma_change_unique(p: Option<PercentChange>, q: Option<PercentChange>, current: int, previous: int)
    requires
        change_matches(p, current, previous),
        change_matches(q, current, previous),
    ensures
        p == q,
{
    match p {
        Some(PercentChange::Finite(r1)) => {
            match q {
                Some(PercentChange::Finite(r2)) => {
                    assert(r1 == r2);
                },
                _ => {},
            }
        },
        _ => {},
    }
}

/// Two trend rows of the same value over the same periods are the same row.
proof fn lemma_trend_rows_agree(x: TrendRow, y: TrendRow, s: Seq<Keyed>, ps: Seq<int>)
    requires
        trend_row_matches(x, s, ps),
        trend_row_matches(y, s, ps),
        x.key@ == y.key@,
    ensures
        x.period_costs@ == y.period_costs@,
        x.current_cost == y.current_cost,
        x.previous_cost == y.previous_cost,
        x.delta_usd == y.delta_usd,
        x.delta_pct == y.delta_pct,
        trend_rank(x) == trend_rank(y),
{
    assert(x.period_costs@ =~= y.period_costs@);
    lemma_change_unique(x.delta_pct, y.delta_pct, x.current_cost as int, x.previous_cost as int);
}

/// The trend of given events is unique: two reports that both meet
/// `trend`'s description for the same events, dimension, period and window
/// are equal field by field, so `trend` is a function of its arguments.
pub proof fn law_trend_is_determined(
    events: Seq<Event>,
    dimension: Seq<char>,
    period: Seq<char>,
    period_s: int,
    n: int,
    a: TrendReport,
    b: TrendReport,
)
    requires
        a.dimension@ == dimension && a.period@ == period,
        b.dimension@ == dimension && b.period@ == period,
        trend_report_of(a, keyed_events(events, dimension, period_s), n),
        trend_report_of(b, keyed_events(events, dimension, period_s), n),
    ensures
        same_trend(a, b),
{
    let s = keyed_events(events, dimension, period_s);
    lemma_newest_first_unique(a.periods@.reverse(), b.periods@.reverse(), period_set(s), n);
    assert(a.periods@ =~= a.periods@.reverse().reverse());
    assert(b.periods@ =~= b.periods@.reverse().reverse());
    let ps = as_ints(a.periods@);
    let ra = trend_ranks(a.rows@);
    let rb = trend_ranks(b.rows@);
    let pool = ra.to_set();
    let before = |x: (int, int, Seq<char>), y: (int, int, Seq<char>)| rank_precedes(x, y);
    assert forall|x: (int, int, Seq<char>), y: (int, int, Seq<char>)| #[trigger] before(x, y) implies !before(y, x) by {
        lemma_text_less_asymmetric(x.2, y.2);
    }
    let limit = a.rows.len() + b.rows.len();
    assert forall|i: int, j: int| 0 <= i < j < ra.len() implies before(#[trigger] ra[i], #[trigger] ra[j]) by {
        assert(trend_before(a.rows[i], a.rows[j]));
    }
    assert forall|x: (int, int, Seq<char>)| #[trigger] pool.contains(x) implies ra.contains(x) by {}
    assert forall|i: int| 0 <= i < ra.len() implies pool.contains(#[trigger] ra[i]) by {}
    assert(ranked(ra, before, pool, limit));
    assert forall|i: int, j: int| 0 <= i < j < rb.len() implies before(#[trigger] rb[i], #[trigger] rb[j]) by {
        assert(trend_before(b.rows[i], b.rows[j]));
    }
    assert forall|i: int| 0 <= i < rb.len() implies pool.contains(#[trigger] rb[i]) by {
        assert(key_set(s).contains(b.rows[i].key@));
        let j = choose|j: int| 0 <= j < a.rows.len() && #[trigger] a.rows[j].key@ == b.rows[i].key@;
        assert(trend_row_matches(a.rows[j], s, ps));
        assert(trend_row_matches(b.rows[i], s, ps));
        lemma_trend_rows_agree(a.rows[j], b.rows[i], s, ps);
        assert(ra[j] == rb[i]);
    }
    assert forall|x: (int, int, Seq<char>)| #[trigger] pool.contains(x) implies rb.contains(x) by {
        let j = choose|j: int| 0 <= j < ra.len() && ra[j] == x;
        assert(key_set(s).contains(a.rows[j].key@));
        let i = choose|i: int| 0 <= i < b.rows.len() && #[trigger] b.rows[i].key@ == a.rows[j].key@;
        assert(trend_row_matches(a.rows[j], s, ps));
        assert(trend_row_matches(b.rows[i], s, ps));
        lemma_trend_rows_agree(a.rows[j], b.rows[i], s, ps);
        assert(rb[i] == x);
    }
    assert(ranked(rb, before, pool, limit));
    lemma_ranked_unique(ra, rb, before, pool, limit);
    assert forall|i: int| 0 <= i < a.rows.len() implies {
        &&& #[trigger] a.rows[i].key@ == b.rows[i].key@
        &&& a.rows[i].period_costs@ == b.rows[i].period_costs@
        &&& a.rows[i].current_cost == b.rows[i].current_cost
        &&& a.rows[i].previous_cost == b.rows[i].previous_cost
        &&& a.rows[i].delta_usd == b.rows[i].delta_usd
        &&& a.rows[i].delta_pct == b.rows[i].delta_pct
    } by {
        assert(ra[i] == rb[i]);
        assert(trend_row_matches(a.rows[i], s, ps));
        assert(trend_row_matches(b.rows[i], s, ps));
        lemma_trend_rows_agree(a.rows[i], b.rows[i], s, ps);
    }
}


/// The values of the rows of a top report.
pub open spec fn top_keys(rows: Seq<crate::view::TopRow>) -> Seq<Seq<char>> {
    Seq::new(rows.len(), |i: int| rows[i].key@)
}

/// Two top reports agree field by field: names, period start, limit, total
/// and rows (value, cost, share) in order.
pub open spec fn same_top(a: TopReport, b: TopReport) -> bool {
    &&& a.dimension@ == b.dimension@
    &&& a.period@ == b.period@
    &&& a.period_start == b.period_start
    &&& a.limit == b.limit
    &&& a.total == b.total
    &&& a.rows.len() == b.rows.len()
    &&& forall|i: int|
        #![trigger a.rows[i]]
        0 <= i < a.rows.len() ==> a.rows[i].key@ == b.rows[i].key@ && a.rows[i].cost_usd
            == b.rows[i].cost_usd && a.rows[i].pct_of_total == b.rows[i].pct_of_total
}

/// The values of a top report are ranked by cost in its period, then text.
proof fn lemma_top_ranked(
    r: TopReport,
    s: Seq<Keyed>,
    before: spec_fn(Seq<char>, Seq<char>) -> bool,
)
    requires
        top_report_of(r, s),
        forall|x: Seq<char>, y: Seq<char>|
            #[trigger] before(x, y) == top_before(
                amount(s, set![x], set![r.period_start as int]),
                x,
                amount(s, set![y], set![r.period_start as int]),
                y,
            ),
    ensures
        ranked(top_keys(r.rows@), before, keys_in_period(s, r.period_start as int), r.limit as int),
{
    let ks = top_keys(r.rows@);
    let start = r.period_start as int;
    assert forall|i: int, j: int| 0 <= i < j < ks.len() implies before(
        #[trigger] ks[i],
        #[trigger] ks[j],
    ) by {
        assert(top_before(
            r.rows[i].cost_usd as int,
            r.rows[i].key@,
            r.rows[j].cost_usd as int,
            r.rows[j].key@,
        ));
    }
    assert forall|i: int| 0 <= i < ks.len() implies keys_in_period(s, start).contains(
        #[trigger] ks[i],
    ) by {
        assert(keys_in_period(s, start).contains(r.rows[i].key@));
    }
    assert forall|x: Seq<char>| #[trigger] keys_in_period(s, start).contains(x) implies ks.contains(x)
        || (ks.len() == r.limit as int && forall|i: int|
        0 <= i < ks.len() ==> before(#[trigger] ks[i], x)) by {
        if exists|i: int| 0 <= i < r.rows.len() && r.rows[i].key@ == x {
            let i = choose|i: int| 0 <= i < r.rows.len() && r.rows[i].key@ == x;
            assert(ks[i] == x);
        } else {
            assert forall|i: int| 0 <= i < ks.len() implies before(#[trigger] ks[i], x) by {
                assert(top_before(
                    r.rows[i].cost_usd as int,
                    r.rows[i].key@,
                    amount(s, set![x], set![start]),
                    x,
                ));
            }
        }
    }
}

/// The ranking of given events is unique once there is an event: two
/// reports that both meet `top`'s description for the same events,
/// dimension, period and limit are equal field by field, so `top` is a
/// function of its arguments. (Without events `top` stamps the report with
/// the clock, and two calls may differ in the period start.)
pub proof fn law_top_is_determined(
    events: Seq<Event>,
    dimension: Seq<char>,
    period: Seq<char>,
    period_s: int,
    a: TopReport,
    b: TopReport,
)
    requires
        a.dimension@ == dimension && a.period@ == period,
        b.dimension@ == dimension && b.period@ == period,
        a.limit == b.limit,
        top_report_of(a, keyed_events(events, dimension, period_s)),
        top_report_of(b, keyed_events(events, dimension, period_s)),
    ensures
        same_top(a, b),
{
    let s = keyed_events(events, dimension, period_s);
    assert(a.period_start <= b.period_start);
    assert(b.period_start <= a.period_start);
    let start = a.period_start as int;
    let before = |x: Seq<char>, y: Seq<char>|
        top_before(amount(s, set![x], set![start]), x, amount(s, set![y], set![start]), y);
    assert forall|x: Seq<char>, y: Seq<char>| #[trigger] before(x, y) implies !before(y, x) by {
        lemma_text_less_asymmetric(x, y);
    }
    lemma_top_ranked(a, s, before);
    lemma_top_ranked(b, s, before);
    lemma_ranked_unique(
        top_keys(a.rows@),
        top_keys(b.rows@),
        before,
        keys_in_period(s, start),
        a.limit as int,
    );
    assert forall|i: int|
        #![trigger a.rows[i]]
        0 <= i < a.rows.len() implies a.rows[i].key@ == b.rows[i].key@ && a.rows[i].cost_usd
            == b.rows[i].cost_usd && a.rows[i].pct_of_total == b.rows[i].pct_of_total by {
        assert(top_keys(a.rows@)[i] == top_keys(b.rows@)[i]);
        assert(keys_in_period(s, start).contains(a.rows[i].key@));
        assert(keys_in_period(s, start).contains(b.rows[i].key@));
        assert(share_matches(a.rows[i].pct_of_total, a.rows[i].cost_usd as int, a.total as int));
        assert(share_matches(b.rows[i].pct_of_total, b.rows[i].cost_usd as int, b.total as int));
        assert(a.rows[i].pct_of_total.part == b.rows[i].pct_of_total.part);
        assert(a.rows[i].pct_of_total.whole == b.rows[i].pct_of_total.whole);
    }
    assert(top_keys(a.rows@).len() == a.rows.len());
    assert(top_keys(b.rows@).len() == b.rows.len());
    assert(a.total == b.total);
}


/// The values of the rows of a trend report.
pub open spec fn trend_keys(rows: Seq<TrendRow>) -> Seq<Seq<char>> {
    Seq::new(rows.len(), |i: int| rows[i].key@)
}

/// The values of a trend report's rows are distinct.
proof fn lemma_trend_keys_distinct(r: TrendReport, s: Seq<Keyed>, n: int)
    requires
        trend_report_of(r, s, n),
    ensures
        trend_keys(r.rows@).no_duplicates(),
{
    let ps = as_ints(r.periods@);
    let ks = trend_keys(r.rows@);
    assert forall|i: int, j: int| 0 <= i < j < ks.len() implies ks[i] != ks[j] by {
        if ks[i] == ks[j] {
            assert(trend_before(r.rows[i], r.rows[j]));
            assert(trend_row_matches(r.rows[i], s, ps));
            assert(trend_row_matches(r.rows[j], s, ps));
            lemma_trend_rows_agree(r.rows[i], r.rows[j], s, ps);
            lemma_text_less_irreflexive(ks[i]);
        }
    }
}

/// The trend's rows are the wide table's rows in another order: for the
/// same events, dimension, period and window, some permutation takes each
/// trend row to the table row of its value, which carries the same costs
/// per period.
pub proof fn law_trend_rows_permute_table_rows(
    events: Seq<Event>,
    dimension: Seq<char>,
    period_s: int,
    n: int,
    table: WideTable,
    report: TrendReport,
)
    requires
        wide_table_of(table, keyed_events(events, dimension, period_s), n),
        trend_report_of(report, keyed_events(events, dimension, period_s), n),
    ensures
        report.rows.len() == table.rows.len(),
        exists|order: Seq<usize>|
            {
                &&& is_permutation(order, table.rows.len() as int)
                &&& forall|i: int|
                    0 <= i < report.rows.len() ==> #[trigger] report.rows[i].key@
                        == table.rows[order[i] as int].key@ && report.rows[i].period_costs@
                        == table.rows[order[i] as int].period_costs@
            },
{
    let s = keyed_events(events, dimension, period_s);
    crate::laws::law_trend_agrees_with_table(events, dimension, period_s, n, table, report);
    lemma_table_keys_distinct(table, s, n);
    lemma_trend_keys_distinct(report, s, n);
    let tk = row_keys(table.rows@);
    let rk = trend_keys(report.rows@);
    assert forall|k: Seq<char>| tk.to_set().contains(k) <==> rk.to_set().contains(k) by {
        if tk.contains(k) {
            let j = choose|j: int| 0 <= j < tk.len() && tk[j] == k;
            assert(table.rows[j].key@ == k);
            assert(key_set(s).contains(k));
            let i = choose|i: int| 0 <= i < report.rows.len() && #[trigger] report.rows[i].key@ == k;
            assert(rk[i] == k);
        }
        if rk.contains(k) {
            let i = choose|i: int| 0 <= i < rk.len() && rk[i] == k;
            assert(report.rows[i].key@ == k);
            assert(key_set(s).contains(k));
            let j = choose|j: int| 0 <= j < table.rows.len() && #[trigger] table.rows[j].key@ == k;
            assert(tk[j] == k);
        }
    }
    assert(tk.to_set() =~= rk.to_set());
    tk.unique_seq_to_set();
    rk.unique_seq_to_set();
    let m = table.rows.len() as int;
    let order = Seq::new(
        report.rows.len() as nat,
        |i: int| (choose|j: int| 0 <= j < m && table.rows[j].key@ == report.rows[i].key@) as usize,
    );
    assert forall|i: int| 0 <= i < report.rows.len() implies 0 <= order[i] < m
        && table.rows[order[i] as int].key@ == report.rows[i].key@ by {
        assert(rk[i] == report.rows[i].key@);
        assert(rk.to_set().contains(rk[i]));
        let t = choose|j: int| 0 <= j < tk.len() && tk[j] == rk[i];
        assert(table.rows[t].key@ == report.rows[i].key@);
    }
    assert forall|a: int, b: int| 0 <= a < b < order.len() implies order[a] != order[b] by {
        assert(rk[a] != rk[b]);
    }
    assert forall|k: usize| k < m implies order.contains(k) by {
        assert(tk[k as int] == table.rows[k as int].key@);
        assert(tk.to_set().contains(tk[k as int]));
        let i = choose|i: int| 0 <= i < rk.len() && rk[i] == tk[k as int];
        assert(report.rows[i].key@ == table.rows[k as int].key@);
        let o = order[i] as int;
        assert(tk[o] == tk[k as int]);
        assert(order[i] == k);
    }
    assert(is_permutation(order, m));
}


/// Reordering the events changes no amount.
proof fn lemma_reorder_amount(
    e1: Seq<Event>,
    e2: Seq<Event>,
    dimension: Seq<char>,
    period_s: int,
    keys: Set<Seq<char>>,
    periods: Set<int>,
)
    requires
        e1.to_multiset() == e2.to_multiset(),
    ensures
        amount(keyed_events(e1, dimension, period_s), keys, periods) == amount(
            keyed_events(e2, dimension, period_s),
            keys,
            periods,
        ),
    decreases e1.len(),
{
    broadcast use vstd::seq_lib::group_to_multiset_ensures;

    let s1 = keyed_events(e1, dimension, period_s);
    let s2 = keyed_events(e2, dimension, period_s);
    if e1.len() == 0 {
        assert(e1.to_multiset().len() == e1.len());
        assert(e2.to_multiset().len() == e2.len());
        assert(e2.len() == 0);
        assert(s1 =~= s2);
    } else {
        let last = e1.len() - 1;
        let x = e1[last];
        assert(e1.to_multiset().count(x) > 0);
        assert(e2.contains(x));
        let j = choose|j: int| 0 <= j < e2.len() && e2[j] == x;
        assert(e1.remove(last) =~= e1.drop_last());
        assert(e1.drop_last().to_multiset() == e2.remove(j).to_multiset());
        lemma_reorder_amount(e1.drop_last(), e2.remove(j), dimension, period_s, keys, periods);
        assert(keyed_events(e1.drop_last(), dimension, period_s).push(s1[last]) =~= s1);
        lemma_amount_push(keyed_events(e1.drop_last(), dimension, period_s), s1[last], keys, periods);
        lemma_amount_remove(s2, j, keys, periods);
        assert(s2.remove(j) =~= keyed_events(e2.remove(j), dimension, period_s));
    }
}

/// Reordering the events keeps the periods and values that occur.
proof fn lemma_reorder_sets(e1: Seq<Event>, e2: Seq<Event>, dimension: Seq<char>, period_s: int)
    requires
        e1.to_multiset() == e2.to_multiset(),
    ensures
        period_set(keyed_events(e1, dimension, period_s)) == period_set(
            keyed_events(e2, dimension, period_s),
        ),
        key_set(keyed_events(e1, dimension, period_s)) == key_set(
            keyed_events(e2, dimension, period_s),
        ),
        forall|p: int|
            #[trigger] keys_in_period(keyed_events(e1, dimension, period_s), p) == keys_in_period(
                keyed_events(e2, dimension, period_s),
                p,
            ),
{
    broadcast use vstd::seq_lib::group_to_multiset_ensures;

    let s1 = keyed_events(e1, dimension, period_s);
    let s2 = keyed_events(e2, dimension, period_s);
    assert forall|i: int| #![trigger s1[i]] 0 <= i < e1.len() implies exists|j: int|
        0 <= j < e2.len() && #[trigger] s2[j] == s1[i] by {
        assert(e1.to_multiset().count(e1[i]) > 0);
        assert(e2.contains(e1[i]));
        let j = choose|j: int| 0 <= j < e2.len() && e2[j] == e1[i];
        assert(s2[j] == s1[i]);
    }
    assert forall|j: int| #![trigger s2[j]] 0 <= j < e2.len() implies exists|i: int|
        0 <= i < e1.len() && #[trigger] s1[i] == s2[j] by {
        assert(e2.to_multiset().count(e2[j]) > 0);
        assert(e1.contains(e2[j]));
        let i = choose|i: int| 0 <= i < e1.len() && e1[i] == e2[j];
        assert(s1[i] == s2[j]);
    }
    assert forall|p: int| period_set(s1).contains(p) <==> period_set(s2).contains(p) by {
        if period_set(s1).contains(p) {
            let i = choose|i: int| 0 <= i < s1.len() && #[trigger] s1[i].1 == p;
            let j = choose|j: int| 0 <= j < e2.len() && #[trigger] s2[j] == s1[i];
        }
        if period_set(s2).contains(p) {
            let j = choose|j: int| 0 <= j < s2.len() && #[trigger] s2[j].1 == p;
            let i = choose|i: int| 0 <= i < e1.len() && #[trigger] s1[i] == s2[j];
        }
    }
    assert forall|k: Seq<char>| key_set(s1).contains(k) <==> key_set(s2).contains(k) by {
        if key_set(s1).contains(k) {
            let i = choose|i: int| 0 <= i < s1.len() && #[trigger] s1[i].0 == k;
            let j = choose|j: int| 0 <= j < e2.len() && #[trigger] s2[j] == s1[i];
        }
        if key_set(s2).contains(k) {
            let j = choose|j: int| 0 <= j < s2.len() && #[trigger] s2[j].0 == k;
            let i = choose|i: int| 0 <= i < e1.len() && #[trigger] s1[i] == s2[j];
        }
    }
    assert(period_set(s1) =~= period_set(s2));
    assert(key_set(s1) =~= key_set(s2));
    assert forall|p: int| #[trigger] keys_in_period(s1, p) == keys_in_period(s2, p) by {
        assert forall|k: Seq<char>| keys_in_period(s1, p).contains(k) <==> keys_in_period(
            s2,
            p,
        ).contains(k) by {
            if keys_in_period(s1, p).contains(k) {
                let i = choose|i: int| 0 <= i < s1.len() && #[trigger] s1[i] == (k, p, s1[i].2);
                let j = choose|j: int| 0 <= j < e2.len() && #[trigger] s2[j] == s1[i];
                assert(s2[j] == (k, p, s2[j].2));
            }
            if keys_in_period(s2, p).contains(k) {
                let j = choose|j: int| 0 <= j < s2.len() && #[trigger] s2[j] == (k, p, s2[j].2);
                let i = choose|i: int| 0 <= i < e1.len() && #[trigger] s1[i] == s2[j];
                assert(s1[i] == (k, p, s1[i].2));
            }
        }
        assert(keys_in_period(s1, p) =~= keys_in_period(s2, p));
    }
}

/// A wide table of some events is a wide table of any reordering of them.
proof fn lemma_table_of_reordered(
    e1: Seq<Event>,
    e2: Seq<Event>,
    dimension: Seq<char>,
    period_s: int,
    n: int,
    t: WideTable,
)
    requires
        e1.to_multiset() == e2.to_multiset(),
        wide_table_of(t, keyed_events(e1, dimension, period_s), n),
    ensures
        wide_table_of(t, keyed_events(e2, dimension, period_s), n),
{
    let s1 = keyed_events(e1, dimension, period_s);
    let s2 = keyed_events(e2, dimension, period_s);
    let ps = as_ints(t.periods@);
    lemma_reorder_sets(e1, e2, dimension, period_s);
    assert forall|i: int| 0 <= i < t.rows.len() implies row_matches(#[trigger] t.rows[i], s2, ps) by {
        assert(row_matches(t.rows[i], s1, ps));
        assert forall|j: int| 0 <= j < ps.len() implies #[trigger] t.rows[i].period_costs[j]
            == amount(s2, set![t.rows[i].key@], set![ps[j]]) by {
            lemma_reorder_amount(e1, e2, dimension, period_s, set![t.rows[i].key@], set![ps[j]]);
        }
        lemma_reorder_amount(e1, e2, dimension, period_s, set![t.rows[i].key@], ps.to_set());
    }
    assert forall|j: int| 0 <= j < t.periods.len() implies #[trigger] t.totals[j] == amount(
        s2,
        Set::full(),
        set![t.periods[j] as int],
    ) by {
        lemma_reorder_amount(e1, e2, dimension, period_s, Set::full(), set![t.periods[j] as int]);
    }
}

/// `render` does not depend on the order of the events: the tables of two
/// orderings of the same events (for the same dimension, period and window)
/// are equal field by field.
pub proof fn law_table_ignores_event_order(
    e1: Seq<Event>,
    e2: Seq<Event>,
    dimension: Seq<char>,
    period: Seq<char>,
    period_s: int,
    n: int,
    a: WideTable,
    b: WideTable,
)
    requires
        e1.to_multiset() == e2.to_multiset(),
        a.dimension@ == dimension && a.period@ == period,
        b.dimension@ == dimension && b.period@ == period,
        wide_table_of(a, keyed_events(e1, dimension, period_s), n),
        wide_table_of(b, keyed_events(e2, dimension, period_s), n),
    ensures
        same_table(a, b),
{
    lemma_table_of_reordered(e1, e2, dimension, period_s, n, a);
    law_table_is_determined(e2, dimension, period, period_s, n, a, b);
}


/// A trend of some events is a trend of any reordering of them.
proof fn lemma_trend_of_reordered(
    e1: Seq<Event>,
    e2: Seq<Event>,
    dimension: Seq<char>,
    period_s: int,
    n: int,
    r: TrendReport,
)
    requires
        e1.to_multiset() == e2.to_multiset(),
        trend_report_of(r, keyed_events(e1, dimension, period_s), n),
    ensures
        trend_report_of(r, keyed_events(e2, dimension, period_s), n),
{
    let s1 = keyed_events(e1, dimension, period_s);
    let s2 = keyed_events(e2, dimension, period_s);
    let ps = as_ints(r.periods@);
    lemma_reorder_sets(e1, e2, dimension, period_s);
    assert forall|i: int| 0 <= i < r.rows.len() implies trend_row_matches(#[trigger] r.rows[i], s2, ps) by {
        assert(trend_row_matches(r.rows[i], s1, ps));
        assert forall|j: int| 0 <= j < ps.len() implies #[trigger] r.rows[i].period_costs[j]
            == amount(s2, set![r.rows[i].key@], set![ps[j]]) by {
            lemma_reorder_amount(e1, e2, dimension, period_s, set![r.rows[i].key@], set![ps[j]]);
        }
    }
}

/// `trend` does not depend on the order of the events: the trends of two
/// orderings of the same events are equal field by field.
pub proof fn law_trend_ignores_event_order(
    e1: Seq<Event>,
    e2: Seq<Event>,
    dimension: Seq<char>,
    period: Seq<char>,
    period_s: int,
    n: int,
    a: TrendReport,
    b: TrendReport,
)
    requires
        e1.to_multiset() == e2.to_multiset(),
        a.dimension@ == dimension && a.period@ == period,
        b.dimension@ == dimension && b.period@ == period,
        trend_report_of(a, keyed_events(e1, dimension, period_s), n),
        trend_report_of(b, keyed_events(e2, dimension, period_s), n),
    ensures
        same_trend(a, b),
{
    lemma_trend_of_reordered(e1, e2, dimension, period_s, n, a);
    law_trend_is_determined(e2, dimension, period, period_s, n, a, b);
}

/// `top` does not depend on the order of the events: the rankings of two
/// orderings of the same (non-empty) events are equal field by field.
pub proof fn law_top_ignores_event_order(
    e1: Seq<Event>,
    e2: Seq<Event>,
    dimension: Seq<char>,
    period: Seq<char>,
    period_s: int,
    a: TopReport,
    b: TopReport,
)
    requires
        e1.to_multiset() == e2.to_multiset(),
        a.dimension@ == dimension && a.period@ == period,
        b.dimension@ == dimension && b.period@ == period,
        a.limit == b.limit,
        top_report_of(a, keyed_events(e1, dimension, period_s)),
        top_report_of(b, keyed_events(e2, dimension, period_s)),
    ensures
        same_top(a, b),
{
    let s1 = keyed_events(e1, dimension, period_s);
    let s2 = keyed_events(e2, dimension, period_s);
    let start = a.period_start as int;
    lemma_reorder_sets(e1, e2, dimension, period_s);
    assert(keys_in_period(s1, start) == keys_in_period(s2, start));
    lemma_reorder_amount(e1, e2, dimension, period_s, Set::full(), set![start]);
    assert forall|i: int| 0 <= i < a.rows.len() implies a.rows[i].cost_usd == amount(
        s2,
        set![#[trigger] a.rows[i].key@],
        set![start],
    ) by {
        lemma_reorder_amount(e1, e2, dimension, period_s, set![a.rows[i].key@], set![start]);
    }
    assert forall|k: Seq<char>| #[trigger] keys_in_period(s2, start).contains(k) implies (exists|i: int|
        0 <= i < a.rows.len() && a.rows[i].key@ == k) || (a.rows.len() == a.limit && forall|i: int|
        0 <= i < a.rows.len() ==> crate::view::top_before(
            #[trigger] a.rows[i].cost_usd as int,
            a.rows[i].key@,
            amount(s2, set![k], set![start]),
            k,
        )) by {
        assert(keys_in_period(s1, start).contains(k));
        lemma_reorder_amount(e1, e2, dimension, period_s, set![k], set![start]);
    }
    assert(top_report_of(a, s2));
    law_top_is_determined(e2, dimension, period, period_s, a, b);
}

} // verus!
