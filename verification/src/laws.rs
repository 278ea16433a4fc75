//! Properties that hold across the views: costs are neither lost nor counted
//! twice, and the views built from the same events agree with each other.

use vstd::prelude::*;

use crate::amount::{
    amount, as_ints, cost_sum, lemma_amount_all, lemma_amount_congruent, lemma_amount_fits,
    lemma_sum_over_keys, lemma_sum_over_periods, total_of, Keyed,
};
use crate::event::{period_start, Event};
use crate::layout::sums_fit;
use crate::time::{is_timestamp, MAX_TIMESTAMP};
use crate::ordering::lemma_text_less_irreflexive;
use crate::view::{
    TopReport, TrendReport, WideTable,
    is_newest_first, key_set, keyed_events, lemma_keyed_costs_fit, keys_in_period, period_set, row_keys,
    top_report_of, trend_report_of, wide_table_of, TopRow, WideRow,
};

verus! {

/// Sum of the costs of the events, in micro-dollars.
pub open spec fn total_cost(events: Seq<Event>) -> int
    decreases events.len(),
{
    if events.len() == 0 {
        0
    } else {
        total_cost(events.drop_last()) + events.last().cost_usd
    }
}

/// The totals of the rows of a table.
pub open spec fn row_totals(rows: Seq<WideRow>) -> Seq<i128> {
    Seq::new(rows.len(), |i: int| rows[i].row_total)
}

/// The costs of the rows of a top report.
pub open spec fn top_costs(rows: Seq<TopRow>) -> Seq<i128> {
    Seq::new(rows.len(), |i: int| rows[i].cost_usd)
}

proof fn lemma_cost_sum_of_events(events: Seq<Event>, dimension: Seq<char>, period_s: int)
    ensures
        cost_sum(keyed_events(events, dimension, period_s)) == total_cost(events),
    decreases events.len(),
{
    if events.len() > 0 {
        lemma_cost_sum_of_events(events.drop_last(), dimension, period_s);
        assert(keyed_events(events.drop_last(), dimension, period_s) =~= keyed_events(
            events,
            dimension,
            period_s,
        ).drop_last());
    }
}

/// The periods of a window are increasing, hence distinct.
proof fn lemma_window_increasing(ps: Seq<i64>, all: Set<int>, n: int)
    requires
        is_newest_first(ps.reverse(), all, n),
    ensures
        forall|a: int, b: int| 0 <= a < b < ps.len() ==> ps[a] < ps[b],
        as_ints(ps).no_duplicates(),
{
    let r = ps.reverse();
    let m = ps.len() as int;
    assert forall|a: int, b: int| 0 <= a < b < ps.len() implies ps[a] < ps[b] by {
        assert(r[m - 1 - a] == ps[a]);
        assert(r[m - 1 - b] == ps[b]);
    }
    assert forall|a: int, b: int| 0 <= a < b < m implies as_ints(ps)[a] != as_ints(ps)[b] by {
        assert(ps[a] < ps[b]);
    }
}

/// The values of a wide table's rows are distinct.
pub(crate) proof fn lemma_table_keys_distinct(table: WideTable, s: Seq<Keyed>, n: int)
    requires
        wide_table_of(table, s, n),
    ensures
        row_keys(table.rows@).no_duplicates(),
{
    let rows = table.rows@;
    assert forall|a: int, b: int| 0 <= a < b < rows.len() implies row_keys(rows)[a] != row_keys(
        rows,
    )[b] by {
        if rows[a].key@ == rows[b].key@ {
            assert(crate::view::row_before(table.rows[a], table.rows[b]));
            assert(crate::view::row_matches(table.rows[a], s, as_ints(table.periods@)));
            assert(crate::view::row_matches(table.rows[b], s, as_ints(table.periods@)));
            lemma_text_less_irreflexive(rows[a].key@);
        }
    }
}

/// The grand total of a wide table is the same whether the period totals or
/// the row totals are summed, and it is the cost of all events that fall in
/// the shown periods.
pub proof fn law_table_balances(
    events: Seq<Event>,
    dimension: Seq<char>,
    period_s: int,
    n: int,
    table: WideTable,
)
    requires
        wide_table_of(table, keyed_events(events, dimension, period_s), n),
    ensures
        total_of(table.totals@) == total_of(row_totals(table.rows@)),
        total_of(table.totals@) == amount(
            keyed_events(events, dimension, period_s),
            Set::full(),
            as_ints(table.periods@).to_set(),
        ),
{
    let s = keyed_events(events, dimension, period_s);
    let ps = as_ints(table.periods@);
    lemma_window_increasing(table.periods@, period_set(s), n);
    assert forall|j: int| 0 <= j < ps.len() implies #[trigger] table.totals@[j] == amount(
        s,
        Set::full(),
        set![ps[j]],
    ) by {
        assert(table.totals[j] == amount(s, Set::full(), set![table.periods[j] as int]));
    }
    lemma_sum_over_periods(s, Set::full(), ps, table.totals@, ps.len() as int);
    assert(table.totals@.take(ps.len() as int) =~= table.totals@);
    assert(ps.take(ps.len() as int) =~= ps);
    let rows = table.rows@;
    let ks = row_keys(rows);
    let xs = row_totals(rows);
    lemma_table_keys_distinct(table, s, n);
    assert forall|i: int| 0 <= i < ks.len() implies #[trigger] xs[i] == amount(
        s,
        set![ks[i]],
        ps.to_set(),
    ) by {
        assert(crate::view::row_matches(table.rows[i], s, ps));
    }
    lemma_sum_over_keys(s, ks, ps.to_set(), xs, ks.len() as int);
    assert(xs.take(ks.len() as int) =~= xs);
    assert(ks.take(ks.len() as int) =~= ks);
    assert forall|t: int| 0 <= t < s.len() implies (ks.to_set().contains(#[trigger] s[t].0)
        && ps.to_set().contains(s[t].1)) == (Set::<Seq<char>>::full().contains(s[t].0)
        && ps.to_set().contains(s[t].1)) by {
        assert(key_set(s).contains(s[t].0));
        let i = choose|i: int| 0 <= i < table.rows.len() && #[trigger] table.rows[i].key@ == s[t].0;
        assert(ks[i] == s[t].0);
    }
    lemma_amount_congruent(s, ks.to_set(), ps.to_set(), Set::full(), ps.to_set());
}

/// When the window is at least as long as the number of distinct periods,
/// every event is counted exactly once: the period totals of the wide table
/// add up to the cost of all events.
pub proof fn law_table_counts_every_event(
    events: Seq<Event>,
    dimension: Seq<char>,
    period_s: int,
    n: int,
    table: WideTable,
)
    requires
        wide_table_of(table, keyed_events(events, dimension, period_s), n),
        period_set(keyed_events(events, dimension, period_s)).len() <= n,
    ensures
        total_of(table.totals@) == total_cost(events),
{
    let s = keyed_events(events, dimension, period_s);
    let all = period_set(s);
    let ps = as_ints(table.periods@);
    let r = table.periods@.reverse();
    let ri = as_ints(r);
    law_table_balances(events, dimension, period_s, n, table);
    lemma_window_increasing(table.periods@, all, n);
    // the set of periods is finite: it is the set of a sequence
    let seq_p = Seq::new(s.len(), |i: int| s[i].1);
    assert(all =~= seq_p.to_set()) by {
        assert forall|p: int| all.contains(p) implies seq_p.to_set().contains(p) by {
            let i = choose|i: int| 0 <= i < s.len() && #[trigger] s[i].1 == p;
            assert(seq_p[i] == p);
        }
    }
    vstd::seq_lib::seq_to_set_is_finite(seq_p);
    assert(ri.no_duplicates()) by {
        assert forall|a: int, b: int| 0 <= a < b < ri.len() implies ri[a] != ri[b] by {
            let m = r.len() as int;
            assert(r[a] == table.periods[m - 1 - a]);
            assert(r[b] == table.periods[m - 1 - b]);
        }
    }
    assert forall|p: int| all.contains(p) implies ps.to_set().contains(p) by {
        if !ri.contains(p) {
            assert(r.len() == n);
            ri.unique_seq_to_set();
            assert(ri.to_set().subset_of(all)) by {
                assert forall|q: int| ri.to_set().contains(q) implies all.contains(q) by {
                    let a = choose|a: int| 0 <= a < ri.len() && ri[a] == q;
                    assert(all.contains(r[a] as int));
                }
            }
            vstd::set_lib::lemma_len_subset(ri.to_set(), all);
            vstd::set_lib::lemma_subset_equality(ri.to_set(), all);
            assert(ri.to_set().contains(p));
        }
        let a = choose|a: int| 0 <= a < ri.len() && ri[a] == p;
        let m = r.len() as int;
        assert(ps[m - 1 - a] == p);
    }
    assert forall|t: int| 0 <= t < s.len() implies (Set::<Seq<char>>::full().contains(
        #[trigger] s[t].0,
    ) && ps.to_set().contains(s[t].1)) == (Set::<Seq<char>>::full().contains(s[t].0)
        && Set::<int>::full().contains(s[t].1)) by {
        assert(all.contains(s[t].1));
    }
    lemma_amount_congruent(s, Set::full(), ps.to_set(), Set::full(), Set::full());
    lemma_amount_all(s);
    lemma_cost_sum_of_events(events, dimension, period_s);
}

/// The top report looks at the wide table's newest column: its period is the
/// newest period of the table, and its total is that column's total.
pub proof fn law_top_is_newest_column(
    events: Seq<Event>,
    dimension: Seq<char>,
    period_s: int,
    n: int,
    table: WideTable,
    report: TopReport,
)
    requires
        events.len() > 0,
        n >= 1,
        wide_table_of(table, keyed_events(events, dimension, period_s), n),
        top_report_of(report, keyed_events(events, dimension, period_s)),
    ensures
        table.periods.len() >= 1,
        table.periods@.last() == report.period_start,
        table.totals@.last() == report.total,
{
    let s = keyed_events(events, dimension, period_s);
    let all = period_set(s);
    let r = table.periods@.reverse();
    let m = r.len() as int;
    assert(all.contains(s[0].1));
    if m == 0 {
        assert(!as_ints(r).contains(s[0].1));
    }
    let newest = r[0] as int;
    assert(r[0] == table.periods[m - 1]);
    assert(all.contains(newest));
    let start = report.period_start as int;
    assert(newest <= start);
    if as_ints(r).contains(start) {
        let a = choose|a: int| 0 <= a < m && as_ints(r)[a] == start;
        if a > 0 {
            assert(r[0] > r[a]);
        }
    }
    assert(newest == start);
}

/// When the limit does not cut the ranking, the costs of the top rows add up
/// to the period's total, so the shares add up to the whole.
pub proof fn law_top_shares_add_up(
    events: Seq<Event>,
    dimension: Seq<char>,
    period_s: int,
    report: TopReport,
)
    requires
        events.len() > 0,
        top_report_of(report, keyed_events(events, dimension, period_s)),
        report.rows.len() < report.limit,
    ensures
        total_of(top_costs(report.rows@)) == report.total,
{
    let s = keyed_events(events, dimension, period_s);
    let start = report.period_start as int;
    let rows = report.rows@;
    let ks = Seq::new(rows.len(), |i: int| rows[i].key@);
    let xs = top_costs(rows);
    assert(ks.no_duplicates()) by {
        assert forall|a: int, b: int| 0 <= a < b < ks.len() implies ks[a] != ks[b] by {
            assert(crate::view::top_before(
                report.rows[a].cost_usd as int,
                report.rows[a].key@,
                report.rows[b].cost_usd as int,
                report.rows[b].key@,
            ));
            if ks[a] == ks[b] {
                assert(report.rows[a].cost_usd == amount(s, set![report.rows[a].key@], set![start]));
                assert(report.rows[b].cost_usd == amount(s, set![report.rows[b].key@], set![start]));
                lemma_text_less_irreflexive(ks[a]);
            }
        }
    }
    assert forall|i: int| 0 <= i < ks.len() implies #[trigger] xs[i] == amount(
        s,
        set![ks[i]],
        set![start],
    ) by {
        assert(report.rows[i].cost_usd == amount(s, set![report.rows[i].key@], set![start]));
    }
    lemma_sum_over_keys(s, ks, set![start], xs, ks.len() as int);
    assert(xs.take(ks.len() as int) =~= xs);
    assert(ks.take(ks.len() as int) =~= ks);
    assert forall|t: int| 0 <= t < s.len() implies (ks.to_set().contains(#[trigger] s[t].0)
        && set![start].contains(s[t].1)) == (Set::<Seq<char>>::full().contains(s[t].0)
        && set![start].contains(s[t].1)) by {
        if s[t].1 == start {
            assert(s[t] == (s[t].0, start, s[t].2));
            assert(keys_in_period(s, start).contains(s[t].0));
            let i = choose|i: int| 0 <= i < report.rows.len() && report.rows[i].key@ == s[t].0;
            assert(ks[i] == s[t].0);
        }
    }
    lemma_amount_congruent(s, ks.to_set(), set![start], Set::full(), set![start]);
}

/// Two windows of the newest `n` periods of the same set are the same.
pub(crate) proof fn lemma_newest_first_unique(r1: Seq<i64>, r2: Seq<i64>, all: Set<int>, n: int)
    requires
        is_newest_first(r1, all, n),
        is_newest_first(r2, all, n),
    ensures
        r1 == r2,
{
    // the first position where they differ cannot exist
    assert forall|i: int| 0 <= i < r1.len() && 0 <= i < r2.len() implies r1[i] == r2[i] by {
        lemma_newest_first_agree_upto(r1, r2, all, n, i);
    }
    if r1.len() != r2.len() {
        if r1.len() > r2.len() {
            lemma_newest_first_longer(r1, r2, all, n);
        } else {
            lemma_newest_first_longer(r2, r1, all, n);
        }
    }
    assert(r1 =~= r2);
}

proof fn lemma_newest_first_agree_upto(r1: Seq<i64>, r2: Seq<i64>, all: Set<int>, n: int, i: int)
    requires
        is_newest_first(r1, all, n),
        is_newest_first(r2, all, n),
        0 <= i < r1.len(),
        i < r2.len(),
    ensures
        forall|j: int| 0 <= j <= i ==> r1[j] == r2[j],
    decreases i,
{
    if i > 0 {
        lemma_newest_first_agree_upto(r1, r2, all, n, i - 1);
    }
    lemma_newest_first_step(r1, r2, all, n, i);
    lemma_newest_first_step(r2, r1, all, n, i);
}

/// If the windows agree before position `i`, a larger value at `i` in one
/// would have to be in the other window too, which it cannot be.
proof fn lemma_newest_first_step(r1: Seq<i64>, r2: Seq<i64>, all: Set<int>, n: int, i: int)
    requires
        is_newest_first(r1, all, n),
        is_newest_first(r2, all, n),
        0 <= i < r1.len(),
        i < r2.len(),
        forall|j: int| 0 <= j < i ==> r1[j] == r2[j],
    ensures
        r1[i] <= r2[i],
{
    if r1[i] <= r2[i] {
        return;
    }
    let p = r1[i] as int;
    assert(all.contains(p));
    if as_ints(r2).contains(p) {
        let j = choose|j: int| 0 <= j < r2.len() && as_ints(r2)[j] == p;
        if j < i {
            assert(r1[j] > r1[i]);
        } else if j > i {
            assert(r2[i] > r2[j]);
        }
    } else {
        assert(p < r2[i]);
    }
}

/// A window cannot be longer than another of the same set.
proof fn lemma_newest_first_longer(r1: Seq<i64>, r2: Seq<i64>, all: Set<int>, n: int)
    requires
        is_newest_first(r1, all, n),
        is_newest_first(r2, all, n),
        forall|j: int| 0 <= j < r1.len() && j < r2.len() ==> r1[j] == r2[j],
    ensures
        r1.len() <= r2.len(),
{
    if r1.len() <= r2.len() {
        return;
    }
    let i = r2.len() as int;
    let p = r1[i] as int;
    assert(all.contains(p));
    if as_ints(r2).contains(p) {
        let j = choose|j: int| 0 <= j < r2.len() && as_ints(r2)[j] == p;
        assert(r1[j] > r1[i]);
    } else {
        assert(r2.len() == n);
    }
}

/// Trend and wide table of the same events agree: they show the same
/// periods, the row of a value carries the same per-period costs in both,
/// and the trend's current cost is the newest column of the table.
pub proof fn law_trend_agrees_with_table(
    events: Seq<Event>,
    dimension: Seq<char>,
    period_s: int,
    n: int,
    table: WideTable,
    report: TrendReport,
)
    requires
        wide_table_of(table, keyed_events(events, dimension, period_s), n),
        trend_report_of(report, keyed_events(events, dimension, period_s), n),
    ensures
        report.periods@ == table.periods@,
        forall|i: int, j: int|
            0 <= i < report.rows.len() && 0 <= j < table.rows.len() && #[trigger] report.rows[i].key@
                == #[trigger] table.rows[j].key@ ==> report.rows[i].period_costs@
                == table.rows[j].period_costs@ && (table.periods.len() > 0
                ==> report.rows[i].current_cost == table.rows[j].period_costs[table.periods.len()
                - 1]),
{
    let s = keyed_events(events, dimension, period_s);
    lemma_newest_first_unique(report.periods@.reverse(), table.periods@.reverse(), period_set(s), n);
    assert(report.periods@ =~= report.periods@.reverse().reverse());
    assert(table.periods@ =~= table.periods@.reverse().reverse());
    let ps = as_ints(table.periods@);
    assert forall|i: int, j: int|
        0 <= i < report.rows.len() && 0 <= j < table.rows.len() && #[trigger] report.rows[i].key@
            == #[trigger] table.rows[j].key@ implies report.rows[i].period_costs@
        == table.rows[j].period_costs@ && (table.periods.len() > 0
        ==> report.rows[i].current_cost == table.rows[j].period_costs[table.periods.len()
        - 1]) by {
        assert(crate::view::trend_row_matches(report.rows[i], s, ps));
        assert(crate::view::row_matches(table.rows[j], s, ps));
        assert(report.rows[i].period_costs@ =~= table.rows[j].period_costs@);
    }
}

/// Every running sum of a wide table's period totals fits in an `i128`, so
/// its layout can add them up.
pub proof fn law_table_totals_fit(
    events: Seq<Event>,
    dimension: Seq<char>,
    period_s: int,
    n: int,
    table: WideTable,
)
    requires
        events.len() <= usize::MAX,
        wide_table_of(table, keyed_events(events, dimension, period_s), n),
    ensures
        sums_fit(table.totals@),
{
    let s = keyed_events(events, dimension, period_s);
    let ps = as_ints(table.periods@);
    lemma_keyed_costs_fit(events, dimension, period_s);
    lemma_window_increasing(table.periods@, period_set(s), n);
    assert forall|j: int| 0 <= j < ps.len() implies #[trigger] table.totals@[j] == amount(
        s,
        Set::full(),
        set![ps[j]],
    ) by {
        assert(table.totals[j] == amount(s, Set::full(), set![table.periods[j] as int]));
    }
    assert forall|k: int| 0 <= k <= table.totals@.len() implies i128::MIN <= #[trigger] total_of(
        table.totals@.take(k),
    ) <= i128::MAX by {
        lemma_sum_over_periods(s, Set::full(), ps, table.totals@, k);
        lemma_amount_fits(s, Set::full(), ps.take(k).to_set());
    }
}

/// When no event lies beyond the latest instant chrono can hold, every
/// period of a wide table is an instant chrono can name.
pub proof fn law_table_periods_are_timestamps(
    events: Seq<Event>,
    dimension: Seq<char>,
    period_s: int,
    n: int,
    table: WideTable,
)
    requires
        period_s > 0 || events.len() == 0,
        forall|i: int| 0 <= i < events.len() ==> #[trigger] events[i].ts <= MAX_TIMESTAMP,
        wide_table_of(table, keyed_events(events, dimension, period_s), n),
    ensures
        forall|j: int| 0 <= j < table.periods.len() ==> is_timestamp(#[trigger] table.periods[j] as int),
{
    let s = keyed_events(events, dimension, period_s);
    let r = table.periods@.reverse();
    assert forall|j: int| 0 <= j < table.periods.len() implies is_timestamp(
        #[trigger] table.periods[j] as int,
    ) by {
        let m = table.periods.len() as int;
        assert(r[m - 1 - j] == table.periods[j]);
        assert(period_set(s).contains(table.periods[j] as int));
        let i = choose|i: int| 0 <= i < s.len() && #[trigger] s[i].1 == table.periods[j] as int;
        let ts = events[i].ts as int;
        assert(period_s > 0);
        if ts > 0 {
            assert((ts / period_s) * period_s <= ts) by (nonlinear_arith)
                requires
                    ts > 0,
                    period_s > 0,
            ;
            assert(0 <= (ts / period_s) * period_s) by (nonlinear_arith)
                requires
                    ts > 0,
                    period_s > 0,
            ;
        }
        assert(s[i].1 == period_start(ts, period_s));
    }
}

} // verus!
