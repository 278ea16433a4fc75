//! The views on small hand-made inputs, and their cross-view properties on
//! concrete values.

use showback_forge::event::Event;
use showback_forge::view::{render, top, trend, PercentChange};

const DAY: u64 = 86_400;
const JAN_1_2026: i64 = 1_767_225_600;

fn at(d: i64, key: &str, micros: i64) -> Event {
    Event {
        ts: JAN_1_2026 + (d - 1) * 86_400 + 60,
        cost_usd: micros,
        dimensions: vec![("team".to_string(), key.to_string())],
    }
}

fn sample() -> Vec<Event> {
    vec![
        at(1, "b", 5),
        at(1, "a", 5),
        at(2, "c", 7),
        at(3, "a", 1),
        at(3, "b", 4),
        at(3, "c", -2),
        at(4, "d", 0),
        at(4, "a", 3),
        at(4, "a", 3),
    ]
}

#[test]
fn rows_tie_on_total_sort_by_value() {
    let t = render(&sample(), "team", "1d", DAY, 10);
    let keys: Vec<&str> = t.rows.iter().map(|r| r.key.as_str()).collect();
    // totals: a 12, b 9, c 5, d 0
    assert_eq!(keys, vec!["a", "b", "c", "d"]);
    let even = vec![at(1, "y", 4), at(1, "x", 4), at(1, "z", 5)];
    let t = render(&even, "team", "1d", DAY, 10);
    let keys: Vec<&str> = t.rows.iter().map(|r| r.key.as_str()).collect();
    assert_eq!(keys, vec!["z", "x", "y"]);
}

#[test]
fn window_keeps_the_newest_periods_oldest_first() {
    let t = render(&sample(), "team", "1d", DAY, 2);
    assert_eq!(
        t.periods,
        vec![JAN_1_2026 + 2 * 86_400, JAN_1_2026 + 3 * 86_400]
    );
    // a row still exists for a value whose costs all fall outside the window
    let c = t.rows.iter().find(|r| r.key == "c").unwrap();
    assert_eq!(c.period_costs, vec![-2, 0]);
    assert_eq!(c.row_total, -2);
    let none = render(&sample(), "team", "1d", DAY, 0);
    assert!(none.periods.is_empty());
    assert_eq!(none.rows.len(), 4);
    assert!(none.rows.iter().all(|r| r.row_total == 0));
}

#[test]
fn events_before_the_epoch_fall_in_its_period() {
    let mut early = at(1, "a", 9);
    early.ts = -5;
    let t = render(&[early], "team", "1d", DAY, 3);
    assert_eq!(t.periods, vec![0]);
    assert_eq!(t.totals, vec![9]);
}

#[test]
fn trend_orders_by_current_then_table_order() {
    let t = trend(&sample(), "team", "1d", DAY, 2);
    let keys: Vec<&str> = t.rows.iter().map(|r| r.key.as_str()).collect();
    // current (day 4): a 6, b 0, c 0, d 0; ties keep the table order, which
    // ranks the window totals b 4, d 0, c -2
    assert_eq!(keys, vec!["a", "b", "d", "c"]);
    let a = &t.rows[0];
    assert_eq!((a.current_cost, a.previous_cost, a.delta_usd), (6, 1, 5));
    match &a.delta_pct {
        Some(PercentChange::Finite(r)) => assert_eq!((r.part, r.whole), (5, 1)),
        _ => panic!("finite change expected"),
    }
    let b = &t.rows[1];
    assert_eq!((b.current_cost, b.previous_cost, b.delta_usd), (0, 4, -4));
    let d = &t.rows[2];
    assert!(d.delta_pct.is_none());
    let grew = trend(&[at(1, "n", 0), at(2, "n", 8)], "team", "1d", DAY, 2);
    assert!(matches!(grew.rows[0].delta_pct, Some(PercentChange::Unbounded)));
    let single = trend(&[at(1, "s", 8)], "team", "1d", DAY, 5);
    assert_eq!(single.rows[0].previous_cost, 0);
    assert_eq!(single.rows[0].delta_usd, 8);
}

#[test]
fn top_ranks_the_latest_period_up_to_the_limit() {
    let t = top(&sample(), "team", "1d", DAY, 1);
    assert_eq!(t.period_start, JAN_1_2026 + 3 * 86_400);
    assert_eq!(t.total, 6);
    assert_eq!(t.rows.len(), 1);
    assert_eq!(t.rows[0].key, "a");
    assert_eq!(t.rows[0].cost_usd, 6);
    assert_eq!((t.rows[0].pct_of_total.part, t.rows[0].pct_of_total.whole), (6, 6));
    let all = top(&sample(), "team", "1d", DAY, 10);
    let keys: Vec<&str> = all.rows.iter().map(|r| r.key.as_str()).collect();
    assert_eq!(keys, vec!["a", "d"]);
    assert_eq!(all.limit, 10);
}

#[test]
fn top_share_is_zero_without_a_positive_total() {
    let t = top(&[at(1, "a", 3), at(1, "b", -3)], "team", "1d", DAY, 5);
    assert_eq!(t.total, 0);
    for r in &t.rows {
        assert_eq!((r.pct_of_total.part, r.pct_of_total.whole), (0, 1));
    }
}

#[test]
fn top_without_events_is_stamped_now() {
    let before = std::time::SystemTime::now()
        .duration_since(std::time::UNIX_EPOCH)
        .unwrap()
        .as_secs() as i64;
    let t = top(&[], "team", "1d", DAY, 5);
    assert!(t.rows.is_empty());
    assert_eq!(t.total, 0);
    assert!(t.period_start >= before);
    assert!(t.period_start <= before + 60);
    assert!(t.render_human().starts_with("top 5 by team for period starting "));
}

#[test]
fn table_balances() {
    let t = render(&sample(), "team", "1d", DAY, 3);
    let by_period: i128 = t.totals.iter().sum();
    let by_row: i128 = t.rows.iter().map(|r| r.row_total).sum();
    assert_eq!(by_period, by_row);
    for (j, total) in t.totals.iter().enumerate() {
        let column: i128 = t.rows.iter().map(|r| r.period_costs[j]).sum();
        assert_eq!(*total, column);
    }
    for r in &t.rows {
        assert_eq!(r.row_total, r.period_costs.iter().sum::<i128>());
    }
}

#[test]
fn wide_window_counts_every_event() {
    let events = sample();
    let t = render(&events, "team", "1d", DAY, 4);
    let all: i128 = events.iter().map(|e| e.cost_usd as i128).sum();
    assert_eq!(t.totals.iter().sum::<i128>(), all);
}

#[test]
fn top_is_the_newest_column() {
    let t = render(&sample(), "team", "1d", DAY, 2);
    let r = top(&sample(), "team", "1d", DAY, 3);
    assert_eq!(*t.periods.last().unwrap(), r.period_start);
    assert_eq!(*t.totals.last().unwrap(), r.total);
}

#[test]
fn top_shares_add_up() {
    let r = top(&sample(), "team", "1d", DAY, 3);
    assert!(r.rows.len() < r.limit);
    assert_eq!(r.rows.iter().map(|x| x.cost_usd).sum::<i128>(), r.total);
}

#[test]
fn trend_agrees_with_table() {
    let t = render(&sample(), "team", "1d", DAY, 3);
    let tr = trend(&sample(), "team", "1d", DAY, 3);
    assert_eq!(t.periods, tr.periods);
    for row in &tr.rows {
        let same = t.rows.iter().find(|r| r.key == row.key).unwrap();
        assert_eq!(same.period_costs, row.period_costs);
        assert_eq!(*same.period_costs.last().unwrap(), row.current_cost);
    }
}

#[test]
fn day_names_reach_the_last_representable_second() {
    let t = top(&[Event {
        ts: showback_forge::time::MAX_TIMESTAMP,
        cost_usd: 1,
        dimensions: vec![],
    }], "team", "1s", 1, 1);
    assert_eq!(t.period_start, showback_forge::time::MAX_TIMESTAMP);
    assert!(t.render_human().contains("+262142-12-31"));
    assert_eq!(t.rows[0].key, "(missing)");
}

fn table_fields(t: &showback_forge::view::WideTable) -> (Vec<i64>, Vec<(String, Vec<i128>, i128)>, Vec<i128>) {
    (
        t.periods.clone(),
        t.rows
            .iter()
            .map(|r| (r.key.clone(), r.period_costs.clone(), r.row_total))
            .collect(),
        t.totals.clone(),
    )
}

fn trend_fields(t: &showback_forge::view::TrendReport) -> (Vec<i64>, Vec<(String, Vec<i128>, i128, i128, i128)>) {
    (
        t.periods.clone(),
        t.rows
            .iter()
            .map(|r| (r.key.clone(), r.period_costs.clone(), r.current_cost, r.previous_cost, r.delta_usd))
            .collect(),
    )
}

fn top_fields(t: &showback_forge::view::TopReport) -> (i64, i128, Vec<(String, i128, i128, i128)>) {
    (
        t.period_start,
        t.total,
        t.rows
            .iter()
            .map(|r| (r.key.clone(), r.cost_usd, r.pct_of_total.part, r.pct_of_total.whole))
            .collect(),
    )
}

#[test]
fn zero_period_without_events_gives_empty_views() {
    let t = render(&[], "team", "0s", 0, 6);
    assert!(t.periods.is_empty() && t.rows.is_empty() && t.totals.is_empty());
    assert_eq!(t.dimension, "team");
    let tr = trend(&[], "team", "0s", 0, 6);
    assert!(tr.periods.is_empty() && tr.rows.is_empty());
    let r = top(&[], "team", "0s", 0, 3);
    assert!(r.rows.is_empty());
    assert_eq!(r.total, 0);
    assert_eq!(r.limit, 3);
}

#[test]
fn views_are_functions_of_their_arguments() {
    let a = render(&sample(), "team", "1d", DAY, 3);
    let b = render(&sample(), "team", "1d", DAY, 3);
    assert_eq!(table_fields(&a), table_fields(&b));
    let a = trend(&sample(), "team", "1d", DAY, 3);
    let b = trend(&sample(), "team", "1d", DAY, 3);
    assert_eq!(trend_fields(&a), trend_fields(&b));
    let a = top(&sample(), "team", "1d", DAY, 2);
    let b = top(&sample(), "team", "1d", DAY, 2);
    assert_eq!(top_fields(&a), top_fields(&b));
}

#[test]
fn views_ignore_the_order_of_events() {
    let mut reversed = sample();
    reversed.reverse();
    let mut rotated = sample();
    rotated.rotate_left(4);
    for other in [reversed, rotated] {
        assert_eq!(
            table_fields(&render(&sample(), "team", "1d", DAY, 3)),
            table_fields(&render(&other, "team", "1d", DAY, 3))
        );
        assert_eq!(
            trend_fields(&trend(&sample(), "team", "1d", DAY, 3)),
            trend_fields(&trend(&other, "team", "1d", DAY, 3))
        );
        assert_eq!(
            top_fields(&top(&sample(), "team", "1d", DAY, 2)),
            top_fields(&top(&other, "team", "1d", DAY, 2))
        );
    }
}

#[test]
fn trend_rows_are_the_table_rows_reordered() {
    let events = vec![at(1, "x", 10), at(2, "x", 1), at(2, "y", 5), at(1, "z", 2)];
    let t = render(&events, "team", "1d", DAY, 3);
    let tr = trend(&events, "team", "1d", DAY, 3);
    let mut from_table: Vec<(String, Vec<i128>)> =
        t.rows.iter().map(|r| (r.key.clone(), r.period_costs.clone())).collect();
    let mut from_trend: Vec<(String, Vec<i128>)> =
        tr.rows.iter().map(|r| (r.key.clone(), r.period_costs.clone())).collect();
    assert_ne!(from_table, from_trend);
    from_table.sort();
    from_trend.sort();
    assert_eq!(from_table, from_trend);
}
