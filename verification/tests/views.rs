use showback_forge::event::Event;
use showback_forge::view::{render, top, trend, PercentChange};

const DAY: u64 = 86_400;
/// 2026-01-01T00:00:00Z
const JAN_1_2026: i64 = 1_767_225_600;

fn usd(dollars: f64) -> i128 {
    (dollars * 1_000_000.0).round() as i128
}

fn ev(day: u32, dim_value: &str, cost: f64) -> Event {
    Event {
        ts: JAN_1_2026 + (day as i64 - 1) * 86_400 + 12 * 3_600,
        cost_usd: usd(cost) as i64,
        dimensions: vec![("cost_center".to_string(), dim_value.to_string())],
    }
}

#[test]
fn render_basic_shape() {
    let events = vec![
        ev(1, "cc-a", 10.0),
        ev(1, "cc-b", 5.0),
        ev(2, "cc-a", 12.0),
        ev(2, "cc-b", 6.0),
        ev(3, "cc-a", 11.0),
        ev(3, "cc-b", 7.0),
    ];
    let t = render(&events, "cost_center", "1d", DAY, 3);
    assert_eq!(t.periods.len(), 3);
    assert_eq!(t.rows.len(), 2);
    // cc-a is bigger, sorts first
    assert_eq!(t.rows[0].key, "cc-a");
    assert_eq!(t.rows[0].row_total, usd(33.0));
    assert_eq!(t.totals, vec![usd(15.0), usd(18.0), usd(18.0)]);
}

#[test]
fn trend_computes_delta() {
    let events = vec![
        ev(1, "cc-a", 10.0),
        ev(2, "cc-a", 12.0),
        ev(3, "cc-a", 15.0), // current
    ];
    let t = trend(&events, "cost_center", "1d", DAY, 3);
    let row = &t.rows[0];
    assert_eq!(row.current_cost, usd(15.0));
    assert_eq!(row.previous_cost, usd(12.0));
    assert_eq!(row.delta_usd, usd(3.0));
    let pct = match &row.delta_pct {
        Some(PercentChange::Finite(r)) => r.part as f64 / r.whole as f64 * 100.0,
        _ => panic!("expected a finite change"),
    };
    assert!((pct - 25.0).abs() < 1e-9);
}

#[test]
fn top_returns_latest_period_only() {
    let events = vec![
        ev(1, "cc-a", 100.0),
        ev(1, "cc-b", 50.0),
        ev(2, "cc-a", 30.0),
        ev(2, "cc-b", 70.0),
    ];
    let t = top(&events, "cost_center", "1d", DAY, 5);
    // Latest period is day 2 — cc-b > cc-a
    assert_eq!(t.rows[0].key, "cc-b");
    assert_eq!(t.rows[0].cost_usd, usd(70.0));
    assert_eq!(t.total, usd(100.0)); // 30 + 70 for the day
    let pct = t.rows[0].pct_of_total.part as f64 / t.rows[0].pct_of_total.whole as f64 * 100.0;
    assert!((pct - 70.0).abs() < 1e-9);
}

#[test]
fn sparkline_renders_chars() {
    let s = showback_forge::text::sparkline(&[usd(1.0), usd(4.0), usd(2.0), usd(8.0), usd(5.0)]);
    assert_eq!(s.chars().count(), 5);
}

#[test]
fn missing_dim_becomes_explicit_marker() {
    let mut e = ev(1, "cc-a", 10.0);
    e.dimensions.retain(|(k, _)| k != "cost_center");
    let t = render(&[e], "cost_center", "1d", DAY, 1);
    assert_eq!(t.rows[0].key, "(missing)");
}
