//! The layouts against the format strings they follow, written out with
//! floating-point dollars and chrono dates.

use chrono::{DateTime, Utc};
use showback_forge::event::Event;
use showback_forge::view::{render, top, trend, PercentChange};

const DAY: u64 = 86_400;
const JAN_1_2026: i64 = 1_767_225_600;

fn usd(dollars: f64) -> i128 {
    (dollars * 1_000_000.0).round() as i128
}

fn dollars(micros: i128) -> f64 {
    micros as f64 / 1_000_000.0
}

fn day(secs: i64) -> String {
    DateTime::<Utc>::from_timestamp(secs, 0)
        .unwrap()
        .format("%Y-%m-%d")
        .to_string()
}

fn ev(d: u32, dim_value: &str, cost: f64) -> Event {
    Event {
        ts: JAN_1_2026 + (d as i64 - 1) * 86_400 + 12 * 3_600,
        cost_usd: usd(cost) as i64,
        dimensions: vec![("cost_center".to_string(), dim_value.to_string())],
    }
}

fn cut(s: &str) -> String {
    if s.len() <= 24 {
        s.to_string()
    } else {
        format!("{}…", &s[..23])
    }
}

fn spark(values: &[f64]) -> String {
    if values.is_empty() {
        return String::new();
    }
    let blocks = ['▁', '▂', '▃', '▄', '▅', '▆', '▇', '█'];
    let max = values.iter().copied().fold(0.0f64, f64::max);
    if max <= 0.0 {
        return values.iter().map(|_| blocks[0]).collect();
    }
    values
        .iter()
        .map(|v| {
            let normalized = (v / max).clamp(0.0, 1.0);
            let idx = ((normalized * (blocks.len() as f64 - 1.0)).round() as usize)
                .min(blocks.len() - 1);
            blocks[idx]
        })
        .collect()
}

fn sample() -> Vec<Event> {
    vec![
        ev(1, "cc-platform", 10.0),
        ev(1, "cc-data", 5.25),
        ev(2, "cc-platform", 12.0),
        ev(2, "cc-data", 26.5),
        ev(3, "cc-platform", 11.0),
        ev(3, "cc-data", 0.0),
        ev(3, "cc-observability-and-monitoring", 4.0),
        ev(2, "cc-cicd", 3.0),
        ev(3, "cc-cicd", 3.0),
    ]
}

#[test]
fn wide_layout_follows_its_columns() {
    let t = render(&sample(), "cost_center", "1d", DAY, 3);
    let mut lines = vec![format!(
        "by {} ({} periods of {})",
        t.dimension,
        t.periods.len(),
        t.period
    )];
    let mut header = format!("  {:<24}", t.dimension);
    for p in &t.periods {
        header.push_str(&format!(" {:>12}", day(*p)));
    }
    header.push_str(&format!(" {:>12}", "total"));
    lines.push(header);
    lines.push("  ".to_string() + &"-".repeat(24 + t.periods.len() * 13 + 13));
    for r in &t.rows {
        let mut line = format!("  {:<24}", cut(&r.key));
        for c in &r.period_costs {
            line.push_str(&format!(" {:>12.2}", dollars(*c)));
        }
        line.push_str(&format!(" {:>12.2}", dollars(r.row_total)));
        lines.push(line);
    }
    lines.push("  ".to_string() + &"-".repeat(24 + t.periods.len() * 13 + 13));
    let mut totals_line = format!("  {:<24}", "(period totals)");
    for x in &t.totals {
        totals_line.push_str(&format!(" {:>12.2}", dollars(*x)));
    }
    let grand: f64 = t.totals.iter().map(|x| dollars(*x)).sum();
    totals_line.push_str(&format!(" {:>12.2}", grand));
    lines.push(totals_line);
    assert_eq!(t.render_human(), lines.join("\n"));
    assert!(t.render_human().contains("2026-01-03"));
    assert!(t.render_human().contains("cc-observability-and-mo…"));
}

#[test]
fn trend_layout_follows_its_columns() {
    let t = trend(&sample(), "cost_center", "1d", DAY, 3);
    let mut lines = vec![format!(
        "{}-by-period trend over {} periods of {}",
        t.dimension,
        t.periods.len(),
        t.period
    )];
    lines.push(format!(
        "  {:<24}  {:>10}  {:>10}  {:>10}  {:>8}  {}",
        t.dimension, "current", "previous", "delta_usd", "delta_%", "sparkline"
    ));
    lines.push("  ".to_string() + &"-".repeat(82));
    for r in &t.rows {
        let pct = match &r.delta_pct {
            Some(PercentChange::Finite(q)) => {
                let p = q.part as f64 / q.whole as f64 * 100.0;
                format!("{p:+7.1}%")
            }
            _ => "    n/a".to_string(),
        };
        let costs: Vec<f64> = r.period_costs.iter().map(|c| dollars(*c)).collect();
        lines.push(format!(
            "  {:<24}  {:>10.2}  {:>10.2}  {:>+10.2}  {}  {}",
            cut(&r.key),
            dollars(r.current_cost),
            dollars(r.previous_cost),
            dollars(r.delta_usd),
            pct,
            spark(&costs)
        ));
    }
    assert_eq!(t.render_human(), lines.join("\n"));
    // cc-data fell from 26.50 to 0.00; cc-observability grew from nothing
    assert!(t.render_human().contains("-100.0%"));
    assert!(t.render_human().contains("    n/a"));
}

#[test]
fn top_layout_follows_its_columns() {
    let t = top(&sample(), "cost_center", "1d", DAY, 2);
    let mut lines = vec![format!(
        "top {} by {} for period starting {} ({}). Total: ${:.2}",
        t.limit,
        t.dimension,
        day(t.period_start),
        t.period,
        dollars(t.total)
    )];
    lines.push(format!(
        "  {:<24}  {:>12}  {:>8}",
        t.dimension, "cost_usd", "% total"
    ));
    lines.push("  ".to_string() + &"-".repeat(48));
    for r in &t.rows {
        let pct = r.pct_of_total.part as f64 / r.pct_of_total.whole as f64 * 100.0;
        lines.push(format!(
            "  {:<24}  {:>12.2}  {:>7.1}%",
            cut(&r.key),
            dollars(r.cost_usd),
            pct
        ));
    }
    assert_eq!(t.render_human(), lines.join("\n"));
    assert!(t
        .render_human()
        .starts_with("top 2 by cost_center for period starting 2026-01-03 (1d). Total: $18.00"));
}
