use showback_forge::event::{align_bucket, Event};
use showback_forge::text::{
    decimal, money, pad_left, pad_right, percent, signed_money, signed_percent, sparkline,
    truncate,
};

#[test]
fn decimal_writes_digits() {
    assert_eq!(decimal(0), "0");
    assert_eq!(decimal(7), "7");
    assert_eq!(decimal(1_234_567), "1234567");
    assert_eq!(decimal(u128::MAX), u128::MAX.to_string());
}

#[test]
fn money_rounds_to_cents() {
    assert_eq!(money(12_345_678), "12.35");
    assert_eq!(money(0), "0.00");
    assert_eq!(money(-1_500_000), "-1.50");
    assert_eq!(money(5_000), "0.00"); // half a cent, to the even cent
    assert_eq!(money(15_000), "0.02");
    assert_eq!(money(-1_000), "-0.00");
    assert_eq!(money(1_000_000_000_000), "1000000.00");
    assert_eq!(signed_money(3_000_000), "+3.00");
    assert_eq!(signed_money(0), "+0.00");
    assert_eq!(signed_money(-3_000_000), "-3.00");
}

#[test]
fn money_handles_extreme_amounts() {
    let m = money(i128::MIN);
    assert!(m.starts_with('-'));
    let p = money(i128::MAX);
    assert_eq!(p, "170141183460469231731687303715884.11");
}

#[test]
fn percent_has_one_decimal() {
    assert_eq!(percent(1, 3), "33.3");
    assert_eq!(percent(2, 3), "66.7");
    assert_eq!(percent(70, 100), "70.0");
    assert_eq!(percent(0, 5), "0.0");
    assert_eq!(percent(-1, 8), "-12.5"); // 12.5 exactly, kept even
    assert_eq!(percent(49, 400), "12.2"); // 12.25 exactly, half a tenth to the even tenth
    assert_eq!(percent(1, -4), "-25.0");
    assert_eq!(percent(999_999, 1_000_000), "100.0");
    assert_eq!(percent(123, 1), "12300.0");
    assert_eq!(signed_percent(3, 12), "+25.0");
    assert_eq!(signed_percent(-3, 12), "-25.0");
    assert_eq!(percent(i128::MAX, 1), "17014118346046923173168730371588410572700.0");
}

#[test]
fn padding_aligns_by_characters() {
    assert_eq!(pad_left("ab", 5), "   ab");
    assert_eq!(pad_right("ab", 5), "ab   ");
    assert_eq!(pad_left("abcdef", 3), "abcdef");
    assert_eq!(pad_right("é", 3), "é  ");
}

#[test]
fn truncate_cuts_long_names() {
    assert_eq!(truncate("short", 24), "short");
    assert_eq!(truncate("exactly-twenty-four-byte", 24), "exactly-twenty-four-byte");
    let long = "a-rather-long-cost-center-name";
    let cut = truncate(long, 24);
    assert_eq!(cut, format!("{}…", &long[..23]));
    assert_eq!(truncate("abc", 0), "…");
}

#[test]
fn sparkline_scales_to_the_peak() {
    assert_eq!(sparkline(&[]), "");
    assert_eq!(sparkline(&[0, 0]), "▁▁");
    assert_eq!(sparkline(&[-5, 0]), "▁▁");
    // 7 * 7 / 14 = 3.5 rounds up to level 4
    assert_eq!(sparkline(&[0, 7, 14]), "▁▅█");
    assert_eq!(sparkline(&[1, 4, 2, 8, 5]), "▂▅▃█▅");
    assert_eq!(sparkline(&[-3, 6]), "▁█");
}

#[test]
fn align_bucket_floors_to_the_period() {
    assert_eq!(align_bucket(0, 86_400), 0);
    assert_eq!(align_bucket(-10, 86_400), 0);
    assert_eq!(align_bucket(86_399, 86_400), 0);
    assert_eq!(align_bucket(86_400, 86_400), 86_400);
    assert_eq!(align_bucket(1_767_268_800, 86_400), 1_767_225_600);
    assert_eq!(align_bucket(i64::MAX, 1), i64::MAX);
}

#[test]
fn dim_reads_the_first_matching_value() {
    let e = Event {
        ts: 0,
        cost_usd: 1,
        dimensions: vec![
            ("team".to_string(), "t1".to_string()),
            ("product".to_string(), "".to_string()),
        ],
    };
    assert_eq!(e.dim("team"), "t1");
    assert_eq!(e.dim("product"), "(missing)");
    assert_eq!(e.dim("tenant"), "(missing)");
}

#[test]
fn truncating_twice_is_truncating_once() {
    for (s, max) in [
        ("a-very-long-cost-center-name-indeed", 24),
        ("short", 24),
        ("exactly-twenty-four-byte", 24),
        ("abc", 0),
        ("abc", 1),
        ("héllo wörld", 5),
    ] {
        let once = truncate(s, max);
        assert_eq!(truncate(&once, max), once);
    }
}

#[test]
fn sparkline_ignores_a_common_factor() {
    let values: Vec<i128> = vec![0, 3, 7, 12, -4, 9];
    for k in [2i128, 3, 1000] {
        let scaled: Vec<i128> = values.iter().map(|v| v * k).collect();
        assert_eq!(sparkline(&scaled), sparkline(&values));
    }
}
