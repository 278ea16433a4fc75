//! Human-readable layouts of the three views: fixed-width columns, amounts in
//! dollars with two decimals, one line per row.

use vstd::prelude::*;
use vstd::utf8::{encode_utf8, is_char_boundary};

use crate::amount::total_of;
use crate::text::{
    law_money_text_sign, spaces, align_left, align_right, dec_text, decimal, money, money_text, pad_left, pad_right, percent,
    percent_text, signed_money, signed_money_text, signed_percent, signed_percent_text, sparkline,
    sparkline_text, truncate, truncated_text,
};
use crate::time::{is_timestamp, utc_day, utc_day_text};
use crate::view::{change_matches, PercentChange, TopReport, TopRow, TrendReport, TrendRow, WideRow, WideTable};

verus! {

/// `n` dashes.
pub open spec fn dashes(n: int) -> Seq<char> {
    Seq::new(if n > 0 { n as nat } else { 0 }, |i: int| '-')
}

/// The lines joined by newlines.
pub open spec fn join_lines(lines: Seq<Seq<char>>) -> Seq<char>
    decreases lines.len(),
{
    if lines.len() == 0 {
        Seq::empty()
    } else if lines.len() == 1 {
        lines[0]
    } else {
        join_lines(lines.drop_last()) + seq!['\n'] + lines.last()
    }
}

/// A key cut to the 24-character name column can be cut at that width.
pub open spec fn fits_name_column(key: Seq<char>) -> bool {
    &&& encode_utf8(key).len() <= usize::MAX
    &&& (encode_utf8(key).len() <= 24 || is_char_boundary(encode_utf8(key), 23))
}

/// The name column: the key cut to 24 bytes, left-aligned in 24 characters.
pub open spec fn name_cell(key: Seq<char>) -> Seq<char> {
    align_left(truncated_text(key, 24), 24)
}

/// An amount in a 12-character column after a space.
pub open spec fn money_cell(v: int) -> Seq<char> {
    seq![' '] + align_right(money_text(v), 12)
}

/// Amount columns, one per value.
pub open spec fn money_cells(xs: Seq<i128>) -> Seq<char>
    decreases xs.len(),
{
    if xs.len() == 0 {
        Seq::empty()
    } else {
        money_cells(xs.drop_last()) + money_cell(xs.last() as int)
    }
}

/// Day columns, one per day text.
pub open spec fn day_cells(days: Seq<Seq<char>>) -> Seq<char>
    decreases days.len(),
{
    if days.len() == 0 {
        Seq::empty()
    } else {
        day_cells(days.drop_last()) + seq![' '] + align_right(days.last(), 12)
    }
}

/// The day texts of period starts, as chrono names them.
pub open spec fn day_texts(ps: Seq<i64>) -> Seq<Seq<char>> {
    Seq::new(ps.len(), |j: int| utc_day_text(ps[j]))
}

/// The texts of a list of strings.
pub open spec fn texts(lines: Seq<String>) -> Seq<Seq<char>> {
    Seq::new(lines.len(), |i: int| lines[i]@)
}

/// The lines joined by newlines.
fn join(lines: &Vec<String>) -> (s: String)
    ensures
        s@ == join_lines(texts(lines@)),
{
    if lines.len() == 0 {
        return String::new();
    }
    let nl = "\n";
    proof {
        reveal_strlit("\n");
    }
    let mut s = String::from_str(lines[0].as_str());
    let mut i: usize = 1;
    assert(texts(lines@).take(1) =~= seq![lines[0]@]);
    while i < lines.len()
        invariant
            1 <= i <= lines.len(),
            nl@ == seq!['\n'],
            s@ == join_lines(texts(lines@).take(i as int)),
        decreases lines.len() - i,
    {
        s.append(nl);
        s.append(lines[i].as_str());
        assert(texts(lines@).take(i + 1).drop_last() =~= texts(lines@).take(i as int));
        assert(texts(lines@).take(i + 1).last() == lines[i as int]@);
        i = i + 1;
    }
    assert(texts(lines@).take(lines.len() as int) =~= texts(lines@));
    s
}

/// `n` dashes.
fn dash_string(n: usize) -> (s: String)
    ensures
        s@ == dashes(n as int),
{
    let dash = "-";
    proof {
        reveal_strlit("-");
    }
    let mut s = String::new();
    let mut i: usize = 0;
    while i < n
        invariant
            i <= n,
            dash@ == seq!['-'],
            s@ =~= dashes(i as int),
        decreases n - i,
    {
        s.append(dash);
        i = i + 1;
    }
    s
}

/// The name column of a key.
fn name_column(key: &String) -> (s: String)
    requires
        fits_name_column(key@),
    ensures
        s@ == name_cell(key@),
{
    let cut = truncate(key.as_str(), 24);
    pad_right(cut.as_str(), 24)
}

/// An amount in a 12-character column after a space.
fn money_column(v: i128) -> (s: String)
    ensures
        s@ == money_cell(v as int),
{
    proof {
        reveal_strlit(" ");
    }
    let s = String::from_str(" ").concat(pad_left(money(v).as_str(), 12).as_str());
    assert(s@ =~= money_cell(v as int));
    s
}

/// Amount columns, one per value.
fn money_columns(xs: &Vec<i128>) -> (s: String)
    ensures
        s@ == money_cells(xs@),
{
    let mut s = String::new();
    let mut i: usize = 0;
    assert(xs@.take(0) =~= Seq::<i128>::empty());
    while i < xs.len()
        invariant
            i <= xs.len(),
            s@ == money_cells(xs@.take(i as int)),
        decreases xs.len() - i,
    {
        s.append(money_column(xs[i]).as_str());
        assert(xs@.take(i + 1).drop_last() =~= xs@.take(i as int));
        i = i + 1;
    }
    assert(xs@.take(xs.len() as int) =~= xs@);
    s
}

/// Day columns, one per day text.
fn day_columns(days: &Vec<String>) -> (s: String)
    ensures
        s@ == day_cells(texts(days@)),
{
    let mut s = String::new();
    let mut i: usize = 0;
    assert(texts(days@).take(0) =~= Seq::<Seq<char>>::empty());
    while i < days.len()
        invariant
            i <= days.len(),
            s@ == day_cells(texts(days@).take(i as int)),
        decreases days.len() - i,
    {
        let blank = " ";
        proof {
            reveal_strlit(" ");
        }
        let cell = String::from_str(blank).concat(pad_left(days[i].as_str(), 12).as_str());
        let ghost before = s@;
        s.append(cell.as_str());
        assert(texts(days@).take(i + 1).drop_last() =~= texts(days@).take(i as int));
        assert(texts(days@).take(i + 1).last() == days[i as int]@);
        assert(s@ =~= before + seq![' '] + align_right(days[i as int]@, 12));
        i = i + 1;
    }
    assert(texts(days@).take(days.len() as int) =~= texts(days@));
    s
}

/// The day texts of period starts.
fn day_strings(ps: &Vec<i64>) -> (days: Vec<String>)
    requires
        forall|j: int| 0 <= j < ps.len() ==> is_timestamp(#[trigger] ps[j] as int),
    ensures
        texts(days@) == day_texts(ps@),
{
    let mut days: Vec<String> = Vec::new();
    let mut i: usize = 0;
    while i < ps.len()
        invariant
            i <= ps.len(),
            forall|j: int| 0 <= j < ps.len() ==> is_timestamp(#[trigger] ps[j] as int),
            texts(days@) =~= day_texts(ps@).take(i as int),
        decreases ps.len() - i,
    {
        let ghost before = days@;
        days.push(utc_day(ps[i]));
        assert(texts(days@) =~= texts(before).push(utc_day_text(ps[i as int])));
        i = i + 1;
    }
    assert(day_texts(ps@).take(ps.len() as int) =~= day_texts(ps@));
    days
}

// ---------------------------------------------------------------- wide table

pub open spec fn wide_title(t: WideTable) -> Seq<char> {
    "by "@ + t.dimension@ + " ("@ + dec_text(t.periods.len() as nat) + " periods of "@ + t.period@
        + ")"@
}

pub open spec fn wide_header(t: WideTable, days: Seq<Seq<char>>) -> Seq<char> {
    "  "@ + align_left(t.dimension@, 24) + day_cells(days) + seq![' '] + align_right(
        "total"@,
        12,
    )
}

pub open spec fn wide_rule(t: WideTable) -> Seq<char> {
    "  "@ + dashes(24 + 13 * t.periods.len() + 13)
}

pub open spec fn wide_row_line(r: WideRow) -> Seq<char> {
    "  "@ + name_cell(r.key@) + money_cells(r.period_costs@) + money_cell(r.row_total as int)
}

pub open spec fn wide_totals_line(t: WideTable) -> Seq<char> {
    "  "@ + align_left("(period totals)"@, 24) + money_cells(t.totals@) + money_cell(
        total_of(t.totals@),
    )
}

/// The lines of the wide table's layout, with `days` naming its periods.
pub open spec fn wide_lines_with(t: WideTable, days: Seq<Seq<char>>) -> Seq<Seq<char>> {
    seq![wide_title(t), wide_header(t, days), wide_rule(t)] + Seq::new(
        t.rows.len() as nat,
        |i: int| wide_row_line(t.rows[i]),
    ) + seq![wide_rule(t), wide_totals_line(t)]
}

/// The lines of the wide table's layout.
pub open spec fn wide_lines(t: WideTable) -> Seq<Seq<char>> {
    wide_lines_with(t, day_texts(t.periods@))
}

/// Every running sum of the amounts fits in an `i128`.
pub open spec fn sums_fit(xs: Seq<i128>) -> bool {
    forall|k: int| 0 <= k <= xs.len() ==> i128::MIN <= #[trigger] total_of(xs.take(k)) <= i128::MAX
}

impl WideTable {
    /// The table as text: a title, a header of period days, one line per
    /// row, and the period totals with their grand total.
    pub fn render_human(&self) -> (text: String)
        requires
            forall|j: int| 0 <= j < self.periods.len() ==> is_timestamp(#[trigger] self.periods[j] as int),
            forall|i: int| 0 <= i < self.rows.len() ==> fits_name_column(#[trigger] self.rows[i].key@),
            sums_fit(self.totals@),
        ensures
            text@ == join_lines(wide_lines(*self)),
    {
        let days = day_strings(&self.periods);
        self.render_human_with_days(&days)
    }

    /// The table as text, with `days` naming its periods in the header.
    pub fn render_human_with_days(&self, days: &Vec<String>) -> (text: String)
        requires
            forall|i: int| 0 <= i < self.rows.len() ==> fits_name_column(#[trigger] self.rows[i].key@),
            sums_fit(self.totals@),
        ensures
            text@ == join_lines(wide_lines_with(*self, texts(days@))),
    {
        proof {
            reveal_strlit("by ");
            reveal_strlit(" (");
            reveal_strlit(" periods of ");
            reveal_strlit(")");
            reveal_strlit("  ");
            reveal_strlit(" ");
            reveal_strlit("total");
            reveal_strlit("(period totals)");
        }
        let np = self.periods.len();
        let mut lines: Vec<String> = Vec::new();
        let title = String::from_str("by ").concat(self.dimension.as_str()).concat(" (").concat(
            decimal(np as u128).as_str(),
        ).concat(" periods of ").concat(self.period.as_str()).concat(")");
        assert(title@ =~= wide_title(*self));
        lines.push(title);
        let header = String::from_str("  ").concat(pad_right(self.dimension.as_str(), 24).as_str()).concat(
            day_columns(days).as_str(),
        ).concat(" ").concat(pad_left("total", 12).as_str());
        assert(header@ =~= wide_header(*self, texts(days@)));
        lines.push(header);
        let mut rule = String::from_str("  ");
        rule.append(dash_string(24).as_str());
        let mut k: usize = 0;
        while k < np
            invariant
                k <= np,
                rule@ =~= "  "@ + dashes(24 + 13 * k),
            decreases np - k,
        {
            rule.append(dash_string(13).as_str());
            k = k + 1;
        }
        rule.append(dash_string(13).as_str());
        assert(rule@ =~= wide_rule(*self));
        lines.push(String::from_str(rule.as_str()));
        let mut i: usize = 0;
        while i < self.rows.len()
            invariant
                i <= self.rows.len(),
                forall|x: int| 0 <= x < self.rows.len() ==> fits_name_column(#[trigger] self.rows[x].key@),
                rule@ == wide_rule(*self),
                texts(lines@) =~= seq![
                    wide_title(*self),
                    wide_header(*self, texts(days@)),
                    wide_rule(*self),
                ]
                    + Seq::new(i as nat, |x: int| wide_row_line(self.rows[x])),
            decreases self.rows.len() - i,
        {
            let row = &self.rows[i];
            let line = String::from_str("  ").concat(name_column(&row.key).as_str()).concat(
                money_columns(&row.period_costs).as_str(),
            ).concat(money_column(row.row_total).as_str());
            assert(line@ =~= wide_row_line(self.rows[i as int]));
            let ghost before = lines@;
            lines.push(line);
            assert(texts(lines@) =~= texts(before).push(line@));
            i = i + 1;
        }
        lines.push(rule);
        let mut grand: i128 = 0;
        let mut j: usize = 0;
        assert(self.totals@.take(0) =~= Seq::<i128>::empty());
        while j < self.totals.len()
            invariant
                j <= self.totals.len(),
                sums_fit(self.totals@),
                grand == total_of(self.totals@.take(j as int)),
            decreases self.totals.len() - j,
        {
            assert(self.totals@.take(j + 1).drop_last() =~= self.totals@.take(j as int));
            assert(i128::MIN <= total_of(self.totals@.take(j + 1)) <= i128::MAX);
            grand = grand + self.totals[j];
            j = j + 1;
        }
        assert(self.totals@.take(self.totals.len() as int) =~= self.totals@);
        let totals_line = String::from_str("  ").concat(pad_right("(period totals)", 24).as_str()).concat(
            money_columns(&self.totals).as_str(),
        ).concat(money_column(grand).as_str());
        lines.push(totals_line);
        assert(texts(lines@) =~= wide_lines_with(*self, texts(days@)));
        join(&lines)
    }
}

// --------------------------------------------------------------------- trend

pub open spec fn trend_title(t: TrendReport) -> Seq<char> {
    t.dimension@ + "-by-period trend over "@ + dec_text(t.periods.len() as nat) + " periods of "@
        + t.period@
}

pub open spec fn trend_header(t: TrendReport) -> Seq<char> {
    "  "@ + align_left(t.dimension@, 24) + "  "@ + align_right("current"@, 10) + "  "@
        + align_right("previous"@, 10) + "  "@ + align_right("delta_usd"@, 10) + "  "@
        + align_right("delta_%"@, 8) + "  "@ + "sparkline"@
}

/// The change column: a signed percentage with one decimal, or `n/a`.
pub open spec fn change_cell(pct: Option<PercentChange>) -> Seq<char> {
    match pct {
        Some(PercentChange::Finite(r)) => align_right(
            signed_percent_text(r.part as int, r.whole as int),
            7,
        ) + "%"@,
        _ => "    n/a"@,
    }
}

pub open spec fn trend_row_line(r: TrendRow) -> Seq<char> {
    "  "@ + name_cell(r.key@) + "  "@ + align_right(money_text(r.current_cost as int), 10) + "  "@
        + align_right(money_text(r.previous_cost as int), 10) + "  "@ + align_right(
        signed_money_text(r.delta_usd as int),
        10,
    ) + "  "@ + change_cell(r.delta_pct) + "  "@ + sparkline_text(r.period_costs@)
}

/// The lines of the trend's layout.
pub open spec fn trend_lines(t: TrendReport) -> Seq<Seq<char>> {
    seq![trend_title(t), trend_header(t), "  "@ + dashes(82)] + Seq::new(
        t.rows.len() as nat,
        |i: int| trend_row_line(t.rows[i]),
    )
}

/// The change of a trend row has a non-zero base.
pub open spec fn change_is_well_formed(pct: Option<PercentChange>) -> bool {
    match pct {
        Some(PercentChange::Finite(r)) => r.whole != 0,
        _ => true,
    }
}

/// The change column of a trend row.
fn change_column(pct: &Option<PercentChange>) -> (s: String)
    requires
        change_is_well_formed(*pct),
    ensures
        s@ == change_cell(*pct),
{
    match pct {
        Some(PercentChange::Finite(r)) => pad_left(signed_percent(r.part, r.whole).as_str(), 7).concat(
            "%",
        ),
        _ => String::from_str("    n/a"),
    }
}

impl TrendReport {
    /// The trend as text: a title, a header, and one line per value with its
    /// current and previous cost, the change in dollars and in percent, and
    /// a sparkline of its periods.
    pub fn render_human(&self) -> (text: String)
        requires
            forall|i: int| 0 <= i < self.rows.len() ==> fits_name_column(#[trigger] self.rows[i].key@),
            forall|i: int|
                0 <= i < self.rows.len() ==> change_is_well_formed(#[trigger] self.rows[i].delta_pct),
        ensures
            text@ == join_lines(trend_lines(*self)),
    {
        let mut lines: Vec<String> = Vec::new();
        let title = String::from_str(self.dimension.as_str()).concat("-by-period trend over ").concat(
            decimal(self.periods.len() as u128).as_str(),
        ).concat(" periods of ").concat(self.period.as_str());
        assert(title@ =~= trend_title(*self));
        lines.push(title);
        let header = String::from_str("  ").concat(pad_right(self.dimension.as_str(), 24).as_str()).concat(
            "  ",
        ).concat(pad_left("current", 10).as_str()).concat("  ").concat(
            pad_left("previous", 10).as_str(),
        ).concat("  ").concat(pad_left("delta_usd", 10).as_str()).concat("  ").concat(
            pad_left("delta_%", 8).as_str(),
        ).concat("  ").concat("sparkline");
        assert(header@ =~= trend_header(*self));
        lines.push(header);
        let rule = String::from_str("  ").concat(dash_string(82).as_str());
        assert(rule@ =~= "  "@ + dashes(82));
        lines.push(rule);
        let mut i: usize = 0;
        while i < self.rows.len()
            invariant
                i <= self.rows.len(),
                forall|x: int| 0 <= x < self.rows.len() ==> fits_name_column(#[trigger] self.rows[x].key@),
                forall|x: int|
                    0 <= x < self.rows.len() ==> change_is_well_formed(
                        #[trigger] self.rows[x].delta_pct,
                    ),
                texts(lines@) =~= seq![trend_title(*self), trend_header(*self), "  "@ + dashes(82)]
                    + Seq::new(i as nat, |x: int| trend_row_line(self.rows[x])),
            decreases self.rows.len() - i,
        {
            let row = &self.rows[i];
            let line = String::from_str("  ").concat(name_column(&row.key).as_str()).concat(
                "  ",
            ).concat(pad_left(money(row.current_cost).as_str(), 10).as_str()).concat("  ").concat(
                pad_left(money(row.previous_cost).as_str(), 10).as_str(),
            ).concat("  ").concat(pad_left(signed_money(row.delta_usd).as_str(), 10).as_str()).concat(
                "  ",
            ).concat(change_column(&row.delta_pct).as_str()).concat("  ").concat(
                sparkline(row.period_costs.as_slice()).as_str(),
            );
            assert(line@ =~= trend_row_line(self.rows[i as int]));
            let ghost before = lines@;
            lines.push(line);
            assert(texts(lines@) =~= texts(before).push(lines[i + 3]@));
            i = i + 1;
        }
        assert(texts(lines@) =~= trend_lines(*self));
        join(&lines)
    }
}

// ----------------------------------------------------------------------- top

pub open spec fn top_title(t: TopReport, day: Seq<char>) -> Seq<char> {
    "top "@ + dec_text(t.limit as nat) + " by "@ + t.dimension@ + " for period starting "@
        + day + " ("@ + t.period@ + "). Total: $"@ + money_text(
        t.total as int,
    )
}

pub open spec fn top_header(t: TopReport) -> Seq<char> {
    "  "@ + align_left(t.dimension@, 24) + "  "@ + align_right("cost_usd"@, 12) + "  "@
        + align_right("% total"@, 8)
}

pub open spec fn top_row_line(r: TopRow) -> Seq<char> {
    "  "@ + name_cell(r.key@) + "  "@ + align_right(money_text(r.cost_usd as int), 12) + "  "@
        + align_right(percent_text(r.pct_of_total.part as int, r.pct_of_total.whole as int), 7)
        + "%"@
}

/// The lines of the top report's layout, with `day` naming its period.
pub open spec fn top_lines_with(t: TopReport, day: Seq<char>) -> Seq<Seq<char>> {
    seq![top_title(t, day), top_header(t), "  "@ + dashes(48)] + Seq::new(
        t.rows.len() as nat,
        |i: int| top_row_line(t.rows[i]),
    )
}

/// The lines of the top report's layout.
pub open spec fn top_lines(t: TopReport) -> Seq<Seq<char>> {
    top_lines_with(t, utc_day_text(t.period_start))
}

impl TopReport {
    /// The ranking as text: a title with the period and its total, a header,
    /// and one line per value with its cost and share of the total.
    pub fn render_human(&self) -> (text: String)
        requires
            is_timestamp(self.period_start as int),
            forall|i: int| 0 <= i < self.rows.len() ==> fits_name_column(#[trigger] self.rows[i].key@),
            forall|i: int| 0 <= i < self.rows.len() ==> #[trigger] self.rows[i].pct_of_total.whole != 0,
        ensures
            text@ == join_lines(top_lines(*self)),
    {
        let day = utc_day(self.period_start);
        self.render_human_with_day(day.as_str())
    }

    /// The ranking as text, with `day` naming its period in the title.
    pub fn render_human_with_day(&self, day: &str) -> (text: String)
        requires
            forall|i: int| 0 <= i < self.rows.len() ==> fits_name_column(#[trigger] self.rows[i].key@),
            forall|i: int| 0 <= i < self.rows.len() ==> #[trigger] self.rows[i].pct_of_total.whole != 0,
        ensures
            text@ == join_lines(top_lines_with(*self, day@)),
    {
        let mut lines: Vec<String> = Vec::new();
        let title = String::from_str("top ").concat(decimal(self.limit as u128).as_str()).concat(
            " by ",
        ).concat(self.dimension.as_str()).concat(" for period starting ").concat(day).concat(
            " (",
        ).concat(self.period.as_str()).concat("). Total: $").concat(
            money(self.total).as_str(),
        );
        assert(title@ =~= top_title(*self, day@));
        lines.push(title);
        let header = String::from_str("  ").concat(pad_right(self.dimension.as_str(), 24).as_str()).concat(
            "  ",
        ).concat(pad_left("cost_usd", 12).as_str()).concat("  ").concat(
            pad_left("% total", 8).as_str(),
        );
        assert(header@ =~= top_header(*self));
        lines.push(header);
        let rule = String::from_str("  ").concat(dash_string(48).as_str());
        assert(rule@ =~= "  "@ + dashes(48));
        lines.push(rule);
        let mut i: usize = 0;
        while i < self.rows.len()
            invariant
                i <= self.rows.len(),
                forall|x: int| 0 <= x < self.rows.len() ==> fits_name_column(#[trigger] self.rows[x].key@),
                forall|x: int| 0 <= x < self.rows.len() ==> #[trigger] self.rows[x].pct_of_total.whole != 0,
                texts(lines@) =~= seq![top_title(*self, day@), top_header(*self), "  "@ + dashes(48)]
                    + Seq::new(i as nat, |x: int| top_row_line(self.rows[x])),
            decreases self.rows.len() - i,
        {
            let row = &self.rows[i];
            let line = String::from_str("  ").concat(name_column(&row.key).as_str()).concat(
                "  ",
            ).concat(pad_left(money(row.cost_usd).as_str(), 12).as_str()).concat("  ").concat(
                pad_left(percent(row.pct_of_total.part, row.pct_of_total.whole).as_str(), 7).as_str(),
            ).concat("%");
            assert(line@ =~= top_row_line(self.rows[i as int]));
            let ghost before = lines@;
            lines.push(line);
            assert(texts(lines@) =~= texts(before).push(lines[i + 3]@));
            i = i + 1;
        }
        assert(texts(lines@) =~= top_lines_with(*self, day@));
        join(&lines)
    }
}


// ---------------------------------------------------------------------- laws

/// An amount cell shows the signed amount: at least one space, then the
/// amount's text ending the cell, and a minus sign in the cell exactly when
/// the amount is negative.
pub proof fn law_money_cell_shows_signed_amount(v: int)
    ensures
        money_cell(v).len() >= money_text(v).len() + 1,
        money_cell(v).len() >= 13,
        money_cell(v).subrange(money_cell(v).len() - money_text(v).len(), money_cell(v).len() as int)
            == money_text(v),
        forall|i: int|
            0 <= i < money_cell(v).len() - money_text(v).len() ==> #[trigger] money_cell(v)[i] == ' ',
        money_cell(v).contains('-') == (v < 0),
{
    let t = money_text(v);
    let c = money_cell(v);
    let pad = seq![' '] + spaces(12 - t.len());
    assert(c =~= pad + t);
    assert(c.subrange(c.len() - t.len(), c.len() as int) =~= t);
    law_money_text_sign(v);
    if c.contains('-') {
        let k = choose|k: int| 0 <= k < c.len() && c[k] == '-';
        if k >= pad.len() {
            assert(t[k - pad.len()] == '-');
        }
    }
    if v < 0 {
        assert(c[pad.len() as int] == '-');
    }
}

/// The change column shows the growth over the previous cost: for a change
/// that compares `current` with a non-zero `previous` it is the signed
/// percentage of `current - previous` over `previous` (right-aligned in seven
/// characters, then `%`), and `n/a` when there is no previous cost.
pub proof fn law_change_column_is_growth_over_previous(
    pct: Option<PercentChange>,
    current: int,
    previous: int,
)
    requires
        change_matches(pct, current, previous),
    ensures
        previous != 0 ==> change_cell(pct) == align_right(
            signed_percent_text(current - previous, previous),
            7,
        ) + "%"@,
        previous == 0 ==> change_cell(pct) == "    n/a"@,
{
}

/// The trend layout has a title, a header and a rule, then exactly one line
/// per row, in the rows' order, each starting with the row's name column.
pub proof fn law_trend_layout_has_a_line_per_row(t: TrendReport)
    ensures
        trend_lines(t).len() == 3 + t.rows.len(),
        forall|i: int|
            0 <= i < t.rows.len() ==> #[trigger] trend_lines(t)[3 + i] == trend_row_line(t.rows[i]),
        forall|i: int|
            0 <= i < t.rows.len() ==> (#[trigger] trend_lines(t)[3 + i]).subrange(
                0,
                2 + name_cell(t.rows[i].key@).len() as int,
            ) == "  "@ + name_cell(t.rows[i].key@),
{
    reveal_strlit("  ");
    assert forall|i: int| 0 <= i < t.rows.len() implies (#[trigger] trend_lines(t)[3 + i]).subrange(
        0,
        2 + name_cell(t.rows[i].key@).len() as int,
    ) == "  "@ + name_cell(t.rows[i].key@) by {
        assert(trend_lines(t)[3 + i] == trend_row_line(t.rows[i]));
        assert(trend_row_line(t.rows[i]).subrange(0, 2 + name_cell(t.rows[i].key@).len() as int)
            =~= "  "@ + name_cell(t.rows[i].key@));
    }
}

/// The top layout has a title, a header and a rule, then exactly one line
/// per row of the report, in its order, each starting with the row's name
/// column.
pub proof fn law_top_layout_has_a_line_per_row(t: TopReport, day: Seq<char>)
    ensures
        top_lines_with(t, day).len() == 3 + t.rows.len(),
        forall|i: int|
            0 <= i < t.rows.len() ==> #[trigger] top_lines_with(t, day)[3 + i] == top_row_line(
                t.rows[i],
            ),
        forall|i: int|
            0 <= i < t.rows.len() ==> (#[trigger] top_lines_with(t, day)[3 + i]).subrange(
                0,
                2 + name_cell(t.rows[i].key@).len() as int,
            ) == "  "@ + name_cell(t.rows[i].key@),
{
    reveal_strlit("  ");
    assert forall|i: int| 0 <= i < t.rows.len() implies (#[trigger] top_lines_with(t, day)[3
        + i]).subrange(0, 2 + name_cell(t.rows[i].key@).len() as int) == "  "@ + name_cell(
        t.rows[i].key@,
    ) by {
        assert(top_lines_with(t, day)[3 + i] == top_row_line(t.rows[i]));
        assert(top_row_line(t.rows[i]).subrange(0, 2 + name_cell(t.rows[i].key@).len() as int)
            =~= "  "@ + name_cell(t.rows[i].key@));
    }
}

/// The wide layout has a title, a header and a rule, then exactly one line
/// per row in the rows' order, then a rule and the totals line.
pub proof fn law_wide_layout_has_a_line_per_row(t: WideTable, days: Seq<Seq<char>>)
    ensures
        wide_lines_with(t, days).len() == 5 + t.rows.len(),
        forall|i: int|
            0 <= i < t.rows.len() ==> #[trigger] wide_lines_with(t, days)[3 + i] == wide_row_line(
                t.rows[i],
            ),
        wide_lines_with(t, days)[4 + t.rows.len()] == wide_totals_line(t),
{
}



/// When every amount's text fits its 12-character column, the amount
/// columns are 13 characters each, the `j`-th holding the `j`-th amount.
pub proof fn law_money_cells_one_per_amount(xs: Seq<i128>)
    requires
        forall|j: int| 0 <= j < xs.len() ==> (#[trigger] money_text(xs[j] as int)).len() <= 12,
    ensures
        money_cells(xs).len() == 13 * xs.len(),
        forall|j: int|
            0 <= j < xs.len() ==> #[trigger] money_cells(xs).subrange(13 * j, 13 * j + 13)
                == money_cell(xs[j] as int),
    decreases xs.len(),
{
    if xs.len() > 0 {
        let init = xs.drop_last();
        assert forall|j: int| 0 <= j < init.len() implies (#[trigger] money_text(
            init[j] as int,
        )).len() <= 12 by {
            assert(init[j] == xs[j]);
        }
        law_money_cells_one_per_amount(init);
        let last = xs.last() as int;
        assert(money_text(xs[xs.len() - 1] as int).len() <= 12);
        assert(money_cell(last).len() == 13);
        let m = money_cells(xs);
        assert forall|j: int| 0 <= j < xs.len() implies #[trigger] m.subrange(13 * j, 13 * j + 13)
            == money_cell(xs[j] as int) by {
            if j < init.len() {
                assert(init[j] == xs[j]);
                assert(m.subrange(13 * j, 13 * j + 13) =~= money_cells(init).subrange(
                    13 * j,
                    13 * j + 13,
                ));
            } else {
                assert(m.subrange(13 * j, 13 * j + 13) =~= money_cell(last));
            }
        }
    }
}

/// A trend row's line ends with the sparkline of its period costs.
pub proof fn law_trend_line_ends_with_sparkline(r: TrendRow)
    ensures
        trend_row_line(r).len() >= r.period_costs.len(),
        trend_row_line(r).subrange(
            trend_row_line(r).len() - r.period_costs.len(),
            trend_row_line(r).len() as int,
        ) == sparkline_text(r.period_costs@),
{
    let l = trend_row_line(r);
    let sp = sparkline_text(r.period_costs@);
    assert(l.subrange(l.len() - sp.len(), l.len() as int) =~= sp);
}

} // verus!
