//! The attribution event and the two facts the views read from it: the value
//! of one dimension and the start of the period it falls in.

use vstd::prelude::*;

verus! {

/// One attribution record: when the cost was incurred, what it cost, and the
/// dimension values it is attributed to.
pub struct Event {
    /// Seconds since the Unix epoch, UTC.
    pub ts: i64,
    /// Cost in millionths of a US dollar (micro-dollars).
    pub cost_usd: i64,
    /// Dimension name/value pairs, such as `("cost_center", "cc-platform")`.
    pub dimensions: Vec<(String, String)>,
}

/// The text that stands for an absent or empty dimension value.
pub open spec fn missing_marker() -> Seq<char> {
    seq!['(', 'm', 'i', 's', 's', 'i', 'n', 'g', ')']
}

/// The value recorded under `name`: that of the first pair with this name.
pub open spec fn lookup_dim(dims: Seq<(String, String)>, name: Seq<char>) -> Option<Seq<char>>
    decreases dims.len(),
{
    if dims.len() == 0 {
        None
    } else if dims[0].0@ == name {
        Some(dims[0].1@)
    } else {
        lookup_dim(dims.drop_first(), name)
    }
}

/// The value under `name`, or the missing marker when there is none or it is empty.
pub open spec fn dim_value(dims: Seq<(String, String)>, name: Seq<char>) -> Seq<char> {
    match lookup_dim(dims, name) {
        Some(v) => if v.len() > 0 { v } else { missing_marker() },
        None => missing_marker(),
    }
}

/// Start of the period of `period_s` seconds that holds `ts`; instants before
/// the epoch fall in the period that starts at the epoch.
pub open spec fn period_start(ts: int, period_s: int) -> int {
    if ts <= 0 { 0 } else { (ts / period_s) * period_s }
}

/// The value of a dimension is that of the first pair carrying its name,
/// wherever in the list that pair stands: its value when not empty, the
/// missing marker when empty.
pub proof fn law_dim_is_first_pair_with_name(dims: Seq<(String, String)>, name: Seq<char>, i: int)
    requires
        0 <= i < dims.len(),
        dims[i].0@ == name,
        forall|j: int| 0 <= j < i ==> #[trigger] dims[j].0@ != name,
    ensures
        dim_value(dims, name) == if dims[i].1@.len() > 0 {
            dims[i].1@
        } else {
            missing_marker()
        },
    decreases i,
{
    if i > 0 {
        assert(dims[0].0@ != name);
        let rest = dims.drop_first();
        assert forall|j: int| 0 <= j < i - 1 implies #[trigger] rest[j].0@ != name by {
            assert(rest[j] == dims[j + 1]);
        }
        assert(rest[i - 1] == dims[i]);
        law_dim_is_first_pair_with_name(rest, name, i - 1);
    }
}

/// A dimension no pair names has the missing marker for its value.
pub proof fn law_dim_without_pair_is_missing(dims: Seq<(String, String)>, name: Seq<char>)
    requires
        forall|j: int| 0 <= j < dims.len() ==> #[trigger] dims[j].0@ != name,
    ensures
        dim_value(dims, name) == missing_marker(),
    decreases dims.len(),
{
    if dims.len() > 0 {
        assert(dims[0].0@ != name);
        let rest = dims.drop_first();
        assert forall|j: int| 0 <= j < rest.len() implies #[trigger] rest[j].0@ != name by {
            assert(rest[j] == dims[j + 1]);
        }
        law_dim_without_pair_is_missing(rest, name);
    }
}

impl Event {
    /// The value of dimension `key`, or `"(missing)"` when the event has no
    /// value for it or the value is empty.
    pub fn dim(&self, key: &str) -> (value: &str)
        ensures
            value@ == dim_value(self.dimensions@, key@),
    {
        let name = String::from_str(key);
        let n = self.dimensions.len();
        let mut i: usize = 0;
        assert(self.dimensions@.skip(0) =~= self.dimensions@);
        proof {
            reveal_strlit("(missing)");
        }
        while i < n
            invariant
                n == self.dimensions.len(),
                0 <= i <= n,
                name@ == key@,
                lookup_dim(self.dimensions@, key@) == lookup_dim(
                    self.dimensions@.skip(i as int),
                    key@,
                ),
            decreases n - i,
        {
            assert(self.dimensions@.skip(i as int)[0] == self.dimensions@[i as int]);
            if self.dimensions[i].0 == name {
                let v = self.dimensions[i].1.as_str();
                if v.is_empty() {
                    let marker = "(missing)";
                    proof {
                        reveal_strlit("(missing)");
                    }
                    assert(marker@ =~= missing_marker());
                    return marker;
                }
                return v;
            }
            assert(self.dimensions@.skip(i as int).drop_first() =~= self.dimensions@.skip(
                i + 1,
            ));
            i = i + 1;
        }
        let marker = "(missing)";
        assert(marker@ =~= missing_marker());
        marker
    }
}

/// Start of the period of `period_s` seconds that holds `ts` (the epoch for
/// instants before it).
pub fn align_bucket(ts: i64, period_s: u64) -> (start: i64)
    requires
        period_s > 0,
    ensures
        start == period_start(ts as int, period_s as int),
        0 <= start <= if ts < 0 { 0 } else { ts as int },
        (start as int) % (period_s as int) == 0,
        ts > 0 ==> ts < start + period_s,
{
    if ts <= 0 {
        assert(0int % (period_s as int) == 0) by (nonlinear_arith)
            requires
                period_s > 0,
        ;
        0
    } else {
        let secs = ts as u64;
        let q = secs / period_s;
        assert(q * period_s <= secs) by (nonlinear_arith)
            requires
                q == secs / period_s,
                period_s > 0,
        ;
        assert(secs < q * period_s + period_s && (q * period_s) % (period_s as int) == 0)
            by (nonlinear_arith)
            requires
                q == secs / period_s,
                period_s > 0,
        ;
        let aligned = q * period_s;
        aligned as i64
    }
}

} // verus!
