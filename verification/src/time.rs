//! Instants as seconds since the Unix epoch: reading the clock, and the
//! call into `chrono` that names calendar days.

use vstd::prelude::*;

use chrono::TimeZone;

verus! {

/// The earliest whole second a `chrono::DateTime<Utc>` holds:
/// -262143-01-01T00:00:00Z.
pub const MIN_TIMESTAMP: i64 = -8_334_601_228_800;

/// The latest whole second a `chrono::DateTime<Utc>` holds:
/// +262142-12-31T23:59:59Z.
pub const MAX_TIMESTAMP: i64 = 8_210_266_876_799;

/// `secs` names an instant that chrono can represent.
pub open spec fn is_timestamp(secs: int) -> bool {
    MIN_TIMESTAMP <= secs <= MAX_TIMESTAMP
}

/// The calendar day (UTC) holding the instant `secs`, as chrono writes it
/// with the format `%Y-%m-%d`.
pub uninterp spec fn utc_day_text(secs: i64) -> Seq<char>;

/// Calls `Utc.timestamp_opt(secs, 0)` and formats the instant with
/// `format("%Y-%m-%d")`. Trusted: the text is the one chrono writes for that
/// instant, a function of `secs` alone since the zone is UTC; `timestamp_opt`
/// yields a single instant for every second in the representable range,
/// which `requires` demands, so the `unwrap` does not panic.
#[verifier::external_body]
pub(crate) fn utc_day(secs: i64) -> (text: String)
    requires
        is_timestamp(secs as int),
    ensures
        text@ == utc_day_text(secs),
{
    chrono::Utc.timestamp_opt(secs, 0).unwrap().format("%Y-%m-%d").to_string()
}

#[verifier::external_type_specification]
#[verifier::external_body]
pub struct ExSystemTime(std::time::SystemTime);

#[verifier::external_type_specification]
#[verifier::external_body]
pub struct ExSystemTimeError(std::time::SystemTimeError);

/// Calls `std::time::SystemTime::now()`. Nothing is stated of the reading:
/// it is whatever the system clock says.
#[verifier::external_body]
fn clock_now() -> (now: std::time::SystemTime) {
    std::time::SystemTime::now()
}

/// Calls `t.duration_since(std::time::UNIX_EPOCH)`: `Ok` with how far `t`
/// lies after the epoch, or `Err` when `t` lies before it. Nothing is
/// stated of the result, which depends on the opaque reading.
#[verifier::external_body]
fn since_epoch(t: &std::time::SystemTime) -> (r: Result<core::time::Duration, std::time::SystemTimeError>) {
    t.duration_since(std::time::UNIX_EPOCH)
}

/// Calls `SystemTimeError::duration()`: how far before the epoch the
/// reading lies. Nothing is stated of it.
#[verifier::external_body]
fn before_epoch_by(e: &std::time::SystemTimeError) -> (d: core::time::Duration) {
    e.duration()
}

/// Calls `Duration::as_secs()`: the whole seconds of `d`. Nothing is stated
/// of it, `d` being opaque.
#[verifier::external_body]
fn whole_seconds(d: &core::time::Duration) -> (secs: u64) {
    d.as_secs()
}

/// Calls `Duration::subsec_nanos()`. Trusted: std documents the result as
/// the fractional part of a second in nanoseconds, always below one billion.
#[verifier::external_body]
fn fraction_nanos(d: &core::time::Duration) -> (nanos: u32)
    ensures
        nanos < 1_000_000_000,
{
    d.subsec_nanos()
}

/// The whole second (the floor) of a clock reading that lies `secs` seconds
/// and `nanos` nanoseconds after the epoch, or before it when `before_epoch`.
pub open spec fn reading_second(before_epoch: bool, secs: int, nanos: int) -> int {
    if !before_epoch {
        secs
    } else if nanos == 0 {
        -secs
    } else {
        -secs - 1
    }
}

/// `t` moved into the range of representable instants.
pub open spec fn clamp_timestamp(t: int) -> int {
    if t < MIN_TIMESTAMP {
        MIN_TIMESTAMP as int
    } else if t > MAX_TIMESTAMP {
        MAX_TIMESTAMP as int
    } else {
        t
    }
}

/// The timestamp of a clock reading given as its distance from the epoch:
/// the whole second at or before the reading, held within the range chrono
/// represents.
pub fn timestamp_of_reading(before_epoch: bool, secs: u64, nanos: u32) -> (t: i64)
    ensures
        t == clamp_timestamp(reading_second(before_epoch, secs as int, nanos as int)),
        is_timestamp(t as int),
{
    let s: i128 = secs as i128;
    let floor: i128 = if !before_epoch {
        s
    } else if nanos == 0 {
        -s
    } else {
        -s - 1
    };
    if floor < MIN_TIMESTAMP as i128 {
        MIN_TIMESTAMP
    } else if floor > MAX_TIMESTAMP as i128 {
        MAX_TIMESTAMP
    } else {
        floor as i64
    }
}

/// The current time as a timestamp, read from the system clock. A clock set
/// before the epoch gives a negative timestamp; whatever the clock says, the
/// result is a representable instant.
pub fn current_timestamp() -> (t: i64)
    ensures
        is_timestamp(t as int),
{
    let now = clock_now();
    match since_epoch(&now) {
        Ok(d) => timestamp_of_reading(false, whole_seconds(&d), fraction_nanos(&d)),
        Err(e) => {
            let d = before_epoch_by(&e);
            timestamp_of_reading(true, whole_seconds(&d), fraction_nanos(&d))
        },
    }
}

} // verus!
