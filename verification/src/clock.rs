//! Date ranges and the trailing-month window the pipeline fetches quotes for.

use vstd::prelude::*;

verus! {

/// Seconds in one calendar day.
pub const DAY_SECONDS: i64 = 86400;

/// Seconds in the trailing window of thirty days.
pub const MONTH_SECONDS: i64 = 30 * 86400;

/// A range of moments, as whole seconds since the Unix epoch.
#[derive(Clone, Copy, Debug, PartialEq, Eq, Structural)]
pub struct DateRange {
    pub start_unix: i64,
    pub end_unix: i64,
}

impl DateRange {
    /// A range is well formed when it starts strictly before it ends.
    pub open spec fn wf(self) -> bool {
        self.start_unix < self.end_unix
    }
}

/// The trailing month ending yesterday: the range from thirty-one days
/// before `today_unix` up to one day before it.
pub fn trailing_month_range(today_unix: i64) -> (range: DateRange)
    requires
        today_unix >= i64::MIN + DAY_SECONDS + MONTH_SECONDS,
    ensures
        range.end_unix == today_unix - DAY_SECONDS,
        range.start_unix == range.end_unix - MONTH_SECONDS,
        range.wf(),
{
    let end_unix = today_unix - DAY_SECONDS;
    let start_unix = end_unix - MONTH_SECONDS;
    DateRange { start_unix, end_unix }
}

/// Relies on time::OffsetDateTime::now_utc and unix_timestamp: the current
/// wall-clock moment in UTC, as whole seconds since the Unix epoch. Nothing
/// is promised of the value: it depends on the machine's clock.
#[verifier::external_body]
fn now_unix_seconds() -> (now: i64) {
    time::OffsetDateTime::now_utc().unix_timestamp()
}

/// The trailing month ending yesterday, measured from the wall clock.
/// Returns `None` only when the clock reports a moment so early that the
/// window cannot be computed without underflow.
pub fn current_trailing_month_range() -> (range: Option<DateRange>)
    ensures
        range matches Some(r) ==> r.wf() && r.end_unix == r.start_unix + MONTH_SECONDS,
{
    let now = now_unix_seconds();
    if now >= i64::MIN + DAY_SECONDS + MONTH_SECONDS {
        Some(trailing_month_range(now))
    } else {
        None
    }
}

} // verus!
