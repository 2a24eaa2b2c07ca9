//! The few places where the library leans on an outside crate or on std:
//! reading the clock, turning an instant into the machine's local calendar
//! date, and trimming whitespace. Each wrapper's contract states only what
//! the called code plainly guarantees.

use vstd::prelude::*;

use chrono::Datelike;
use chrono::TimeZone;

verus! {

/// What `str::trim` returns: the characters of its argument with leading
/// and trailing whitespace removed. Whitespace here is the Unicode
/// `White_Space` property, a table this library does not restate; the
/// result is a function of the characters alone.
pub uninterp spec fn trim_of(s: Seq<char>) -> Seq<char>;

/// Relies on `chrono::Utc::now` and `DateTime::timestamp`: the current
/// instant as whole seconds since the Unix epoch. `Utc::now` panics if the
/// system clock stands before the epoch; on return the value is therefore
/// non-negative. Nothing else is promised of a clock reading.
#[verifier::external_body]
pub(crate) fn now_utc_seconds() -> (r: i64)
    ensures
        r >= 0,
{
    chrono::Utc::now().timestamp()
}

/// Relies on `chrono::TimeZone::timestamp_opt` on `chrono::Local` and on
/// `chrono::Datelike`: the year, month and day of the given instant in the
/// machine's local time zone, or `None` when the instant lies outside
/// chrono's calendar range. The result depends on the machine's time zone
/// database, so nothing is promised of it.
#[verifier::external_body]
pub(crate) fn local_ymd_of(t: i64) -> (r: Option<(i64, i64, i64)>)
{
    match chrono::Local.timestamp_opt(t, 0).earliest() {
        Some(dt) => Some((dt.year() as i64, dt.month() as i64, dt.day() as i64)),
        None => None,
    }
}

/// Relies on `str::trim`: removes leading and trailing whitespace; the
/// result depends on the characters alone.
#[verifier::external_body]
pub(crate) fn trim_str(s: &str) -> (r: String)
    ensures
        r@ == trim_of(s@),
{
    s.trim().to_string()
}

} // verus!
