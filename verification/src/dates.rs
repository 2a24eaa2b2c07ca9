//! Calendar dates in the proleptic Gregorian calendar, for filtering the
//! finished history by the local calendar date of a box's start.
//!
//! A date is plain year/month/day data; `day_number_of` maps a date to its
//! ordinal day (day 0 is year 1, January 1st, a Monday), which grounds the
//! weekday and day-stepping arithmetic used by the named filter ranges.

use vstd::prelude::*;

use vstd::arithmetic::div_mod::lemma_fundamental_div_mod;
use vstd::arithmetic::div_mod::lemma_fundamental_div_mod_converse;

verus! {

/// A calendar date. Years are kept within `1..=9999`, the range the
/// four-digit date syntax covers.
#[derive(Clone, Copy, PartialEq, Eq, Structural, Debug)]
pub struct Date {
    pub year: i64,
    pub month: i64,
    pub day: i64,
}

/// Selects finished boxes by start date: a single calendar date, or an
/// inclusive date range.
#[derive(Clone, Copy, PartialEq, Eq, Structural, Debug)]
pub enum ListFilter {
    Date(Date),
    Range { from: Date, to: Date },
}

pub open spec fn is_leap_year(y: int) -> bool {
    (y % 4 == 0 && y % 100 != 0) || y % 400 == 0
}

pub open spec fn days_in_month_of(y: int, m: int) -> int {
    if m == 2 {
        if is_leap_year(y) {
            29
        } else {
            28
        }
    } else if m == 4 || m == 6 || m == 9 || m == 11 {
        30
    } else {
        31
    }
}

/// Days of year `y` that lie strictly before month `m`.
pub open spec fn days_before_month(y: int, m: int) -> int
    decreases m,
{
    if m <= 1 {
        0
    } else {
        days_before_month(y, m - 1) + days_in_month_of(y, m - 1)
    }
}

/// Days that lie strictly before year `y` (counting from year 1).
pub open spec fn days_before_year(y: int) -> int {
    365 * (y - 1) + (y - 1) / 4 - (y - 1) / 100 + (y - 1) / 400
}

impl Date {
    /// A well-formed date: the month exists and the day exists in it.
    pub open spec fn wf(self) -> bool {
        &&& 1 <= self.year <= 9999
        &&& 1 <= self.month <= 12
        &&& 1 <= self.day <= days_in_month_of(self.year as int, self.month as int)
    }
}

/// The ordinal day of a date; year 1, January 1st is day 0.
pub open spec fn day_number_of(d: Date) -> int {
    days_before_year(d.year as int) + days_before_month(d.year as int, d.month as int) + d.day - 1
}

/// `a` on or before `b` in calendar order.
pub open spec fn date_le_of(a: Date, b: Date) -> bool {
    ||| a.year < b.year
    ||| (a.year == b.year && a.month < b.month)
    ||| (a.year == b.year && a.month == b.month && a.day <= b.day)
}

impl ListFilter {
    /// The date `d` is selected by this filter.
    pub open spec fn matches_spec(self, d: Date) -> bool {
        match self {
            ListFilter::Date(x) => x == d,
            ListFilter::Range { from, to } => date_le_of(from, d) && date_le_of(d, to),
        }
    }

    /// Whether the filter selects the given date.
    pub fn matches_date(&self, d: &Date) -> (r: bool)
        ensures
            r == self.matches_spec(*d),
    {
        match self {
            ListFilter::Date(x) => x.year == d.year && x.month == d.month && x.day == d.day,
            ListFilter::Range { from, to } => date_le(from, d) && date_le(d, to),
        }
    }
}

/// Whether `a` is on or before `b`.
pub fn date_le(a: &Date, b: &Date) -> (r: bool)
    ensures
        r == date_le_of(*a, *b),
{
    if a.year != b.year {
        a.year < b.year
    } else if a.month != b.month {
        a.month < b.month
    } else {
        a.day <= b.day
    }
}

/// The number of days of the given month.
pub fn days_in_month(y: i64, m: i64) -> (r: i64)
    requires
        1 <= y <= 9999,
        1 <= m <= 12,
    ensures
        r == days_in_month_of(y as int, m as int),
{
    if m == 2 {
        let yy: u64 = y as u64;
        if (yy % 4 == 0 && yy % 100 != 0) || yy % 400 == 0 {
            29
        } else {
            28
        }
    } else if m == 4 || m == 6 || m == 9 || m == 11 {
        30
    } else {
        31
    }
}

/// Builds a date from plain year, month and day values, rejecting anything
/// that is not a well-formed calendar date.
pub fn date_from_ymd(y: i64, m: i64, d: i64) -> (r: Option<Date>)
    ensures
        r matches Some(date) ==> date == (Date { year: y, month: m, day: d }) && date.wf(),
        r is None ==> !(Date { year: y, month: m, day: d }).wf(),
{
    if 1 <= y && y <= 9999 && 1 <= m && m <= 12 && 1 <= d && d <= days_in_month(y, m) {
        Some(Date { year: y, month: m, day: d })
    } else {
        None
    }
}

/// The calendar date of the given instant in the machine's local time
/// zone, or `None` when the instant lies outside the calendar range. Which
/// date comes back depends on the machine's time zone, so only
/// well-formedness is promised.
pub fn local_date_of(t: i64) -> (r: Option<Date>)
    ensures
        r matches Some(d) ==> d.wf(),
{
    match crate::shims::local_ymd_of(t) {
        Some((y, m, d)) => date_from_ymd(y, m, d),
        None => None,
    }
}

/// The ordinal day of a well-formed date.
pub fn day_number(d: &Date) -> (r: u64)
    requires
        d.wf(),
    ensures
        r == day_number_of(*d),
{
    let y: u64 = (d.year - 1) as u64;
    let before_year: u64 = 365 * y + y / 4 - y / 100 + y / 400;
    proof {
        assert(y / 100 <= y / 4) by {
            vstd::arithmetic::div_mod::lemma_div_is_ordered_by_denominator(y as int, 4, 100);
        }
    }
    let mut before_month: u64 = 0;
    let mut m: i64 = 1;
    while m < d.month
        invariant
            d.wf(),
            1 <= m <= d.month,
            before_month == days_before_month(d.year as int, m as int),
            before_month <= 366,
        decreases d.month - m,
    {
        proof {
            lemma_days_before_month_monotone(d.year as int, m + 1, 13);
            lemma_days_before_month_13(d.year as int);
        }
        before_month = before_month + days_in_month(d.year, m) as u64;
        m = m + 1;
    }
    before_year + before_month + (d.day - 1) as u64
}

/// Unfolds the month table: a full year holds 365 days, 366 in a leap year.
proof fn lemma_days_before_month_13(y: int)
    ensures
        days_before_month(y, 13) == 365 + if is_leap_year(y) {
            1int
        } else {
            0int
        },
{
    reveal_with_fuel(days_before_month, 13);
}

/// Months only add days: `days_before_month` grows with the month.
proof fn lemma_days_before_month_monotone(y: int, m1: int, m2: int)
    requires
        m1 <= m2,
    ensures
        days_before_month(y, m1) <= days_before_month(y, m2),
    decreases m2 - m1,
{
    if m1 < m2 {
        lemma_days_before_month_monotone(y, m1, m2 - 1);
    }
}

/// Stepping to the next year adds the days of the year passed over.
proof fn lemma_year_delta(y: int)
    requires
        y >= 2,
    ensures
        days_before_year(y) - days_before_year(y - 1) == 365 + if is_leap_year(y - 1) {
            1int
        } else {
            0int
        },
{
    let q: int = y - 2;
    lemma_div_delta_one(q, 4);
    lemma_div_delta_one(q, 100);
    lemma_div_delta_one(q, 400);
}

/// `(q + 1) / d` exceeds `q / d` exactly when `d` divides `q + 1`.
proof fn lemma_div_delta_one(q: int, d: int)
    requires
        q >= 0,
        d >= 1,
    ensures
        (q + 1) / d == q / d + if (q + 1) % d == 0 {
            1int
        } else {
            0int
        },
        (q + 1) % d == if q % d == d - 1 {
            0int
        } else {
            q % d + 1
        },
{
    lemma_fundamental_div_mod(q, d);
    let a: int = q / d;
    let r: int = q % d;
    if r == d - 1 {
        assert(q + 1 == (a + 1) * d + 0) by (nonlinear_arith)
            requires
                q == d * a + r,
                r == d - 1,
        ;
        lemma_fundamental_div_mod_converse(q + 1, d, a + 1, 0);
    } else {
        assert(q + 1 == a * d + (r + 1)) by (nonlinear_arith)
            requires
                q == d * a + r,
        ;
        lemma_fundamental_div_mod_converse(q + 1, d, a, r + 1);
    }
}

/// Years only add days, at least 365 per year.
proof fn lemma_days_before_year_monotone(y1: int, y2: int)
    requires
        1 <= y1 <= y2,
    ensures
        days_before_year(y2) - days_before_year(y1) >= 365 * (y2 - y1),
    decreases y2 - y1,
{
    if y1 < y2 {
        lemma_days_before_year_monotone(y1, y2 - 1);
        lemma_year_delta(y2);
    }
}

/// A date's ordinal day lies within its year's span of ordinal days.
proof fn lemma_day_number_within_year(d: Date)
    requires
        d.wf(),
    ensures
        days_before_year(d.year as int) <= day_number_of(d) < days_before_year(d.year + 1),
{
    let y: int = d.year as int;
    let m: int = d.month as int;
    lemma_days_before_month_monotone(y, 1, m);
    assert(days_before_month(y, m + 1) == days_before_month(y, m) + days_in_month_of(y, m));
    lemma_days_before_month_monotone(y, m + 1, 13);
    lemma_days_before_month_13(y);
    lemma_year_delta(y + 1);
}

/// Bounds the ordinal days of well-formed dates by their years.
pub proof fn lemma_day_number_bounds(d: Date)
    requires
        d.wf(),
    ensures
        day_number_of(d) >= 0,
        d.year >= 2 ==> day_number_of(d) >= 365,
        d.year <= 9998 ==> day_number_of(d) + 365 <= day_number_of(
            Date { year: 9999, month: 12, day: 31 },
        ),
{
    lemma_day_number_within_year(d);
    lemma_days_before_year_monotone(1, d.year as int);
    if d.year >= 2 {
        lemma_days_before_year_monotone(2, d.year as int);
        assert(days_before_year(2) == 365);
    }
    if d.year <= 9998 {
        lemma_days_before_year_monotone(d.year + 1, 9999);
        lemma_day_number_within_year(Date { year: 9999, month: 12, day: 31 });
        lemma_year_delta(10000);
        lemma_days_before_month_13(9999);
        lemma_days_before_month_monotone(9999, 12, 13);
        assert(day_number_of(Date { year: 9999, month: 12, day: 31 }) == days_before_year(9999)
            + days_before_month(9999, 12) + 30);
        assert(days_before_month(9999, 13) == days_before_month(9999, 12) + 31);
    }
}

/// No two well-formed dates share an ordinal day. The week-range functions
/// state where their bounds lie as ordinal days; by this lemma those
/// clauses pin the bounds down to unique dates.
pub proof fn lemma_day_number_injective(d1: Date, d2: Date)
    requires
        d1.wf(),
        d2.wf(),
        day_number_of(d1) == day_number_of(d2),
    ensures
        d1 == d2,
{
    lemma_day_number_within_year(d1);
    lemma_day_number_within_year(d2);
    if d1.year < d2.year {
        lemma_days_before_year_monotone(d1.year + 1, d2.year as int);
    } else if d2.year < d1.year {
        lemma_days_before_year_monotone(d2.year + 1, d1.year as int);
    } else {
        lemma_month_number_injective(d1, d2);
    }
}

/// Within one year, distinct months occupy disjoint ordinal-day spans.
proof fn lemma_month_number_injective(d1: Date, d2: Date)
    requires
        d1.wf(),
        d2.wf(),
        d1.year == d2.year,
        day_number_of(d1) == day_number_of(d2),
    ensures
        d1 == d2,
{
    let y: int = d1.year as int;
    let m1: int = d1.month as int;
    let m2: int = d2.month as int;
    if m1 < m2 {
        assert(days_before_month(y, m1 + 1) == days_before_month(y, m1) + days_in_month_of(y, m1));
        lemma_days_before_month_monotone(y, m1 + 1, m2);
    } else if m2 < m1 {
        assert(days_before_month(y, m2 + 1) == days_before_month(y, m2) + days_in_month_of(y, m2));
        lemma_days_before_month_monotone(y, m2 + 1, m1);
    }
}

/// The well-formed date just before `d`.
pub fn prev_day(d: &Date) -> (r: Date)
    requires
        d.wf(),
        !(d.year == 1 && d.month == 1 && d.day == 1),
    ensures
        r.wf(),
        day_number_of(r) == day_number_of(*d) - 1,
{
    if d.day > 1 {
        Date { year: d.year, month: d.month, day: d.day - 1 }
    } else if d.month > 1 {
        let m: i64 = d.month - 1;
        let dim: i64 = days_in_month(d.year, m);
        proof {
            assert(days_before_month(d.year as int, d.month as int) == days_before_month(
                d.year as int,
                m as int,
            ) + days_in_month_of(d.year as int, m as int));
        }
        Date { year: d.year, month: m, day: dim }
    } else {
        let r = Date { year: d.year - 1, month: 12, day: 31 };
        proof {
            lemma_year_delta(d.year as int);
            lemma_days_before_month_13(d.year - 1);
            lemma_days_before_month_monotone(d.year - 1, 12, 13);
            assert(days_before_month(d.year - 1, 13) == days_before_month(d.year - 1, 12)
                + days_in_month_of(d.year - 1, 12));
        }
        r
    }
}

/// The well-formed date just after `d`.
pub fn next_day(d: &Date) -> (r: Date)
    requires
        d.wf(),
        !(d.year == 9999 && d.month == 12 && d.day == 31),
    ensures
        r.wf(),
        day_number_of(r) == day_number_of(*d) + 1,
{
    let dim: i64 = days_in_month(d.year, d.month);
    if d.day < dim {
        Date { year: d.year, month: d.month, day: d.day + 1 }
    } else if d.month < 12 {
        proof {
            assert(days_before_month(d.year as int, d.month + 1) == days_before_month(
                d.year as int,
                d.month as int,
            ) + days_in_month_of(d.year as int, d.month as int));
        }
        Date { year: d.year, month: d.month + 1, day: 1 }
    } else {
        let r = Date { year: d.year + 1, month: 1, day: 1 };
        proof {
            lemma_year_delta(d.year + 1);
            lemma_days_before_month_13(d.year as int);
            lemma_days_before_month_monotone(d.year as int, 12, 13);
            assert(days_before_month(d.year as int, 13) == days_before_month(d.year as int, 12)
                + days_in_month_of(d.year as int, 12));
        }
        r
    }
}

/// Steps `n` days back.
pub fn minus_days(d: &Date, n: u64) -> (r: Date)
    requires
        d.wf(),
        day_number_of(*d) >= n,
    ensures
        r.wf(),
        day_number_of(r) == day_number_of(*d) - n,
{
    let mut cur: Date = *d;
    let mut i: u64 = 0;
    while i < n
        invariant
            cur.wf(),
            i <= n,
            day_number_of(*d) >= n,
            day_number_of(cur) == day_number_of(*d) - i,
        decreases n - i,
    {
        proof {
            if cur.year == 1 && cur.month == 1 && cur.day == 1 {
                assert(day_number_of(cur) == 0);
            }
        }
        cur = prev_day(&cur);
        i = i + 1;
    }
    cur
}

/// Steps `n` days forward.
pub fn plus_days(d: &Date, n: u64) -> (r: Date)
    requires
        d.wf(),
        day_number_of(*d) + n <= day_number_of(Date { year: 9999, month: 12, day: 31 }),
    ensures
        r.wf(),
        day_number_of(r) == day_number_of(*d) + n,
{
    let mut cur: Date = *d;
    let mut i: u64 = 0;
    while i < n
        invariant
            cur.wf(),
            i <= n,
            day_number_of(*d) + n <= day_number_of(Date { year: 9999, month: 12, day: 31 }),
            day_number_of(cur) == day_number_of(*d) + i,
        decreases n - i,
    {
        proof {
            let last = Date { year: 9999, month: 12, day: 31 };
            if cur.year == 9999 && cur.month == 12 && cur.day == 31 {
                assert(day_number_of(cur) == day_number_of(last));
            }
        }
        cur = next_day(&cur);
        i = i + 1;
    }
    cur
}

/// How many days the date stands after the Monday of its week.
pub fn days_from_monday(d: &Date) -> (r: u64)
    requires
        d.wf(),
    ensures
        r == day_number_of(*d) % 7,
        r < 7,
{
    let dn: u64 = day_number(d);
    dn % 7
}

/// The Monday-to-Sunday week that holds `today`, as an inclusive range.
pub fn range_this_week(today: &Date) -> (r: ListFilter)
    requires
        today.wf(),
        2 <= today.year <= 9998,
    ensures
        r matches ListFilter::Range { from, to } && from.wf() && to.wf() && day_number_of(from)
            == day_number_of(*today) - day_number_of(*today) % 7 && day_number_of(to)
            == day_number_of(from) + 6,
{
    proof {
        lemma_day_number_bounds(*today);
    }
    let dfm: u64 = days_from_monday(today);
    let from: Date = minus_days(today, dfm);
    let to: Date = plus_days(&from, 6);
    ListFilter::Range { from, to }
}

/// The Monday-to-Sunday week just before the one that holds `today`.
pub fn range_last_week(today: &Date) -> (r: ListFilter)
    requires
        today.wf(),
        2 <= today.year <= 9998,
    ensures
        r matches ListFilter::Range { from, to } && from.wf() && to.wf() && day_number_of(from)
            == day_number_of(*today) - day_number_of(*today) % 7 - 7 && day_number_of(to)
            == day_number_of(from) + 6,
{
    proof {
        lemma_day_number_bounds(*today);
    }
    let dfm: u64 = days_from_monday(today);
    let from: Date = minus_days(today, dfm + 7);
    let to: Date = plus_days(&from, 6);
    ListFilter::Range { from, to }
}

/// The calendar month that holds `today`, as an inclusive range.
pub fn range_this_month(today: &Date) -> (r: ListFilter)
    requires
        today.wf(),
    ensures
        r == (ListFilter::Range {
            from: Date { year: today.year, month: today.month, day: 1 },
            to: Date {
                year: today.year,
                month: today.month,
                day: days_in_month_of(today.year as int, today.month as int) as i64,
            },
        }),
{
    let dim: i64 = days_in_month(today.year, today.month);
    ListFilter::Range {
        from: Date { year: today.year, month: today.month, day: 1 },
        to: Date { year: today.year, month: today.month, day: dim },
    }
}

/// The calendar month just before the one that holds `today`, rolling over
/// the year boundary from January back to December.
pub fn range_last_month(today: &Date) -> (r: ListFilter)
    requires
        today.wf(),
        today.year >= 2 || today.month >= 2,
    ensures
        today.month == 1 ==> r == (ListFilter::Range {
            from: Date { year: (today.year - 1) as i64, month: 12, day: 1 },
            to: Date { year: (today.year - 1) as i64, month: 12, day: 31 },
        }),
        today.month >= 2 ==> r == (ListFilter::Range {
            from: Date { year: today.year, month: (today.month - 1) as i64, day: 1 },
            to: Date {
                year: today.year,
                month: (today.month - 1) as i64,
                day: days_in_month_of(today.year as int, today.month - 1) as i64,
            },
        }),
{
    if today.month == 1 {
        ListFilter::Range {
            from: Date { year: today.year - 1, month: 12, day: 1 },
            to: Date { year: today.year - 1, month: 12, day: 31 },
        }
    } else {
        let m: i64 = today.month - 1;
        let dim: i64 = days_in_month(today.year, m);
        ListFilter::Range {
            from: Date { year: today.year, month: m, day: 1 },
            to: Date { year: today.year, month: m, day: dim },
        }
    }
}

} // verus!
