//! Derived durations and the calendar arithmetic behind the named filters.

use timetracker::dates::day_number;
use timetracker::dates::days_from_monday;
use timetracker::dates::local_date_of;
use timetracker::dates::next_day;
use timetracker::dates::prev_day;
use timetracker::dates::range_last_month;
use timetracker::dates::range_last_week;
use timetracker::dates::range_this_month;
use timetracker::dates::range_this_week;
use timetracker::in_memory_tracker::InMemoryTimeTracker;
use timetracker::Date;
use timetracker::ListFilter;
use timetracker::TimeBox;
use timetracker::TimeBoxNote;

fn note(time: i64, description: &str) -> TimeBoxNote {
    TimeBoxNote {
        time,
        description: description.to_string(),
    }
}

#[test]
fn timebox_same_start_end() {
    let tb = TimeBox {
        notes: vec![note(1_000, "only")],
    };
    let seconds = tb.timedelta_total().unwrap();
    assert_eq!(0, seconds);
    assert_eq!(0.0, seconds as f64 / 60.0);
    assert_eq!(0.0, seconds as f64 / 60.0 / 60.0);
}

#[test]
fn timebox_took_90minutes() {
    let tb = TimeBox {
        notes: vec![note(1_000, "start"), note(1_000 + 90 * 60, "end")],
    };
    let seconds = tb.timedelta_total().unwrap();
    assert_eq!(90 * 60, seconds);
    assert_eq!(90.0, seconds as f64 / 60.0);
    assert_eq!(1.5, seconds as f64 / 60.0 / 60.0);
}

#[test]
fn timebox_end_before_start() {
    let tb = TimeBox {
        notes: vec![note(7_200, "start"), note(3_600, "end")],
    };
    let seconds = tb.timedelta_total().unwrap();
    assert_eq!(-1.0, (seconds as f64 / 60.0 / 60.0).round());
}

#[test]
fn session_of_two_notes_lasts_the_note_gap() {
    // begin at T0, one note ten minutes later, end ten minutes after
    // that: the box holds one note per call — two — and its duration is
    // the span between its first and last note.
    let t0: i64 = 1_700_000_000;
    let mut tracker = InMemoryTimeTracker::default();
    tracker.begin_at("A", t0).unwrap();
    tracker.push_note_at("B", t0 + 10 * 60).unwrap();
    let ended = tracker.end().unwrap();

    assert_eq!(2, ended.notes.len());
    let minutes = ended.timedelta_total().unwrap() as f64 / 60.0;
    assert_eq!(10.0, minutes);
}

#[test]
fn duration_active_counts_from_the_first_note() {
    let tb = TimeBox {
        notes: vec![note(1_000, "open")],
    };
    let seconds = tb.timedelta_active_at(1_000 + 20 * 60).unwrap();
    assert_eq!(20.0, seconds as f64 / 60.0);
}

#[test]
fn this_month_spans_the_calendar_month() {
    let today = Date { year: 2024, month: 12, day: 15 };
    let filter = range_this_month(&today);
    assert_eq!(
        ListFilter::Range {
            from: Date { year: 2024, month: 12, day: 1 },
            to: Date { year: 2024, month: 12, day: 31 },
        },
        filter
    );
}

#[test]
fn last_month_rolls_back_over_the_year_boundary() {
    let today = Date { year: 2025, month: 1, day: 10 };
    let filter = range_last_month(&today);
    assert_eq!(
        ListFilter::Range {
            from: Date { year: 2024, month: 12, day: 1 },
            to: Date { year: 2024, month: 12, day: 31 },
        },
        filter
    );
}

#[test]
fn last_month_knows_leap_february() {
    let today = Date { year: 2024, month: 3, day: 5 };
    let filter = range_last_month(&today);
    assert_eq!(
        ListFilter::Range {
            from: Date { year: 2024, month: 2, day: 1 },
            to: Date { year: 2024, month: 2, day: 29 },
        },
        filter
    );
}

#[test]
fn century_years_are_mostly_not_leap() {
    let today = Date { year: 1900, month: 3, day: 1 };
    let filter = range_last_month(&today);
    assert_eq!(
        ListFilter::Range {
            from: Date { year: 1900, month: 2, day: 1 },
            to: Date { year: 1900, month: 2, day: 28 },
        },
        filter
    );

    let today = Date { year: 2000, month: 3, day: 1 };
    let filter = range_last_month(&today);
    assert_eq!(
        ListFilter::Range {
            from: Date { year: 2000, month: 2, day: 1 },
            to: Date { year: 2000, month: 2, day: 29 },
        },
        filter
    );
}

#[test]
fn ordinal_day_of_known_dates() {
    assert_eq!(0, day_number(&Date { year: 1, month: 1, day: 1 }));
    assert_eq!(31, day_number(&Date { year: 1, month: 2, day: 1 }));
    // Days between year 1, January 1st and the Unix epoch.
    assert_eq!(719_162, day_number(&Date { year: 1970, month: 1, day: 1 }));
}

#[test]
fn weekday_of_known_dates() {
    // 2024-01-05 was a Friday; 2024-01-01 a Monday.
    assert_eq!(4, days_from_monday(&Date { year: 2024, month: 1, day: 5 }));
    assert_eq!(0, days_from_monday(&Date { year: 2024, month: 1, day: 1 }));
    // 1970-01-01 was a Thursday.
    assert_eq!(3, days_from_monday(&Date { year: 1970, month: 1, day: 1 }));
}

#[test]
fn this_week_runs_monday_to_sunday() {
    let today = Date { year: 2024, month: 1, day: 5 };
    match range_this_week(&today) {
        ListFilter::Range { from, to } => {
            assert_eq!(Date { year: 2024, month: 1, day: 1 }, from);
            assert_eq!(Date { year: 2024, month: 1, day: 7 }, to);
        }
        other => panic!("expected a range, got {other:?}"),
    }
}

#[test]
fn last_week_rolls_back_over_the_year_boundary() {
    let today = Date { year: 2024, month: 1, day: 5 };
    match range_last_week(&today) {
        ListFilter::Range { from, to } => {
            assert_eq!(Date { year: 2023, month: 12, day: 25 }, from);
            assert_eq!(Date { year: 2023, month: 12, day: 31 }, to);
        }
        other => panic!("expected a range, got {other:?}"),
    }
}

#[test]
fn day_stepping_crosses_month_and_year_edges() {
    assert_eq!(
        Date { year: 2024, month: 2, day: 29 },
        prev_day(&Date { year: 2024, month: 3, day: 1 })
    );
    assert_eq!(
        Date { year: 2023, month: 12, day: 31 },
        prev_day(&Date { year: 2024, month: 1, day: 1 })
    );
    assert_eq!(
        Date { year: 2024, month: 1, day: 1 },
        next_day(&Date { year: 2023, month: 12, day: 31 })
    );
    assert_eq!(
        Date { year: 2024, month: 3, day: 1 },
        next_day(&Date { year: 2024, month: 2, day: 29 })
    );
}

#[test]
fn local_dates_are_well_formed_and_in_range() {
    // Which date comes back depends on the machine's time zone; that it is
    // a real calendar date does not.
    let d = local_date_of(1_700_000_000).unwrap();
    assert!((1..=9999).contains(&d.year));
    assert!((1..=12).contains(&d.month));
    assert!((1..=31).contains(&d.day));
    // Far outside the calendar range nothing comes back.
    assert!(local_date_of(i64::MAX).is_none());
}
