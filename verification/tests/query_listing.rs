//! The listing pipeline: filtering, sorting, and pagination.

use timetracker::in_memory_tracker::InMemoryTimeTracker;
use timetracker::Date;
use timetracker::ListFilter;
use timetracker::ListOptions;
use timetracker::SortOrder;
use timetracker::TimeBox;
use timetracker::TimeBoxNote;

fn single_note_box(time: i64, description: &str) -> TimeBox {
    TimeBox {
        notes: vec![TimeBoxNote {
            time,
            description: description.to_string(),
        }],
    }
}

fn tracker_with_times(times: &[i64]) -> InMemoryTimeTracker {
    let mut tracker = InMemoryTimeTracker::default();
    for (i, t) in times.iter().enumerate() {
        tracker
            .finished
            .push(single_note_box(*t, &format!("box{i}")));
    }
    tracker
}

fn starts(tracker: &InMemoryTimeTracker, options: &ListOptions) -> Vec<i64> {
    tracker
        .finished(options)
        .unwrap()
        .items
        .iter()
        .map(|tb| tb.time_start().unwrap())
        .collect()
}

#[test]
fn sorts_ascending_by_start() {
    let tracker = tracker_with_times(&[300, 100, 200]);
    let options = ListOptions::new().order(SortOrder::Ascending).take(100);
    assert_eq!(vec![100, 200, 300], starts(&tracker, &options));
}

#[test]
fn sorts_descending_by_start() {
    let tracker = tracker_with_times(&[300, 100, 200]);
    let options = ListOptions::new().order(SortOrder::Descending).take(100);
    assert_eq!(vec![300, 200, 100], starts(&tracker, &options));
}

#[test]
fn ascending_is_reverse_of_descending() {
    let tracker = tracker_with_times(&[5, 9, 1, 7, 3]);
    let asc = starts(&tracker, &ListOptions::new().order(SortOrder::Ascending).take(100));
    let desc = starts(&tracker, &ListOptions::new().order(SortOrder::Descending).take(100));
    let mut reversed = desc.clone();
    reversed.reverse();
    assert_eq!(asc, reversed);
}

#[test]
fn pagination_comes_after_sorting() {
    // The first page of the ascending listing holds the smallest starts,
    // wherever they sit in the stored order.
    let tracker = tracker_with_times(&[300, 100, 200]);
    let options = ListOptions::new().order(SortOrder::Ascending).skip(0).take(2);
    assert_eq!(vec![100, 200], starts(&tracker, &options));
}

#[test]
fn pages_are_disjoint_and_cover_everything() {
    let tracker = tracker_with_times(&[50, 40, 30, 20, 10]);
    let mut seen: Vec<i64> = Vec::new();
    for page in 0..3 {
        let options = ListOptions::new().order(SortOrder::Ascending).page(page, 2);
        let chunk = starts(&tracker, &options);
        for t in &chunk {
            assert!(!seen.contains(t));
        }
        seen.extend(chunk);
    }
    assert_eq!(vec![10, 20, 30, 40, 50], seen);
}

#[test]
fn skip_beyond_the_end_yields_nothing() {
    let tracker = tracker_with_times(&[10, 20]);
    let options = ListOptions::new().skip(5).take(10);
    let result = tracker.finished(&options).unwrap();
    assert!(result.items.is_empty());
    assert_eq!(2, result.total);
}

#[test]
fn take_clips_to_available_items() {
    let tracker = tracker_with_times(&[10, 20, 30]);
    let options = ListOptions::new().order(SortOrder::Descending).skip(1).take(100);
    assert_eq!(vec![20, 10], starts(&tracker, &options));
}

#[test]
fn total_counts_everything_despite_window() {
    let tracker = tracker_with_times(&[10, 20, 30]);
    let options = ListOptions::new().take(1);
    let result = tracker.finished(&options).unwrap();
    assert_eq!(3, result.total);
    assert_eq!(1, result.items.len());
}

#[test]
fn default_options_list_newest_first() {
    let tracker = tracker_with_times(&[10, 30, 20]);
    let result = tracker.finished(&ListOptions::new()).unwrap();
    let times: Vec<i64> = result
        .items
        .iter()
        .map(|tb| tb.time_start().unwrap())
        .collect();
    assert_eq!(vec![30, 20, 10], times);
}

fn january_fixture() -> (InMemoryTimeTracker, Vec<Option<Date>>) {
    let tracker = tracker_with_times(&[1_000, 2_000, 3_000]);
    let dates = vec![
        Some(Date { year: 2024, month: 1, day: 5 }),
        Some(Date { year: 2024, month: 1, day: 6 }),
        Some(Date { year: 2024, month: 2, day: 1 }),
    ];
    (tracker, dates)
}

#[test]
fn single_date_filter_keeps_one_box() {
    let (tracker, dates) = january_fixture();
    let options = ListOptions::new()
        .take(100)
        .filter(ListFilter::Date(Date { year: 2024, month: 1, day: 5 }));
    let result = tracker.finished_as_of(&dates, &options).unwrap();
    assert_eq!(1, result.items.len());
    assert_eq!(1_000, result.items[0].time_start().unwrap());
    assert_eq!(3, result.total);
}

#[test]
fn date_range_filter_is_inclusive_and_excludes_outside() {
    let (tracker, dates) = january_fixture();
    let options = ListOptions::new().order(SortOrder::Ascending).take(100).filter(
        ListFilter::Range {
            from: Date { year: 2024, month: 1, day: 1 },
            to: Date { year: 2024, month: 1, day: 31 },
        },
    );
    let result = tracker.finished_as_of(&dates, &options).unwrap();
    assert_eq!(2, result.items.len());
    assert_eq!(1_000, result.items[0].time_start().unwrap());
    assert_eq!(2_000, result.items[1].time_start().unwrap());
}

#[test]
fn range_bounds_match_their_own_dates() {
    let filter = ListFilter::Range {
        from: Date { year: 2024, month: 1, day: 1 },
        to: Date { year: 2024, month: 1, day: 31 },
    };
    assert!(filter.matches_date(&Date { year: 2024, month: 1, day: 1 }));
    assert!(filter.matches_date(&Date { year: 2024, month: 1, day: 31 }));
    assert!(!filter.matches_date(&Date { year: 2023, month: 12, day: 31 }));
    assert!(!filter.matches_date(&Date { year: 2024, month: 2, day: 1 }));
}

#[test]
fn undated_boxes_fail_any_filter_but_count_in_total() {
    let tracker = tracker_with_times(&[1_000, 2_000]);
    let dates = vec![None, Some(Date { year: 2024, month: 1, day: 5 })];
    let options = ListOptions::new()
        .take(100)
        .filter(ListFilter::Date(Date { year: 2024, month: 1, day: 5 }));
    let result = tracker.finished_as_of(&dates, &options).unwrap();
    assert_eq!(1, result.items.len());
    assert_eq!(2_000, result.items[0].time_start().unwrap());
    assert_eq!(2, result.total);
}

#[test]
fn builder_methods_set_each_field() {
    let options = ListOptions::new();
    assert_eq!(0, options.skip);
    assert_eq!(25, options.take);
    assert!(matches!(options.order, SortOrder::Descending));
    assert!(options.filter.is_none());

    let options = ListOptions::new().skip(7).take(3).order(SortOrder::Ascending);
    assert_eq!(7, options.skip);
    assert_eq!(3, options.take);
    assert!(matches!(options.order, SortOrder::Ascending));

    let options = ListOptions::new().page(4, 10);
    assert_eq!(40, options.skip);
    assert_eq!(10, options.take);

    let options = ListOptions::default();
    assert_eq!(0, options.skip);
    assert_eq!(25, options.take);
}
