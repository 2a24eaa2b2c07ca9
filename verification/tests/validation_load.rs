//! Load-time validation: fatal missing notes, repairable unsorted notes.

use timetracker::in_memory_tracker::InMemoryTimeTracker;
use timetracker::Error;
use timetracker::TimeBox;
use timetracker::TimeBoxNote;

fn note(time: i64, description: &str) -> TimeBoxNote {
    TimeBoxNote {
        time,
        description: description.to_string(),
    }
}

#[test]
fn load_repairs_unsorted_active_notes() {
    let active = TimeBox {
        notes: vec![note(200, "later"), note(100, "earlier")],
    };
    let tracker = InMemoryTimeTracker::from_loaded_parts(Some(active), Vec::new()).unwrap();
    let repaired = tracker.active().unwrap().unwrap();
    assert_eq!(2, repaired.notes.len());
    assert_eq!(100, repaired.notes[0].time);
    assert_eq!("earlier", repaired.notes[0].description);
    assert_eq!(200, repaired.notes[1].time);
    assert_eq!("later", repaired.notes[1].description);
}

#[test]
fn load_fails_on_note_less_finished_box() {
    let good = TimeBox {
        notes: vec![note(100, "fine")],
    };
    let empty = TimeBox { notes: Vec::new() };
    let err = InMemoryTimeTracker::from_loaded_parts(None, vec![good, empty]).unwrap_err();
    assert!(matches!(err, Error::TimeBoxIsMissingNote { index: 1 }));
}

#[test]
fn load_fails_on_note_less_active_box() {
    let active = TimeBox { notes: Vec::new() };
    let err = InMemoryTimeTracker::from_loaded_parts(Some(active), Vec::new()).unwrap_err();
    assert!(matches!(err, Error::ActiveTimeBoxIsMissingNote));
}

#[test]
fn load_fails_on_missing_note_even_when_unsorted_comes_first() {
    // An unsorted box earlier in the scan does not hide a fatal note-less
    // box later on: missing notes always fail the load.
    let unsorted = TimeBox {
        notes: vec![note(300, "b"), note(100, "a")],
    };
    let empty = TimeBox { notes: Vec::new() };
    let err = InMemoryTimeTracker::from_loaded_parts(None, vec![unsorted, empty]).unwrap_err();
    assert!(matches!(err, Error::TimeBoxIsMissingNote { index: 1 }));
}

#[test]
fn load_keeps_a_clean_store_unchanged() {
    let active = TimeBox {
        notes: vec![note(500, "open")],
    };
    let finished = vec![
        TimeBox {
            notes: vec![note(100, "a"), note(150, "b")],
        },
        TimeBox {
            notes: vec![note(200, "c")],
        },
    ];
    let tracker = InMemoryTimeTracker::from_loaded_parts(Some(active), finished).unwrap();
    assert_eq!(2, tracker.finished.len());
    assert_eq!(100, tracker.finished[0].notes[0].time);
    assert_eq!(150, tracker.finished[0].notes[1].time);
    assert_eq!(200, tracker.finished[1].notes[0].time);
    assert_eq!(500, tracker.active().unwrap().unwrap().notes[0].time);
}

#[test]
fn load_resorts_finished_boxes_by_start() {
    let finished = vec![
        TimeBox {
            notes: vec![note(300, "late")],
        },
        TimeBox {
            notes: vec![note(100, "early")],
        },
    ];
    let tracker = InMemoryTimeTracker::from_loaded_parts(None, finished).unwrap();
    assert_eq!(100, tracker.finished[0].notes[0].time);
    assert_eq!(300, tracker.finished[1].notes[0].time);
}

#[test]
fn load_sorts_notes_within_each_finished_box() {
    let finished = vec![TimeBox {
        notes: vec![note(250, "second"), note(150, "first")],
    }];
    let tracker = InMemoryTimeTracker::from_loaded_parts(None, finished).unwrap();
    assert_eq!(150, tracker.finished[0].notes[0].time);
    assert_eq!(250, tracker.finished[0].notes[1].time);
}

#[test]
fn validation_reports_first_unsorted_note() {
    let tracker = InMemoryTimeTracker {
        active: Some(TimeBox {
            notes: vec![note(200, "later"), note(100, "earlier")],
        }),
        finished: Vec::new(),
    };
    let err = tracker.assert_valid().unwrap_err();
    match err {
        Error::TimeBoxNoteIsNotLinearlySorted(n) => {
            assert_eq!(100, n.time);
            assert_eq!("earlier", n.description);
        }
        other => panic!("unexpected validation outcome: {}", other.describe()),
    }
}

#[test]
fn validation_checks_order_across_box_boundaries() {
    // The cursor runs across finished boxes: a box starting before the
    // previous box's last note is reported even though each box is sorted
    // internally.
    let tracker = InMemoryTimeTracker {
        active: None,
        finished: vec![
            TimeBox {
                notes: vec![note(100, "a"), note(400, "b")],
            },
            TimeBox {
                notes: vec![note(200, "c"), note(300, "d")],
            },
        ],
    };
    let err = tracker.assert_valid().unwrap_err();
    match err {
        Error::TimeBoxNoteIsNotLinearlySorted(n) => {
            assert_eq!(200, n.time);
        }
        other => panic!("unexpected validation outcome: {}", other.describe()),
    }
}

#[test]
fn validation_accepts_a_clean_store() {
    let tracker = InMemoryTimeTracker {
        active: Some(TimeBox {
            notes: vec![note(500, "open")],
        }),
        finished: vec![
            TimeBox {
                notes: vec![note(100, "a")],
            },
            TimeBox {
                notes: vec![note(200, "b"), note(200, "tie")],
            },
        ],
    };
    assert!(tracker.assert_valid().is_ok());
}

#[test]
fn validation_reports_note_less_finished_box_by_index() {
    let tracker = InMemoryTimeTracker {
        active: None,
        finished: vec![
            TimeBox {
                notes: vec![note(100, "a")],
            },
            TimeBox { notes: Vec::new() },
        ],
    };
    let err = tracker.assert_valid().unwrap_err();
    assert!(matches!(err, Error::TimeBoxIsMissingNote { index: 1 }));
}

#[test]
fn amend_rejects_note_less_active_box() {
    let mut tracker = InMemoryTimeTracker {
        active: Some(TimeBox { notes: Vec::new() }),
        finished: Vec::new(),
    };
    let err = tracker.amend("anything").unwrap_err();
    assert!(matches!(err, Error::ActiveTimeBoxIsMissingNote));
}

#[test]
fn time_projections_reject_a_note_less_box() {
    let empty = TimeBox { notes: Vec::new() };
    assert!(matches!(
        empty.time_start().unwrap_err(),
        Error::TimeBoxIsMissingNote { index: 0 }
    ));
    assert!(matches!(
        empty.time_stop().unwrap_err(),
        Error::TimeBoxIsMissingNote { index: 0 }
    ));
    assert!(matches!(
        empty.timedelta_total().unwrap_err(),
        Error::TimeBoxIsMissingNote { index: 0 }
    ));
}
