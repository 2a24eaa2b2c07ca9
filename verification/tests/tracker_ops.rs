//! The tracking state machine exercised through its public operations.

use timetracker::in_memory_tracker::InMemoryTimeTracker;
use timetracker::Error;
use timetracker::ListOptions;

#[test]
fn start_task() {
    let mut tracker = InMemoryTimeTracker::default();

    tracker.begin("#1").unwrap();
    assert_eq!(
        "#1",
        tracker
            .active()
            .unwrap()
            .unwrap()
            .notes
            .first()
            .unwrap()
            .description
    );
}

#[test]
fn fail_to_begin_when_already_active() {
    let mut tracker = InMemoryTimeTracker::default();

    tracker.begin("#1").unwrap();
    let err = tracker.begin("#2").unwrap_err();
    assert!(matches!(err, Error::ActiveTimeBoxExistsAlready));

    let description = tracker
        .active()
        .unwrap()
        .unwrap()
        .notes
        .first()
        .unwrap()
        .description
        .clone();

    assert_eq!("#1", description); // Should not get changed
    assert_eq!(0, tracker.finished(&ListOptions::new()).unwrap().total);
}

#[test]
fn add_notes() {
    let mut tracker = InMemoryTimeTracker::default();

    tracker.begin("#1").unwrap();
    assert_eq!(1, tracker.active().unwrap().unwrap().notes.len());
    tracker.push_note("#2").unwrap();
    assert_eq!(2, tracker.active().unwrap().unwrap().notes.len());
}

#[test]
fn dont_add_note_due_no_active_time_box() {
    let mut tracker = InMemoryTimeTracker::default();
    assert!(tracker.active().unwrap().is_none());

    let err = tracker.push_note("#1").unwrap_err();
    assert!(matches!(err, Error::NoActiveTimeBox));

    assert!(tracker.active().unwrap().is_none());
}

#[test]
fn amend_note() {
    let mut tracker = InMemoryTimeTracker::default();

    tracker.begin("#1").unwrap();
    tracker.amend("new").unwrap();
    let description = tracker
        .active()
        .unwrap()
        .unwrap()
        .notes
        .first()
        .unwrap()
        .description
        .clone();

    assert_eq!("new", description);
}

#[test]
fn fail_to_amend_note_due_no_active_time_box() {
    let mut tracker = InMemoryTimeTracker::default();

    let err = tracker.amend("new").unwrap_err();
    assert!(matches!(err, Error::NoActiveTimeBox));
}

#[test]
fn end_time_boxes() {
    let mut tracker = InMemoryTimeTracker::default();

    tracker.begin("#1").unwrap();
    assert!(tracker.active().unwrap().is_some());
    tracker.end().unwrap();
    assert_eq!(1, tracker.finished(&ListOptions::new()).unwrap().total);
    assert!(tracker.active().unwrap().is_none());

    tracker.begin("#2").unwrap();
    assert!(tracker.active().unwrap().is_some());
    tracker.end().unwrap();
    assert_eq!(2, tracker.finished(&ListOptions::new()).unwrap().total);
    assert!(tracker.active().unwrap().is_none());
}

#[test]
fn resume_finished_task() {
    let mut tracker = InMemoryTimeTracker::default();

    tracker.begin("#1").unwrap();
    assert!(tracker.active().unwrap().is_some());
    tracker.end().unwrap();
    assert_eq!(1, tracker.finished(&ListOptions::new()).unwrap().total);
    assert!(tracker.active().unwrap().is_none());

    tracker.resume().unwrap();
    assert_eq!(0, tracker.finished(&ListOptions::new()).unwrap().total);
    assert!(tracker.active().unwrap().is_some());
}

#[test]
fn clear() {
    let mut tracker = InMemoryTimeTracker::default();

    tracker.begin("#1").unwrap();
    tracker.end().unwrap();
    assert_eq!(1, tracker.finished(&ListOptions::new()).unwrap().total);

    tracker.clear().unwrap();
    assert_eq!(0, tracker.finished(&ListOptions::new()).unwrap().total);
}

#[test]
fn dont_clear_due_pending_task() {
    let mut tracker = InMemoryTimeTracker::default();

    tracker.begin("#1").unwrap();
    tracker.end().unwrap();
    assert_eq!(1, tracker.finished(&ListOptions::new()).unwrap().total);

    tracker.begin("#2").unwrap();
    assert!(tracker.active().unwrap().is_some());

    let removed = tracker.clear().unwrap();
    assert_eq!(0, removed);
    assert_eq!(1, tracker.finished(&ListOptions::new()).unwrap().total);
    assert!(tracker.active().unwrap().is_some());
}

#[test]
fn clear_reports_count_removed() {
    let mut tracker = InMemoryTimeTracker::default();
    for i in 0..3 {
        tracker.begin(&format!("#{i}")).unwrap();
        tracker.end().unwrap();
    }
    assert_eq!(3, tracker.clear().unwrap());
    assert_eq!(0, tracker.finished(&ListOptions::new()).unwrap().total);
}

#[test]
fn clear_refused_regardless_of_history_size() {
    let mut tracker = InMemoryTimeTracker::default();
    for i in 0..4 {
        tracker.begin(&format!("#{i}")).unwrap();
        tracker.end().unwrap();
    }
    tracker.begin("open").unwrap();
    assert_eq!(0, tracker.clear().unwrap());
    assert_eq!(4, tracker.finished(&ListOptions::new()).unwrap().total);
}

#[test]
fn cancel_discards_active_box() {
    let mut tracker = InMemoryTimeTracker::default();
    tracker.begin("#1").unwrap();
    let cancelled = tracker.cancel().unwrap();
    assert_eq!("#1", cancelled.notes[0].description);
    assert!(tracker.active().unwrap().is_none());
    assert_eq!(0, tracker.finished(&ListOptions::new()).unwrap().total);
}

#[test]
fn fail_to_cancel_when_idle() {
    let mut tracker = InMemoryTimeTracker::default();
    let err = tracker.cancel().unwrap_err();
    assert!(matches!(err, Error::NoActiveTimeBox));
}

#[test]
fn fail_to_end_when_idle() {
    let mut tracker = InMemoryTimeTracker::default();
    let err = tracker.end().unwrap_err();
    assert!(matches!(err, Error::NoActiveTimeBox));
}

#[test]
fn fail_to_resume_with_empty_history() {
    let mut tracker = InMemoryTimeTracker::default();
    let err = tracker.resume().unwrap_err();
    assert!(matches!(err, Error::NoTimeBox));
}

#[test]
fn fail_to_resume_while_active() {
    let mut tracker = InMemoryTimeTracker::default();
    tracker.begin("#1").unwrap();
    tracker.end().unwrap();
    tracker.begin("#2").unwrap();
    let err = tracker.resume().unwrap_err();
    assert!(matches!(err, Error::ActiveTimeBoxExistsAlready));
}

#[test]
fn end_then_resume_restores_notes() {
    let mut tracker = InMemoryTimeTracker::default();
    tracker.begin_at("work", 1_000).unwrap();
    tracker.push_note_at("more", 1_060).unwrap();
    let before = tracker.active().unwrap().unwrap();

    tracker.end().unwrap();
    tracker.resume().unwrap();

    let after = tracker.active().unwrap().unwrap();
    assert_eq!(before.notes.len(), after.notes.len());
    for (b, a) in before.notes.iter().zip(after.notes.iter()) {
        assert_eq!(b.time, a.time);
        assert_eq!(b.description, a.description);
    }
    assert_eq!(0, tracker.finished(&ListOptions::new()).unwrap().total);
}

#[test]
fn session_notes_are_chronological() {
    let mut tracker = InMemoryTimeTracker::default();
    tracker.begin_at("a", 100).unwrap();
    tracker.push_note_at("b", 160).unwrap();
    tracker.push_note_at("c", 160).unwrap();
    tracker.push_note_at("d", 230).unwrap();
    let ended = tracker.end().unwrap();

    assert_eq!(4, ended.notes.len());
    assert_eq!(100, ended.time_start().unwrap());
    assert_eq!(230, ended.time_stop().unwrap());
    for pair in ended.notes.windows(2) {
        assert!(pair[0].time <= pair[1].time);
    }
}

#[test]
fn amend_trims_surrounding_whitespace() {
    let mut tracker = InMemoryTimeTracker::default();
    tracker.begin("raw").unwrap();
    tracker.amend("  spaced out \t").unwrap();
    let description = tracker
        .active()
        .unwrap()
        .unwrap()
        .notes
        .last()
        .unwrap()
        .description
        .clone();
    assert_eq!("spaced out", description);
}

#[test]
fn amend_rewrites_only_the_last_note() {
    let mut tracker = InMemoryTimeTracker::default();
    tracker.begin_at("first", 10).unwrap();
    tracker.push_note_at("second", 20).unwrap();
    tracker.amend("changed").unwrap();
    let active = tracker.active().unwrap().unwrap();
    assert_eq!("first", active.notes[0].description);
    assert_eq!("changed", active.notes[1].description);
    assert_eq!(20, active.notes[1].time);
}
