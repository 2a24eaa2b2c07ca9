//! The tracking state machine: at most one active time box, a history of
//! finished ones, and the operations that move boxes between the two.

use vstd::prelude::*;

use crate::dates::local_date_of;
use crate::dates::Date;
use crate::entities::boxes_views;
use crate::entities::notes_sorted;
use crate::entities::NoteView;
use crate::entities::TimeBox;
use crate::entities::TimeBoxNote;
use crate::error::Error;
use crate::query::filter_boxes_exec;
use crate::query::lemma_filter_boxes_none;
use crate::query::paginate;
use crate::query::paginate_boxes;
use crate::query::query_spec;
use crate::query::sort_dir;
use crate::shims::now_utc_seconds;
use crate::shims::trim_of;
use crate::shims::trim_str;
use crate::sorting::box_key_fn;
use crate::sorting::note_key_fn;
use crate::sorting::sort_asc;
use crate::sorting::sorted_boxes_asc;
use crate::sorting::sorted_boxes_desc;
use crate::sorting::sorted_notes_asc;
use crate::tracking::ListOptions;
use crate::tracking::ListResult;
use crate::tracking::SortOrder;

verus! {

/// A single-user in-memory time tracker: the one active box, if any, and
/// the finished history.
#[derive(Debug)]
pub struct InMemoryTimeTracker {
    pub active: Option<TimeBox>,
    pub finished: Vec<TimeBox>,
}

/// Mathematical model of a tracker: the active box's notes, if any, and
/// each finished box's notes.
pub struct TrackerView {
    pub active: Option<Seq<NoteView>>,
    pub finished: Seq<Seq<NoteView>>,
}

impl View for InMemoryTimeTracker {
    type V = TrackerView;

    open spec fn view(&self) -> TrackerView {
        TrackerView {
            active: match self.active {
                Some(tb) => Some(tb@),
                None => None,
            },
            finished: boxes_views(self.finished@),
        }
    }
}

impl Default for InMemoryTimeTracker {
    /// A fresh store: nothing active, nothing finished.
    fn default() -> (r: Self)
        ensures
            r@.active is None,
            r@.finished.len() == 0,
    {
        InMemoryTimeTracker { active: None, finished: Vec::new() }
    }
}

impl InMemoryTimeTracker {
    /// A copy of the active time box, if there is one.
    pub fn active(&self) -> (r: Result<Option<TimeBox>, Error>)
        ensures
            self@.active is None ==> (r matches Ok(o) && o is None),
            self@.active matches Some(notes) ==> (r matches Ok(o) && o matches Some(tb) && tb@
                == notes),
    {
        match &self.active {
            Some(tb) => Ok(Some(tb.clone())),
            None => Ok(None),
        }
    }

    /// Opens a new active box holding one note taken at `now`. Fails, and
    /// changes nothing, when a box is already active.
    pub fn begin_at(&mut self, description: &str, now: i64) -> (r: Result<TimeBox, Error>)
        ensures
            old(self)@.active is Some ==> (r matches Err(Error::ActiveTimeBoxExistsAlready)
                && final(self)@ == old(self)@),
            old(self)@.active is None ==> {
                &&& r matches Ok(tb) && tb@ == seq![
                    (NoteView { time: now as int, description: description@ }),
                ]
                &&& final(self)@.active == Some(
                    seq![(NoteView { time: now as int, description: description@ })],
                )
                &&& final(self)@.finished == old(self)@.finished
            },
    {
        match &self.active {
            Some(_) => Err(Error::ActiveTimeBoxExistsAlready),
            None => {
                let mut notes: Vec<TimeBoxNote> = Vec::new();
                notes.push(TimeBoxNote { time: now, description: description.to_string() });
                let task = TimeBox { notes };
                let copy = task.clone();
                self.active = Some(task);
                proof {
                    assert(copy@ =~= seq![
                        (NoteView { time: now as int, description: description@ }),
                    ]);
                }
                Ok(copy)
            },
        }
    }

    /// `begin_at` with the instant read from the system clock.
    pub fn begin(&mut self, description: &str) -> (r: Result<TimeBox, Error>)
        ensures
            old(self)@.active is Some ==> (r matches Err(Error::ActiveTimeBoxExistsAlready)
                && final(self)@ == old(self)@),
            old(self)@.active is None ==> (r matches Ok(tb) && tb@.len() == 1
                && tb@[0].description == description@ && tb@[0].time >= 0 && final(self)@.active
                == Some(tb@) && final(self)@.finished == old(self)@.finished),
    {
        let now = now_utc_seconds();
        self.begin_at(description, now)
    }

    /// Appends a note taken at `now` to the active box. Fails, and changes
    /// nothing, when no box is active.
    pub fn push_note_at(&mut self, description: &str, now: i64) -> (r: Result<TimeBox, Error>)
        ensures
            old(self)@.active is None ==> (r matches Err(Error::NoActiveTimeBox) && final(self)@
                == old(self)@),
            old(self)@.active matches Some(notes) ==> {
                &&& r matches Ok(tb) && tb@ == notes.push(
                    (NoteView { time: now as int, description: description@ }),
                )
                &&& final(self)@.active == Some(
                    notes.push((NoteView { time: now as int, description: description@ })),
                )
                &&& final(self)@.finished == old(self)@.finished
            },
    {
        match &mut self.active {
            None => Err(Error::NoActiveTimeBox),
            Some(t) => {
                t.notes.push(TimeBoxNote { time: now, description: description.to_string() });
                let copy = t.clone();
                proof {
                    assert(t@ =~= old(self)@.active->Some_0.push(
                        (NoteView { time: now as int, description: description@ }),
                    ));
                }
                Ok(copy)
            },
        }
    }

    /// `push_note_at` with the instant read from the system clock.
    pub fn push_note(&mut self, description: &str) -> (r: Result<TimeBox, Error>)
        ensures
            old(self)@.active is None ==> (r matches Err(Error::NoActiveTimeBox) && final(self)@
                == old(self)@),
            old(self)@.active matches Some(notes) ==> (r matches Ok(tb) && tb@.len()
                == notes.len() + 1 && tb@.drop_last() == notes && tb@.last().description
                == description@ && tb@.last().time >= 0 && final(self)@.active == Some(tb@)
                && final(self)@.finished == old(self)@.finished),
    {
        let now = now_utc_seconds();
        let r = self.push_note_at(description, now);
        proof {
            if old(self)@.active is Some {
                let notes = old(self)@.active->Some_0;
                let appended = notes.push(
                    (NoteView { time: now as int, description: description@ }),
                );
                assert(appended.drop_last() =~= notes);
            }
        }
        r
    }

    /// Rewrites the last note's description, trimmed of surrounding
    /// whitespace. Fails, and changes nothing, when no box is active, or
    /// when the active box has no note (possible only for loaded data).
    pub fn amend(&mut self, description: &str) -> (r: Result<TimeBox, Error>)
        ensures
            old(self)@.active is None ==> (r matches Err(Error::NoActiveTimeBox) && final(self)@
                == old(self)@),
            old(self)@.active matches Some(notes) ==> {
                &&& notes.len() == 0 ==> (r matches Err(Error::ActiveTimeBoxIsMissingNote)
                    && final(self)@ == old(self)@)
                &&& notes.len() > 0 ==> {
                    &&& r matches Ok(tb) && tb@ == notes.update(
                        notes.len() - 1,
                        (NoteView {
                            time: notes.last().time,
                            description: trim_of(description@),
                        }),
                    )
                    &&& final(self)@.active == Some(
                        notes.update(
                            notes.len() - 1,
                            (NoteView {
                                time: notes.last().time,
                                description: trim_of(description@),
                            }),
                        ),
                    )
                    &&& final(self)@.finished == old(self)@.finished
                }
            },
    {
        let tb = match &mut self.active {
            Some(tb) => tb,
            None => {
                return Err(Error::NoActiveTimeBox);
            },
        };
        if tb.notes.len() == 0 {
            return Err(Error::ActiveTimeBoxIsMissingNote);
        }
        let last = tb.notes.len() - 1;
        let time = tb.notes[last].time;
        let trimmed = trim_str(description);
        tb.notes.set(last, TimeBoxNote { time, description: trimmed });
        let copy = tb.clone();
        proof {
            let notes = old(self)@.active->Some_0;
            assert(tb@ =~= notes.update(
                notes.len() - 1,
                (NoteView { time: notes.last().time, description: trim_of(description@) }),
            ));
        }
        Ok(copy)
    }

    /// Moves the active box to the end of the finished history. Fails, and
    /// changes nothing, when no box is active.
    pub fn end(&mut self) -> (r: Result<TimeBox, Error>)
        ensures
            old(self)@.active is None ==> (r matches Err(Error::NoActiveTimeBox) && final(self)@
                == old(self)@),
            old(self)@.active matches Some(notes) ==> {
                &&& r matches Ok(tb) && tb@ == notes
                &&& final(self)@.active is None
                &&& final(self)@.finished == old(self)@.finished.push(notes)
            },
    {
        let tb = match self.active.take() {
            Some(t) => t,
            None => {
                return Err(Error::NoActiveTimeBox);
            },
        };
        let copy = tb.clone();
        self.finished.push(tb);
        proof {
            assert(boxes_views(self.finished@) =~= old(self)@.finished.push(copy@));
        }
        Ok(copy)
    }

    /// Makes the most recently finished box active again, unchanged. Fails,
    /// and changes nothing, when a box is active or nothing is finished.
    pub fn resume(&mut self) -> (r: Result<TimeBox, Error>)
        ensures
            old(self)@.active is Some ==> (r matches Err(Error::ActiveTimeBoxExistsAlready)
                && final(self)@ == old(self)@),
            old(self)@.active is None && old(self)@.finished.len() == 0 ==> (r matches Err(
                Error::NoTimeBox,
            ) && final(self)@ == old(self)@),
            old(self)@.active is None && old(self)@.finished.len() > 0 ==> {
                &&& r matches Ok(tb) && tb@ == old(self)@.finished.last()
                &&& final(self)@.active == Some(old(self)@.finished.last())
                &&& final(self)@.finished == old(self)@.finished.drop_last()
            },
    {
        if self.active.is_some() {
            return Err(Error::ActiveTimeBoxExistsAlready);
        }
        let tb = match self.finished.pop() {
            Some(tb) => tb,
            None => {
                return Err(Error::NoTimeBox);
            },
        };
        let copy = tb.clone();
        self.active = Some(tb);
        proof {
            assert(boxes_views(self.finished@) =~= old(self)@.finished.drop_last());
        }
        Ok(copy)
    }

    /// Discards the active box. Fails, and changes nothing, when no box is
    /// active.
    pub fn cancel(&mut self) -> (r: Result<TimeBox, Error>)
        ensures
            old(self)@.active is None ==> (r matches Err(Error::NoActiveTimeBox) && final(self)@
                == old(self)@),
            old(self)@.active matches Some(notes) ==> {
                &&& r matches Ok(tb) && tb@ == notes
                &&& final(self)@.active is None
                &&& final(self)@.finished == old(self)@.finished
            },
    {
        match self.active.take() {
            Some(tb) => Ok(tb),
            None => Err(Error::NoActiveTimeBox),
        }
    }

    /// Removes all finished boxes and reports how many went. Refused — zero
    /// removed, nothing changed — while a box is active: that box should be
    /// finished or cancelled first.
    pub fn clear(&mut self) -> (r: Result<usize, Error>)
        ensures
            old(self)@.active is Some ==> (r matches Ok(n) && n == 0 && final(self)@ == old(
                self,
            )@),
            old(self)@.active is None ==> {
                &&& r matches Ok(n) && n == old(self)@.finished.len()
                &&& final(self)@.active is None
                &&& final(self)@.finished.len() == 0
            },
    {
        if self.active.is_some() {
            return Ok(0);
        }
        let count = self.finished.len();
        self.finished.clear();
        Ok(count)
    }
}

/// What load-time validation can find wrong with a store, at the model
/// level.
pub enum ValidationIssue {
    ActiveMissingNote,
    FinishedMissingNote { index: int },
    UnsortedNote { note: NoteView },
}

/// The model of an optional cursor instant.
pub open spec fn prev_view(p: Option<i64>) -> Option<int> {
    match p {
        Some(t) => Some(t as int),
        None => None,
    }
}

/// Walks the notes against a running cursor: `Ok` carries the cursor after
/// the walk, `Err` the first note whose time falls behind the cursor.
pub open spec fn scan_notes(notes: Seq<NoteView>, prev: Option<int>) -> Result<Option<int>, NoteView>
    decreases notes.len(),
{
    if notes.len() == 0 {
        Ok(prev)
    } else {
        let n = notes[0];
        match prev {
            Some(p) => if p > n.time {
                Err(n)
            } else {
                scan_notes(notes.drop_first(), Some(n.time))
            },
            None => scan_notes(notes.drop_first(), Some(n.time)),
        }
    }
}

/// Walks the finished boxes from index `base`, carrying one cursor across
/// box boundaries, so a box's first note is also checked against the
/// previous box's last note.
pub open spec fn scan_finished(
    boxes: Seq<Seq<NoteView>>,
    base: int,
    prev: Option<int>,
) -> Option<ValidationIssue>
    decreases boxes.len(),
{
    if boxes.len() == 0 {
        None
    } else if boxes[0].len() == 0 {
        Some(ValidationIssue::FinishedMissingNote { index: base })
    } else {
        match scan_notes(boxes[0], prev) {
            Err(n) => Some(ValidationIssue::UnsortedNote { note: n }),
            Ok(p) => scan_finished(boxes.drop_first(), base + 1, p),
        }
    }
}

/// The first violation a validation scan finds, or `None` for a valid
/// store: an active box, if present, must hold at least one note, in
/// non-decreasing time order; every finished box must hold at least one
/// note; and the finished boxes' notes must be non-decreasing under a
/// single cursor that runs across box boundaries.
pub open spec fn validate_spec(v: TrackerView) -> Option<ValidationIssue> {
    match v.active {
        Some(a) => if a.len() == 0 {
            Some(ValidationIssue::ActiveMissingNote)
        } else {
            match scan_notes(a, None) {
                Err(n) => Some(ValidationIssue::UnsortedNote { note: n }),
                Ok(_) => scan_finished(v.finished, 0, None),
            }
        },
        None => scan_finished(v.finished, 0, None),
    }
}

impl InMemoryTimeTracker {
    /// Validates a store as loaded from outside the process, returning the
    /// first violation in scan order: the active box first, then the
    /// finished boxes, each checked for emptiness before its notes.
    pub fn assert_valid(&self) -> (r: Result<(), Error>)
        ensures
            r is Ok <==> validate_spec(self@) is None,
            validate_spec(self@) matches Some(ValidationIssue::ActiveMissingNote) ==> r matches Err(
                Error::ActiveTimeBoxIsMissingNote,
            ),
            validate_spec(self@) matches Some(ValidationIssue::FinishedMissingNote { index }) ==> (
            r matches Err(Error::TimeBoxIsMissingNote { index: i }) && i == index),
            validate_spec(self@) matches Some(ValidationIssue::UnsortedNote { note }) ==> (
            r matches Err(Error::TimeBoxNoteIsNotLinearlySorted(n)) && n@ == note),
    {
        if let Some(tb) = &self.active {
            if tb.notes.len() == 0 {
                return Err(Error::ActiveTimeBoxIsMissingNote);
            }
            let mut prev: Option<i64> = None;
            let mut j: usize = 0;
            proof {
                assert(tb@.skip(0) =~= tb@);
            }
            while j < tb.notes.len()
                invariant
                    j <= tb.notes.len(),
                    self@.active == Some(tb@),
                    tb@.len() > 0,
                    scan_notes(tb@, None) == scan_notes(tb@.skip(j as int), prev_view(prev)),
                decreases tb.notes.len() - j,
            {
                proof {
                    assert(tb@.skip(j as int)[0] == tb@[j as int]);
                    assert(tb@.skip(j as int).drop_first() =~= tb@.skip(j + 1));
                }
                let note = &tb.notes[j];
                match prev {
                    Some(p) => {
                        if p > note.time {
                            return Err(Error::TimeBoxNoteIsNotLinearlySorted(note.clone()));
                        }
                    },
                    None => {},
                }
                prev = Some(note.time);
                j = j + 1;
            }
            proof {
                assert(tb@.skip(tb@.len() as int) =~= Seq::<NoteView>::empty());
            }
        }
        let ghost fv = self@.finished;
        let mut prev2: Option<i64> = None;
        let mut idx: usize = 0;
        proof {
            assert(fv.skip(0) =~= fv);
        }
        while idx < self.finished.len()
            invariant
                idx <= self.finished.len(),
                fv == self@.finished,
                validate_spec(self@) == scan_finished(
                    fv.skip(idx as int),
                    idx as int,
                    prev_view(prev2),
                ),
            decreases self.finished.len() - idx,
        {
            proof {
                assert(fv.skip(idx as int)[0] == fv[idx as int]);
                assert(fv.skip(idx as int).drop_first() =~= fv.skip(idx + 1));
            }
            let tb = &self.finished[idx];
            if tb.notes.len() == 0 {
                return Err(Error::TimeBoxIsMissingNote { index: idx });
            }
            let ghost box_notes = fv[idx as int];
            proof {
                assert(box_notes.skip(0) =~= box_notes);
            }
            let mut j: usize = 0;
            while j < tb.notes.len()
                invariant
                    j <= tb.notes.len(),
                    fv == self@.finished,
                    idx < self.finished.len(),
                    box_notes == fv[idx as int],
                    box_notes == tb@,
                    box_notes.len() > 0,
                    validate_spec(self@) == match scan_notes(
                        box_notes.skip(j as int),
                        prev_view(prev2),
                    ) {
                        Err(n) => Some(ValidationIssue::UnsortedNote { note: n }),
                        Ok(p) => scan_finished(fv.skip(idx + 1), idx + 1, p),
                    },
                decreases tb.notes.len() - j,
            {
                proof {
                    assert(box_notes.skip(j as int)[0] == box_notes[j as int]);
                    assert(box_notes.skip(j as int).drop_first() =~= box_notes.skip(j + 1));
                }
                let note = &tb.notes[j];
                match prev2 {
                    Some(p) => {
                        if p > note.time {
                            return Err(Error::TimeBoxNoteIsNotLinearlySorted(note.clone()));
                        }
                    },
                    None => {},
                }
                prev2 = Some(note.time);
                j = j + 1;
            }
            proof {
                assert(box_notes.skip(box_notes.len() as int) =~= Seq::<NoteView>::empty());
            }
            idx = idx + 1;
        }
        proof {
            assert(fv.skip(fv.len() as int) =~= Seq::<Seq<NoteView>>::empty());
        }
        Ok(())
    }
}

/// The model of store parts as loaded from outside the process.
pub open spec fn parts_view(active: Option<TimeBox>, finished: Seq<TimeBox>) -> TrackerView {
    TrackerView {
        active: match active {
            Some(tb) => Some(tb@),
            None => None,
        },
        finished: boxes_views(finished),
    }
}

/// The active box is present but note-less.
pub open spec fn active_missing(v: TrackerView) -> bool {
    match v.active {
        Some(a) => a.len() == 0,
        None => false,
    }
}

/// Every finished box holds at least one note.
pub open spec fn boxes_nonempty(v: TrackerView) -> bool {
    forall|i: int| 0 <= i < v.finished.len() ==> #[trigger] v.finished[i].len() > 0
}

/// The active notes sorted by instant, where present.
pub open spec fn sorted_active(a: Option<Seq<NoteView>>) -> Option<Seq<NoteView>> {
    match a {
        Some(n) => Some(sort_asc(n, note_key_fn())),
        None => None,
    }
}

/// What repair makes of the finished history: each box's notes sorted by
/// instant, then the boxes sorted ascending by start instant.
pub open spec fn repaired_finished(fv: Seq<Seq<NoteView>>) -> Seq<Seq<NoteView>> {
    sort_asc(fv.map(|i: int, b: Seq<NoteView>| sort_asc(b, note_key_fn())), box_key_fn())
}

impl InMemoryTimeTracker {
    /// Builds a tracker from freshly loaded parts. A note-less box is fatal:
    /// the load fails naming it. Unsorted notes are not: the store is
    /// repaired in memory by sorting each box's notes and the finished
    /// history by start instant; a store that scans clean is kept exactly
    /// as given. `assert_valid` on the given parts tells a caller whether
    /// repair happened.
    pub fn from_loaded_parts(active: Option<TimeBox>, finished: Vec<TimeBox>) -> (r: Result<
        InMemoryTimeTracker,
        Error,
    >)
        ensures
            active_missing(parts_view(active, finished@)) ==> r matches Err(
                Error::ActiveTimeBoxIsMissingNote,
            ),
            !active_missing(parts_view(active, finished@)) && !boxes_nonempty(
                parts_view(active, finished@),
            ) ==> (r matches Err(Error::TimeBoxIsMissingNote { index }) && index < finished@.len()
                && parts_view(active, finished@).finished[index as int].len() == 0 && (forall|
                j: int,
            |
                0 <= j < index ==> #[trigger] parts_view(active, finished@).finished[j].len() > 0)),
            !active_missing(parts_view(active, finished@)) && boxes_nonempty(
                parts_view(active, finished@),
            ) && validate_spec(parts_view(active, finished@)) is None ==> (r matches Ok(t) && t@
                == parts_view(active, finished@)),
            !active_missing(parts_view(active, finished@)) && boxes_nonempty(
                parts_view(active, finished@),
            ) && validate_spec(parts_view(active, finished@)) is Some ==> (r matches Ok(t)
                && t@.active == sorted_active(parts_view(active, finished@).active) && t@.finished
                == repaired_finished(parts_view(active, finished@).finished)),
    {
        if let Some(tb) = &active {
            if tb.notes.len() == 0 {
                return Err(Error::ActiveTimeBoxIsMissingNote);
            }
        }
        let ghost fv = boxes_views(finished@);
        let mut idx: usize = 0;
        while idx < finished.len()
            invariant
                idx <= finished.len(),
                fv == boxes_views(finished@),
                !active_missing(parts_view(active, finished@)),
                forall|j: int| 0 <= j < idx ==> #[trigger] fv[j].len() > 0,
            decreases finished.len() - idx,
        {
            if finished[idx].notes.len() == 0 {
                return Err(Error::TimeBoxIsMissingNote { index: idx });
            }
            idx = idx + 1;
        }
        let t = InMemoryTimeTracker { active, finished };
        match t.assert_valid() {
            Ok(()) => Ok(t),
            Err(_) => {
                let InMemoryTimeTracker { active: act, finished: fin } = t;
                let new_active: Option<TimeBox> = match act {
                    Some(tb) => {
                        let mut tb2 = tb;
                        tb2.sort_notes_by_date();
                        Some(tb2)
                    },
                    None => None,
                };
                let mut repaired: Vec<TimeBox> = Vec::new();
                let mut i: usize = 0;
                while i < fin.len()
                    invariant
                        i <= fin.len(),
                        repaired@.len() == i,
                        forall|j: int| 0 <= j < i ==> #[trigger] repaired@[j]@ == sort_asc(
                            boxes_views(fin@)[j],
                            note_key_fn(),
                        ),
                    decreases fin.len() - i,
                {
                    let tb = &fin[i];
                    let sorted_notes = sorted_notes_asc(&tb.notes);
                    repaired.push(TimeBox { notes: sorted_notes });
                    i = i + 1;
                }
                proof {
                    assert(boxes_views(repaired@) =~= boxes_views(fin@).map(
                        |i: int, b: Seq<NoteView>| sort_asc(b, note_key_fn()),
                    ));
                }
                let sorted = sorted_boxes_asc(&repaired);
                Ok(InMemoryTimeTracker { active: new_active, finished: sorted })
            },
        }
    }

    /// The page of finished boxes the options select, with each box paired
    /// to the given local calendar date of its start (`None` when no date
    /// could be derived). The result is the filtered boxes, sorted by
    /// start instant in the requested order, windowed by `skip` and
    /// `take`; `total` counts all finished boxes regardless.
    pub fn finished_as_of(&self, dates: &Vec<Option<Date>>, options: &ListOptions) -> (r: Result<
        ListResult,
        Error,
    >)
        requires
            dates@.len() == self@.finished.len(),
        ensures
            r matches Ok(lr) && lr.total == self@.finished.len() && boxes_views(lr.items@)
                == query_spec(self@.finished, dates@, *options),
    {
        let filtered = filter_boxes_exec(&self.finished, dates, &options.filter);
        let sorted = match options.order {
            SortOrder::Ascending => sorted_boxes_asc(&filtered),
            SortOrder::Descending => sorted_boxes_desc(&filtered),
        };
        let items = paginate_boxes(&sorted, options.skip, options.take);
        Ok(ListResult { total: self.finished.len(), items })
    }

    /// `finished_as_of` with each box dated by the machine's local time
    /// zone. Without a filter the result is exact; with one, it is the
    /// query pipeline over whatever dates the time zone gave.
    pub fn finished(&self, options: &ListOptions) -> (r: Result<ListResult, Error>)
        ensures
            r matches Ok(lr) && lr.total == self@.finished.len() && (options.filter is None
                ==> boxes_views(lr.items@) == paginate(
                sort_dir(self@.finished, options.order),
                options.skip as int,
                options.take as int,
            )) && (options.filter is Some ==> exists|ds: Seq<Option<Date>>|
                ds.len() == self@.finished.len() && boxes_views(lr.items@) == #[trigger] query_spec(
                    self@.finished,
                    ds,
                    *options,
                )),
    {
        let mut dates: Vec<Option<Date>> = Vec::new();
        let mut i: usize = 0;
        while i < self.finished.len()
            invariant
                i <= self.finished.len(),
                dates@.len() == i,
            decreases self.finished.len() - i,
        {
            let tb = &self.finished[i];
            let d: Option<Date> = if tb.notes.len() > 0 {
                local_date_of(tb.notes[0].time)
            } else {
                None
            };
            dates.push(d);
            i = i + 1;
        }
        let r = self.finished_as_of(&dates, options);
        proof {
            if options.filter is None {
                lemma_filter_boxes_none(self@.finished, dates@);
            }
        }
        r
    }
}

/// The notes a session writes: the note `begin` takes, then each note a
/// `push_note` appends, in call order. By the contracts of `begin_at`,
/// `push_note_at` and `end`, a run of `begin`, any number of `push_note`s
/// and one `end` leaves exactly this sequence as the finished box's notes.
pub open spec fn session_notes(first: NoteView, appended: Seq<NoteView>) -> Seq<NoteView> {
    seq![first] + appended
}

/// Each instant is no earlier than the one taken just before it, as a
/// clock read once per call gives them.
pub open spec fn taken_in_order(notes: Seq<NoteView>) -> bool {
    forall|k: int| 0 <= k < notes.len() - 1 ==> #[trigger] notes[k].time <= notes[k + 1].time
}

/// Adjacent order extends to any two positions.
proof fn lemma_taken_in_order_sorted(notes: Seq<NoteView>, i: int, j: int)
    requires
        taken_in_order(notes),
        0 <= i <= j < notes.len(),
    ensures
        notes[i].time <= notes[j].time,
    decreases j - i,
{
    if i < j {
        lemma_taken_in_order_sorted(notes, i + 1, j);
    }
}

/// A session of `begin`, `push_note`s and `end`, whose instants were taken
/// in nondecreasing order, yields a finished box with one note per call,
/// chronologically sorted, whose start is not after its stop.
pub proof fn lemma_session_box(first: NoteView, appended: Seq<NoteView>)
    requires
        taken_in_order(session_notes(first, appended)),
    ensures
        session_notes(first, appended).len() == 1 + appended.len(),
        notes_sorted(session_notes(first, appended)),
        session_notes(first, appended)[0].time <= session_notes(first, appended).last().time,
{
    let notes = session_notes(first, appended);
    assert forall|i: int, j: int| 0 <= i <= j < notes.len() implies notes[i].time
        <= notes[j].time by {
        lemma_taken_in_order_sorted(notes, i, j);
    }
}

/// `resume` right after `end` restores the tracker exactly: ending an
/// active box and resuming brings back the same active notes and the same
/// finished history. The two intermediate states written here are the
/// ones the contracts of `end` and `resume` give.
pub proof fn lemma_end_resume_round_trip(v: TrackerView)
    requires
        v.active is Some,
    ensures
        ({
            let after_end = TrackerView {
                active: None,
                finished: v.finished.push(v.active->Some_0),
            };
            let after_resume = TrackerView {
                active: Some(after_end.finished.last()),
                finished: after_end.finished.drop_last(),
            };
            after_resume == v
        }),
{
    assert(v.finished.push(v.active->Some_0).drop_last() =~= v.finished);
}

} // verus!
