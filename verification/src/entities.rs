//! The time-box entity: an ordered journal of timestamped notes, with the
//! derived start, stop and duration projections.

use vstd::prelude::*;

use crate::error::Error;

verus! {

/// One entry of the chronological journal: an instant (seconds since the
/// Unix epoch, UTC) together with a free-form description.
#[derive(Debug)]
pub struct TimeBoxNote {
    pub time: i64,
    pub description: String,
}

/// Mathematical model of a note: its instant and its description's characters.
pub struct NoteView {
    pub time: int,
    pub description: Seq<char>,
}

impl View for TimeBoxNote {
    type V = NoteView;

    open spec fn view(&self) -> NoteView {
        NoteView { time: self.time as int, description: self.description@ }
    }
}

impl Clone for TimeBoxNote {
    fn clone(&self) -> (r: Self)
        ensures
            r@ == self@,
    {
        TimeBoxNote { time: self.time, description: self.description.clone() }
    }
}

/// A time box: a linear list of notes. Once constructed by `begin` it holds
/// at least one note, and the notes are in non-decreasing time order; data
/// loaded from outside the process may violate both, which validation
/// detects.
#[derive(Debug)]
pub struct TimeBox {
    pub notes: Vec<TimeBoxNote>,
}

/// The views of a sequence of notes.
pub open spec fn notes_views(s: Seq<TimeBoxNote>) -> Seq<NoteView> {
    s.map(|i: int, n: TimeBoxNote| n@)
}

/// The views of a sequence of boxes.
pub open spec fn boxes_views(s: Seq<TimeBox>) -> Seq<Seq<NoteView>> {
    s.map(|i: int, tb: TimeBox| tb@)
}

impl View for TimeBox {
    type V = Seq<NoteView>;

    open spec fn view(&self) -> Seq<NoteView> {
        notes_views(self.notes@)
    }
}

impl Clone for TimeBox {
    fn clone(&self) -> (r: Self)
        ensures
            r@ == self@,
    {
        let mut notes: Vec<TimeBoxNote> = Vec::new();
        let mut i: usize = 0;
        while i < self.notes.len()
            invariant
                i <= self.notes.len(),
                notes@.len() == i as int,
                forall|j: int| 0 <= j < i as int ==> #[trigger] notes@[j]@ == self@[j],
            decreases self.notes.len() - i,
        {
            notes.push(self.notes[i].clone());
            i = i + 1;
        }
        let r = TimeBox { notes };
        proof {
            assert(r@ =~= self@);
        }
        r
    }
}

/// The notes are in non-decreasing time order.
pub open spec fn notes_sorted(notes: Seq<NoteView>) -> bool {
    forall|i: int, j: int| 0 <= i <= j < notes.len() ==> notes[i].time <= notes[j].time
}

/// Clamps a mathematical integer into the `i64` range.
pub open spec fn clamp_i64(x: int) -> int {
    if x < i64::MIN {
        i64::MIN as int
    } else if x > i64::MAX {
        i64::MAX as int
    } else {
        x
    }
}

/// The seconds on the clock between a start instant and a reading `now`.
pub open spec fn active_delta(now: int, start: int) -> int {
    clamp_i64(now - start)
}

impl TimeBox {
    /// The first note's instant; the derived start of the box.
    pub open spec fn time_start_spec(self) -> int
        recommends
            self@.len() > 0,
    {
        self@[0].time
    }

    /// The last note's instant; the derived stop of the box.
    pub open spec fn time_stop_spec(self) -> int
        recommends
            self@.len() > 0,
    {
        self@.last().time
    }

    /// The instant of the first note, or a missing-note error on a note-less
    /// box (possible only for data loaded from outside the process).
    pub fn time_start(&self) -> (r: Result<i64, Error>)
        ensures
            self@.len() == 0 ==> (r matches Err(Error::TimeBoxIsMissingNote { index }) && index == 0),
            self@.len() > 0 ==> (r matches Ok(t) && t == self.time_start_spec()),
    {
        if self.notes.len() == 0 {
            Err(Error::TimeBoxIsMissingNote { index: 0 })
        } else {
            Ok(self.notes[0].time)
        }
    }

    /// The instant of the last note, or a missing-note error on a note-less box.
    pub fn time_stop(&self) -> (r: Result<i64, Error>)
        ensures
            self@.len() == 0 ==> (r matches Err(Error::TimeBoxIsMissingNote { index }) && index == 0),
            self@.len() > 0 ==> (r matches Ok(t) && t == self.time_stop_spec()),
    {
        if self.notes.len() == 0 {
            Err(Error::TimeBoxIsMissingNote { index: 0 })
        } else {
            Ok(self.notes[self.notes.len() - 1].time)
        }
    }

    /// The span between the first and the last note, in seconds. The
    /// subtraction saturates at the `i64` bounds; instants from calendar
    /// dates never come near them.
    pub fn timedelta_total(&self) -> (r: Result<i64, Error>)
        ensures
            self@.len() == 0 ==> (r matches Err(Error::TimeBoxIsMissingNote { index }) && index == 0),
            self@.len() > 0 ==> (r matches Ok(d) && d == clamp_i64(
                self.time_stop_spec() - self.time_start_spec(),
            )),
    {
        let start: i64 = match self.time_start() {
            Ok(t) => t,
            Err(e) => {
                return Err(e);
            },
        };
        let stop: i64 = match self.time_stop() {
            Ok(t) => t,
            Err(e) => {
                return Err(e);
            },
        };
        Ok(saturating_sub_i64(stop, start))
    }

    /// `timedelta_active_at` with the instant read from the system clock.
    pub fn timedelta_active(&self) -> (r: Result<i64, Error>)
        ensures
            self@.len() == 0 ==> (r matches Err(Error::TimeBoxIsMissingNote { index }) && index == 0),
            self@.len() > 0 ==> (r matches Ok(d) && exists|t: int|
                t >= 0 && #[trigger] active_delta(t, self.time_start_spec()) == d),
    {
        let now = crate::shims::now_utc_seconds();
        let r = self.timedelta_active_at(now);
        proof {
            if self@.len() > 0 {
                assert(active_delta(now as int, self.time_start_spec()) == r->Ok_0);
            }
        }
        r
    }

    /// The span between the first note and the given instant, in seconds,
    /// saturating at the `i64` bounds.
    pub fn timedelta_active_at(&self, now: i64) -> (r: Result<i64, Error>)
        ensures
            self@.len() == 0 ==> (r matches Err(Error::TimeBoxIsMissingNote { index }) && index == 0),
            self@.len() > 0 ==> (r matches Ok(d) && d == clamp_i64(now - self.time_start_spec())),
    {
        let start: i64 = match self.time_start() {
            Ok(t) => t,
            Err(e) => {
                return Err(e);
            },
        };
        Ok(saturating_sub_i64(now, start))
    }
}

/// `a - b`, saturating at the `i64` bounds.
fn saturating_sub_i64(a: i64, b: i64) -> (r: i64)
    ensures
        r == clamp_i64(a - b),
{
    let wide: i128 = a as i128 - b as i128;
    if wide > i64::MAX as i128 {
        i64::MAX
    } else if wide < i64::MIN as i128 {
        i64::MIN
    } else {
        wide as i64
    }
}

} // verus!
