//! Structured outcomes of the state machine and of load-time validation.

use vstd::prelude::*;

use crate::entities::TimeBoxNote;

verus! {

/// Everything a tracking operation or load-time validation can report.
///
/// The state violations (`ActiveTimeBoxExistsAlready`, `NoActiveTimeBox`,
/// `NoTimeBox`) come from the operations themselves and are always
/// recoverable by the caller. The data-integrity violations come from
/// validating a freshly loaded store: the missing-note ones are fatal for a
/// load, while an unsorted note is repaired in memory.
#[derive(Debug)]
pub enum Error {
    ActiveTimeBoxIsMissingNote,
    TimeBoxIsMissingNote { index: usize },
    /// The time of the carried note comes before the note scanned just
    /// before it. Notes should always be linearly sorted, since they are a
    /// chronological journal.
    TimeBoxNoteIsNotLinearlySorted(TimeBoxNote),
    ActiveTimeBoxExistsAlready,
    NoActiveTimeBox,
    NoTimeBox,
}

impl Error {
    /// A short human-readable name for the error, for message layers to use.
    pub fn describe(&self) -> &'static str {
        match self {
            Error::ActiveTimeBoxIsMissingNote => "active time box is missing a note",
            Error::TimeBoxIsMissingNote { .. } => "time box is missing a note",
            Error::TimeBoxNoteIsNotLinearlySorted(..) => "time box note is not linearly sorted",
            Error::ActiveTimeBoxExistsAlready => "active time box exists already",
            Error::NoActiveTimeBox => "no active time box",
            Error::NoTimeBox => "no time box",
        }
    }
}

/// Validation findings phrased per store part, for callers that want to
/// report which part of a loaded store was rejected.
#[derive(Debug)]
pub enum StoreValidationError {
    TaskPendingMissingNote,
    TaskFinishedMissingNote { index: usize },
    FinishedTaskIsUnsorted { index: usize },
}

} // verus!
