//! A single-user time-tracking library: time boxes made of timestamped
//! notes, a state machine enforcing at most one active time box, and a
//! query layer that filters, sorts and paginates the finished history.

pub mod dates;
pub mod entities;
pub mod error;
pub mod in_memory_tracker;
pub mod query;
mod shims;
pub mod sorting;
pub mod tracking;

pub use dates::Date;
pub use dates::ListFilter;
pub use entities::TimeBox;
pub use entities::TimeBoxNote;
pub use error::Error;
pub use error::StoreValidationError;
pub use tracking::ListOptions;
pub use tracking::ListResult;
pub use tracking::SortOrder;
