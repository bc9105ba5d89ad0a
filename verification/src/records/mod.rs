//! Processes that take too large a share of IO, and the peaks of seven days.
//!
//! One sample over the threshold is enough for a record. Samples that follow
//! each other make one episode, so that a process does not leave a record every
//! second. Records go to files by day; files that have not been written to for
//! seven days are deleted.
//!
//! There are three times. The time of a record, in seconds, is what queries and
//! the book's own memory go by. The name of a file is the day in UTC, and says
//! nothing about its age. The time of a file's last change alone tells whether
//! it has expired: no record in it is younger.

pub mod accounts;
pub mod amounts;
pub mod book;
pub mod disk;
pub mod lines;
pub mod minutes;
pub mod query;
pub mod types;

pub use self::amounts::{clamp, clamp_threshold, file_expired, finite};
pub use self::book::{AlertBook, Append, Folder, Saves};
pub use self::lines::{episode_line, minute_line, parse_episode, parse_minute, push_episode, Fields};
pub use self::minutes::merge_minute;
pub use self::types::{Episode, Minute, Offender, ProcSnap};
