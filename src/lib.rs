//! Per-category time summaries from a log of named, timestamped events.
//!
//! `record` reads and writes one event line, `aggregate` folds events into
//! per-name totals with the end of the last event as the run time, and
//! `rank` orders those totals from largest to smallest.

pub mod aggregate;
pub mod rank;
pub mod record;
pub mod text;

pub use aggregate::{DurationError, EventError, Events};
pub use rank::CategoryTotal;
pub use record::{Event, ParseError};
