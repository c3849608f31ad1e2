//! A bounded collector for a paginated, rate-limited remote listing source,
//! with aggregation of the collected items by label and by boolean flag.
//!
//! The collector is a state machine: it decides, page by page, what to fetch
//! next, deduplicates items against everything seen so far, paces consecutive
//! requests, and terminates once the target count is reached or the source is
//! exhausted. The surrounding program performs the remote calls and the
//! pacing delays, and feeds each page back into the machine.

pub mod align;
pub mod collector;
pub mod item;
pub mod tally;
