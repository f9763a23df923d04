//! Query execution: the request and response types, the per-segment
//! task, the bounded executor's decisions, the paginator and the listing
//! of one segment.

pub mod coordinator;
pub mod error;
pub mod executor;
pub mod listing;
pub mod paginator;
pub mod segment_task;
pub mod selector;
pub mod snippet;
pub mod types;
