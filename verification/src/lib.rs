//! Watches an append-only line stream for notable events, extracts
//! structured attributes from matching lines, persists the events keyed
//! by time, and answers time-range queries over what has accumulated.

pub mod codec;
pub mod event;
pub mod ingest;
pub mod patterns;
pub mod query;
pub mod store;
