//! Streaming statistics for a paginated object store.
//!
//! The library consumes object records (key, byte size, modification time)
//! one page at a time, fans every record out to a fixed chain of metric
//! collectors, and reduces them to a bounded textual report. It also
//! translates structured provider fault documents into plain messages.

pub mod bounded;
pub mod fault;
pub mod metrics;
pub mod types;
pub mod util;
