//! Bulk retrieval of every object under a bucket: key listing, the key
//! cache, round-robin work partitioning, retries with exponential backoff,
//! the per-worker download executor, and shared progress counters; plus
//! the text helpers of the accompanying file tools.
pub mod cache;
pub mod executor;
pub mod lister;
pub mod partition;
pub mod progress;
pub mod results;
pub mod retry;
pub mod text;
