//! Progress Aggregator: counters shared by all workers of one run.
use vstd::prelude::*;
use std::sync::atomic::{AtomicU64, AtomicUsize, Ordering};
use crate::executor::DownloadOutcome;

verus! {

/// The counters read at one moment.
#[derive(Clone, Copy, Debug, PartialEq, Eq, Structural)]
pub struct ProgressSnapshot {
    pub downloaded: usize,
    pub failed: usize,
    pub bytes: u64,
}

/// Succeeded and failed key counts and bytes transferred, updated by atomic
/// increments only, so that every worker may record concurrently through a
/// shared reference without a lock.  Each run owns its own aggregator.
pub struct ProgressAggregator {
    downloaded: AtomicUsize,
    failed: AtomicUsize,
    bytes: AtomicU64,
}

impl ProgressAggregator {
    /// An aggregator with every counter at zero.
    pub fn new() -> (r: ProgressAggregator) {
        ProgressAggregator {
            downloaded: AtomicUsize::new(0),
            failed: AtomicUsize::new(0),
            bytes: AtomicU64::new(0),
        }
    }

    /// Counts one downloaded key of `bytes_len` bytes.
    pub fn record_success(&self, bytes_len: u64) {
        self.downloaded.fetch_add(1, Ordering::SeqCst);
        self.bytes.fetch_add(bytes_len, Ordering::SeqCst);
    }

    /// Counts one key that could not be downloaded.
    pub fn record_failure(&self) {
        self.failed.fetch_add(1, Ordering::SeqCst);
    }

    /// Counts the outcome of one key.
    pub fn record(&self, outcome: &DownloadOutcome) {
        match outcome {
            DownloadOutcome::Succeeded { bytes_len } => self.record_success(*bytes_len),
            DownloadOutcome::Failed { .. } => self.record_failure(),
        }
    }

    pub fn downloaded_count(&self) -> usize {
        self.downloaded.load(Ordering::SeqCst)
    }

    pub fn failed_count(&self) -> usize {
        self.failed.load(Ordering::SeqCst)
    }

    pub fn downloaded_bytes(&self) -> u64 {
        self.bytes.load(Ordering::SeqCst)
    }

    pub fn snapshot(&self) -> (r: ProgressSnapshot) {
        ProgressSnapshot {
            downloaded: self.downloaded_count(),
            failed: self.failed_count(),
            bytes: self.downloaded_bytes(),
        }
    }
}

} // verus!
