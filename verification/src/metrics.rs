//! Hooks through which the engine says what it is doing.

use crate::gc::GcStats;
use crate::page::PageId;
use vstd::prelude::*;

verus! {

/// Where the engine reports what it is doing. Every hook does nothing unless it is overridden, and
/// nothing that the engine decides depends on one.
pub trait Metrics {
    /// A page was read; `hit` is false where it had to come from a slower tier.
    fn page_read(&self, bytes: usize, hit: bool) {
    }

    /// A page was written to durable storage.
    fn page_write(&self, bytes: usize) {
    }

    /// A transaction committed, and how long making it durable took.
    fn commit(&self, pages: usize, durability_latency_ms: u64) {
    }

    /// A database woke from object storage, and how long its first read took.
    fn wake(&self, latency_ms: u64) {
    }

    /// A collection finished.
    fn gc(&self, stats: GcStats, elapsed_ms: u64) {
    }

    /// A page failed its integrity check.
    fn corruption_detected(&self, page: PageId) {
    }

    /// A corrupt page was repaired from a healthy copy.
    fn corruption_repaired(&self, page: PageId) {
    }
}

/// Measures nothing.
#[derive(Clone, Copy, Debug)]
pub struct NoMetrics;

impl Default for NoMetrics {
    fn default() -> (m: NoMetrics)
        ensures
            m == NoMetrics,
    {
        NoMetrics
    }
}

impl Metrics for NoMetrics {

}

} // verus!
