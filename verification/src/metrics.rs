//! Counters of a run.

use vstd::prelude::*;

verus! {

/// One more, around the end of the range.
pub open spec fn next_count(n: u64) -> u64 {
    if n == u64::MAX {
        0
    } else {
        (n + 1) as u64
    }
}

/// Documents that were processed and documents that failed.
#[derive(Clone, Copy, PartialEq, Eq, Structural, Debug)]
pub struct Metrics {
    docs_processed: u64,
    docs_errored: u64,
}

impl Metrics {
    /// Documents that were processed.
    pub closed spec fn processed_count(self) -> u64 {
        self.docs_processed
    }

    /// Documents that failed.
    pub closed spec fn errored_count(self) -> u64 {
        self.docs_errored
    }

    /// Counters at zero.
    pub fn new() -> (m: Self)
        ensures
            m.processed_count() == 0,
            m.errored_count() == 0,
    {
        Metrics { docs_processed: 0, docs_errored: 0 }
    }

    /// Counts a document that was processed, and gives the new count.
    pub fn increment_processed(&mut self) -> (n: u64)
        ensures
            n == next_count(old(self).processed_count()),
            final(self).processed_count() == n,
            final(self).errored_count() == old(self).errored_count(),
    {
        self.docs_processed = self.docs_processed.wrapping_add(1);
        self.docs_processed
    }

    /// Counts a document that failed, and gives the new count.
    pub fn increment_errored(&mut self) -> (n: u64)
        ensures
            n == next_count(old(self).errored_count()),
            final(self).errored_count() == n,
            final(self).processed_count() == old(self).processed_count(),
    {
        self.docs_errored = self.docs_errored.wrapping_add(1);
        self.docs_errored
    }

    /// Documents that were processed.
    pub fn processed(&self) -> (n: u64)
        ensures
            n == self.processed_count(),
    {
        self.docs_processed
    }

    /// Documents that failed.
    pub fn errored(&self) -> (n: u64)
        ensures
            n == self.errored_count(),
    {
        self.docs_errored
    }
}

} // verus!
