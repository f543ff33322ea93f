//! The results of one sync pass and of one mapping.
use vstd::prelude::*;

use std::time::Duration;

use crate::datasync::sink::WriteResult;
use crate::duration::{nanos_in, zero_duration};

verus! {

/// Result of one sync pass.
#[derive(Debug, Clone)]
pub struct SyncResult {
    /// Records returned by the source.
    pub total_fetched: usize,
    /// The sink's counts.
    pub write_result: WriteResult,
    /// Wall-clock time of the pass.
    pub processing_time: Duration,
}

impl Default for SyncResult {
    fn default() -> (r: Self)
        ensures
            r.total_fetched == 0,
            r.write_result == (WriteResult { inserted: 0, updated: 0, skipped: 0 }),
            nanos_in(r.processing_time) == 0,
    {
        SyncResult { total_fetched: 0, write_result: WriteResult::default(), processing_time: zero_duration() }
    }
}

/// Result of a detailed mapping: the mapped records and why the others
/// were skipped.
#[derive(Debug, Clone)]
pub struct MapResult<U> {
    /// Successfully mapped records, in input order.
    pub records: Vec<U>,
    /// Number of records the mapper skipped.
    pub skipped: usize,
    /// One reason per skipped record, in input order.
    pub skip_reasons: Vec<String>,
}

} // verus!
