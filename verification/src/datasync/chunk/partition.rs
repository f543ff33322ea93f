//! Partitions, per-partition results and the summary of a chunked sync.
use vstd::prelude::*;

verus! {

/// A half-open key range `[start, end)` handled as one unit of work.
#[derive(Debug, Clone, Copy, PartialEq, Eq)]
pub struct Partition<K> {
    /// First key (inclusive).
    pub start: K,
    /// Last key (exclusive).
    pub end: K,
}

impl<K> Partition<K> {
    /// The partition `[start, end)`.
    pub fn new(start: K, end: K) -> (r: Self)
        ensures
            r.start == start,
            r.end == end,
    {
        Partition { start, end }
    }
}

/// What processing one partition reported.
#[derive(Debug, Clone)]
pub struct PartitionResult<K> {
    /// The partition's first key.
    pub start: K,
    /// The partition's end key.
    pub end: K,
    /// Records the source returned.
    pub fetched: usize,
    /// Rows inserted by the sink.
    pub inserted: usize,
    /// Rows updated by the sink.
    pub updated: usize,
    /// Rows skipped by the mapper or the sink.
    pub skipped: usize,
}

/// Summary of one chunked-sync execution. When work is deferred,
/// `partitions` covers only the partitions this execution handled.
#[derive(Debug, Clone)]
pub struct SyncResult<K> {
    /// The job's name.
    pub job_name: String,
    /// Partitions processed.
    pub total_partitions: usize,
    /// Sum of the partitions' `fetched`.
    pub total_fetched: usize,
    /// Sum of the partitions' `inserted`.
    pub total_inserted: usize,
    /// Sum of the partitions' `updated`.
    pub total_updated: usize,
    /// Sum of the partitions' `skipped`.
    pub total_skipped: usize,
    /// Per-partition results, in processing order.
    pub partitions: Vec<PartitionResult<K>>,
    /// `true` when partitions were left for a later execution.
    pub deferred: bool,
}

/// `s` is the summary of an execution that processed nothing.
pub open spec fn is_empty_summary<K>(s: SyncResult<K>, job_name: Seq<char>) -> bool {
    &&& s.job_name@ == job_name
    &&& s.total_partitions == 0
    &&& s.total_fetched == 0
    &&& s.total_inserted == 0
    &&& s.total_updated == 0
    &&& s.total_skipped == 0
    &&& s.partitions@.len() == 0
    &&& !s.deferred
}

impl<K> Default for SyncResult<K> {
    fn default() -> (r: Self)
        ensures
            is_empty_summary(r, Seq::empty()),
    {
        SyncResult {
            job_name: String::new(),
            total_partitions: 0,
            total_fetched: 0,
            total_inserted: 0,
            total_updated: 0,
            total_skipped: 0,
            partitions: Vec::new(),
            deferred: false,
        }
    }
}

} // verus!
