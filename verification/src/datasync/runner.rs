//! The decisions of one sync pass: fetch, then (unless nothing came back)
//! map and write; which activity name an error is reported under; and the
//! pass's result.
use vstd::prelude::*;

use std::time::Duration;

use crate::datasync::result::SyncResult;
use crate::datasync::sink::WriteResult;

verus! {

broadcast use vstd::string::group_string_axioms;

/// The activity name a failed fetch from source `source` is reported under.
pub open spec fn fetch_activity_name(source: Seq<char>) -> Seq<char> {
    "source "@ + source + ": fetch"@
}

/// The activity name a failed write to sink `sink` is reported under.
pub open spec fn write_activity_name(sink: Seq<char>) -> Seq<char> {
    "sink "@ + sink + ": write"@
}

/// `source {name}: fetch`.
pub fn fetch_activity(source_name: &str) -> (r: String)
    ensures
        r@ == fetch_activity_name(source_name@),
{
    let mut s = "source ".to_string();
    s.append(source_name);
    s.append(": fetch");
    s
}

/// `mapper: map`, the activity name a failed mapping is reported under.
pub fn map_activity() -> (r: String)
    ensures
        r@ == "mapper: map"@,
{
    "mapper: map".to_string()
}

/// `sink {name}: write`.
pub fn write_activity(sink_name: &str) -> (r: String)
    ensures
        r@ == write_activity_name(sink_name@),
{
    let mut s = "sink ".to_string();
    s.append(sink_name);
    s.append(": write");
    s
}

/// Whether a pass that fetched `fetched` records goes on to map and write
/// them: a pass that fetched nothing ends after the fetch.
pub fn pass_continues(fetched: usize) -> (r: bool)
    ensures
        r == (fetched > 0),
{
    fetched > 0
}

/// The result of a pass that fetched `total_fetched` records, with what the
/// sink reported when there was a write (nothing written counts as zeros).
pub fn pass_result(total_fetched: usize, written: Option<WriteResult>, processing_time: Duration) -> (r: SyncResult)
    ensures
        r.total_fetched == total_fetched,
        r.processing_time == processing_time,
        written matches Some(w) ==> r.write_result == w,
        written is None ==> r.write_result == (WriteResult { inserted: 0, updated: 0, skipped: 0 }),
{
    let write_result = match written {
        Some(w) => w,
        None => WriteResult::default(),
    };
    SyncResult { total_fetched, write_result, processing_time }
}

} // verus!
