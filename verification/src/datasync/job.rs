//! The checks a sync job's configuration must pass.
use vstd::prelude::*;

use crate::error::{fails_with, Error};
use crate::text::{blank, is_blank};

verus! {

broadcast use vstd::string::group_string_axioms;

/// The first problem with a job configuration, in the order they are
/// checked: a blank name, then a missing source, mapper or sink, then a
/// zero schedule.
pub open spec fn job_verdict(name: Seq<char>, has_source: bool, has_mapper: bool, has_sink: bool, schedule_nanos: u128) -> Option<Seq<char>> {
    if blank(name) {
        Some("job name is required"@)
    } else if !has_source {
        Some("source is required"@)
    } else if !has_mapper {
        Some("mapper is required"@)
    } else if !has_sink {
        Some("sink is required"@)
    } else if schedule_nanos == 0 {
        Some("schedule must be > 0"@)
    } else {
        None
    }
}

/// Checks a job configuration before a job is built from it: the name,
/// the source, mapper and sink if they were given, and the schedule's
/// length in nanoseconds. On success hands back the three parts.
pub fn check_job<S, M, K>(name: &str, source: Option<S>, mapper: Option<M>, sink: Option<K>, schedule_nanos: u128) -> (r: Result<(S, M, K), Error>)
    ensures
        match job_verdict(name@, source is Some, mapper is Some, sink is Some, schedule_nanos) {
            Some(m) => fails_with(r, m),
            None => r == Ok::<(S, M, K), Error>((source->0, mapper->0, sink->0)),
        },
{
    if is_blank(name) {
        return Err(Error::InvalidInput("job name is required".to_string()));
    }
    let source = match source {
        Some(s) => s,
        None => {
            return Err(Error::InvalidInput("source is required".to_string()));
        },
    };
    let mapper = match mapper {
        Some(m) => m,
        None => {
            return Err(Error::InvalidInput("mapper is required".to_string()));
        },
    };
    let sink = match sink {
        Some(k) => k,
        None => {
            return Err(Error::InvalidInput("sink is required".to_string()));
        },
    };
    if schedule_nanos == 0 {
        return Err(Error::InvalidInput("schedule must be > 0".to_string()));
    }
    Ok((source, mapper, sink))
}

} // verus!
