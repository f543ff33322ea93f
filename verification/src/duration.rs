//! `Duration` as the library reads it: its length in nanoseconds.
use vstd::prelude::*;

use std::time::Duration;

verus! {

/// `Duration`'s `clone`: `Duration` is `Copy`, so the clone is the same value.
pub assume_specification[ <Duration as Clone>::clone ](d: &Duration) -> (r: Duration)
    ensures
        r == *d,
;

/// The length of `d` in nanoseconds, as `Duration::as_nanos` reports it.
pub uninterp spec fn nanos_in(d: Duration) -> u128;

/// `Duration::as_nanos`: the total number of nanoseconds in `d`.
#[verifier::external_body]
pub(crate) fn duration_nanos(d: &Duration) -> (r: u128)
    ensures
        r == nanos_in(*d),
{
    d.as_nanos()
}

/// `Duration::as_millis`: the number of whole milliseconds in `d`.
#[verifier::external_body]
pub(crate) fn duration_millis(d: &Duration) -> (r: u128)
    ensures
        r == nanos_in(*d) / 1_000_000,
{
    d.as_millis()
}

/// `Duration::ZERO`, which spans no time.
#[verifier::external_body]
pub(crate) fn zero_duration() -> (r: Duration)
    ensures
        nanos_in(r) == 0,
{
    Duration::ZERO
}

} // verus!
