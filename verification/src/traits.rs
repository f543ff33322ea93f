//! `TaskInput` / `TaskOutput`: the traits every payload that flows through
//! a pattern implements.
use vstd::prelude::*;

use crate::error::Error;

verus! {

/// Activity inputs handled by the patterns. The default `validate`
/// accepts; override it to enforce payload-level invariants. Patterns
/// call it at the entry point and report failures as
/// [`Error::InvalidInput`].
pub trait TaskInput {
    /// Validate the input. The default accepts every input.
    fn validate(&self) -> (r: Result<(), Error>)
        default_ensures
            r is Ok,
    {
        Ok(())
    }
}

/// Activity outputs handled by the patterns.
pub trait TaskOutput {
    /// `true` if the activity completed its business logic successfully.
    fn is_success(&self) -> bool;

    /// Human-readable error description when `is_success()` is `false`.
    /// The default reports none.
    fn error(&self) -> (r: Option<&str>)
        default_ensures
            r is None,
    {
        None
    }
}

} // verus!
