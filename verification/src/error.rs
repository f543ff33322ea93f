//! Crate-wide error type.
use vstd::prelude::*;

verus! {

broadcast use vstd::string::group_string_axioms;

/// The boxed error that an activity failure carries, kept so callers can
/// `downcast_ref` the concrete type. Its contents are opaque; the rendered
/// text travels beside it in [`Error::Activity`]'s `detail`.
#[verifier::external_body]
#[derive(Debug)]
pub struct ActivitySource(pub Box<dyn std::error::Error + Send + Sync + 'static>);

/// Errors returned by the workflow patterns.
#[derive(Debug)]
#[non_exhaustive]
pub enum Error {
    /// User-supplied input failed validation.
    InvalidInput(String),
    /// One step reported failure under a fail-fast strategy. `position` is
    /// the 0-based step index (or the DAG node name).
    PatternStopped {
        /// Index or name of the failing step.
        position: String,
        /// Task-reported error message or activity failure text.
        reason: String,
    },
    /// The underlying activity invocation failed at the SDK boundary.
    Activity {
        /// The activity name as it appears in Temporal.
        activity: String,
        /// The `Display` text of `source`, captured when the error was built.
        detail: String,
        /// The original error.
        source: ActivitySource,
    },
}

/// The text `Display` renders for `e`.
pub open spec fn error_text(e: Error) -> Seq<char> {
    match e {
        Error::InvalidInput(m) => "invalid input: "@ + m@,
        Error::PatternStopped { position, reason } => "pattern stopped at step "@ + position@ + ": "@
            + reason@,
        Error::Activity { activity, detail, .. } => "activity '"@ + activity@ + "' failed: "@ + detail@,
    }
}

/// `true` when `e` is `InvalidInput` carrying exactly `msg`.
pub open spec fn is_invalid_input(e: Error, msg: Seq<char>) -> bool {
    e matches Error::InvalidInput(m) && m@ == msg
}

/// `r` is `Err(InvalidInput(msg))`.
pub open spec fn fails_with<T>(r: Result<T, Error>, msg: Seq<char>) -> bool {
    r matches Err(e) && is_invalid_input(e, msg)
}

/// Boxes an error value into an [`ActivitySource`]; `Box::new` with an
/// unsizing coercion. Nothing is claimed of the result.
#[verifier::external_body]
fn box_source<E: std::error::Error + Send + Sync + 'static>(source: E) -> (r: ActivitySource) {
    let boxed = ActivitySource(Box::new(source));
    boxed
}

impl Error {
    /// Builds an [`Error::Activity`] named `name`, capturing the `Display`
    /// text of `source` (what `source.to_string()` returns) and boxing it.
    pub fn activity<E: std::error::Error + Send + Sync + 'static>(name: &str, source: E) -> (r: Self)
        ensures
            r matches Error::Activity { activity, detail, .. } && activity@ == name@
                && vstd::string::to_string_from_display_ensures::<E>(&source, detail),
    {
        let detail = source.to_string();
        let boxed = box_source(source);
        Error::Activity { activity: name.to_string(), detail, source: boxed }
    }

    /// Builds an [`Error::InvalidInput`] from a message.
    pub fn invalid(msg: String) -> (r: Self)
        ensures
            r == Error::InvalidInput(msg),
    {
        Error::InvalidInput(msg)
    }

    /// The rendered error text (what `Display` shows).
    pub fn message(&self) -> (r: String)
        ensures
            r@ == error_text(*self),
    {
        match self {
            Error::InvalidInput(m) => {
                let mut s = "invalid input: ".to_string();
                s.append(m.as_str());
                s
            },
            Error::PatternStopped { position, reason } => {
                let mut s = "pattern stopped at step ".to_string();
                s.append(position.as_str());
                s.append(": ");
                s.append(reason.as_str());
                s
            },
            Error::Activity { activity, detail, .. } => {
                let mut s = "activity '".to_string();
                s.append(activity.as_str());
                s.append("' failed: ");
                s.append(detail.as_str());
                s
            },
        }
    }
}

} // verus!
