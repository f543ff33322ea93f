//! The decisions of the function-execution activity: which handler runs,
//! what refuses an execution before any handler runs, and the output built
//! from what the handler did.
use vstd::prelude::*;

use std::any::Any;
use std::time::{Duration, SystemTime};

use crate::duration::{duration_millis, duration_nanos, nanos_in};
use crate::error::Error;
use crate::function::payload::{function_name_verdict, lemma_function_name_accepted, matches_handler_name, FunctionExecutionInput, FunctionExecutionOutput, FunctionOutput};
use crate::function::registry::{msg_not_found, Registry};
use crate::strmap::StringMap;
use crate::patterns::string_text;
use crate::traits::TaskInput;

verus! {

broadcast use vstd::string::group_string_axioms;

/// An execution refused before any handler ran: a non-retryable failure
/// of the named type carrying the error text.
#[derive(Debug)]
pub struct ActivityFailure {
    /// `"InvalidFunctionInput"` or `"FunctionNotFound"`.
    pub failure_type: String,
    /// The rendered error.
    pub message: String,
    /// Always `true`: retrying cannot fix either refusal.
    pub non_retryable: bool,
}

/// `f` is a non-retryable failure of type `failure_type` with text `message`.
pub open spec fn refused(f: ActivityFailure, failure_type: Seq<char>, message: Seq<char>) -> bool {
    f.failure_type@ == failure_type && f.message@ == message && f.non_retryable
}

/// The activity that dispatches executions to registered handlers by name.
#[derive(Debug)]
pub struct FunctionActivities<H> {
    /// The handlers.
    pub registry: Registry<H>,
}

impl<H> FunctionActivities<H> {
    /// An activity dispatching through `registry`.
    pub fn new(registry: Registry<H>) -> (r: Self)
        ensures
            r.registry == registry,
    {
        FunctionActivities { registry }
    }

    /// The handler that runs `input` (see [`resolve_handler`]).
    pub fn resolve(&self, input: &FunctionExecutionInput) -> (r: Result<&H, ActivityFailure>)
        ensures
            resolution(&self.registry, input, r),
    {
        resolve_handler(&self.registry, input)
    }
}

/// `r` is what resolving `input` against `registry` gives: an input whose
/// name is invalid is refused as `InvalidFunctionInput`, a name nobody
/// registered as `FunctionNotFound`, both carrying the error's text;
/// otherwise the registered handler.
pub open spec fn resolution<H>(registry: &Registry<H>, input: &FunctionExecutionInput, r: Result<&H, ActivityFailure>) -> bool {
    match function_name_verdict(input.name@) {
        Some(m) => r matches Err(f) && refused(f, "InvalidFunctionInput"@, "invalid input: "@ + m),
        None => if registry@.contains_key(input.name@) {
            r matches Ok(h) && *h == registry@[input.name@]
        } else {
            r matches Err(f) && refused(f, "FunctionNotFound"@, "invalid input: "@ + msg_not_found(input.name@))
        },
    }
}

/// The handler in `registry` that runs `input`, or why the execution is
/// refused before any handler runs.
pub fn resolve_handler<'a, H>(registry: &'a Registry<H>, input: &FunctionExecutionInput) -> (r: Result<&'a H, ActivityFailure>)
    ensures
        resolution(registry, input, r),
        !matches_handler_name(input.name@) ==> (r matches Err(f) && f.failure_type@ == "InvalidFunctionInput"@),
        r is Ok ==> matches_handler_name(input.name@) && registry@.contains_key(input.name@),
{
    proof {
        lemma_function_name_accepted(input.name@);
    }
    match input.validate() {
        Err(e) => {
            return Err(ActivityFailure {
                failure_type: "InvalidFunctionInput".to_string(),
                message: e.message(),
                non_retryable: true,
            });
        },
        Ok(()) => {},
    }
    match registry.get(input.name.as_str()) {
        Ok(h) => Ok(h),
        Err(e) => Err(ActivityFailure { failure_type: "FunctionNotFound".to_string(), message: e.message(), non_retryable: true }),
    }
}

/// A `u128` count as `u64`, saturating at `u64::MAX`.
pub fn saturating_u64(n: u128) -> (r: u64)
    ensures
        n <= u64::MAX ==> r == n,
        n > u64::MAX ==> r == u64::MAX,
{
    if n <= u64::MAX as u128 {
        n as u64
    } else {
        u64::MAX
    }
}

/// `n` nanoseconds as a `u64`, saturating at `u64::MAX`.
pub open spec fn capped_nanos(n: u128) -> u64 {
    if n <= u64::MAX { n as u64 } else { u64::MAX }
}

/// The output of one execution of handler `name`, from what the handler
/// did (its output, or its error or panic text), how long it ran
/// (`duration`, whose nanoseconds, capped at `u64::MAX`, are the elapsed
/// count) and when it started and finished.
pub fn execution_output(
    name: String,
    handled: Result<FunctionOutput, String>,
    duration: Duration,
    started_at_millis: u64,
    finished_at_millis: u64,
) -> (r: FunctionExecutionOutput)
    ensures
        r.name == name,
        r.duration == duration,
        r.elapsed_nanos == capped_nanos(nanos_in(duration)),
        r.started_at_millis == started_at_millis,
        r.finished_at_millis == finished_at_millis,
        match handled {
            Ok(o) => r.success && r.error@.len() == 0 && r.result == o.result && r.data == o.data,
            Err(text) => !r.success && r.error == text && r.result@ == Map::<Seq<char>, String>::empty()
                && r.data@.len() == 0,
        },
{
    let elapsed_nanos = saturating_u64(duration_nanos(&duration));
    match handled {
        Ok(o) => FunctionExecutionOutput {
            name,
            success: true,
            error: String::new(),
            result: o.result,
            data: o.data,
            duration,
            elapsed_nanos,
            started_at_millis,
            finished_at_millis,
        },
        Err(text) => FunctionExecutionOutput {
            name,
            success: false,
            error: text,
            result: StringMap::new(),
            data: Vec::new(),
            duration,
            elapsed_nanos,
            started_at_millis,
            finished_at_millis,
        },
    }
}

/// The text for a handler panic whose payload was the string `text`, or
/// held no string.
pub open spec fn panic_text(text: Option<Seq<char>>) -> Seq<char> {
    match text {
        Some(s) => "handler panicked: "@ + s,
        None => "handler panicked: <non-string payload>"@,
    }
}

/// The text for a handler panic whose payload was `text` as a string, if
/// it was one.
pub fn panic_message(text: Option<&str>) -> (r: String)
    ensures
        r@ == panic_text(
            match text {
                Some(s) => Some(s@),
                None => None,
            },
        ),
{
    match text {
        Some(s) => {
            let mut m = "handler panicked: ".to_string();
            m.append(s);
            m
        },
        None => "handler panicked: <non-string payload>".to_string(),
    }
}

/// The payload a panic unwound with; its contents are opaque.
#[verifier::external_body]
pub struct PanicPayload(pub Box<dyn Any + Send + 'static>);

/// The `&'static str` a panic payload holds, if it holds one.
pub uninterp spec fn str_payload(payload: PanicPayload) -> Option<Seq<char>>;

/// The `String` a panic payload holds, if it holds one.
pub uninterp spec fn string_payload(payload: PanicPayload) -> Option<Seq<char>>;

/// The payload as a `&'static str`, copied into a `String`, if that is
/// what it holds (`downcast_ref::<&'static str>`).
#[verifier::external_body]
fn payload_str(payload: &PanicPayload) -> (r: Option<String>)
    ensures
        string_text(r) == str_payload(*payload),
{
    match payload.0.downcast_ref::<&'static str>() {
        Some(s) => Some(s.to_string()),
        None => None,
    }
}

/// The payload as a `String`, copied, if that is what it holds
/// (`downcast_ref::<String>`).
#[verifier::external_body]
fn payload_string(payload: &PanicPayload) -> (r: Option<String>)
    ensures
        string_text(r) == string_payload(*payload),
{
    payload.0.downcast_ref::<String>().cloned()
}

/// The string a panic payload carries: its `&'static str`, else its
/// `String`, else none.
pub open spec fn payload_text(payload: PanicPayload) -> Option<Seq<char>> {
    match str_payload(payload) {
        Some(s) => Some(s),
        None => string_payload(payload),
    }
}

/// Renders a panic payload: `handler panicked: ` and the payload when it
/// is a string (a `&'static str` first, then a `String`), otherwise
/// `handler panicked: <non-string payload>`.
pub fn render_panic(payload: &PanicPayload) -> (r: String)
    ensures
        r@ == panic_text(payload_text(*payload)),
{
    let found = match payload_str(payload) {
        Some(s) => Some(s),
        None => payload_string(payload),
    };
    match &found {
        Some(s) => panic_message(Some(s.as_str())),
        None => panic_message(None),
    }
}

/// `SystemTime`, whose contents are opaque.
#[verifier::external_type_specification]
#[verifier::external_body]
pub struct ExSystemTime(SystemTime);

/// `SystemTime::now()`. The clock's reading is not described.
#[verifier::external_body]
fn system_now() -> SystemTime {
    SystemTime::now()
}

/// `t.duration_since(UNIX_EPOCH)`, `None` when `t` is before the epoch.
/// The duration is not described.
#[verifier::external_body]
fn since_epoch(t: &SystemTime) -> Option<Duration> {
    t.duration_since(SystemTime::UNIX_EPOCH).ok()
}

/// `u64` milliseconds since the epoch for a clock reading `since` (`None`
/// before the epoch): 0 before the epoch, saturating at `u64::MAX`.
pub open spec fn millis_of(since: Option<Duration>) -> u64 {
    match since {
        None => 0,
        Some(d) => {
            let m = nanos_in(d) / 1_000_000;
            if m <= u64::MAX { m as u64 } else { u64::MAX }
        },
    }
}

/// The current time in Unix milliseconds: 0 if the clock reads before the
/// epoch, `u64::MAX` if it is beyond what `u64` holds.
pub fn unix_millis() -> (r: u64)
    ensures
        exists|since: Option<Duration>| r == millis_of(since),
{
    let now = system_now();
    let since = since_epoch(&now);
    millis_since_epoch(since)
}

/// Unix milliseconds for a clock reading `since` the epoch (`None` before
/// it): 0 before the epoch, the whole milliseconds saturating at `u64::MAX`.
pub fn millis_since_epoch(since: Option<Duration>) -> (r: u64)
    ensures
        r == millis_of(since),
{
    match &since {
        None => 0,
        Some(d) => saturating_u64(duration_millis(d)),
    }
}

} // verus!
