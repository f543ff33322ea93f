//! Handler input/output payloads and the activity input/output payloads.
use vstd::prelude::*;

use std::time::Duration;

use crate::duration::{nanos_in, zero_duration};
use crate::error::{fails_with, Error};
use crate::strmap::{map_of_pairs, StringMap};
use crate::text::{blank, is_blank, is_whitespace, to_chars};
use crate::traits::{TaskInput, TaskOutput};

verus! {

broadcast use vstd::string::group_string_axioms;

/// Default activity name, for workers in other languages that need a
/// shared wire name.
pub const DEFAULT_FUNCTION_ACTIVITY_NAME: &'static str = "ExecuteFunctionActivity";

/// What `{:?}` renders for a string: quoted, with escapes.
pub uninterp spec fn debug_str(s: Seq<char>) -> Seq<char>;

/// The `Debug` rendering of a string (`format!("{:?}", s)`).
#[verifier::external_body]
pub(crate) fn debug_quoted(s: &str) -> (r: String)
    ensures
        r@ == debug_str(s@),
{
    format!("{:?}", s)
}

/// Input passed to a registered handler. All fields are optional.
#[derive(Debug, Clone)]
pub struct FunctionInput {
    /// Named scalar arguments.
    pub args: StringMap<String>,
    /// Bulk binary payload.
    pub data: Vec<u8>,
    /// Environment-variable-style key/values.
    pub env: StringMap<String>,
    /// Working directory hint.
    pub work_dir: String,
}

impl Default for FunctionInput {
    fn default() -> (r: Self)
        ensures
            r.args@ == Map::<Seq<char>, String>::empty(),
            r.data@.len() == 0,
            r.env@ == Map::<Seq<char>, String>::empty(),
            r.work_dir@.len() == 0,
    {
        FunctionInput { args: StringMap::new(), data: Vec::new(), env: StringMap::new(), work_dir: String::new() }
    }
}

impl FunctionInput {
    /// An empty input. Chain `with_*` to populate.
    pub fn new() -> (r: Self)
        ensures
            r.args@ == Map::<Seq<char>, String>::empty(),
            r.data@.len() == 0,
            r.env@ == Map::<Seq<char>, String>::empty(),
            r.work_dir@.len() == 0,
    {
        Self::default()
    }

    /// Replaces `args` with the given pairs (later duplicates win).
    pub fn with_args(self, args: Vec<(String, String)>) -> (r: Self)
        ensures
            r.args@ == map_of_pairs(args@),
            r.data == self.data,
            r.env == self.env,
            r.work_dir == self.work_dir,
    {
        FunctionInput { args: StringMap::from_pairs(args), ..self }
    }

    /// Replaces `data`.
    pub fn with_data(self, data: Vec<u8>) -> (r: Self)
        ensures
            r.data == data,
            r.args == self.args,
            r.env == self.env,
            r.work_dir == self.work_dir,
    {
        FunctionInput { data, ..self }
    }

    /// Replaces `env` with the given pairs (later duplicates win).
    pub fn with_env(self, env: Vec<(String, String)>) -> (r: Self)
        ensures
            r.env@ == map_of_pairs(env@),
            r.args == self.args,
            r.data == self.data,
            r.work_dir == self.work_dir,
    {
        FunctionInput { env: StringMap::from_pairs(env), ..self }
    }

    /// Replaces `work_dir`.
    pub fn with_work_dir(self, work_dir: String) -> (r: Self)
        ensures
            r.work_dir == work_dir,
            r.args == self.args,
            r.data == self.data,
            r.env == self.env,
    {
        FunctionInput { work_dir, ..self }
    }
}

/// Output returned by a registered handler.
#[derive(Debug, Clone)]
pub struct FunctionOutput {
    /// Named scalar results.
    pub result: StringMap<String>,
    /// Bulk binary payload.
    pub data: Vec<u8>,
}

impl Default for FunctionOutput {
    fn default() -> (r: Self)
        ensures
            r.result@ == Map::<Seq<char>, String>::empty(),
            r.data@.len() == 0,
    {
        FunctionOutput { result: StringMap::new(), data: Vec::new() }
    }
}

impl FunctionOutput {
    /// An output holding the given result pairs (later duplicates win) and
    /// no data.
    pub fn with_result(result: Vec<(String, String)>) -> (r: Self)
        ensures
            r.result@ == map_of_pairs(result@),
            r.data@.len() == 0,
    {
        FunctionOutput { result: StringMap::from_pairs(result), data: Vec::new() }
    }
}

/// Activity payload: names the handler to dispatch and carries the fields
/// the handler will see, plus activity-level options.
#[derive(Debug, Clone)]
pub struct FunctionExecutionInput {
    /// Name of the registered handler to invoke.
    pub name: String,
    /// Forwarded as `FunctionInput::args`.
    pub args: StringMap<String>,
    /// Forwarded as `FunctionInput::data`.
    pub data: Vec<u8>,
    /// Forwarded as `FunctionInput::env`.
    pub env: StringMap<String>,
    /// Forwarded as `FunctionInput::work_dir`.
    pub work_dir: String,
    /// Reserved per-invocation timeout hint; not enforced.
    pub timeout: Duration,
    /// Free-form metadata; not consumed by the activity.
    pub labels: StringMap<String>,
}

impl Default for FunctionExecutionInput {
    fn default() -> (r: Self)
        ensures
            r.name@.len() == 0,
            r.args@ == Map::<Seq<char>, String>::empty(),
            r.data@.len() == 0,
            r.env@ == Map::<Seq<char>, String>::empty(),
            r.work_dir@.len() == 0,
            nanos_in(r.timeout) == 0,
            r.labels@ == Map::<Seq<char>, String>::empty(),
    {
        FunctionExecutionInput {
            name: String::new(),
            args: StringMap::new(),
            data: Vec::new(),
            env: StringMap::new(),
            work_dir: String::new(),
            timeout: zero_duration(),
            labels: StringMap::new(),
        }
    }
}

impl FunctionExecutionInput {
    /// An input for handler `name` with every other field empty.
    pub fn new(name: &str) -> (r: Self)
        ensures
            r.name@ == name@,
            r.args@ == Map::<Seq<char>, String>::empty(),
            r.data@.len() == 0,
            r.env@ == Map::<Seq<char>, String>::empty(),
            r.work_dir@.len() == 0,
            nanos_in(r.timeout) == 0,
            r.labels@ == Map::<Seq<char>, String>::empty(),
    {
        FunctionExecutionInput { name: name.to_string(), ..Self::default() }
    }

    /// Replaces `args` with the given pairs (later duplicates win).
    pub fn with_args(self, args: Vec<(String, String)>) -> (r: Self)
        ensures
            r.args@ == map_of_pairs(args@),
            r == (FunctionExecutionInput { args: r.args, ..self }),
    {
        FunctionExecutionInput { args: StringMap::from_pairs(args), ..self }
    }

    /// Replaces `data`.
    pub fn with_data(self, data: Vec<u8>) -> (r: Self)
        ensures
            r == (FunctionExecutionInput { data, ..self }),
    {
        FunctionExecutionInput { data, ..self }
    }

    /// Replaces `env` with the given pairs (later duplicates win).
    pub fn with_env(self, env: Vec<(String, String)>) -> (r: Self)
        ensures
            r.env@ == map_of_pairs(env@),
            r == (FunctionExecutionInput { env: r.env, ..self }),
    {
        FunctionExecutionInput { env: StringMap::from_pairs(env), ..self }
    }

    /// Replaces `work_dir`.
    pub fn with_work_dir(self, work_dir: String) -> (r: Self)
        ensures
            r == (FunctionExecutionInput { work_dir, ..self }),
    {
        FunctionExecutionInput { work_dir, ..self }
    }

    /// Replaces `timeout` (metadata only; the activity does not enforce it).
    pub fn with_timeout(self, timeout: Duration) -> (r: Self)
        ensures
            r == (FunctionExecutionInput { timeout, ..self }),
    {
        FunctionExecutionInput { timeout, ..self }
    }

    /// Replaces `labels` with the given pairs (later duplicates win).
    pub fn with_labels(self, labels: Vec<(String, String)>) -> (r: Self)
        ensures
            r.labels@ == map_of_pairs(labels@),
            r == (FunctionExecutionInput { labels: r.labels, ..self }),
    {
        FunctionExecutionInput { labels: StringMap::from_pairs(labels), ..self }
    }

    /// Projects to the handler's [`FunctionInput`], copying the forwarded fields.
    pub fn to_function_input(&self) -> (r: FunctionInput)
        ensures
            r.args@ == self.args@,
            r.data@ == self.data@,
            r.env@ == self.env@,
            r.work_dir@ == self.work_dir@,
    {
        let args = self.args.clone();
        let env = self.env.clone();
        proof {
            self.args.lemma_clone_same_view(&args);
            self.env.lemma_clone_same_view(&env);
        }
        FunctionInput { args, data: self.data.clone(), env, work_dir: self.work_dir.clone() }
    }

    /// Consumes `self` into the handler's [`FunctionInput`].
    pub fn into_function_input(self) -> (r: FunctionInput)
        ensures
            r.args == self.args,
            r.data == self.data,
            r.env == self.env,
            r.work_dir == self.work_dir,
    {
        FunctionInput { args: self.args, data: self.data, env: self.env, work_dir: self.work_dir }
    }
}

/// ASCII letter.
pub open spec fn is_ascii_alpha(c: char) -> bool {
    ('a' <= c && c <= 'z') || ('A' <= c && c <= 'Z')
}

/// ASCII letter, digit, `_` or `-`.
pub open spec fn is_name_char(c: char) -> bool {
    is_ascii_alpha(c) || ('0' <= c && c <= '9') || c == '_' || c == '-'
}

pub open spec fn msg_name_blank() -> Seq<char> {
    "function name is required"@
}

pub open spec fn msg_name_start(name: Seq<char>) -> Seq<char> {
    "function name "@ + debug_str(name) + " must start with an ASCII letter"@
}

pub open spec fn msg_name_chars(name: Seq<char>) -> Seq<char> {
    "function name "@ + debug_str(name) + " may only contain ASCII letters, digits, '_' or '-'"@
}

pub open spec fn msg_name_long() -> Seq<char> {
    "function name must be <= 255 characters"@
}

/// The problem with a handler name, if any: blank, not starting with an
/// ASCII letter, holding a character other than an ASCII letter, digit,
/// `_` or `-`, or longer than 255 bytes.
pub open spec fn function_name_verdict(name: Seq<char>) -> Option<Seq<char>> {
    if blank(name) {
        Some(msg_name_blank())
    } else if !is_ascii_alpha(name[0]) {
        Some(msg_name_start(name))
    } else if exists|i: int| 1 <= i < name.len() && !is_name_char(#[trigger] name[i]) {
        Some(msg_name_chars(name))
    } else if name.len() > 255 {
        Some(msg_name_long())
    } else {
        None
    }
}

/// `name` matches `^[a-zA-Z][a-zA-Z0-9_-]*$` and has at most 255
/// characters (all ASCII, so at most 255 bytes).
pub open spec fn matches_handler_name(name: Seq<char>) -> bool {
    &&& 0 < name.len() <= 255
    &&& ('a' <= name[0] <= 'z' || 'A' <= name[0] <= 'Z')
    &&& forall|i: int|
        0 <= i < name.len() ==> ('a' <= #[trigger] name[i] <= 'z' || 'A' <= name[i] <= 'Z' || '0' <= name[i] <= '9' || name[i]
            == '_' || name[i] == '-')
}

/// A handler name has no problem exactly when it starts with an ASCII
/// letter, continues with ASCII letters, digits, `_` or `-`, and has at
/// most 255 characters.
pub proof fn lemma_function_name_accepted(name: Seq<char>)
    ensures
        function_name_verdict(name) is None <==> matches_handler_name(name),
{
    if matches_handler_name(name) {
        let c = name[0];
        assert(!is_whitespace(c)) by {
            assert('a' <= c <= 'z' || 'A' <= c <= 'Z');
            assert(('a' as u32) == 97u32 && ('z' as u32) == 122u32 && ('A' as u32) == 65u32 && ('Z' as u32) == 90u32);
        }
        assert(!blank(name));
        assert forall|i: int| 1 <= i < name.len() implies is_name_char(#[trigger] name[i]) by {
            assert(0 <= i < name.len());
        }
    }
    if function_name_verdict(name) is None {
        assert forall|i: int| 0 <= i < name.len() implies ('a' <= #[trigger] name[i] <= 'z' || 'A' <= name[i] <= 'Z' || '0'
            <= name[i] <= '9' || name[i] == '_' || name[i] == '-') by {
            if i >= 1 {
                assert(is_name_char(name[i]));
            }
        }
    }
}

fn build_name_message(prefix: &str, name: &str, suffix: &str) -> (r: String)
    ensures
        r@ == prefix@ + debug_str(name@) + suffix@,
{
    let mut s = prefix.to_string();
    let q = debug_quoted(name);
    s.append(q.as_str());
    s.append(suffix);
    s
}

impl TaskInput for FunctionExecutionInput {
    /// Validates `name` only: not blank, matching `^[a-zA-Z][a-zA-Z0-9_-]*$`,
    /// and at most 255 bytes. The other fields pass through unchecked.
    fn validate(&self) -> (r: Result<(), Error>)
        ensures
            match function_name_verdict(self.name@) {
                Some(m) => fails_with(r, m),
                None => r is Ok,
            },
            r is Ok <==> matches_handler_name(self.name@),
    {
        proof {
            lemma_function_name_accepted(self.name@);
        }
        if is_blank(self.name.as_str()) {
            return Err(Error::InvalidInput("function name is required".to_string()));
        }
        let cs = to_chars(self.name.as_str());
        let n = cs.len();
        assert(n > 0);
        let first = cs[0];
        if !(('a' <= first && first <= 'z') || ('A' <= first && first <= 'Z')) {
            return Err(Error::InvalidInput(
                build_name_message("function name ", self.name.as_str(), " must start with an ASCII letter"),
            ));
        }
        let mut i: usize = 1;
        while i < n
            invariant
                cs@ == self.name@,
                n == cs.len(),
                1 <= i <= n,
                !blank(self.name@),
                is_ascii_alpha(self.name@[0]),
                forall|j: int| 1 <= j < i ==> is_name_char(#[trigger] cs@[j]),
            decreases n - i,
        {
            let c = cs[i];
            if !(('a' <= c && c <= 'z') || ('A' <= c && c <= 'Z') || ('0' <= c && c <= '9') || c == '_' || c == '-') {
                assert(!is_name_char(self.name@[i as int]));
                return Err(Error::InvalidInput(
                    build_name_message(
                        "function name ",
                        self.name.as_str(),
                        " may only contain ASCII letters, digits, '_' or '-'",
                    ),
                ));
            }
            i += 1;
        }
        if n > 255 {
            return Err(Error::InvalidInput("function name must be <= 255 characters".to_string()));
        }
        Ok(())
    }
}


/// Activity output: success or error, the handler's result, and timing.
#[derive(Debug, Clone)]
pub struct FunctionExecutionOutput {
    /// Echo of the dispatched handler name.
    pub name: String,
    /// `true` when the handler completed without erroring.
    pub success: bool,
    /// Handler error message when `success` is false; empty otherwise.
    pub error: String,
    /// Handler `result` map.
    pub result: StringMap<String>,
    /// Handler `data` payload.
    pub data: Vec<u8>,
    /// Wall-clock duration of the handler call (observational only).
    pub duration: Duration,
    /// Wall-clock handler duration in nanoseconds (observational only).
    pub elapsed_nanos: u64,
    /// Unix milliseconds when the handler started (observational only).
    pub started_at_millis: u64,
    /// Unix milliseconds when the handler finished (observational only).
    pub finished_at_millis: u64,
}

impl Default for FunctionExecutionOutput {
    fn default() -> (r: Self)
        ensures
            r.name@.len() == 0,
            !r.success,
            r.error@.len() == 0,
            r.result@ == Map::<Seq<char>, String>::empty(),
            r.data@.len() == 0,
            nanos_in(r.duration) == 0,
            r.elapsed_nanos == 0,
            r.started_at_millis == 0,
            r.finished_at_millis == 0,
    {
        FunctionExecutionOutput {
            name: String::new(),
            success: false,
            error: String::new(),
            result: StringMap::new(),
            data: Vec::new(),
            duration: zero_duration(),
            elapsed_nanos: 0,
            started_at_millis: 0,
            finished_at_millis: 0,
        }
    }
}

impl FunctionExecutionOutput {
    /// A successful output carrying the handler's result and data.
    pub fn success(name: &str, output: FunctionOutput) -> (r: Self)
        ensures
            r.name@ == name@,
            r.success,
            r.error@.len() == 0,
            r.result == output.result,
            r.data == output.data,
            nanos_in(r.duration) == 0,
            r.elapsed_nanos == 0,
            r.started_at_millis == 0,
            r.finished_at_millis == 0,
    {
        FunctionExecutionOutput {
            name: name.to_string(),
            success: true,
            result: output.result,
            data: output.data,
            ..Self::default()
        }
    }

    /// A failed output carrying the error text.
    pub fn failure(name: &str, err: &str) -> (r: Self)
        ensures
            r.name@ == name@,
            !r.success,
            r.error@ == err@,
            r.result@ == Map::<Seq<char>, String>::empty(),
            r.data@.len() == 0,
            nanos_in(r.duration) == 0,
            r.elapsed_nanos == 0,
            r.started_at_millis == 0,
            r.finished_at_millis == 0,
    {
        FunctionExecutionOutput { name: name.to_string(), success: false, error: err.to_string(), ..Self::default() }
    }
}

impl TaskOutput for FunctionExecutionOutput {
    fn is_success(&self) -> (r: bool)
        ensures
            r == self.success,
    {
        self.success
    }

    fn error(&self) -> (r: Option<&str>)
        ensures
            self.error@.len() == 0 ==> r is None,
            self.error@.len() > 0 ==> (r matches Some(s) && s@ == self.error@),
    {
        if self.error.as_str().unicode_len() == 0 {
            None
        } else {
            Some(self.error.as_str())
        }
    }
}

} // verus!
