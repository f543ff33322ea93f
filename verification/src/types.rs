//! Input and output payloads of each pattern.
use vstd::prelude::*;

use crate::error::{error_text, fails_with, Error};
use crate::helpers::FailureStrategy;
use crate::strmap::StringMap;
use crate::text::{decimal, push_decimal};
use crate::traits::TaskInput;

verus! {

broadcast use vstd::string::group_string_axioms;

/// The message for task `i` failing its own validation with `e`.
pub open spec fn msg_task_invalid(i: nat, e: Error) -> Seq<char> {
    "task["@ + decimal(i) + "]: "@ + error_text(e)
}

/// The first failing check at or after position `i`, as its message.
pub open spec fn first_task_failure_from(checks: Seq<Result<(), Error>>, i: nat) -> Option<Seq<char>>
    decreases checks.len() - i,
{
    if i >= checks.len() {
        None
    } else {
        match checks[i as int] {
            Err(e) => Some(msg_task_invalid(i, e)),
            Ok(()) => first_task_failure_from(checks, i + 1),
        }
    }
}

/// `r` is what validating a task list reports when task `k`'s own
/// validation returned `checks[k]`.
pub open spec fn task_list_outcome(empty_msg: Seq<char>, checks: Seq<Result<(), Error>>, r: Result<(), Error>) -> bool {
    if checks.len() == 0 {
        fails_with(r, empty_msg)
    } else {
        match first_task_failure_from(checks, 0) {
            Some(m) => fails_with(r, m),
            None => r is Ok,
        }
    }
}

/// `r` is what a loop's template check reports when the template's own
/// validation returned `check`.
pub open spec fn template_outcome(check: Result<(), Error>, r: Result<(), Error>) -> bool {
    match check {
        Ok(()) => r is Ok,
        Err(e) => fails_with(r, "template: "@ + error_text(e)),
    }
}

fn task_failure_message(i: usize, e: &Error) -> (r: String)
    ensures
        r@ == msg_task_invalid(i as nat, *e),
{
    let mut s = "task[".to_string();
    push_decimal(&mut s, i);
    s.append("]: ");
    let text = e.message();
    s.append(text.as_str());
    s
}

/// The first failing per-task check, reported as `task[i]: <error>`.
pub fn first_task_failure(checks: &Vec<Result<(), Error>>) -> (r: Result<(), Error>)
    ensures
        match first_task_failure_from(checks@, 0) {
            Some(m) => fails_with(r, m),
            None => r is Ok,
        },
{
    let mut i: usize = 0;
    while i < checks.len()
        invariant
            i <= checks.len(),
            first_task_failure_from(checks@, 0) == first_task_failure_from(checks@, i as nat),
        decreases checks.len() - i,
    {
        match &checks[i] {
            Err(e) => {
                return Err(Error::InvalidInput(task_failure_message(i, e)));
            },
            Ok(()) => {},
        }
        i += 1;
    }
    Ok(())
}

/// `checks` holds what each task's own `validate()` returned, in task
/// order, up to and including the first failure (later tasks are not asked).
pub open spec fn tasks_asked<I: TaskInput>(tasks: Seq<I>, checks: Seq<Result<(), Error>>) -> bool {
    forall|k: int|
        0 <= k < checks.len() && (forall|j: int| 0 <= j < k ==> checks[j] is Ok) ==> call_ensures(
            I::validate,
            (&tasks[k],),
            #[trigger] checks[k],
        )
}

/// The scan for a failing task check finds none exactly when every check
/// from position `i` on is `Ok`; when it finds one, its message is that of
/// the first failing check.
pub proof fn lemma_first_task_failure_from(checks: Seq<Result<(), Error>>, i: nat)
    ensures
        first_task_failure_from(checks, i) is None <==> forall|k: int| i <= k < checks.len() ==> #[trigger] checks[k] is Ok,
        first_task_failure_from(checks, i) matches Some(m) ==> exists|k: int|
            i <= k < checks.len() && (#[trigger] checks[k] matches Err(e) && m == msg_task_invalid(k as nat, e)) && forall|j: int|
                i <= j < k ==> #[trigger] checks[j] is Ok,
    decreases checks.len() - i,
{
    if i < checks.len() {
        lemma_first_task_failure_from(checks, i + 1);
        if checks[i as int] is Ok {
            if let Some(m) = first_task_failure_from(checks, i) {
                let k = choose|k: int|
                    i + 1 <= k < checks.len() && (#[trigger] checks[k] matches Err(e) && m == msg_task_invalid(k as nat, e))
                        && forall|j: int| i + 1 <= j < k ==> #[trigger] checks[j] is Ok;
                assert forall|j: int| i <= j < k implies #[trigger] checks[j] is Ok by {
                    if j > i {
                        assert(i + 1 <= j < k);
                    }
                }
            }
        }
    }
}

/// Validating a task list succeeds exactly when the list is non-empty and
/// every task's own validation returned `Ok`, each of them asked; it fails
/// with the message of the first task whose validation failed, naming its
/// position, and never passes a failing task, the first one included.
pub proof fn lemma_task_list_verdict<I: TaskInput>(
    tasks: Seq<I>,
    empty_msg: Seq<char>,
    checks: Seq<Result<(), Error>>,
    r: Result<(), Error>,
)
    requires
        checks.len() == tasks.len(),
        task_list_outcome(empty_msg, checks, r),
        tasks_asked(tasks, checks),
    ensures
        r is Ok <==> tasks.len() > 0 && forall|k: int| 0 <= k < checks.len() ==> #[trigger] checks[k] is Ok,
        r is Ok ==> forall|k: int| 0 <= k < tasks.len() ==> call_ensures(I::validate, (&tasks[k],), #[trigger] checks[k]),
        forall|k: int| 0 <= k < checks.len() && (forall|j: int| 0 <= j < k ==> checks[j] is Ok) ==> (#[trigger] checks[k] matches Err(e)
            ==> call_ensures(I::validate, (&tasks[k],), checks[k]) && fails_with(r, msg_task_invalid(k as nat, e))),
{
    lemma_first_task_failure_from(checks, 0);
    if tasks.len() > 0 {
        if let Some(m) = first_task_failure_from(checks, 0) {
            let k0 = choose|k: int|
                0 <= k < checks.len() && (#[trigger] checks[k] matches Err(e) && m == msg_task_invalid(k as nat, e)) && forall|j: int|
                    0 <= j < k ==> #[trigger] checks[j] is Ok;
            assert forall|k: int| 0 <= k < checks.len() && (forall|j: int| 0 <= j < k ==> checks[j] is Ok) implies (#[trigger] checks[k] matches Err(
                e,
            ) ==> call_ensures(I::validate, (&tasks[k],), checks[k]) && fails_with(r, msg_task_invalid(k as nat, e))) by {
                if k < k0 && checks[k] is Err {
                    assert(checks[k] is Ok);
                } else if k > k0 && checks[k] is Err {
                    assert(checks[k0] is Ok);
                }
            }
        }
    }
}

/// Validates a task list: non-empty, and each task's own `validate()`
/// succeeds, asked in order up to the first failure.
fn validate_tasks<I: TaskInput>(tasks: &Vec<I>, empty_msg: &str) -> (r: Result<(), Error>)
    ensures
        exists|checks: Seq<Result<(), Error>>| checks.len() == tasks.len() && #[trigger] task_list_outcome(empty_msg@, checks, r)
            && tasks_asked(tasks@, checks),
        r is Ok ==> tasks.len() > 0 && forall|k: int| 0 <= k < tasks.len() ==> call_ensures(
            I::validate,
            (&#[trigger] tasks@[k],),
            Ok::<(), Error>(()),
        ),
{
    let n = tasks.len();
    if n == 0 {
        let ghost none = Seq::<Result<(), Error>>::empty();
        let r = Err(Error::InvalidInput(empty_msg.to_string()));
        assert(task_list_outcome(empty_msg@, none, r));
        assert(tasks_asked(tasks@, none));
        return r;
    }
    let mut checks: Vec<Result<(), Error>> = Vec::new();
    let mut k: usize = 0;
    let mut stop = false;
    while k < n && !stop
        invariant
            n == tasks.len(),
            k <= n,
            checks.len() == k,
            forall|j: int| 0 <= j < k ==> call_ensures(I::validate, (&tasks@[j],), #[trigger] checks@[j]),
            stop ==> k > 0 && checks@[k - 1] is Err,
        decreases n - k,
    {
        let v = tasks[k].validate();
        let bad = match &v {
            Err(_) => true,
            Ok(()) => false,
        };
        checks.push(v);
        k += 1;
        stop = bad;
    }
    let asked = k;
    while checks.len() < n
        invariant
            n == tasks.len(),
            asked <= checks.len() <= n,
            forall|j: int| 0 <= j < asked ==> call_ensures(I::validate, (&tasks@[j],), #[trigger] checks@[j]),
            stop ==> asked > 0 && checks@[asked - 1] is Err,
            !stop ==> asked == n,
        decreases n - checks.len(),
    {
        checks.push(Ok(()));
    }
    let r = first_task_failure(&checks);
    assert(task_list_outcome(empty_msg@, checks@, r));
    assert(tasks_asked(tasks@, checks@)) by {
        assert forall|x: int| 0 <= x < checks@.len() && (forall|j: int| 0 <= j < x ==> checks@[j] is Ok) implies call_ensures(
            I::validate,
            (&tasks@[x],),
            #[trigger] checks@[x],
        ) by {
            if x >= asked {
                assert(checks@[asked - 1] is Err);
            }
        }
    }
    proof {
        lemma_accepted_tasks_validated(tasks@, empty_msg@, checks@, r);
    }
    r
}

proof fn lemma_accepted_tasks_validated<I: TaskInput>(
    tasks: Seq<I>,
    empty_msg: Seq<char>,
    checks: Seq<Result<(), Error>>,
    r: Result<(), Error>,
)
    requires
        checks.len() == tasks.len(),
        task_list_outcome(empty_msg, checks, r),
        tasks_asked(tasks, checks),
    ensures
        r is Ok ==> tasks.len() > 0 && forall|k: int| 0 <= k < tasks.len() ==> call_ensures(
            I::validate,
            (&#[trigger] tasks[k],),
            Ok::<(), Error>(()),
        ),
{
    if r is Ok {
        lemma_first_task_failure_from(checks, 0);
        assert(first_task_failure_from(checks, 0) is None);
        assert forall|k: int| 0 <= k < tasks.len() implies call_ensures(I::validate, (&#[trigger] tasks[k],), Ok::<(), Error>(())) by {
            assert(forall|j: int| 0 <= j < k ==> checks[j] is Ok);
            assert(call_ensures(I::validate, (&tasks[k],), checks[k]));
            assert(checks[k] is Ok);
            match checks[k] {
                Ok(u) => {
                    assert(u == ());
                },
                Err(_) => {},
            }
        }
    }
}

/// Reports a loop template's own validation result as the loop's.
pub fn template_check(check: Result<(), Error>) -> (r: Result<(), Error>)
    ensures
        template_outcome(check, r),
{
    match check {
        Ok(()) => Ok(()),
        Err(e) => {
            let mut s = "template: ".to_string();
            let text = e.message();
            s.append(text.as_str());
            Err(Error::InvalidInput(s))
        },
    }
}

/// Input to the pipeline (sequential) pattern.
#[derive(Debug, Clone)]
pub struct PipelineInput<I> {
    /// The ordered list of activity inputs. Must be non-empty.
    pub tasks: Vec<I>,
    /// Abort the pipeline on the first failing step.
    pub stop_on_error: bool,
    /// Reserved for future cleanup-on-failure semantics; not acted on.
    pub cleanup: bool,
}

/// Aggregated result of a pipeline run.
#[derive(Debug, Clone)]
pub struct PipelineOutput<O> {
    /// Per-step results in execution order.
    pub results: Vec<O>,
    /// Count of steps whose `is_success()` returned `true`.
    pub total_success: usize,
    /// Count of failing steps.
    pub total_failed: usize,
}

/// Input to the parallel pattern.
#[derive(Debug, Clone)]
pub struct ParallelInput<I> {
    /// Activity inputs, all launched at once.
    pub tasks: Vec<I>,
    /// What to do when a task fails.
    pub failure_strategy: FailureStrategy,
}

/// Aggregated result of a parallel run.
#[derive(Debug, Clone)]
pub struct ParallelOutput<O> {
    /// Per-task results, in task order.
    pub results: Vec<O>,
    /// Count of tasks whose `is_success()` returned `true`.
    pub total_success: usize,
    /// Count of failing tasks.
    pub total_failed: usize,
}

/// Input to the loop pattern: one activity invocation per item.
#[derive(Debug, Clone)]
pub struct LoopInput<I> {
    /// Items to iterate. Must be non-empty.
    pub items: Vec<String>,
    /// Template input, expanded per item by the substitutor.
    pub template: I,
    /// Whether to run iterations in parallel.
    pub parallel: bool,
    /// Failure strategy.
    pub failure_strategy: FailureStrategy,
}

/// Input to the parameterized-loop pattern: one run per combination of
/// parameter values.
#[derive(Debug)]
pub struct ParameterizedLoopInput<I> {
    /// Each key maps to a non-empty list of values.
    pub parameters: StringMap<Vec<String>>,
    /// Template input.
    pub template: I,
    /// Whether to run combinations in parallel.
    pub parallel: bool,
    /// Failure strategy.
    pub failure_strategy: FailureStrategy,
}

/// Aggregated result of a loop or parameterized-loop run.
#[derive(Debug, Clone)]
pub struct LoopOutput<O> {
    /// Per-iteration results in iteration order.
    pub results: Vec<O>,
    /// Successes.
    pub total_success: usize,
    /// Failures.
    pub total_failed: usize,
    /// Number of iterations attempted.
    pub item_count: usize,
}

impl<I: TaskInput> PipelineInput<I> {
    /// Validates that the task list is non-empty and every task's own
    /// `validate()` succeeds.
    pub fn validate(&self) -> (r: Result<(), Error>)
        ensures
            exists|checks: Seq<Result<(), Error>>| checks.len() == self.tasks.len()
                && #[trigger] task_list_outcome("pipeline tasks must be non-empty"@, checks, r) && tasks_asked(self.tasks@, checks),
            r is Ok ==> self.tasks.len() > 0 && forall|k: int| 0 <= k < self.tasks.len() ==> call_ensures(
                I::validate,
                (&#[trigger] self.tasks@[k],),
                Ok::<(), Error>(()),
            ),
    {
        validate_tasks(&self.tasks, "pipeline tasks must be non-empty")
    }
}

impl<I: TaskInput> ParallelInput<I> {
    /// Validates that the task list is non-empty and every task's own
    /// `validate()` succeeds.
    pub fn validate(&self) -> (r: Result<(), Error>)
        ensures
            exists|checks: Seq<Result<(), Error>>| checks.len() == self.tasks.len()
                && #[trigger] task_list_outcome("parallel tasks must be non-empty"@, checks, r) && tasks_asked(self.tasks@, checks),
            r is Ok ==> self.tasks.len() > 0 && forall|k: int| 0 <= k < self.tasks.len() ==> call_ensures(
                I::validate,
                (&#[trigger] self.tasks@[k],),
                Ok::<(), Error>(()),
            ),
    {
        validate_tasks(&self.tasks, "parallel tasks must be non-empty")
    }
}

impl<I: TaskInput> LoopInput<I> {
    /// Validates that there is at least one item and the template's own
    /// `validate()` succeeds.
    pub fn validate(&self) -> (r: Result<(), Error>)
        ensures
            self.items.len() == 0 ==> fails_with(r, "loop items must be non-empty"@),
            self.items.len() > 0 ==> exists|check: Result<(), Error>| call_ensures(I::validate, (&self.template,), check)
                && #[trigger] template_outcome(check, r),
    {
        if self.items.len() == 0 {
            return Err(Error::InvalidInput("loop items must be non-empty".to_string()));
        }
        let check = self.template.validate();
        template_check(check)
    }
}

/// The message for parameter `key` having no values.
pub open spec fn msg_empty_values(key: Seq<char>) -> Seq<char> {
    "parameter '"@ + key + "' value list must be non-empty"@
}

/// The first parameter, in entry order from position `i`, whose value list
/// is empty.
pub open spec fn empty_values_from(pairs: Seq<(String, Vec<String>)>, i: nat) -> Option<Seq<char>>
    decreases pairs.len() - i,
{
    if i >= pairs.len() {
        None
    } else if pairs[i as int].1@.len() == 0 {
        Some(msg_empty_values(pairs[i as int].0@))
    } else {
        empty_values_from(pairs, i + 1)
    }
}

/// The scan for an empty value list finds none exactly when every list from
/// position `i` on has a value; when it finds one, its message names the
/// key of the first such list.
pub proof fn lemma_empty_values_from(pairs: Seq<(String, Vec<String>)>, i: nat)
    ensures
        empty_values_from(pairs, i) is None <==> forall|k: int| i <= k < pairs.len() ==> #[trigger] pairs[k].1@.len() > 0,
        empty_values_from(pairs, i) matches Some(m) ==> exists|k: int|
            i <= k < pairs.len() && #[trigger] pairs[k].1@.len() == 0 && m == msg_empty_values(pairs[k].0@) && forall|j: int|
                i <= j < k ==> #[trigger] pairs[j].1@.len() > 0,
    decreases pairs.len() - i,
{
    if i < pairs.len() {
        lemma_empty_values_from(pairs, i + 1);
        if pairs[i as int].1@.len() > 0 {
            if let Some(m) = empty_values_from(pairs, i) {
                let k = choose|k: int|
                    i + 1 <= k < pairs.len() && #[trigger] pairs[k].1@.len() == 0 && m == msg_empty_values(pairs[k].0@) && forall|j: int|
                        i + 1 <= j < k ==> #[trigger] pairs[j].1@.len() > 0;
                assert forall|j: int| i <= j < k implies #[trigger] pairs[j].1@.len() > 0 by {
                    if j > i {
                        assert(i + 1 <= j < k);
                    }
                }
            }
        }
    }
}

impl<I: TaskInput> ParameterizedLoopInput<I> {
    /// Validates that there is at least one parameter, no parameter has an
    /// empty value list (checked in entry order), and the template's own
    /// `validate()` succeeds.
    pub fn validate(&self) -> (r: Result<(), Error>)
        ensures
            self.parameters.pairs().len() == 0 ==> fails_with(r, "parameterized loop parameters must be non-empty"@),
            self.parameters.pairs().len() > 0 ==> match empty_values_from(self.parameters.pairs(), 0) {
                Some(m) => fails_with(r, m),
                None => exists|check: Result<(), Error>| call_ensures(I::validate, (&self.template,), check)
                    && #[trigger] template_outcome(check, r),
            },
            r is Ok ==> self.parameters.pairs().len() > 0 && forall|k: int| 0 <= k < self.parameters.pairs().len()
                ==> #[trigger] self.parameters.pairs()[k].1@.len() > 0,
    {
        proof {
            lemma_empty_values_from(self.parameters.pairs(), 0);
        }
        let n = self.parameters.len();
        if n == 0 {
            return Err(Error::InvalidInput("parameterized loop parameters must be non-empty".to_string()));
        }
        let mut i: usize = 0;
        while i < n
            invariant
                n == self.parameters.pairs().len(),
                i <= n,
                empty_values_from(self.parameters.pairs(), 0) == empty_values_from(self.parameters.pairs(), i as nat),
            decreases n - i,
        {
            if self.parameters.value_at(i).len() == 0 {
                let mut s = "parameter '".to_string();
                s.append(self.parameters.key_at(i).as_str());
                s.append("' value list must be non-empty");
                return Err(Error::InvalidInput(s));
            }
            i += 1;
        }
        let check = self.template.validate();
        template_check(check)
    }
}

} // verus!
