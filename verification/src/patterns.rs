//! The decisions of the execution patterns. The patterns themselves are
//! asynchronous and dispatch activities; what they decide — which result is
//! kept, how successes and failures are counted, when a fail-fast run stops
//! and with which error — is computed here from the activity outcomes.
use vstd::prelude::*;

use crate::dag::{dep_edge, dep_names, node_names, structure_verdict, DAGInput, DAGOutput, NodeResult};
use crate::error::{error_text, Error};
use crate::graph::{acyclic, edges_in_range, flattened, is_layering, lemma_waves_cover_each_node_once};
use crate::strmap::StringMap;
use crate::text::{decimal, decimal_string};
use crate::helpers::{assigns, generate_parameter_combinations, parameter_keys, parameter_table, FailureStrategy};
use crate::traits::{TaskInput, TaskOutput};
use crate::types::{empty_values_from, template_outcome, LoopInput, LoopOutput, ParallelOutput, ParameterizedLoopInput, PipelineOutput};

verus! {

broadcast use vstd::string::group_string_axioms;

/// What one dispatched step produced, reduced to what the patterns read.
#[derive(Debug)]
pub enum StepOutcome<O> {
    /// The activity returned an output; `success` and `error` are what the
    /// output's `is_success()` and `error()` reported.
    Completed { output: O, success: bool, error: Option<String> },
    /// The activity invocation itself failed; `message` is the error text.
    Failed { message: String },
}

/// The text an optional string slice carries.
pub open spec fn slice_text(e: Option<&str>) -> Option<Seq<char>> {
    match e {
        Some(s) => Some(s@),
        None => None,
    }
}

/// The text an optional string carries.
pub open spec fn string_text(e: Option<String>) -> Option<Seq<char>> {
    match e {
        Some(s) => Some(s@),
        None => None,
    }
}

/// `error` is the text `o.error()` reports.
pub open spec fn reports_error<O: TaskOutput>(o: O, error: Option<String>) -> bool {
    exists|e: Option<&str>| #[trigger] call_ensures(O::error, (&o,), e) && slice_text(e) == string_text(error)
}

impl<O: TaskOutput> StepOutcome<O> {
    /// Classifies an activity result by asking the output whether it
    /// succeeded (`is_success()`) and why not (`error()`).
    pub fn from_result(r: Result<O, Error>) -> (res: Self)
        ensures
            r matches Ok(o) ==> (res matches StepOutcome::Completed { output, success, error } && output == o
                && call_ensures(O::is_success, (&o,), success) && reports_error(o, error)),
            r matches Err(e) ==> (res matches StepOutcome::Failed { message } && message@ == error_text(e)),
    {
        match r {
            Ok(out) => {
                let success = out.is_success();
                let reported = out.error();
                let error = match reported {
                    Some(s) => Some(s.to_string()),
                    None => None,
                };
                assert(slice_text(reported) == string_text(error));
                StepOutcome::Completed { output: out, success, error }
            },
            Err(e) => StepOutcome::Failed { message: e.message() },
        }
    }
}

/// The reason a failed output reports: its own error text, or a default.
pub open spec fn failure_reason(error: Option<String>) -> Seq<char> {
    match error {
        Some(e) => e@,
        None => "task reported failure"@,
    }
}

/// Running totals over a sequence of step outcomes.
pub ghost struct Tally<O> {
    /// Outputs kept, in step order.
    pub results: Seq<O>,
    /// Steps whose output reported success.
    pub success: nat,
    /// Steps that failed (unsuccessful output or failed invocation).
    pub failed: nat,
    /// Set when a fail-fast run stopped: the step index and the reason.
    pub stop: Option<(nat, Seq<char>)>,
}

/// Folds outcomes in step order. Every returned output is kept; a failed
/// invocation keeps nothing. Under `fail_fast` the first failure stops the
/// fold and later outcomes are ignored.
pub open spec fn tally<O>(outs: Seq<StepOutcome<O>>, fail_fast: bool) -> Tally<O>
    decreases outs.len(),
{
    if outs.len() == 0 {
        Tally { results: seq![], success: 0, failed: 0, stop: None }
    } else {
        let t = tally(outs.drop_last(), fail_fast);
        let i = (outs.len() - 1) as nat;
        if t.stop is Some {
            t
        } else {
            match outs.last() {
                StepOutcome::Completed { output, success, error } => if success {
                    Tally { results: t.results.push(output), success: t.success + 1, ..t }
                } else if fail_fast {
                    Tally {
                        results: t.results.push(output),
                        failed: t.failed + 1,
                        stop: Some((i, failure_reason(error))),
                        ..t
                    }
                } else {
                    Tally { results: t.results.push(output), failed: t.failed + 1, ..t }
                },
                StepOutcome::Failed { message } => if fail_fast {
                    Tally { failed: t.failed + 1, stop: Some((i, message@)), ..t }
                } else {
                    Tally { failed: t.failed + 1, ..t }
                },
            }
        }
    }
}

/// `err` is the stop a tally reports.
pub open spec fn stopped_with(err: Error, position: Seq<char>, why: Seq<char>) -> bool {
    err matches Error::PatternStopped { position: p, reason } && p@ == position && reason@ == why
}

proof fn lemma_tally_bounds<O>(outs: Seq<StepOutcome<O>>, fail_fast: bool)
    ensures
        tally(outs, fail_fast).results.len() + tally(outs, fail_fast).failed <= outs.len() + tally(outs, fail_fast).failed,
        tally(outs, fail_fast).success + tally(outs, fail_fast).failed <= outs.len(),
        tally(outs, fail_fast).results.len() <= outs.len(),
        tally(outs, fail_fast).stop matches Some((i, _)) ==> i < outs.len(),
    decreases outs.len(),
{
    if outs.len() > 0 {
        lemma_tally_bounds(outs.drop_last(), fail_fast);
    }
}

proof fn lemma_tally_stopped_stays<O>(outs: Seq<StepOutcome<O>>, more: Seq<StepOutcome<O>>, fail_fast: bool)
    requires
        tally(outs, fail_fast).stop is Some,
    ensures
        tally(outs + more, fail_fast) == tally(outs, fail_fast),
    decreases more.len(),
{
    if more.len() > 0 {
        lemma_tally_stopped_stays(outs, more.drop_last(), fail_fast);
        assert((outs + more).drop_last() =~= outs + more.drop_last());
    } else {
        assert(outs + more =~= outs);
    }
}

/// The outcome reports a failure: an unsuccessful output or a failed invocation.
pub open spec fn is_failure<O>(o: StepOutcome<O>) -> bool {
    match o {
        StepOutcome::Completed { success, .. } => !success,
        StepOutcome::Failed { .. } => true,
    }
}

/// The reason a failing outcome gives.
pub open spec fn reason_of<O>(o: StepOutcome<O>) -> Seq<char> {
    match o {
        StepOutcome::Completed { error, .. } => failure_reason(error),
        StepOutcome::Failed { message } => message@,
    }
}

/// Number of outcomes that carry an output.
pub open spec fn completed_count<O>(outs: Seq<StepOutcome<O>>) -> nat
    decreases outs.len(),
{
    if outs.len() == 0 {
        0
    } else {
        completed_count(outs.drop_last()) + if outs.last() is Completed { 1nat } else { 0nat }
    }
}

/// Without fail-fast nothing stops a run: every step counts as a success
/// or a failure, and every returned output is kept.
pub proof fn lemma_tally_continue<O>(outs: Seq<StepOutcome<O>>)
    ensures
        tally(outs, false).stop is None,
        tally(outs, false).success + tally(outs, false).failed == outs.len(),
        tally(outs, false).results.len() == completed_count(outs),
    decreases outs.len(),
{
    if outs.len() > 0 {
        lemma_tally_continue(outs.drop_last());
    }
}

/// The outcome carries an output that reported success.
pub open spec fn succeeded<O>(o: StepOutcome<O>) -> bool {
    o matches StepOutcome::Completed { success, .. } && success
}

/// How many of `outs` carry an output that reported success.
pub open spec fn success_count<O>(outs: Seq<StepOutcome<O>>) -> nat
    decreases outs.len(),
{
    if outs.len() == 0 {
        0
    } else {
        success_count(outs.drop_last()) + if succeeded(outs.last()) { 1nat } else { 0nat }
    }
}

/// The outputs `outs` carry, in order (a failed invocation carries none).
pub open spec fn carried_outputs<O>(outs: Seq<StepOutcome<O>>) -> Seq<O>
    decreases outs.len(),
{
    if outs.len() == 0 {
        seq![]
    } else {
        match outs.last() {
            StepOutcome::Completed { output, .. } => carried_outputs(outs.drop_last()).push(output),
            StepOutcome::Failed { .. } => carried_outputs(outs.drop_last()),
        }
    }
}

/// Whatever the strategy, a run that does not stop counts every step
/// exactly once: the successes are the steps whose output reported
/// success, the failures all the others, and every returned output is
/// kept, in step order.
pub proof fn lemma_tally_counts<O>(outs: Seq<StepOutcome<O>>, fail_fast: bool)
    ensures
        tally(outs, fail_fast).stop is None ==> {
            &&& tally(outs, fail_fast).success == success_count(outs)
            &&& tally(outs, fail_fast).success + tally(outs, fail_fast).failed == outs.len()
            &&& tally(outs, fail_fast).results == carried_outputs(outs)
        },
    decreases outs.len(),
{
    if outs.len() > 0 {
        let pre = outs.drop_last();
        lemma_tally_counts(pre, fail_fast);
        if tally(pre, fail_fast).stop is Some {
            lemma_tally_stopped_stays(pre, seq![outs.last()], fail_fast);
            assert(pre + seq![outs.last()] =~= outs);
        }
    }
}

/// Under fail-fast a run stops exactly at its first failing step, with
/// that step's reason; a run that does not stop had no failure.
pub proof fn lemma_tally_fail_fast_first_failure<O>(outs: Seq<StepOutcome<O>>)
    ensures
        tally(outs, true).stop matches Some((i, why)) ==> i < outs.len() && is_failure(outs[i as int]) && why
            == reason_of(outs[i as int]) && forall|j: int| 0 <= j < i ==> !is_failure(#[trigger] outs[j]),
        tally(outs, true).stop is None ==> forall|j: int| 0 <= j < outs.len() ==> !is_failure(#[trigger] outs[j]),
    decreases outs.len(),
{
    if outs.len() > 0 {
        let pre = outs.drop_last();
        lemma_tally_fail_fast_first_failure(pre);
        assert forall|j: int| 0 <= j < pre.len() implies pre[j] == #[trigger] outs[j] by {}
    }
}

/// Aggregates the outcomes of a run whose steps were all dispatched (the
/// parallel and loop patterns): `Ok((results, successes, failures))`, or the
/// stop of a fail-fast run.
pub fn aggregate_outcomes<O>(outcomes: Vec<StepOutcome<O>>, fail_fast: bool) -> (r: Result<(Vec<O>, usize, usize), Error>)
    ensures
        match tally(outcomes@, fail_fast).stop {
            Some((i, why)) => r matches Err(e) && stopped_with(e, decimal(i), why),
            None => r matches Ok((res, s, f)) && res@ == tally(outcomes@, fail_fast).results
                && s == tally(outcomes@, fail_fast).success && f == tally(outcomes@, fail_fast).failed,
        },
        r matches Ok((res, s, f)) ==> s == success_count(outcomes@) && s + f == outcomes.len() && res@ == carried_outputs(
            outcomes@,
        ),
{
    proof {
        lemma_tally_counts(outcomes@, fail_fast);
    }
    let ghost all = outcomes@;
    let n = outcomes.len();
    let mut rest = outcomes;
    let mut results: Vec<O> = Vec::new();
    let mut total_success: usize = 0;
    let mut total_failed: usize = 0;
    let mut taken: Vec<StepOutcome<O>> = Vec::new();
    // Reverse so outcomes can be popped in step order.
    while rest.len() > 0
        invariant
            all == outcomes@,
            rest@ + taken@.reverse() == all,
        decreases rest.len(),
    {
        let x = rest.pop().unwrap();
        let ghost t0 = taken@;
        taken.push(x);
        assert(taken@.reverse() =~= seq![x] + t0.reverse());
    }
    assert(taken@.reverse() =~= all);
    let mut i: usize = 0;
    while i < n
        invariant
            all == outcomes@,
            n == all.len(),
            i <= n,
            taken@.len() == n - i,
            taken@.reverse() == all.skip(i as int),
            tally(all.take(i as int), fail_fast).stop is None,
            results@ == tally(all.take(i as int), fail_fast).results,
            total_success == tally(all.take(i as int), fail_fast).success,
            total_failed == tally(all.take(i as int), fail_fast).failed,
        decreases n - i,
    {
        let ghost before = taken@;
        let x = taken.pop().unwrap();
        proof {
            assert(before == taken@.push(x));
            assert(before.reverse() =~= seq![x] + taken@.reverse());
            assert(all.skip(i as int) =~= seq![all[i as int]] + all.skip(i + 1));
            assert((seq![x] + taken@.reverse()).skip(1) =~= taken@.reverse());
            assert(all.skip(i as int).skip(1) =~= all.skip(i + 1));
            assert(x == all[i as int]) by {
                assert(all.skip(i as int)[0] == all[i as int]);
            }
            assert(all.take(i + 1).drop_last() =~= all.take(i as int));
            assert(all.take(i + 1).last() == all[i as int]);
            lemma_tally_bounds(all.take(i as int), fail_fast);
        }
        match x {
            StepOutcome::Completed { output, success, error } => {
                if success {
                    total_success += 1;
                    results.push(output);
                } else {
                    total_failed += 1;
                    if fail_fast {
                        let reason = match error {
                            Some(e) => e,
                            None => "task reported failure".to_string(),
                        };
                        proof {
                            assert(tally(all.take(i + 1), fail_fast).stop == Some((i as nat, reason@)));
                            lemma_tally_stopped_stays(all.take(i + 1), all.skip(i + 1), fail_fast);
                            assert(all.take(i + 1) + all.skip(i + 1) =~= all);
                            assert(tally(all, fail_fast).stop == Some((i as nat, reason@)));
                        }
                        let pos = decimal_string(i);
                        let ghost why = reason@;
                        let err = Error::PatternStopped { position: pos, reason };
                        assert(stopped_with(err, decimal(i as nat), why));
                        return Err(err);
                    }
                    results.push(output);
                }
            },
            StepOutcome::Failed { message } => {
                total_failed += 1;
                if fail_fast {
                    proof {
                        assert(tally(all.take(i + 1), fail_fast).stop == Some((i as nat, message@)));
                        lemma_tally_stopped_stays(all.take(i + 1), all.skip(i + 1), fail_fast);
                        assert(all.take(i + 1) + all.skip(i + 1) =~= all);
                        assert(tally(all, fail_fast).stop == Some((i as nat, message@)));
                    }
                    let pos = decimal_string(i);
                    let ghost why = message@;
                    let err = Error::PatternStopped { position: pos, reason: message };
                    assert(stopped_with(err, decimal(i as nat), why));
                    return Err(err);
                }
            },
        }
        i += 1;
    }
    assert(all.take(n as int) =~= all);
    Ok((results, total_success, total_failed))
}

/// Progress of a sequential run (a pipeline, or a loop run one iteration
/// at a time): outcomes are recorded one at a time and the run stops
/// dispatching at the first failure when it stops on errors.
pub struct PipelineProgress<O> {
    stop_on_error: bool,
    results: Vec<O>,
    total_success: usize,
    total_failed: usize,
    steps: usize,
    seen: Ghost<Seq<StepOutcome<O>>>,
}

impl<O> PipelineProgress<O> {
    /// The outcomes recorded so far, in step order.
    pub closed spec fn outcomes(&self) -> Seq<StepOutcome<O>> {
        self.seen@
    }

    /// Whether the pipeline aborts on the first failing step.
    pub closed spec fn stops_on_error(&self) -> bool {
        self.stop_on_error
    }

    /// The fields agree with the tally of the recorded outcomes, and the
    /// run has not stopped.
    pub closed spec fn wf(&self) -> bool {
        let t = tally(self.seen@, self.stop_on_error);
        &&& t.stop is None
        &&& self.results@ == t.results
        &&& self.total_success == t.success
        &&& self.total_failed == t.failed
        &&& self.steps == self.seen@.len()
    }

    /// A pipeline with no step run yet.
    pub fn new(stop_on_error: bool) -> (r: Self)
        ensures
            r.wf(),
            r.outcomes().len() == 0,
            r.stops_on_error() == stop_on_error,
    {
        PipelineProgress {
            stop_on_error,
            results: Vec::new(),
            total_success: 0,
            total_failed: 0,
            steps: 0,
            seen: Ghost(Seq::empty()),
        }
    }

    /// Records the next step's outcome. Returns the error the pipeline
    /// stops with, if this step stops it; after that nothing more may be
    /// recorded.
    pub fn record(&mut self, outcome: StepOutcome<O>) -> (r: Option<Error>)
        requires
            old(self).wf(),
            old(self).outcomes().len() < usize::MAX,
        ensures
            final(self).outcomes() == old(self).outcomes().push(outcome),
            final(self).stops_on_error() == old(self).stops_on_error(),
            match tally(final(self).outcomes(), final(self).stops_on_error()).stop {
                Some((i, why)) => r matches Some(e) && stopped_with(e, decimal(i), why),
                None => r is None && final(self).wf(),
            },
    {
        let ghost prev = self.seen@;
        let ghost all = prev.push(outcome);
        proof {
            assert(all.drop_last() =~= prev);
            lemma_tally_bounds(prev, self.stop_on_error);
        }
        let i = self.steps;
        self.seen = Ghost(all);
        self.steps = self.steps + 1;
        match outcome {
            StepOutcome::Completed { output, success, error } => {
                if success {
                    self.total_success = self.total_success + 1;
                    self.results.push(output);
                    None
                } else {
                    self.total_failed = self.total_failed + 1;
                    if self.stop_on_error {
                        let reason = match error {
                            Some(e) => e,
                            None => "task reported failure".to_string(),
                        };
                        self.results.push(output);
                        Some(Error::PatternStopped { position: decimal_string(i), reason })
                    } else {
                        self.results.push(output);
                        None
                    }
                }
            },
            StepOutcome::Failed { message } => {
                self.total_failed = self.total_failed + 1;
                if self.stop_on_error {
                    Some(Error::PatternStopped { position: decimal_string(i), reason: message })
                } else {
                    None
                }
            },
        }
    }

    /// The output of a sequential loop of `item_count` iterations once
    /// every iteration has run: the kept results and counts.
    pub fn finish_iterations(self, item_count: usize) -> (r: LoopOutput<O>)
        requires
            self.wf(),
        ensures
            r.results@ == tally(self.outcomes(), self.stops_on_error()).results,
            r.total_success == tally(self.outcomes(), self.stops_on_error()).success,
            r.total_failed == tally(self.outcomes(), self.stops_on_error()).failed,
            r.item_count == item_count,
            r.total_success == success_count(self.outcomes()),
            r.total_success + r.total_failed == self.outcomes().len(),
            r.results@ == carried_outputs(self.outcomes()),
    {
        proof {
            lemma_tally_counts(self.seen@, self.stop_on_error);
        }
        LoopOutput { results: self.results, total_success: self.total_success, total_failed: self.total_failed, item_count }
    }

    /// The pipeline's output once every step has run.
    pub fn finish(self) -> (r: PipelineOutput<O>)
        requires
            self.wf(),
        ensures
            r.results@ == tally(self.outcomes(), self.stops_on_error()).results,
            r.total_success == tally(self.outcomes(), self.stops_on_error()).success,
            r.total_failed == tally(self.outcomes(), self.stops_on_error()).failed,
            r.total_success == success_count(self.outcomes()),
            r.total_success + r.total_failed == self.outcomes().len(),
            r.results@ == carried_outputs(self.outcomes()),
    {
        proof {
            lemma_tally_counts(self.seen@, self.stop_on_error);
        }
        PipelineOutput { results: self.results, total_success: self.total_success, total_failed: self.total_failed }
    }
}


/// Running totals of a DAG run over `(node name, outcome)` steps in
/// execution order.
pub ghost struct DagTally<O> {
    /// Outputs of the nodes that succeeded, by name.
    pub results: Map<Seq<char>, O>,
    /// Nodes that succeeded.
    pub success: nat,
    /// Nodes that failed.
    pub failed: nat,
    /// Number of node results recorded (every step up to and including a stop).
    pub recorded: nat,
    /// Set when a fail-fast run stopped: the node name and the reason.
    pub stop: Option<(Seq<char>, Seq<char>)>,
}

/// Folds DAG steps. Under `fail_fast` the first failure stops the fold.
pub open spec fn dag_tally<O>(steps: Seq<(Seq<char>, StepOutcome<O>)>, fail_fast: bool) -> DagTally<O>
    decreases steps.len(),
{
    if steps.len() == 0 {
        DagTally { results: Map::empty(), success: 0, failed: 0, recorded: 0, stop: None }
    } else {
        let t = dag_tally(steps.drop_last(), fail_fast);
        let (name, outcome) = steps.last();
        if t.stop is Some {
            t
        } else {
            match outcome {
                StepOutcome::Completed { output, success, error } => if success {
                    DagTally {
                        results: t.results.insert(name, output),
                        success: t.success + 1,
                        recorded: t.recorded + 1,
                        ..t
                    }
                } else {
                    DagTally {
                        failed: t.failed + 1,
                        recorded: t.recorded + 1,
                        stop: if fail_fast { Some((name, failure_reason(error))) } else { None },
                        ..t
                    }
                },
                StepOutcome::Failed { message } => DagTally {
                    failed: t.failed + 1,
                    recorded: t.recorded + 1,
                    stop: if fail_fast { Some((name, message@)) } else { None },
                    ..t
                },
            }
        }
    }
}

/// Under fail-fast a DAG run stops at its first failing node, with that
/// node's name and reason, after recording every node up to and including
/// it; without fail-fast it never stops.
pub proof fn lemma_dag_tally_stop<O>(steps: Seq<(Seq<char>, StepOutcome<O>)>, fail_fast: bool)
    ensures
        !fail_fast ==> dag_tally(steps, fail_fast).stop is None && dag_tally(steps, fail_fast).recorded == steps.len(),
        dag_tally(steps, fail_fast).stop matches Some((name, why)) ==> exists|i: int|
            0 <= i < steps.len() && is_failure(#[trigger] steps[i].1) && name == steps[i].0 && why == reason_of(steps[i].1)
                && dag_tally(steps, fail_fast).recorded == i + 1 && forall|j: int| 0 <= j < i ==> !is_failure(
                #[trigger] steps[j].1,
            ),
        dag_tally(steps, fail_fast).stop is None ==> dag_tally(steps, fail_fast).recorded == steps.len() && (fail_fast
            ==> forall|j: int| 0 <= j < steps.len() ==> !is_failure(#[trigger] steps[j].1)),
    decreases steps.len(),
{
    if steps.len() > 0 {
        let pre = steps.drop_last();
        lemma_dag_tally_stop(pre, fail_fast);
        assert forall|j: int| 0 <= j < pre.len() implies pre[j] == #[trigger] steps[j] by {}
        let t = dag_tally(pre, fail_fast);
        if t.stop is None && dag_tally(steps, fail_fast).stop is Some {
            let i = steps.len() - 1;
            assert(is_failure(steps[i].1));
        }
    }
}

/// `nr` is the node result recorded for `name` with `outcome`: a copy of
/// the output only when the node succeeded, the error text otherwise.
pub open spec fn node_result_for<O: Clone>(nr: NodeResult<O>, name: Seq<char>, outcome: StepOutcome<O>) -> bool {
    &&& nr.name@ == name
    &&& match outcome {
        StepOutcome::Completed { output, success, error } => {
            &&& nr.success == success
            &&& (success ==> (nr.result matches Some(c) && vstd::pervasive::cloned(output, c)))
            &&& (!success ==> nr.result is None)
            &&& nr.error == (if success { None } else { error })
        },
        StepOutcome::Failed { message } => {
            &&& !nr.success
            &&& nr.result is None
            &&& (nr.error matches Some(m) && m@ == message@)
        },
    }
}

/// A DAG run in progress: waves are handed out in order and each wave's
/// outcomes recorded, until the last wave or a fail-fast stop.
pub struct DagRun<O> {
    names: Vec<String>,
    layers: Vec<Vec<usize>>,
    next: usize,
    fail_fast: bool,
    results: StringMap<O>,
    node_results: Vec<NodeResult<O>>,
    total_success: usize,
    total_failed: usize,
    steps: Ghost<Seq<(Seq<char>, StepOutcome<O>)>>,
}

impl<O: Clone> DagRun<O> {
    /// The node names, by position.
    pub closed spec fn names(&self) -> Seq<Seq<char>> {
        self.names@.map_values(|s: String| s@)
    }

    /// The waves.
    pub closed spec fn waves(&self) -> Seq<Vec<usize>> {
        self.layers@
    }

    /// Index of the next wave to run.
    pub closed spec fn next_wave(&self) -> int {
        self.next as int
    }

    /// Whether the run stops on the first failing node.
    pub closed spec fn is_fail_fast(&self) -> bool {
        self.fail_fast
    }

    /// The `(name, outcome)` steps recorded so far.
    pub closed spec fn steps(&self) -> Seq<(Seq<char>, StepOutcome<O>)> {
        self.steps@
    }

    /// Waves handed out so far, flattened, as names.
    pub closed spec fn scheduled_names(&self) -> Seq<Seq<char>> {
        self.layers@.take(self.next as int).map_values(|l: Vec<usize>| l@).flatten().map_values(
            |i: usize| self.names@[i as int]@,
        )
    }

    /// The fields agree with the tally of the recorded steps and the run
    /// has not stopped; every recorded step belongs to a handed-out wave.
    pub closed spec fn wf(&self) -> bool {
        let t = dag_tally(self.steps@, self.fail_fast);
        &&& t.stop is None
        &&& self.results@ == t.results
        &&& self.total_success == t.success
        &&& self.total_failed == t.failed
        &&& self.node_results@.len() == t.recorded
        &&& t.recorded == self.steps@.len()
        &&& forall|k: int| 0 <= k < self.steps@.len() ==> #[trigger] node_result_for(
            self.node_results@[k],
            self.steps@[k].0,
            self.steps@[k].1,
        )
        &&& self.next <= self.layers@.len()
        &&& self.steps@.map_values(|s: (Seq<char>, StepOutcome<O>)| s.0) == self.scheduled_names()
        &&& forall|l: int, m: int| 0 <= l < self.layers@.len() && 0 <= m < self.layers@[l]@.len()
            ==> #[trigger] self.layers@[l]@[m] < self.names@.len()
        &&& self.steps@.len() <= usize::MAX
    }

    /// Starts a run of `input`, whose structure has been validated.
    pub fn start<I>(input: &DAGInput<I>) -> (r: Self)
        requires
            structure_verdict(input.nodes@) is None,
        ensures
            r.wf(),
            r.names() == node_names(input.nodes@),
            is_layering(dep_edge(input.nodes@), input.nodes.len() as int, r.waves()),
            r.next_wave() == 0,
            r.steps().len() == 0,
            r.is_fail_fast() == input.fail_fast,
    {
        let layers = input.topological_layers();
        let mut names: Vec<String> = Vec::new();
        let mut i: usize = 0;
        while i < input.nodes.len()
            invariant
                i <= input.nodes.len(),
                names@.len() == i,
                forall|k: int| 0 <= k < i ==> #[trigger] names@[k]@ == input.nodes@[k].name@,
            decreases input.nodes.len() - i,
        {
            names.push(input.nodes[i].name.clone());
            i += 1;
        }
        let r = DagRun {
            names,
            layers,
            next: 0,
            fail_fast: input.fail_fast,
            results: StringMap::new(),
            node_results: Vec::new(),
            total_success: 0,
            total_failed: 0,
            steps: Ghost(Seq::empty()),
        };
        proof {
            assert(r.names() =~= node_names(input.nodes@));
            assert(r.layers@.take(0).map_values(|l: Vec<usize>| l@) =~= Seq::<Seq<usize>>::empty());
            assert(r.scheduled_names() =~= Seq::<Seq<char>>::empty());
            assert(r.steps@.map_values(|s: (Seq<char>, StepOutcome<O>)| s.0) =~= Seq::<Seq<char>>::empty());
            assert forall|l: int, m: int| 0 <= l < r.layers@.len() && 0 <= m < r.layers@[l]@.len()
                implies #[trigger] r.layers@[l]@[m] < r.names@.len() by {
                crate::graph::lemma_layering_order(dep_edge(input.nodes@), input.nodes.len() as int, r.layers@, l, m);
            }
        }
        r
    }

    /// The next wave's node positions, or `None` when every wave has run.
    pub fn next_layer(&self) -> (r: Option<Vec<usize>>)
        requires
            self.wf(),
        ensures
            self.next_wave() < self.waves().len() ==> (r matches Some(v) && v@ == self.waves()[self.next_wave()]@),
            self.next_wave() >= self.waves().len() ==> r is None,
    {
        if self.next < self.layers.len() {
            Some(self.layers[self.next].clone())
        } else {
            None
        }
    }

    /// Records the outcomes of the next wave, in wave order. Returns the
    /// error the run stops with, if a node stops it under fail-fast; the
    /// wave's later outcomes are then not recorded.
    pub fn record_layer(&mut self, outcomes: Vec<StepOutcome<O>>) -> (r: Option<Error>)
        requires
            old(self).wf(),
            old(self).next_wave() < old(self).waves().len(),
            outcomes.len() == old(self).waves()[old(self).next_wave()]@.len(),
            old(self).steps().len() + outcomes.len() <= usize::MAX,
        ensures
            final(self).steps() == old(self).steps() + wave_steps(
                old(self).names(),
                old(self).waves()[old(self).next_wave()]@,
                outcomes@,
            ),
            final(self).next_wave() == old(self).next_wave() + 1,
            final(self).names() == old(self).names(),
            final(self).waves() == old(self).waves(),
            final(self).is_fail_fast() == old(self).is_fail_fast(),
            match dag_tally(final(self).steps(), final(self).is_fail_fast()).stop {
                Some((name, why)) => r matches Some(e) && stopped_with(e, name, why),
                None => r is None && final(self).wf(),
            },
    {
        let ghost old_steps = self.steps@;
        let ghost layer = self.layers@[self.next as int]@;
        let ghost all = wave_steps(self.names(), layer, outcomes@);
        let ghost outs = outcomes@;
        let n = outcomes.len();
        let layer_idx = self.next;
        // Reverse so outcomes can be popped in wave order.
        let mut rest = outcomes;
        let mut taken: Vec<StepOutcome<O>> = Vec::new();
        while rest.len() > 0
            invariant
                outs == outcomes@,
                rest@ + taken@.reverse() == outs,
            decreases rest.len(),
        {
            let x = rest.pop().unwrap();
            let ghost t0 = taken@;
            taken.push(x);
            assert(taken@.reverse() =~= seq![x] + t0.reverse());
        }
        assert(taken@.reverse() =~= outs);
        let nl = self.layers.len();
        assert(layer_idx < nl);
        self.next = self.next + 1;
        proof {
            let pre = self.layers@.take(layer_idx as int).map_values(|l: Vec<usize>| l@);
            assert(self.layers@.take(self.next as int).map_values(|l: Vec<usize>| l@) =~= pre.push(layer));
            pre.lemma_flatten_push(layer);
        }
        let mut m: usize = 0;
        while m < n
            invariant
                outs == outcomes@,
                old_steps == old(self).steps@,
                n == outs.len(),
                n == layer.len(),
                m <= n,
                layer == self.layers@[layer_idx as int]@,
                layer_idx < self.layers@.len(),
                layer_idx == old(self).next,
                self.next == layer_idx + 1,
                all == wave_steps(self.names(), layer, outs),
                taken@.len() == n - m,
                taken@.reverse() == outs.skip(m as int),
                self.steps@ == old_steps + all.take(m as int),
                old_steps.len() + n <= usize::MAX,
                self.names@ == old(self).names@,
                self.layers@ == old(self).layers@,
                self.fail_fast == old(self).fail_fast,
                dag_tally(self.steps@, self.fail_fast).stop is None,
                self.results@ == dag_tally(self.steps@, self.fail_fast).results,
                self.total_success == dag_tally(self.steps@, self.fail_fast).success,
                self.total_failed == dag_tally(self.steps@, self.fail_fast).failed,
                self.node_results@.len() == dag_tally(self.steps@, self.fail_fast).recorded,
                dag_tally(self.steps@, self.fail_fast).recorded == self.steps@.len(),
                forall|k: int| 0 <= k < self.steps@.len() ==> #[trigger] node_result_for(
                    self.node_results@[k],
                    self.steps@[k].0,
                    self.steps@[k].1,
                ),
                forall|l: int, q: int| 0 <= l < self.layers@.len() && 0 <= q < self.layers@[l]@.len()
                    ==> #[trigger] self.layers@[l]@[q] < self.names@.len(),
                old_steps.map_values(|s: (Seq<char>, StepOutcome<O>)| s.0) == self.layers@.take(layer_idx as int).map_values(
                    |l: Vec<usize>| l@,
                ).flatten().map_values(|i: usize| self.names@[i as int]@),
            decreases n - m,
        {
            let ghost before = taken@;
            let x = taken.pop().unwrap();
            let idx = self.layers[layer_idx][m];
            let name = self.names[idx].clone();
            let ghost cur = self.steps@;
            proof {
                assert(before == taken@.push(x));
                assert(before.reverse() =~= seq![x] + taken@.reverse());
                assert(outs.skip(m as int) =~= seq![outs[m as int]] + outs.skip(m + 1));
                assert((seq![x] + taken@.reverse()).skip(1) =~= taken@.reverse());
                assert(outs.skip(m as int).skip(1) =~= outs.skip(m + 1));
                assert(x == outs[m as int]) by {
                    assert(outs.skip(m as int)[0] == outs[m as int]);
                }
                assert(all[m as int] == (name@, x));
                assert(all.take(m + 1) =~= all.take(m as int).push(all[m as int]));
                assert(old_steps + all.take(m + 1) =~= cur.push((name@, x)));
                assert(cur.push((name@, x)).drop_last() =~= cur);
            }
            proof {
                lemma_dag_tally_bounds(cur, self.fail_fast);
            }
            self.steps = Ghost(cur.push((name@, x)));
            match x {
                StepOutcome::Completed { output, success, error } => {
                    if success {
                        let copy = output.clone();
                        self.total_success = self.total_success + 1;
                        self.results.insert(name.clone(), output);
                        self.node_results.push(NodeResult { name, result: Some(copy), error: None, success: true });
                    } else {
                        self.total_failed = self.total_failed + 1;
                        let (kept, reason) = match error {
                            Some(e) => (Some(e.clone()), e),
                            None => (None, "task reported failure".to_string()),
                        };
                        self.node_results.push(NodeResult { name: name.clone(), result: None, error: kept, success: false });
                        if self.fail_fast {
                            proof {
                                lemma_dag_tally_stopped_stays(self.steps@, all.skip(m + 1), self.fail_fast);
                                assert(self.steps@ + all.skip(m + 1) =~= old_steps + all);
                            }
                            self.steps = Ghost(old_steps + all);
                            return Some(Error::PatternStopped { position: name, reason });
                        }
                    }
                },
                StepOutcome::Failed { message } => {
                    self.total_failed = self.total_failed + 1;
                    self.node_results.push(NodeResult { name: name.clone(), result: None, error: Some(message.clone()), success: false });
                    if self.fail_fast {
                        proof {
                            lemma_dag_tally_stopped_stays(self.steps@, all.skip(m + 1), self.fail_fast);
                            assert(self.steps@ + all.skip(m + 1) =~= old_steps + all);
                        }
                        self.steps = Ghost(old_steps + all);
                        return Some(Error::PatternStopped { position: name, reason: message });
                    }
                },
            }
            proof {
                assert forall|k: int| 0 <= k < self.steps@.len() implies #[trigger] node_result_for(
                    self.node_results@[k],
                    self.steps@[k].0,
                    self.steps@[k].1,
                ) by {
                    if k < cur.len() {
                        assert(self.steps@[k] == cur[k]);
                    }
                }
            }
            m += 1;
        }
        proof {
            assert(all.take(n as int) =~= all);
            assert(self.steps@.map_values(|s: (Seq<char>, StepOutcome<O>)| s.0) =~= self.scheduled_names()) by {
                let pre = self.layers@.take(layer_idx as int).map_values(|l: Vec<usize>| l@);
                let f = |i: usize| self.names@[i as int]@;
                assert(self.layers@.take(self.next as int).map_values(|l: Vec<usize>| l@) =~= pre.push(layer));
                assert((pre.flatten() + layer).map_values(f) =~= pre.flatten().map_values(f) + layer.map_values(f));
                assert(all.map_values(|s: (Seq<char>, StepOutcome<O>)| s.0) =~= layer.map_values(f));
                assert((old_steps + all).map_values(|s: (Seq<char>, StepOutcome<O>)| s.0) =~= old_steps.map_values(
                    |s: (Seq<char>, StepOutcome<O>)| s.0,
                ) + all.map_values(|s: (Seq<char>, StepOutcome<O>)| s.0));
            }
        }
        None
    }

    /// A run that handed out every wave of an acyclic DAG recorded one step
    /// per node, every node's name once and nothing else, and each node
    /// after every node it depends on; every node counts as either a
    /// success or a failure.
    pub proof fn lemma_complete_run_records_each_node_once<I>(&self, input: &DAGInput<I>)
        requires
            self.wf(),
            structure_verdict(input.nodes@) is None,
            self.names() == node_names(input.nodes@),
            is_layering(dep_edge(input.nodes@), input.nodes.len() as int, self.waves()),
            acyclic(dep_edge(input.nodes@), input.nodes.len() as int),
            self.next_wave() == self.waves().len(),
        ensures
            self.steps().len() == input.nodes.len(),
            step_names(self.steps()) == flattened(self.waves()).map_values(
                |i: usize| node_names(input.nodes@)[i as int],
            ),
            step_names(self.steps()).no_duplicates(),
            forall|i: int| 0 <= i < input.nodes.len() ==> step_names(self.steps()).contains(#[trigger] input.nodes@[i].name@),
            forall|k: int, x: int, dn: Seq<char>|
                0 <= k < self.steps().len() && 0 <= x < input.nodes.len() && #[trigger] step_names(self.steps())[k]
                    == input.nodes@[x].name@ && #[trigger] dep_names(input.nodes@[x]).contains(dn) ==> exists|k2: int|
                    0 <= k2 < k && #[trigger] step_names(self.steps())[k2] == dn,
            dag_tally(self.steps(), self.is_fail_fast()).success + dag_tally(self.steps(), self.is_fail_fast()).failed
                == input.nodes.len(),
    {
        lemma_dag_tally_counts(self.steps@, self.node_results@, self.fail_fast);
        let n = input.nodes.len() as int;
        let edge = dep_edge(input.nodes@);
        assert(edges_in_range(edge, n));
        lemma_waves_cover_each_node_once(edge, n, self.layers@);
        assert(self.layers@.take(self.next as int) =~= self.layers@);
        let flat = flattened(self.layers@);
        let names = node_names(input.nodes@);
        let f = |i: usize| self.names@[i as int]@;
        assert(node_names(input.nodes@).len() == input.nodes@.len());
        assert(self.names().len() == n);
        assert(self.names@.len() == n);
        assert(flat.map_values(f) =~= flat.map_values(|i: usize| names[i as int])) by {
            assert forall|k: int| 0 <= k < flat.len() implies flat.map_values(f)[k] == names[flat[k] as int] by {
                assert(flat[k] < n);
                assert(self.names()[flat[k] as int] == self.names@[flat[k] as int]@);
            }
        }
        let got = step_names(self.steps@);
        assert(got =~= self.steps@.map_values(|s: (Seq<char>, StepOutcome<O>)| s.0));
        assert(got =~= flat.map_values(|i: usize| names[i as int]));
        crate::dag::lemma_structure_ok(input.nodes@);
        assert(got.no_duplicates()) by {
            assert forall|a: int, b: int| 0 <= a < got.len() && 0 <= b < got.len() && a != b implies got[a] != got[b] by {
                assert(flat[a] != flat[b]);
                assert(flat[a] < n && flat[b] < n);
                if (flat[a] as int) < (flat[b] as int) {
                    assert(input.nodes@[flat[a] as int].name@ != input.nodes@[flat[b] as int].name@);
                } else {
                    assert(input.nodes@[flat[b] as int].name@ != input.nodes@[flat[a] as int].name@);
                }
            }
        }
        crate::graph::lemma_waves_respect_edges(edge, n, self.layers@);
        assert forall|k: int, x: int, dn: Seq<char>|
            0 <= k < got.len() && 0 <= x < n && #[trigger] got[k] == input.nodes@[x].name@
                && #[trigger] dep_names(input.nodes@[x]).contains(dn) implies exists|k2: int| 0 <= k2 < k && #[trigger] got[k2] == dn by {
            assert(got[k] == names[flat[k] as int]);
            assert(flat[k] < n);
            let fk = flat[k] as int;
            if fk < x {
                assert(input.nodes@[fk].name@ != input.nodes@[x].name@);
            } else if x < fk {
                assert(input.nodes@[x].name@ != input.nodes@[fk].name@);
            }
            assert(fk == x);
            let dd = choose|dd: int| 0 <= dd < dep_names(input.nodes@[x]).len() && dep_names(input.nodes@[x])[dd] == dn;
            assert(names.contains(dep_names(input.nodes@[x])[dd]));
            let j = choose|j: int| 0 <= j < names.len() && names[j] == dn;
            assert(input.nodes@[j].name@ == dn);
            assert(edge(flat[k] as int, j));
            let k2 = choose|k2: int| 0 <= k2 < k && #[trigger] flat[k2] == j as usize;
            assert(got[k2] == names[j]);
        }
        assert forall|i: int| 0 <= i < n implies got.contains(#[trigger] input.nodes@[i].name@) by {
            assert(flat.contains(i as usize));
            let k = choose|k: int| 0 <= k < flat.len() && flat[k] == i as usize;
            assert(got[k] == names[i]);
        }
    }

    /// The DAG output once the run is over without a stop.
    pub fn finish(self) -> (r: DAGOutput<O>)
        requires
            self.wf(),
        ensures
            r.results@ == dag_tally(self.steps(), self.is_fail_fast()).results,
            r.total_success == dag_tally(self.steps(), self.is_fail_fast()).success,
            r.total_failed == dag_tally(self.steps(), self.is_fail_fast()).failed,
            r.node_results@.len() == self.steps().len(),
            forall|k: int| 0 <= k < self.steps().len() ==> #[trigger] node_result_for(
                r.node_results@[k],
                self.steps()[k].0,
                self.steps()[k].1,
            ),
            r.total_success == successes(r.node_results@),
            r.total_success + r.total_failed == r.node_results@.len(),
            forall|name: Seq<char>| #[trigger] r.results@.dom().contains(name) <==> exists|k: int|
                0 <= k < r.node_results@.len() && (#[trigger] r.node_results@[k]).success && r.node_results@[k].name@ == name,
    {
        proof {
            lemma_dag_tally_counts(self.steps@, self.node_results@, self.fail_fast);
            lemma_dag_tally_results(self.steps@, self.fail_fast);
            let steps = self.steps@;
            let nrs = self.node_results@;
            assert forall|k: int| 0 <= k < nrs.len() implies (#[trigger] nrs[k]).success == succeeded(steps[k].1)
                && nrs[k].name@ == steps[k].0 by {
                assert(node_result_for(nrs[k], steps[k].0, steps[k].1));
            }
            assert forall|name: Seq<char>| #[trigger] self.results@.dom().contains(name) <==> exists|k: int|
                0 <= k < nrs.len() && (#[trigger] nrs[k]).success && nrs[k].name@ == name by {
                if self.results@.dom().contains(name) {
                    let k = choose|k: int| 0 <= k < steps.len() && #[trigger] steps[k].0 == name && succeeded(steps[k].1);
                    assert(nrs[k].success && nrs[k].name@ == name);
                }
                if exists|k: int| 0 <= k < nrs.len() && (#[trigger] nrs[k]).success && nrs[k].name@ == name {
                    let k = choose|k: int| 0 <= k < nrs.len() && (#[trigger] nrs[k]).success && nrs[k].name@ == name;
                    assert(steps[k].0 == name && succeeded(steps[k].1));
                }
            }
        }
        DAGOutput {
            results: self.results,
            node_results: self.node_results,
            total_success: self.total_success,
            total_failed: self.total_failed,
        }
    }
}

/// The node names of `steps`, in order.
pub open spec fn step_names<O>(steps: Seq<(Seq<char>, StepOutcome<O>)>) -> Seq<Seq<char>> {
    steps.map_values(|s: (Seq<char>, StepOutcome<O>)| s.0)
}

/// The steps of one wave: node `layer[m]`'s name with `outcomes[m]`.
pub open spec fn wave_steps<O>(names: Seq<Seq<char>>, layer: Seq<usize>, outcomes: Seq<StepOutcome<O>>) -> Seq<(Seq<char>, StepOutcome<O>)> {
    Seq::new(outcomes.len(), |m: int| (names[layer[m] as int], outcomes[m]))
}

/// Whatever `fail_fast` is, while a DAG run has not stopped its results map
/// holds exactly the names of the steps whose output reported success; when
/// no name repeats, each such name maps to that step's output.
pub proof fn lemma_dag_tally_results<O>(steps: Seq<(Seq<char>, StepOutcome<O>)>, fail_fast: bool)
    ensures
        dag_tally(steps, fail_fast).stop is None ==> forall|name: Seq<char>|
            #[trigger] dag_tally(steps, fail_fast).results.dom().contains(name) <==> exists|k: int|
                0 <= k < steps.len() && #[trigger] steps[k].0 == name && succeeded(steps[k].1),
        dag_tally(steps, fail_fast).stop is None && step_names(steps).no_duplicates() ==> forall|k: int|
            0 <= k < steps.len() && #[trigger] succeeded(steps[k].1) ==> (steps[k].1 matches StepOutcome::Completed {
                output,
                ..
            } && dag_tally(steps, fail_fast).results[steps[k].0] == output),
    decreases steps.len(),
{
    if steps.len() > 0 {
        let pre = steps.drop_last();
        let last = steps.len() - 1;
        lemma_dag_tally_results(pre, fail_fast);
        if dag_tally(pre, fail_fast).stop is Some {
            lemma_dag_tally_stopped_stays(pre, seq![steps.last()], fail_fast);
            assert(pre + seq![steps.last()] =~= steps);
        } else if dag_tally(steps, fail_fast).stop is None {
            let t = dag_tally(pre, fail_fast);
            let r = dag_tally(steps, fail_fast).results;
            assert forall|k: int| 0 <= k < pre.len() implies #[trigger] pre[k] == steps[k] by {}
            assert forall|name: Seq<char>| #[trigger] r.dom().contains(name) <==> exists|k: int|
                0 <= k < steps.len() && #[trigger] steps[k].0 == name && succeeded(steps[k].1) by {
                if r.dom().contains(name) {
                    if t.results.dom().contains(name) {
                        let k = choose|k: int| 0 <= k < pre.len() && #[trigger] pre[k].0 == name && succeeded(pre[k].1);
                        assert(steps[k] == pre[k]);
                    } else {
                        assert(steps[last].0 == name && succeeded(steps[last].1));
                    }
                }
                if exists|k: int| 0 <= k < steps.len() && #[trigger] steps[k].0 == name && succeeded(steps[k].1) {
                    let k = choose|k: int| 0 <= k < steps.len() && #[trigger] steps[k].0 == name && succeeded(steps[k].1);
                    if k < last {
                        assert(pre[k] == steps[k]);
                        assert(t.results.dom().contains(name));
                    }
                }
            }
            if step_names(steps).no_duplicates() {
                assert(step_names(pre).no_duplicates()) by {
                    assert forall|a: int, b: int| 0 <= a < pre.len() && 0 <= b < pre.len() && a != b implies step_names(pre)[a]
                        != step_names(pre)[b] by {
                        assert(step_names(pre)[a] == step_names(steps)[a]);
                        assert(step_names(pre)[b] == step_names(steps)[b]);
                    }
                }
                assert forall|k: int| 0 <= k < steps.len() && #[trigger] succeeded(steps[k].1) implies (steps[k].1 matches StepOutcome::Completed {
                    output,
                    ..
                } && r[steps[k].0] == output) by {
                    if k < last {
                        assert(pre[k] == steps[k]);
                        assert(succeeded(pre[k].1));
                        assert(step_names(steps)[k] != step_names(steps)[last]);
                    }
                }
            }
        }
    }
}

/// How many of `nrs` succeeded.
pub open spec fn successes<O>(nrs: Seq<NodeResult<O>>) -> nat
    decreases nrs.len(),
{
    if nrs.len() == 0 {
        0
    } else {
        successes(nrs.drop_last()) + if nrs.last().success { 1nat } else { 0nat }
    }
}

/// While a DAG run has not stopped, each recorded node either succeeded or
/// failed: the success count is the number of node results that succeeded,
/// and the failure count the number of the others.
proof fn lemma_dag_tally_counts<O: Clone>(steps: Seq<(Seq<char>, StepOutcome<O>)>, nrs: Seq<NodeResult<O>>, fail_fast: bool)
    requires
        dag_tally(steps, fail_fast).stop is None,
        nrs.len() == steps.len(),
        forall|k: int| 0 <= k < steps.len() ==> #[trigger] node_result_for(nrs[k], steps[k].0, steps[k].1),
    ensures
        dag_tally(steps, fail_fast).success == successes(nrs),
        dag_tally(steps, fail_fast).failed + successes(nrs) == nrs.len(),
    decreases steps.len(),
{
    if steps.len() > 0 {
        let pre = steps.drop_last();
        let t = dag_tally(pre, fail_fast);
        if t.stop is Some {
            lemma_dag_tally_stopped_stays(pre, seq![steps.last()], fail_fast);
            assert(pre + seq![steps.last()] =~= steps);
        }
        assert forall|k: int| 0 <= k < pre.len() implies #[trigger] node_result_for(nrs.drop_last()[k], pre[k].0, pre[k].1) by {
            assert(node_result_for(nrs[k], steps[k].0, steps[k].1));
        }
        lemma_dag_tally_counts(pre, nrs.drop_last(), fail_fast);
        assert(node_result_for(nrs[steps.len() - 1], steps[steps.len() - 1].0, steps[steps.len() - 1].1));
    }
}

proof fn lemma_dag_tally_bounds<O>(steps: Seq<(Seq<char>, StepOutcome<O>)>, fail_fast: bool)
    ensures
        dag_tally(steps, fail_fast).success + dag_tally(steps, fail_fast).failed <= steps.len(),
    decreases steps.len(),
{
    if steps.len() > 0 {
        lemma_dag_tally_bounds(steps.drop_last(), fail_fast);
    }
}

proof fn lemma_dag_tally_stopped_stays<O>(steps: Seq<(Seq<char>, StepOutcome<O>)>, more: Seq<(Seq<char>, StepOutcome<O>)>, fail_fast: bool)
    requires
        dag_tally(steps, fail_fast).stop is Some,
    ensures
        dag_tally(steps + more, fail_fast) == dag_tally(steps, fail_fast),
    decreases more.len(),
{
    if more.len() > 0 {
        lemma_dag_tally_stopped_stays(steps, more.drop_last(), fail_fast);
        assert((steps + more).drop_last() =~= steps + more.drop_last());
    } else {
        assert(steps + more =~= steps);
    }
}


/// What `execute` reports for an input whose own validation returned
/// `check`: success, or `InvalidInput` carrying the validation error's text.
pub fn execute_check(check: Result<(), Error>) -> (r: Result<(), Error>)
    ensures
        check is Ok ==> r is Ok,
        check matches Err(e) ==> (r matches Err(Error::InvalidInput(m)) && m@ == error_text(e)),
{
    match check {
        Ok(()) => Ok(()),
        Err(e) => Err(Error::InvalidInput(e.message())),
    }
}

/// `r` with its success value dropped.
pub open spec fn unit_of<T>(r: Result<T, Error>) -> Result<(), Error> {
    match r {
        Ok(_) => Ok(()),
        Err(e) => Err(e),
    }
}

/// `out` is what `f` may return for `template`, `item` and index `i`
/// with an empty parameter map.
pub open spec fn expanded_without_params<I, F: Fn(&I, &String, usize, &StringMap<String>) -> I>(
    f: F,
    template: &I,
    item: &String,
    i: usize,
    out: I,
) -> bool {
    exists|p: StringMap<String>| p@.dom().len() == 0 && call_ensures(f, (template, item, i, &p), out)
}

/// A substitutor that accepts every argument.
pub open spec fn total_substitutor<I, F: Fn(&I, &String, usize, &StringMap<String>) -> I>(f: F) -> bool {
    forall|t: &I, item: &String, i: usize, p: &StringMap<String>| call_requires(f, (t, item, i, p))
}

/// One concrete input per `(item, parameters)` entry: entry `i` is expanded
/// from `template` with its item, its index `i` and its parameters.
pub fn expand<I, F: Fn(&I, &String, usize, &StringMap<String>) -> I>(
    template: &I,
    entries: &Vec<(String, StringMap<String>)>,
    substitutor: &F,
) -> (r: Vec<I>)
    requires
        total_substitutor(*substitutor),
    ensures
        r.len() == entries.len(),
        forall|i: int| 0 <= i < entries.len() ==> call_ensures(
            *substitutor,
            (template, &entries@[i].0, i as usize, &entries@[i].1),
            #[trigger] r@[i],
        ),
{
    let mut out: Vec<I> = Vec::new();
    let mut i: usize = 0;
    while i < entries.len()
        invariant
            i <= entries.len(),
            total_substitutor(*substitutor),
            out.len() == i,
            forall|j: int| 0 <= j < i ==> call_ensures(
                *substitutor,
                (template, &entries@[j].0, j as usize, &entries@[j].1),
                #[trigger] out@[j],
            ),
        decreases entries.len() - i,
    {
        let x = substitutor(template, &entries[i].0, i, &entries[i].1);
        out.push(x);
        i += 1;
    }
    out
}

/// The inputs of a loop run: after validation, one per item, each
/// expanded with its item, its index and no parameters.
pub fn plan_loop<I: TaskInput, F: Fn(&I, &String, usize, &StringMap<String>) -> I>(
    input: &LoopInput<I>,
    substitutor: &F,
) -> (r: Result<Vec<I>, Error>)
    requires
        total_substitutor(*substitutor),
    ensures
        input.items.len() == 0 ==> crate::error::fails_with(r, "loop items must be non-empty"@),
        input.items.len() > 0 ==> exists|check: Result<(), Error>| call_ensures(I::validate, (&input.template,), check)
            && #[trigger] template_outcome(check, unit_of(r)),
        match r {
            Ok(v) => v.len() == input.items.len() && forall|i: int| 0 <= i < v.len() ==> expanded_without_params(
                *substitutor,
                &input.template,
                &input.items@[i],
                i as usize,
                #[trigger] v@[i],
            ),
            Err(_) => true,
        },
{
    let checked = input.validate();
    match checked {
        Err(e) => Err(e),
        Ok(()) => {
            let mut entries: Vec<(String, StringMap<String>)> = Vec::new();
            let mut i: usize = 0;
            while i < input.items.len()
                invariant
                    i <= input.items.len(),
                    entries.len() == i,
                    forall|j: int| 0 <= j < i ==> #[trigger] entries@[j].0 == input.items@[j] && entries@[j].1@.dom().len() == 0,
                decreases input.items.len() - i,
            {
                let none: StringMap<String> = StringMap::new();
                entries.push((input.items[i].clone(), none));
                i += 1;
            }
            let v = expand(&input.template, &entries, substitutor);
            assert forall|i: int| 0 <= i < v.len() implies expanded_without_params(
                *substitutor,
                &input.template,
                &input.items@[i],
                i as usize,
                #[trigger] v@[i],
            ) by {
                assert(entries@[i].0 == input.items@[i]);
                let p = entries@[i].1;
                assert(call_ensures(*substitutor, (&input.template, &entries@[i].0, i as usize, &entries@[i].1), v@[i]));
                assert(p@.dom().len() == 0 && call_ensures(*substitutor, (&input.template, &input.items@[i], i as usize, &p), v@[i]));
            }
            let r: Result<Vec<I>, Error> = Ok(v);
            proof {
                if input.items.len() > 0 {
                    let c = choose|c: Result<(), Error>| call_ensures(I::validate, (&input.template,), c) && #[trigger] template_outcome(c, checked);
                    assert(unit_of(r) is Ok);
                    assert(template_outcome(c, unit_of(r)));
                }
            }
            r
        },
    }
}

/// `out` is what `f` may return for `template`, index `c` and a
/// parameter map assigning `row` to `keys`, with an empty item.
pub open spec fn expanded_with_combination<I, F: Fn(&I, &String, usize, &StringMap<String>) -> I>(
    f: F,
    template: &I,
    c: usize,
    keys: Seq<Seq<char>>,
    row: Seq<Seq<char>>,
    out: I,
) -> bool {
    exists|item: String, p: StringMap<String>| item@.len() == 0 && assigns(p, keys, row) && call_ensures(
        f,
        (template, &item, c, &p),
        out,
    )
}

/// Each combination paired with an empty item, in order.
fn blank_items(combos: Vec<StringMap<String>>) -> (r: Vec<(String, StringMap<String>)>)
    ensures
        r.len() == combos.len(),
        forall|j: int| 0 <= j < r.len() ==> (#[trigger] r@[j]).0@.len() == 0 && r@[j].1 == combos@[j],
{
    let ghost all = combos@;
    let mut rest = combos;
    let mut rev: Vec<StringMap<String>> = Vec::new();
    // Reverse so the combinations can be popped in order.
    while rest.len() > 0
        invariant
            rest@ + rev@.reverse() == all,
        decreases rest.len(),
    {
        let x = rest.pop().unwrap();
        let ghost r0 = rev@;
        rev.push(x);
        assert(rev@.reverse() =~= seq![x] + r0.reverse());
    }
    assert(rev@.reverse() =~= all);
    let n = rev.len();
    let mut entries: Vec<(String, StringMap<String>)> = Vec::new();
    let mut i: usize = 0;
    while i < n
        invariant
            n == all.len(),
            i <= n,
            rev@.len() == n - i,
            rev@.reverse() == all.skip(i as int),
            entries.len() == i,
            forall|j: int| 0 <= j < i ==> (#[trigger] entries@[j]).0@.len() == 0 && entries@[j].1 == all[j],
        decreases n - i,
    {
        let ghost before = rev@;
        let m = rev.pop().unwrap();
        proof {
            assert(before == rev@.push(m));
            assert(before.reverse() =~= seq![m] + rev@.reverse());
            assert(all.skip(i as int)[0] == all[i as int]);
            assert(all.skip(i as int).skip(1) =~= all.skip(i + 1));
            assert((seq![m] + rev@.reverse()).skip(1) =~= rev@.reverse());
        }
        entries.push((String::new(), m));
        i += 1;
    }
    entries
}

/// The inputs of a parameterized-loop run: after validation, one per
/// combination of parameter values (see `generate_parameter_combinations`),
/// each expanded with an empty item, its index and its combination.
pub fn plan_parameterized_loop<I: TaskInput, F: Fn(&I, &String, usize, &StringMap<String>) -> I>(
    input: &ParameterizedLoopInput<I>,
    substitutor: &F,
) -> (r: Result<Vec<I>, Error>)
    requires
        total_substitutor(*substitutor),
    ensures
        input.parameters.pairs().len() == 0 ==> crate::error::fails_with(
            r,
            "parameterized loop parameters must be non-empty"@,
        ),
        input.parameters.pairs().len() > 0 ==> match empty_values_from(input.parameters.pairs(), 0) {
            Some(m) => crate::error::fails_with(r, m),
            None => exists|check: Result<(), Error>| call_ensures(I::validate, (&input.template,), check)
                && #[trigger] template_outcome(check, unit_of(r)),
        },
        match r {
            Ok(v) => v.len() == parameter_table(input.parameters@).len() && forall|c: int| 0 <= c < v.len()
                ==> expanded_with_combination(
                *substitutor,
                &input.template,
                c as usize,
                parameter_keys(input.parameters@),
                parameter_table(input.parameters@)[c],
                #[trigger] v@[c],
            ),
            Err(_) => true,
        },
{
    let checked = input.validate();
    match checked {
        Err(e) => Err(e),
        Ok(()) => {
            let combos = generate_parameter_combinations(&input.parameters);
            let ghost keys = parameter_keys(input.parameters@);
            let ghost table = parameter_table(input.parameters@);
            let ghost all = combos@;
            let entries = blank_items(combos);
            let v = expand(&input.template, &entries, substitutor);
            assert forall|c: int| 0 <= c < v.len() implies expanded_with_combination(
                *substitutor,
                &input.template,
                c as usize,
                keys,
                table[c],
                #[trigger] v@[c],
            ) by {
                assert(entries@[c].0@.len() == 0 && entries@[c].1 == all[c]);
                assert(assigns(all[c], keys, table[c]));
                let item = entries@[c].0;
                let p = entries@[c].1;
                assert(call_ensures(*substitutor, (&input.template, &item, c as usize, &p), v@[c]));
                assert(item@.len() == 0 && assigns(p, keys, table[c]));
            }
            let r: Result<Vec<I>, Error> = Ok(v);
            proof {
                if input.parameters.pairs().len() > 0 && empty_values_from(input.parameters.pairs(), 0) is None {
                    let c = choose|c: Result<(), Error>| call_ensures(I::validate, (&input.template,), c) && #[trigger] template_outcome(c, checked);
                    assert(unit_of(r) is Ok);
                    assert(template_outcome(c, unit_of(r)));
                }
            }
            r
        },
    }
}

/// The output of a loop run from the outcomes of all its iterations, in
/// iteration order: the stop of a fail-fast run, or the kept results and
/// counts with the number of iterations.
pub fn finish_loop<O>(outcomes: Vec<StepOutcome<O>>, strategy: FailureStrategy, item_count: usize) -> (r: Result<LoopOutput<O>, Error>)
    ensures
        match tally(outcomes@, strategy == FailureStrategy::FailFast).stop {
            Some((i, why)) => r matches Err(e) && stopped_with(e, decimal(i), why),
            None => r matches Ok(out) && out.results@ == tally(outcomes@, strategy == FailureStrategy::FailFast).results
                && out.total_success == tally(outcomes@, strategy == FailureStrategy::FailFast).success
                && out.total_failed == tally(outcomes@, strategy == FailureStrategy::FailFast).failed
                && out.item_count == item_count,
        },
        r matches Ok(out) ==> out.total_success == success_count(outcomes@) && out.total_success + out.total_failed
            == outcomes.len() && out.results@ == carried_outputs(outcomes@),
{
    let fail_fast = match strategy {
        FailureStrategy::FailFast => true,
        FailureStrategy::Continue => false,
    };
    match aggregate_outcomes(outcomes, fail_fast) {
        Ok((results, total_success, total_failed)) => Ok(LoopOutput { results, total_success, total_failed, item_count }),
        Err(e) => Err(e),
    }
}

/// The output of a parallel run from the outcomes of all its tasks, in
/// task order: the stop of a fail-fast run, or the kept results and counts.
pub fn finish_parallel<O>(outcomes: Vec<StepOutcome<O>>, strategy: FailureStrategy) -> (r: Result<ParallelOutput<O>, Error>)
    ensures
        match tally(outcomes@, strategy == FailureStrategy::FailFast).stop {
            Some((i, why)) => r matches Err(e) && stopped_with(e, decimal(i), why),
            None => r matches Ok(out) && out.results@ == tally(outcomes@, strategy == FailureStrategy::FailFast).results
                && out.total_success == tally(outcomes@, strategy == FailureStrategy::FailFast).success
                && out.total_failed == tally(outcomes@, strategy == FailureStrategy::FailFast).failed,
        },
        r matches Ok(out) ==> out.total_success == success_count(outcomes@) && out.total_success + out.total_failed
            == outcomes.len() && out.results@ == carried_outputs(outcomes@),
{
    let fail_fast = match strategy {
        FailureStrategy::FailFast => true,
        FailureStrategy::Continue => false,
    };
    match aggregate_outcomes(outcomes, fail_fast) {
        Ok((results, total_success, total_failed)) => Ok(ParallelOutput { results, total_success, total_failed }),
        Err(e) => Err(e),
    }
}

} // verus!
