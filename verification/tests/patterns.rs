use altair_wf::error::Error;
use altair_wf::helpers::FailureStrategy;
use altair_wf::patterns::{
    aggregate_outcomes, execute_check, finish_loop, finish_parallel, plan_loop, plan_parameterized_loop, PipelineProgress,
    StepOutcome,
};
use altair_wf::strmap::StringMap;
use altair_wf::traits::{TaskInput, TaskOutput};
use altair_wf::types::{LoopInput, ParameterizedLoopInput};

#[derive(Debug, Clone, PartialEq)]
struct Step {
    id: u32,
    will_fail: bool,
}

impl TaskInput for Step {}

#[derive(Debug, Clone, PartialEq)]
struct StepResult {
    id: u32,
    ok: bool,
    message: String,
}

impl TaskOutput for StepResult {
    fn is_success(&self) -> bool {
        self.ok
    }

    fn error(&self) -> Option<&str> {
        if self.ok {
            None
        } else {
            Some(&self.message)
        }
    }
}

fn ok(id: u32) -> Step {
    Step { id, will_fail: false }
}

fn fail(id: u32) -> Step {
    Step { id, will_fail: true }
}

fn execute_step(step: Step) -> Result<StepResult, Error> {
    if step.will_fail {
        Ok(StepResult { id: step.id, ok: false, message: format!("step {} failed", step.id) })
    } else {
        Ok(StepResult { id: step.id, ok: true, message: String::new() })
    }
}

fn outcomes(tasks: Vec<Step>) -> Vec<StepOutcome<StepResult>> {
    tasks.into_iter().map(|t| StepOutcome::from_result(execute_step(t))).collect()
}

#[test]
fn parallel_continue_keeps_every_output() {
    let out = finish_parallel(outcomes(vec![ok(1), fail(2), ok(3), ok(4)]), FailureStrategy::Continue).unwrap();
    assert_eq!(out.results.len(), 4);
    assert_eq!(out.total_success, 3);
    assert_eq!(out.total_failed, 1);
}

#[test]
fn parallel_fail_fast_reports_first_failure() {
    let res = finish_parallel(outcomes(vec![ok(1), fail(2), ok(3), fail(4)]), FailureStrategy::FailFast);
    match res {
        Err(Error::PatternStopped { position, reason }) => {
            assert_eq!(position, "1");
            assert_eq!(reason, "step 2 failed");
        },
        other => panic!("expected PatternStopped, got {other:?}"),
    }
}

#[test]
fn invocation_errors_count_as_failures_and_keep_nothing() {
    let outs = vec![
        StepOutcome::from_result(execute_step(ok(1))),
        StepOutcome::from_result(Err(Error::InvalidInput("bad".into()))),
    ];
    let (results, s, f) = aggregate_outcomes(outs, false).unwrap();
    assert_eq!((results.len(), s, f), (1, 1, 1));
    let outs = vec![StepOutcome::<StepResult>::from_result(Err(Error::InvalidInput("bad".into())))];
    match aggregate_outcomes(outs, true) {
        Err(Error::PatternStopped { position, reason }) => {
            assert_eq!(position, "0");
            assert_eq!(reason, "invalid input: bad");
        },
        other => panic!("expected PatternStopped, got {other:?}"),
    }
}

fn run_pipeline(tasks: Vec<Step>, stop_on_error: bool) -> Result<(usize, usize, usize), Error> {
    let mut progress: PipelineProgress<StepResult> = PipelineProgress::new(stop_on_error);
    for task in tasks {
        if let Some(e) = progress.record(StepOutcome::from_result(execute_step(task))) {
            return Err(e);
        }
    }
    let out = progress.finish();
    Ok((out.results.len(), out.total_success, out.total_failed))
}

#[test]
fn pipeline_runs_all_when_continuing() {
    assert_eq!(run_pipeline(vec![ok(1), fail(2), ok(3)], false).unwrap(), (3, 2, 1));
}

#[test]
fn pipeline_stops_at_failing_step() {
    match run_pipeline(vec![ok(1), fail(2), ok(3)], true) {
        Err(Error::PatternStopped { position, .. }) => assert_eq!(position, "1"),
        other => panic!("expected PatternStopped, got {other:?}"),
    }
}

fn substitutor(template: &Step, _item: &String, idx: usize, _params: &StringMap<String>) -> Step {
    Step { id: idx as u32, will_fail: template.will_fail }
}

#[test]
fn loop_plans_one_input_per_item() {
    let input = LoopInput {
        items: vec!["a".into(), "b".into(), "c".into()],
        template: ok(0),
        parallel: false,
        failure_strategy: FailureStrategy::Continue,
    };
    let inputs = plan_loop(&input, &substitutor).unwrap();
    assert_eq!(inputs, vec![ok(0), ok(1), ok(2)]);
    let outs: Vec<_> = inputs.into_iter().map(|s| StepOutcome::from_result(execute_step(s))).collect();
    let out = finish_loop(outs, FailureStrategy::Continue, 3).unwrap();
    assert_eq!(out.item_count, 3);
    assert_eq!(out.total_success, 3);
}

#[test]
fn parameterized_loop_plans_the_cartesian_product() {
    let mut params: StringMap<Vec<String>> = StringMap::new();
    params.insert("a".into(), vec!["x".into(), "y".into()]);
    params.insert("b".into(), vec!["1".into(), "2".into(), "3".into()]);
    let input = ParameterizedLoopInput { parameters: params, template: ok(0), parallel: false, failure_strategy: FailureStrategy::Continue };
    let seen = std::cell::RefCell::new(Vec::new());
    let sub = |t: &Step, item: &String, idx: usize, p: &StringMap<String>| {
        assert!(item.is_empty());
        seen.borrow_mut().push(format!("{}{}", p.get("a").unwrap(), p.get("b").unwrap()));
        Step { id: idx as u32, will_fail: t.will_fail }
    };
    let inputs = plan_parameterized_loop(&input, &sub).unwrap();
    assert_eq!(inputs.len(), 6);
    assert_eq!(*seen.borrow(), vec!["x1", "x2", "x3", "y1", "y2", "y3"]);
    let outs: Vec<_> = inputs.into_iter().map(|s| StepOutcome::from_result(execute_step(s))).collect();
    let out = finish_loop(outs, FailureStrategy::Continue, 6).unwrap();
    assert_eq!(out.item_count, 6);
    assert_eq!(out.total_success, 6);
}

#[test]
fn loop_plan_rejects_invalid_input() {
    let input: LoopInput<Step> = LoopInput { items: vec![], template: ok(0), parallel: false, failure_strategy: FailureStrategy::Continue };
    assert!(matches!(plan_loop(&input, &substitutor), Err(Error::InvalidInput(m)) if m == "loop items must be non-empty"));
}

#[test]
fn execute_check_wraps_validation_errors() {
    assert!(execute_check(Ok(())).is_ok());
    match execute_check(Err(Error::InvalidInput("nope".into()))) {
        Err(Error::InvalidInput(m)) => assert_eq!(m, "invalid input: nope"),
        other => panic!("expected InvalidInput, got {other:?}"),
    }
}

#[test]
fn sequential_loop_fail_fast_stops_dispatching() {
    let inputs = vec![ok(0), fail(1), ok(2)];
    let mut progress: PipelineProgress<StepResult> = PipelineProgress::new(true);
    let mut dispatched = Vec::new();
    let mut stop = None;
    for input in inputs {
        dispatched.push(input.id);
        if let Some(e) = progress.record(StepOutcome::from_result(execute_step(input))) {
            stop = Some(e);
            break;
        }
    }
    assert_eq!(dispatched, vec![0, 1]);
    match stop {
        Some(Error::PatternStopped { position, reason }) => {
            assert_eq!(position, "1");
            assert_eq!(reason, "step 1 failed");
        },
        other => panic!("expected PatternStopped, got {other:?}"),
    }
}

#[test]
fn sequential_loop_continue_reports_item_count() {
    let mut progress: PipelineProgress<StepResult> = PipelineProgress::new(false);
    for input in vec![ok(0), fail(1), ok(2)] {
        assert!(progress.record(StepOutcome::from_result(execute_step(input))).is_none());
    }
    let out = progress.finish_iterations(3);
    assert_eq!((out.results.len(), out.total_success, out.total_failed, out.item_count), (3, 2, 1, 3));
}

#[test]
fn from_result_reads_success_and_error() {
    match StepOutcome::from_result(execute_step(fail(7))) {
        StepOutcome::Completed { success, error, .. } => {
            assert!(!success);
            assert_eq!(error.as_deref(), Some("step 7 failed"));
        },
        StepOutcome::Failed { .. } => panic!("expected Completed"),
    }
}
