use altair_wf::error::Error;
use altair_wf::helpers::FailureStrategy;
use altair_wf::strmap::StringMap;
use altair_wf::traits::TaskInput;
use altair_wf::types::{LoopInput, ParallelInput, ParameterizedLoopInput, PipelineInput};

#[derive(Debug, Clone)]
struct Step {
    ok: bool,
}

impl TaskInput for Step {
    fn validate(&self) -> Result<(), Error> {
        if self.ok {
            Ok(())
        } else {
            Err(Error::InvalidInput("step not ok".into()))
        }
    }
}

#[test]
fn pipeline_input_rejects_empty() {
    let p: PipelineInput<Step> = PipelineInput { tasks: vec![], stop_on_error: false, cleanup: false };
    assert!(matches!(p.validate(), Err(Error::InvalidInput(_))));
}

#[test]
fn pipeline_input_propagates_per_task_validate_failure() {
    let p = PipelineInput { tasks: vec![Step { ok: true }, Step { ok: false }], stop_on_error: false, cleanup: false };
    match p.validate() {
        Err(Error::InvalidInput(msg)) => assert!(msg.contains("task[1]")),
        other => panic!("expected InvalidInput, got {other:?}"),
    }
}

#[test]
fn parameterized_loop_rejects_empty_value_list() {
    let mut params: StringMap<Vec<String>> = StringMap::new();
    params.insert("k".into(), vec![]);
    let p = ParameterizedLoopInput {
        parameters: params,
        template: Step { ok: true },
        parallel: false,
        failure_strategy: FailureStrategy::Continue,
    };
    match p.validate() {
        Err(Error::InvalidInput(msg)) => assert!(msg.contains("'k'")),
        other => panic!("expected InvalidInput, got {other:?}"),
    }
}

#[test]
fn task_list_validation_messages_are_exact() {
    let p = PipelineInput { tasks: vec![Step { ok: true }, Step { ok: false }], stop_on_error: false, cleanup: false };
    assert!(matches!(p.validate(), Err(Error::InvalidInput(m)) if m == "task[1]: invalid input: step not ok"));
    let p: ParallelInput<Step> = ParallelInput { tasks: vec![], failure_strategy: FailureStrategy::FailFast };
    assert!(matches!(p.validate(), Err(Error::InvalidInput(m)) if m == "parallel tasks must be non-empty"));
    let l = LoopInput { items: vec![], template: Step { ok: true }, parallel: false, failure_strategy: FailureStrategy::Continue };
    assert!(matches!(l.validate(), Err(Error::InvalidInput(m)) if m == "loop items must be non-empty"));
    let l = LoopInput {
        items: vec!["a".to_string()],
        template: Step { ok: false },
        parallel: false,
        failure_strategy: FailureStrategy::Continue,
    };
    assert!(matches!(l.validate(), Err(Error::InvalidInput(m)) if m == "template: invalid input: step not ok"));
    let p = ParameterizedLoopInput {
        parameters: StringMap::new(),
        template: Step { ok: true },
        parallel: false,
        failure_strategy: FailureStrategy::Continue,
    };
    assert!(matches!(p.validate(), Err(Error::InvalidInput(m)) if m == "parameterized loop parameters must be non-empty"));
    let ok = ParallelInput { tasks: vec![Step { ok: true }], failure_strategy: FailureStrategy::Continue };
    assert!(ok.validate().is_ok());
}

#[test]
fn parameterized_loop_names_the_first_empty_list() {
    let mut params: StringMap<Vec<String>> = StringMap::new();
    params.insert("a".into(), vec!["x".to_string()]);
    params.insert("b".into(), vec![]);
    params.insert("c".into(), vec![]);
    let p = ParameterizedLoopInput {
        parameters: params,
        template: Step { ok: true },
        parallel: false,
        failure_strategy: FailureStrategy::Continue,
    };
    assert!(matches!(p.validate(), Err(Error::InvalidInput(m)) if m == "parameter 'b' value list must be non-empty"));
    let mut full: StringMap<Vec<String>> = StringMap::new();
    full.insert("a".into(), vec!["x".to_string()]);
    full.insert("b".into(), vec!["y".to_string(), "z".to_string()]);
    let p = ParameterizedLoopInput { parameters: full, template: Step { ok: true }, parallel: false, failure_strategy: FailureStrategy::Continue };
    assert!(p.validate().is_ok());
}
