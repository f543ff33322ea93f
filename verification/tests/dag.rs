use altair_wf::dag::{DAGInput, DAGNode};
use altair_wf::error::Error;
use altair_wf::patterns::{DagRun, StepOutcome};
use altair_wf::traits::{TaskInput, TaskOutput};

#[derive(Debug, Clone)]
struct Task {
    ok: bool,
}

impl TaskInput for Task {
    fn validate(&self) -> Result<(), Error> {
        if self.ok {
            Ok(())
        } else {
            Err(Error::InvalidInput("task not ok".into()))
        }
    }
}

#[derive(Debug, Clone, PartialEq)]
struct Done {
    ok: bool,
}

impl TaskOutput for Done {
    fn is_success(&self) -> bool {
        self.ok
    }
}

fn node(name: &str, deps: &[&str]) -> DAGNode<Task> {
    DAGNode { name: name.into(), input: Task { ok: true }, dependencies: deps.iter().map(ToString::to_string).collect() }
}

fn diamond(fail_fast: bool) -> DAGInput<Task> {
    DAGInput {
        nodes: vec![node("a", &[]), node("b", &["a"]), node("c", &["a"]), node("d", &["b", "c"])],
        fail_fast,
        max_parallel: 0,
    }
}

#[test]
fn empty_dag_rejected() {
    let d: DAGInput<Task> = DAGInput { nodes: vec![], fail_fast: false, max_parallel: 0 };
    assert!(matches!(d.validate(), Err(Error::InvalidInput(_))));
}

#[test]
fn duplicate_node_rejected() {
    let d = DAGInput { nodes: vec![node("a", &[]), node("a", &[])], fail_fast: false, max_parallel: 0 };
    match d.validate() {
        Err(Error::InvalidInput(msg)) => assert!(msg.contains("duplicate")),
        other => panic!("expected InvalidInput, got {other:?}"),
    }
}

#[test]
fn missing_dependency_rejected() {
    let d = DAGInput { nodes: vec![node("a", &["ghost"])], fail_fast: false, max_parallel: 0 };
    match d.validate() {
        Err(Error::InvalidInput(msg)) => assert!(msg.contains("ghost")),
        other => panic!("expected InvalidInput, got {other:?}"),
    }
}

#[test]
fn cycle_rejected() {
    let d = DAGInput { nodes: vec![node("a", &["b"]), node("b", &["a"])], fail_fast: false, max_parallel: 0 };
    match d.validate() {
        Err(Error::InvalidInput(msg)) => assert!(msg.contains("circular")),
        other => panic!("expected InvalidInput, got {other:?}"),
    }
}

#[test]
fn diamond_dag_validates_and_layers() {
    // a → b, a → c, both → d
    let d = diamond(false);
    d.validate().unwrap();
    let layers = d.topological_layers();
    assert_eq!(layers.len(), 3, "diamond has 3 layers");
    assert_eq!(layers[0].len(), 1, "first layer is the root");
    assert_eq!(layers[1].len(), 2, "second layer has b + c");
    assert_eq!(layers[2].len(), 1, "third layer is d");
}

#[test]
fn per_node_input_validation_error_surfaces_with_name() {
    let bad = DAGNode { name: "broken".into(), input: Task { ok: false }, dependencies: vec![] };
    let d = DAGInput { nodes: vec![bad], fail_fast: false, max_parallel: 0 };
    match d.validate() {
        Err(Error::InvalidInput(msg)) => assert!(msg.contains("broken")),
        other => panic!("expected InvalidInput, got {other:?}"),
    }
}

#[test]
fn dag_validation_messages_are_exact() {
    let d = DAGInput { nodes: vec![node("a", &["ghost"])], fail_fast: false, max_parallel: 0 };
    match d.validate() {
        Err(e) => assert_eq!(e.message(), "invalid input: node 'a' depends on missing node 'ghost'"),
        Ok(()) => panic!("expected an error"),
    }
    let d = DAGInput { nodes: vec![node("x", &["y"]), node("y", &["x"])], fail_fast: false, max_parallel: 0 };
    match d.validate() {
        Err(Error::InvalidInput(msg)) => assert!(msg.starts_with("circular dependency detected involving node '")),
        other => panic!("expected InvalidInput, got {other:?}"),
    }
    let bad = DAGNode { name: "broken".into(), input: Task { ok: false }, dependencies: vec![] };
    let d = DAGInput { nodes: vec![bad], fail_fast: false, max_parallel: 0 };
    match d.validate() {
        Err(Error::InvalidInput(msg)) => assert_eq!(msg, "node 'broken': invalid input: task not ok"),
        other => panic!("expected InvalidInput, got {other:?}"),
    }
}

#[test]
fn layers_put_dependencies_first() {
    let d = diamond(false);
    let layers = d.topological_layers();
    assert_eq!(layers, vec![vec![0], vec![1, 2], vec![3]]);
}

fn run_all(d: &DAGInput<Task>, fail: &[&str]) -> (DagRun<Done>, Option<Error>) {
    let mut run: DagRun<Done> = DagRun::start(d);
    while let Some(layer) = run.next_layer() {
        let outcomes: Vec<StepOutcome<Done>> = layer
            .iter()
            .map(|&i| {
                let ok = !fail.contains(&d.nodes[i].name.as_str());
                StepOutcome::from_result(Ok(Done { ok }))
            })
            .collect();
        if let Some(e) = run.record_layer(outcomes) {
            return (run, Some(e));
        }
    }
    (run, None)
}

#[test]
fn dag_run_records_each_node_once() {
    let d = diamond(false);
    d.validate().unwrap();
    let (run, stop) = run_all(&d, &[]);
    assert!(stop.is_none());
    let out = run.finish();
    assert_eq!(out.total_success, 4);
    assert_eq!(out.results.len(), 4);
    assert_eq!(out.node_results.len(), 4);
    let names: Vec<&str> = out.node_results.iter().map(|r| r.name.as_str()).collect();
    assert_eq!(names, vec!["a", "b", "c", "d"]);
}

#[test]
fn dag_run_fail_fast_stops_at_failing_node() {
    let d = diamond(true);
    let (_run, stop) = run_all(&d, &["b"]);
    match stop {
        Some(Error::PatternStopped { position, reason }) => {
            assert_eq!(position, "b");
            assert_eq!(reason, "task reported failure");
        },
        other => panic!("expected PatternStopped, got {other:?}"),
    }
}

#[test]
fn dag_run_continue_counts_failures() {
    let d = diamond(false);
    let (run, stop) = run_all(&d, &["c"]);
    assert!(stop.is_none());
    let out = run.finish();
    assert_eq!(out.total_success, 3);
    assert_eq!(out.total_failed, 1);
    assert_eq!(out.results.len(), 3);
    assert!(out.results.get("c").is_none());
    let c = &out.node_results[2];
    assert_eq!(c.name, "c");
    assert!(!c.success);
    assert_eq!(c.result(), None);
    assert_eq!(out.node_results[0].result(), Some(&Done { ok: true }));
}

#[test]
fn cycle_report_names_the_node_the_search_returns_to() {
    let d = DAGInput {
        nodes: vec![node("a", &["b"]), node("b", &["c"]), node("c", &["b"])],
        fail_fast: false,
        max_parallel: 0,
    };
    match d.validate() {
        Err(Error::InvalidInput(msg)) => assert_eq!(msg, "circular dependency detected involving node 'b'"),
        other => panic!("expected InvalidInput, got {other:?}"),
    }
    let d = DAGInput { nodes: vec![node("x", &["x"])], fail_fast: false, max_parallel: 0 };
    assert!(matches!(d.validate(), Err(Error::InvalidInput(m)) if m == "circular dependency detected involving node 'x'"));
}

#[test]
fn dag_run_without_fail_fast_counts_every_node() {
    let d = diamond(false);
    let (run, stop) = run_all(&d, &["a", "d"]);
    assert!(stop.is_none());
    let out = run.finish();
    assert_eq!(out.node_results.len(), 4);
    let succeeded = out.node_results.iter().filter(|r| r.success).count();
    assert_eq!(out.total_success, succeeded);
    assert_eq!(out.total_success + out.total_failed, 4);
    assert_eq!((out.total_success, out.total_failed), (2, 2));
}

#[test]
fn waves_are_ascending_and_earliest() {
    let d = DAGInput {
        nodes: vec![
            node("e", &["a"]),
            node("d", &["b", "c"]),
            node("c", &["a"]),
            node("b", &["a"]),
            node("a", &[]),
            node("f", &["a", "d"]),
        ],
        fail_fast: false,
        max_parallel: 0,
    };
    d.validate().unwrap();
    let layers = d.topological_layers();
    assert_eq!(layers, vec![vec![4], vec![0, 2, 3], vec![1], vec![5]]);
    for layer in &layers {
        assert!(layer.windows(2).all(|w| w[0] < w[1]));
    }
    for k in 1..layers.len() {
        for &i in &layers[k] {
            let in_previous = d.nodes[i].dependencies.iter().any(|dep| layers[k - 1].iter().any(|&j| &d.nodes[j].name == dep));
            assert!(in_previous);
        }
    }
}
