use std::time::Duration;

use altair_wf::error::Error;
use altair_wf::function::activity::{
    execution_output, millis_since_epoch, render_panic, saturating_u64, unix_millis, FunctionActivities, PanicPayload,
};
use altair_wf::function::payload::{FunctionExecutionInput, FunctionExecutionOutput, FunctionInput, FunctionOutput};
use altair_wf::function::registry::{dispatch_result, Registry};
use altair_wf::traits::{TaskInput, TaskOutput};

fn pairs(items: &[(&str, &str)]) -> Vec<(String, String)> {
    items.iter().map(|(k, v)| (k.to_string(), v.to_string())).collect()
}

#[test]
fn render_panic_string_payload() {
    let s = "broken".to_string();
    let payload: Box<dyn std::any::Any + Send> = Box::new(s);
    assert_eq!(render_panic(&PanicPayload(payload)), "handler panicked: broken");
}

#[test]
fn render_panic_static_str_payload() {
    let payload: Box<dyn std::any::Any + Send> = Box::new("oops");
    assert_eq!(render_panic(&PanicPayload(payload)), "handler panicked: oops");
}

#[test]
fn render_panic_unknown_payload() {
    let payload: Box<dyn std::any::Any + Send> = Box::new(42i32);
    assert_eq!(render_panic(&PanicPayload(payload)), "handler panicked: <non-string payload>");
}

#[test]
fn execution_input_rejects_empty_name() {
    let i = FunctionExecutionInput::new("");
    assert!(matches!(i.validate(), Err(Error::InvalidInput(_))));
}

#[test]
fn execution_input_rejects_name_starting_with_digit() {
    let i = FunctionExecutionInput::new("1bad");
    assert!(matches!(i.validate(), Err(Error::InvalidInput(_))));
}

#[test]
fn execution_input_rejects_name_with_space() {
    let i = FunctionExecutionInput::new("bad name");
    assert!(matches!(i.validate(), Err(Error::InvalidInput(_))));
}

#[test]
fn execution_input_accepts_letters_digits_underscores_hyphens() {
    let i = FunctionExecutionInput::new("Good_Name-1");
    assert!(i.validate().is_ok());
}

#[test]
fn execution_input_rejects_overlong_name() {
    let long = "a".repeat(300);
    let i = FunctionExecutionInput::new(&long);
    assert!(matches!(i.validate(), Err(Error::InvalidInput(_))));
}

#[test]
fn to_function_input_copies_fields() {
    let mut i = FunctionExecutionInput::new("ok").with_args(pairs(&[("k", "v")]));
    i.work_dir = "/tmp".into();
    let fi = i.to_function_input();
    assert_eq!(fi.args.get("k").map(String::as_str), Some("v"));
    assert_eq!(fi.work_dir, "/tmp");
}

#[test]
fn output_success_and_failure_helpers() {
    let s = FunctionExecutionOutput::success("f", FunctionOutput::with_result(pairs(&[("x", "1")])));
    assert!(s.is_success());
    assert_eq!(s.error(), None);

    let f = FunctionExecutionOutput::failure("g", "boom");
    assert!(!f.is_success());
    assert_eq!(f.error(), Some("boom"));
}

#[test]
fn execution_input_accepts_255_byte_name_and_rejects_256() {
    let ok = FunctionExecutionInput::new(&"a".repeat(255));
    assert!(ok.validate().is_ok());
    let too_long = FunctionExecutionInput::new(&"a".repeat(256));
    assert!(matches!(too_long.validate(), Err(Error::InvalidInput(_))));
}

#[test]
fn execution_input_messages_are_exact() {
    let msg = |name: &str| match FunctionExecutionInput::new(name).validate() {
        Err(Error::InvalidInput(m)) => m,
        other => panic!("expected InvalidInput, got {other:?}"),
    };
    assert_eq!(msg("  "), "function name is required");
    assert_eq!(msg("1bad"), "function name \"1bad\" must start with an ASCII letter");
    assert_eq!(msg("bad name"), "function name \"bad name\" may only contain ASCII letters, digits, '_' or '-'");
    assert_eq!(msg(&"a".repeat(256)), "function name must be <= 255 characters");
}

#[test]
fn has_and_len_track_registrations() {
    let mut reg = Registry::new();
    assert!(reg.is_empty());
    assert!(!reg.has("x"));
    reg.register("x", |_: FunctionInput| async { Ok::<_, std::io::Error>(FunctionOutput::default()) }).unwrap();
    assert_eq!(reg.len(), 1);
    assert!(reg.has("x"));
}

#[test]
fn duplicate_registration_keeps_first_handler() {
    let mut reg: Registry<u32> = Registry::new();
    reg.register("a", 1).unwrap();
    match reg.register("a", 2) {
        Err(Error::InvalidInput(m)) => assert_eq!(m, "handler already registered: a"),
        other => panic!("expected InvalidInput, got {other:?}"),
    }
    assert_eq!(*reg.get("a").unwrap(), 1);
    assert_eq!(reg.len(), 1);
}

#[test]
fn missing_handler_is_reported_by_debug_name() {
    let reg: Registry<u32> = Registry::new();
    match reg.get("ghost") {
        Err(Error::InvalidInput(m)) => assert_eq!(m, "function \"ghost\" not found in registry"),
        other => panic!("expected InvalidInput, got {other:?}"),
    }
}

#[test]
fn handler_error_becomes_pattern_stopped() {
    match dispatch_result("boom", Err("kaboom".to_string())) {
        Err(Error::PatternStopped { position, reason }) => {
            assert_eq!(position, "boom");
            assert!(reason.contains("kaboom"));
        },
        other => panic!("expected PatternStopped, got {other:?}"),
    }
    let out = dispatch_result("ok", Ok(FunctionOutput::with_result(pairs(&[("out", "HI")])))).unwrap();
    assert_eq!(out.result.get("out").map(String::as_str), Some("HI"));
}

#[test]
fn resolve_refuses_invalid_and_unknown_names() {
    let mut reg: Registry<u32> = Registry::new();
    reg.register("upper", 7).unwrap();
    let acts = FunctionActivities::new(reg);
    let bad = acts.resolve(&FunctionExecutionInput::new("1bad")).unwrap_err();
    assert_eq!(bad.failure_type, "InvalidFunctionInput");
    assert_eq!(bad.message, "invalid input: function name \"1bad\" must start with an ASCII letter");
    assert!(bad.non_retryable);
    let missing = acts.resolve(&FunctionExecutionInput::new("lower")).unwrap_err();
    assert_eq!(missing.failure_type, "FunctionNotFound");
    assert_eq!(missing.message, "invalid input: function \"lower\" not found in registry");
    assert_eq!(*acts.resolve(&FunctionExecutionInput::new("upper")).unwrap(), 7);
}

#[test]
fn execution_output_reports_handler_outcome() {
    let ok = execution_output(
        "f".to_string(),
        Ok(FunctionOutput::with_result(pairs(&[("x", "1")]))),
        Duration::from_millis(5),
        10,
        15,
    );
    assert!(ok.success);
    assert_eq!(ok.error, "");
    assert_eq!(ok.result.get("x").map(String::as_str), Some("1"));
    assert_eq!(ok.duration, Duration::from_millis(5));
    assert_eq!((ok.elapsed_nanos, ok.started_at_millis, ok.finished_at_millis), (5_000_000, 10, 15));
    let failed = execution_output("g".to_string(), Err("boom".to_string()), Duration::ZERO, 1, 2);
    assert!(!failed.success);
    assert_eq!(failed.error, "boom");
    assert!(failed.result.is_empty());
    assert!(failed.data.is_empty());
    assert_eq!(failed.elapsed_nanos, 0);
}

#[test]
fn nanos_saturate_at_u64_max() {
    assert_eq!(saturating_u64(1_500), 1_500);
    assert_eq!(saturating_u64(u64::MAX as u128 + 1), u64::MAX);
}

#[test]
fn unix_millis_reads_the_clock() {
    assert!(unix_millis() > 1_600_000_000_000);
}

#[test]
fn builders_set_fields() {
    let i = FunctionExecutionInput::new("fn")
        .with_args(pairs(&[("k", "v"), ("k", "w")]))
        .with_data(vec![1, 2, 3])
        .with_env(pairs(&[("API_KEY", "x")]))
        .with_work_dir("/tmp".to_string())
        .with_timeout(Duration::from_millis(1234))
        .with_labels(pairs(&[("trace", "1")]));
    assert_eq!(i.name, "fn");
    assert_eq!(i.args.get("k").map(String::as_str), Some("w"));
    assert_eq!(i.data, vec![1, 2, 3]);
    assert_eq!(i.env.get("API_KEY").map(String::as_str), Some("x"));
    assert_eq!(i.timeout, Duration::from_millis(1234));
    assert_eq!(i.labels.get("trace").map(String::as_str), Some("1"));
    let fi = i.into_function_input();
    assert_eq!(fi.work_dir, "/tmp");
    let plain = FunctionInput::new().with_data(vec![9]).with_work_dir("/w".to_string());
    assert_eq!(plain.data, vec![9]);
    assert!(plain.args.is_empty());
}

#[test]
fn clock_readings_convert_to_whole_millis() {
    assert_eq!(millis_since_epoch(None), 0);
    assert_eq!(millis_since_epoch(Some(Duration::from_micros(1_500_999))), 1_500);
}

#[test]
fn execution_outputs_carry_no_duration() {
    assert_eq!(FunctionExecutionOutput::success("f", FunctionOutput::default()).duration, Duration::ZERO);
    assert_eq!(FunctionExecutionOutput::failure("f", "x").duration, Duration::ZERO);
}

#[test]
fn registering_a_new_name_grows_the_registry() {
    let mut reg: Registry<u32> = Registry::new();
    reg.register("a", 1).unwrap();
    reg.register("b", 2).unwrap();
    assert_eq!(reg.len(), 2);
}
