use altair_wf::error::Error;

#[test]
fn invalid_input_renders() {
    let e = Error::InvalidInput("tasks must be non-empty".into());
    assert_eq!(e.message(), "invalid input: tasks must be non-empty");
}

#[test]
fn pattern_stopped_renders_position_and_reason() {
    let e = Error::PatternStopped { position: "3".into(), reason: "task reported failure".into() };
    let s = e.message();
    assert!(s.contains("step 3"));
    assert!(s.contains("task reported failure"));
}

#[test]
fn activity_source_can_be_downcast_to_concrete_type() {
    let io = std::io::Error::other("network blip");
    let err = Error::activity("MyActs::ping", io);
    match err {
        Error::Activity { source, .. } => {
            let recovered = source.0.downcast_ref::<std::io::Error>().expect("downcast to io::Error");
            assert_eq!(recovered.kind(), std::io::ErrorKind::Other);
            assert!(recovered.to_string().contains("network blip"));
        },
        other => panic!("expected Error::Activity, got {other:?}"),
    }
}

#[test]
fn activity_error_renders_name_and_source() {
    let err = Error::activity("MyActs::ping", std::io::Error::other("network blip"));
    assert_eq!(err.message(), "activity 'MyActs::ping' failed: network blip");
}

#[test]
fn invalid_builds_invalid_input() {
    assert!(matches!(Error::invalid("x".to_string()), Error::InvalidInput(m) if m == "x"));
}
