use altair_wf::helpers::{generate_parameter_combinations, substitute_template, FailureStrategy};
use altair_wf::strmap::StringMap;

fn strings(items: &[&str]) -> Vec<String> {
    items.iter().map(ToString::to_string).collect()
}

#[test]
fn substitute_template_item_and_index() {
    let params = StringMap::new();
    let out = substitute_template("hello {{item}} at {{index}}", "world", 3, &params);
    assert_eq!(out, "hello world at 3");
}

#[test]
fn substitute_template_named_params_both_syntaxes() {
    let mut params = StringMap::new();
    params.insert("region".to_string(), "us-east-1".to_string());
    let out = substitute_template("{{region}} or {{.region}}", "", 0, &params);
    assert_eq!(out, "us-east-1 or us-east-1");
}

#[test]
fn substitute_template_unknown_placeholder_is_left_alone() {
    let params = StringMap::new();
    let out = substitute_template("{{mystery}}", "x", 0, &params);
    assert_eq!(out, "{{mystery}}");
}

#[test]
fn substitute_template_multi_digit_index_and_repeats() {
    let params = StringMap::new();
    let out = substitute_template("{{index}}-{{item}}-{{index}}", "a", 1207, &params);
    assert_eq!(out, "1207-a-1207");
    let out = substitute_template("no placeholders here", "a", 0, &params);
    assert_eq!(out, "no placeholders here");
}

#[test]
fn generate_combinations_empty_yields_empty() {
    let params: StringMap<Vec<String>> = StringMap::new();
    let out = generate_parameter_combinations(&params);
    assert!(out.is_empty());
}

#[test]
fn generate_combinations_order_is_deterministic_across_calls() {
    let mut params: StringMap<Vec<String>> = StringMap::new();
    for key in ["zebra", "alpha", "mango", "delta", "papaya"] {
        params.insert(key.to_string(), vec!["1".into(), "2".into()]);
    }
    let first = generate_parameter_combinations(&params);
    let second = generate_parameter_combinations(&params);
    assert_eq!(first, second);

    let combo = first.first().expect("at least one combination");
    let first_keys: Vec<&String> = (0..combo.len()).map(|i| combo.key_at(i)).collect();
    let mut expected: Vec<&str> = vec!["alpha", "delta", "mango", "papaya", "zebra"];
    expected.sort_unstable();
    let actual: Vec<&str> = first_keys.iter().map(|s| s.as_str()).collect();
    let mut actual_sorted = actual.clone();
    actual_sorted.sort_unstable();
    assert_eq!(actual_sorted, expected);
}

#[test]
fn generate_combinations_two_keys_cartesian_size() {
    let mut params: StringMap<Vec<String>> = StringMap::new();
    params.insert("a".to_string(), vec!["1".into(), "2".into()]);
    params.insert("b".to_string(), vec!["x".into(), "y".into(), "z".into()]);
    let out = generate_parameter_combinations(&params);
    assert_eq!(out.len(), 6); // 2 * 3
    for combo in &out {
        assert!(combo.contains_key("a"));
        assert!(combo.contains_key("b"));
    }
}

#[test]
fn combinations_sort_keys_and_vary_the_first_slowest() {
    let mut params: StringMap<Vec<String>> = StringMap::new();
    params.insert("tier".to_string(), strings(&["std", "premium"]));
    params.insert("region".to_string(), strings(&["us", "eu", "ap"]));
    let out = generate_parameter_combinations(&params);
    let rows: Vec<(String, String)> = out
        .iter()
        .map(|c| (c.get("region").unwrap().clone(), c.get("tier").unwrap().clone()))
        .collect();
    let expected: Vec<(String, String)> = [
        ("us", "std"),
        ("us", "premium"),
        ("eu", "std"),
        ("eu", "premium"),
        ("ap", "std"),
        ("ap", "premium"),
    ]
    .iter()
    .map(|(a, b)| (a.to_string(), b.to_string()))
    .collect();
    assert_eq!(rows, expected);
    for c in &out {
        assert_eq!(c.key_at(0), "region");
        assert_eq!(c.key_at(1), "tier");
    }
}

#[test]
fn combinations_ignore_insertion_order() {
    let mut a: StringMap<Vec<String>> = StringMap::new();
    a.insert("y".to_string(), strings(&["1", "2"]));
    a.insert("x".to_string(), strings(&["3"]));
    let mut b: StringMap<Vec<String>> = StringMap::new();
    b.insert("x".to_string(), strings(&["3"]));
    b.insert("y".to_string(), strings(&["1", "2"]));
    assert_eq!(generate_parameter_combinations(&a), generate_parameter_combinations(&b));
}

#[test]
fn combinations_with_an_empty_value_list_are_empty() {
    let mut params: StringMap<Vec<String>> = StringMap::new();
    params.insert("a".to_string(), strings(&["1"]));
    params.insert("b".to_string(), vec![]);
    assert!(generate_parameter_combinations(&params).is_empty());
}

#[test]
fn failure_strategy_default_and_wire_names() {
    assert_eq!(FailureStrategy::default(), FailureStrategy::Continue);
    assert_eq!(FailureStrategy::FailFast.wire_name(), "fail_fast");
    assert_eq!(FailureStrategy::Continue.wire_name(), "continue");
    assert_eq!(FailureStrategy::from_wire(""), Ok(FailureStrategy::Continue));
    assert_eq!(FailureStrategy::from_wire("continue"), Ok(FailureStrategy::Continue));
    assert_eq!(FailureStrategy::from_wire("fail_fast"), Ok(FailureStrategy::FailFast));
    for s in [FailureStrategy::Continue, FailureStrategy::FailFast] {
        assert_eq!(FailureStrategy::from_wire(s.wire_name()), Ok(s));
    }
    assert_eq!(
        FailureStrategy::from_wire("sometimes"),
        Err("unknown failure_strategy 'sometimes', expected 'continue' or 'fail_fast'".to_string())
    );
}
