use snouty::error::Error;
use snouty::get_params;
use snouty::params::{Params, Value};

fn strs(tokens: &[&str]) -> Vec<String> {
    tokens.iter().map(|t| t.to_string()).collect()
}

#[test]
fn from_args_preserves_order_and_accumulates_repeats() {
    let params = Params::from_args(&strs(&["--a", "1", "--b", "2", "--a", "3"])).unwrap();
    assert_eq!(
        params.get("a"),
        Some(&Value::StrList(vec!["1".to_string(), "3".to_string()]))
    );
    assert_eq!(params.get("b"), Some(&Value::Str("2".to_string())));
    // first occurrence order is kept
    assert_eq!(params.as_map()[0].0, "a");
    assert_eq!(params.as_map()[1].0, "b");
    assert_eq!(params.as_map().len(), 2);
}

#[test]
fn from_args_joins_a_run_of_value_tokens() {
    let params = Params::from_args(&strs(&["--msg", "hello", "wide", "world"])).unwrap();
    assert_eq!(params.get("msg"), Some(&Value::Str("hello wide world".to_string())));
}

#[test]
fn from_args_allows_values_with_single_dash() {
    let params = Params::from_args(&strs(&["--offset", "-5"])).unwrap();
    assert_eq!(params.get("offset"), Some(&Value::Str("-5".to_string())));
}

#[test]
fn from_args_rejects_malformed_streams() {
    assert!(Params::from_args(&strs(&[])).is_err());
    assert!(Params::from_args(&strs(&["--key"])).is_err());
    assert!(Params::from_args(&strs(&["--a", "1", "--b"])).is_err());
    assert!(Params::from_args(&strs(&["--a", "--b", "1"])).is_err());
    assert!(Params::from_args(&strs(&["stray", "--a", "1"])).is_err());
}

#[test]
fn ingestion_rejects_non_object_documents() {
    for doc in ["[1, 2, 3]", "42", "\"text\"", "true", "null"] {
        match Params::from_json5_str(doc) {
            Err(Error::InvalidArgs(_)) => {}
            other => panic!("expected InvalidArgs for {doc}, got {other:?}"),
        }
    }
    assert!(Params::from_json5_str("{ not json at all").is_err());
}

#[test]
fn ingestion_preserves_literal_value_types() {
    // JSON5: comments, unquoted keys, trailing commas
    let params = Params::from_json5_str(
        "{ name: \"run\", count: 7, deep: { a: 1 }, on: true, // note\n }",
    )
    .unwrap();
    assert_eq!(params.get("name"), Some(&Value::Str("run".to_string())));
    assert_eq!(params.get("count"), Some(&Value::Num("7".to_string())));
    assert_eq!(params.get("on"), Some(&Value::Bool(true)));
    assert_eq!(params.get("deep"), Some(&Value::Json("{\"a\":1}".to_string())));
}

#[test]
fn merge_with_empty_store_is_identity() {
    let x = strs(&["--a", "1", "--b", "2"]);
    let mut merged = Params::from_args(&x).unwrap();
    merged.merge(Params::from_empty());
    assert_eq!(merged.as_map(), Params::from_args(&x).unwrap().as_map());

    let doc = "{ a: \"1\", b: 2 }";
    let mut empty = Params::from_empty();
    empty.merge(Params::from_json5_str(doc).unwrap());
    assert_eq!(empty.as_map(), Params::from_json5_str(doc).unwrap().as_map());
}

#[test]
fn merge_precedence_favors_the_overriding_store() {
    let a = Params::from_args(&strs(&["--k", "fromargs", "--only_a", "1"])).unwrap();
    let mut merged = Params::from_json5_str("{ k: \"fromjson\", only_b: \"2\" }").unwrap();
    merged.merge(a);
    assert_eq!(merged.get("k"), Some(&Value::Str("fromargs".to_string())));
    assert_eq!(merged.get("only_a"), Some(&Value::Str("1".to_string())));
    assert_eq!(merged.get("only_b"), Some(&Value::Str("2".to_string())));
}

#[test]
fn get_params_requires_at_least_one_source() {
    match get_params(None, &strs(&[]), false) {
        Err(Error::InvalidArgs(m)) => assert_eq!(m, "no parameters provided"),
        other => panic!("expected InvalidArgs, got {other:?}"),
    }
}

#[test]
fn get_params_merges_args_over_stdin() {
    let params = get_params(
        Some("{ k: \"stdin\", s: \"keep\" }"),
        &strs(&["--k", "args"]),
        false,
    )
    .unwrap();
    assert_eq!(params.get("k"), Some(&Value::Str("args".to_string())));
    assert_eq!(params.get("s"), Some(&Value::Str("keep".to_string())));
}

#[test]
fn get_params_detects_snapshots_only_when_enabled() {
    let snap = "Moment.from({ vtime: 329.8037810830865 })";
    let with = get_params(Some(snap), &strs(&[]), true).unwrap();
    assert_eq!(
        with.get("antithesis.debugging.vtime"),
        Some(&Value::Str("329.8037810830865".to_string()))
    );
    // without snapshot support the same text is not a JSON5 object
    assert!(get_params(Some(snap), &strs(&[]), false).is_err());
}

#[test]
fn debug_validation_names_the_missing_key() {
    let store = Params::from_args(&strs(&[
        "--antithesis.debugging.session_id",
        "abc",
        "--antithesis.debugging.vtime",
        "329.8",
    ]))
    .unwrap();
    match store.validate_debugging_params() {
        Err(Error::InvalidArgs(m)) => {
            assert_eq!(m, "missing required parameter: antithesis.debugging.input_hash")
        }
        other => panic!("expected InvalidArgs, got {other:?}"),
    }
}

#[test]
fn debug_validation_accepts_a_complete_store() {
    let store = Params::from_args(&strs(&[
        "--antithesis.debugging.session_id",
        "f89d5c11f5e3bf5e4bb3641809800cee-44-22",
        "--antithesis.debugging.input_hash",
        "6057726200491963783",
        "--antithesis.debugging.vtime",
        "329.8037810830865",
    ]))
    .unwrap();
    assert!(store.validate_debugging_params().is_ok());
}

#[test]
fn debug_validation_requires_numeric_vtime() {
    let store = Params::from_args(&strs(&[
        "--antithesis.debugging.session_id",
        "abc",
        "--antithesis.debugging.input_hash",
        "123",
        "--antithesis.debugging.vtime",
        "soon",
    ]))
    .unwrap();
    match store.validate_debugging_params() {
        Err(Error::InvalidArgs(m)) => {
            assert_eq!(m, "parameter must be numeric: antithesis.debugging.vtime")
        }
        other => panic!("expected InvalidArgs, got {other:?}"),
    }
}

#[test]
fn test_validation_names_missing_keys_and_checks_duration() {
    let empty = Params::from_empty();
    match empty.validate_test_params() {
        Err(Error::InvalidArgs(m)) => {
            assert_eq!(m, "missing required parameter: antithesis.config_image")
        }
        other => panic!("expected InvalidArgs, got {other:?}"),
    }

    let good = Params::from_args(&strs(&[
        "--antithesis.config_image",
        "config:latest",
        "--antithesis.images",
        "app:latest",
        "--antithesis.duration",
        "30",
    ]))
    .unwrap();
    assert!(good.validate_test_params().is_ok());
    assert_eq!(good.duration_minutes(), Some(30));

    let bad = Params::from_args(&strs(&[
        "--antithesis.config_image",
        "config:latest",
        "--antithesis.images",
        "app:latest",
        "--antithesis.duration",
        "half an hour",
    ]))
    .unwrap();
    match bad.validate_test_params() {
        Err(Error::InvalidArgs(m)) => {
            assert_eq!(m, "parameter must be a non-negative integer: antithesis.duration")
        }
        other => panic!("expected InvalidArgs, got {other:?}"),
    }
    assert_eq!(bad.duration_minutes(), None);
}

#[test]
fn redaction_masks_sensitive_keys_and_leaves_the_store_alone() {
    let store = Params::from_args(&strs(&[
        "--antithesis.report.api_token",
        "secret",
        "--antithesis.test_name",
        "nightly",
    ]))
    .unwrap();
    let shown = store.to_redacted_map();
    assert_eq!(
        shown.get("antithesis.report.api_token"),
        Some(&Value::Str("[redacted]".to_string()))
    );
    assert_eq!(shown.get("antithesis.test_name"), Some(&Value::Str("nightly".to_string())));
    // the underlying store still carries the real value
    assert_eq!(
        store.get("antithesis.report.api_token"),
        Some(&Value::Str("secret".to_string()))
    );
}

#[test]
fn duration_minutes_rejects_values_that_do_not_fit() {
    let big = Params::from_args(&strs(&["--antithesis.duration", "99999999999999999999"]))
        .unwrap();
    assert_eq!(big.duration_minutes(), None);
    let max = Params::from_args(&strs(&["--antithesis.duration", "18446744073709551615"]))
        .unwrap();
    assert_eq!(max.duration_minutes(), Some(u64::MAX));
}

#[test]
fn insert_overwrites_and_insert_or_append_accumulates() {
    let mut p = Params::from_empty();
    p.insert("k", Value::Str("one".to_string()));
    p.insert("k", Value::Str("two".to_string()));
    assert_eq!(p.get("k"), Some(&Value::Str("two".to_string())));
    assert_eq!(p.as_map().len(), 1);

    p.insert_or_append("k", "three".to_string());
    assert_eq!(
        p.get("k"),
        Some(&Value::StrList(vec!["two".to_string(), "three".to_string()]))
    );
}
