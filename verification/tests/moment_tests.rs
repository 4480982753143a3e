use snouty::moment::{is_moment_format, parse};
use snouty::params::Value;

#[test]
fn is_moment_format_detects_valid() {
    assert!(is_moment_format("Moment.from({ foo: 1 })"));
    assert!(is_moment_format("  Moment.from({ foo: 1 })  "));
}

#[test]
fn is_moment_format_rejects_invalid() {
    assert!(!is_moment_format("{}"));
    assert!(!is_moment_format("Moment.from("));
    assert!(!is_moment_format("{ foo: 1 }"));
}

#[test]
fn parse_simple() {
    let input = r#"Moment.from({ session_id: "abc123" })"#;
    let params = parse(input).unwrap();

    assert_eq!(
        params.get("antithesis.debugging.session_id"),
        Some(&Value::Str("abc123".to_string()))
    );
}

#[test]
fn parse_full_moment() {
    let input = r#"Moment.from({ session_id: "f89d5c11f5e3bf5e4bb3641809800cee-44-22", input_hash: "6057726200491963783", vtime: 329.8037810830865 })"#;
    let params = parse(input).unwrap();

    assert_eq!(
        params.get("antithesis.debugging.session_id"),
        Some(&Value::Str("f89d5c11f5e3bf5e4bb3641809800cee-44-22".to_string()))
    );
    assert_eq!(
        params.get("antithesis.debugging.input_hash"),
        Some(&Value::Str("6057726200491963783".to_string()))
    );
    // Numbers are converted to strings
    assert_eq!(
        params.get("antithesis.debugging.vtime"),
        Some(&Value::Str("329.8037810830865".to_string()))
    );
}

#[test]
fn parse_converts_numbers_to_strings() {
    let input = r#"Moment.from({ count: 42, ratio: 3.14 })"#;
    let params = parse(input).unwrap();

    assert_eq!(
        params.get("antithesis.debugging.count"),
        Some(&Value::Str("42".to_string()))
    );
    assert_eq!(
        params.get("antithesis.debugging.ratio"),
        Some(&Value::Str("3.14".to_string()))
    );
}

#[test]
fn parse_rejects_invalid_format() {
    assert!(parse("{}").is_err());
    assert!(parse("not moment format").is_err());
    assert!(parse("Moment.from(").is_err());
}

#[test]
fn parse_rejects_invalid_js() {
    assert!(parse("Moment.from({ invalid })").is_err());
}

#[test]
fn parse_namespaces_exactly_one_key() {
    let params = parse(r#"Moment.from({ session_id: "abc123" })"#).unwrap();
    assert_eq!(params.as_map().len(), 1);
    assert_eq!(params.as_map()[0].0, "antithesis.debugging.session_id");
    assert_eq!(params.get("session_id"), None);
}

#[test]
fn detection_agrees_with_trimmed_input() {
    let samples = [
        "Moment.from({ a: 1 })",
        "   Moment.from({ a: 1 })\n\t",
        "nothing like it",
        "  { a: 1 }  ",
        "Moment.from(",
    ];
    for s in samples {
        assert_eq!(is_moment_format(s), is_moment_format(s.trim()));
    }
}

#[test]
fn non_matching_input_rejected_by_predicate_and_parser() {
    let bad = ["", "{ vtime: 1 }", "Moment.of({ a: 1 })", "Moment.from({ a: 1 }"];
    for s in bad {
        assert!(!is_moment_format(s));
        assert!(parse(s).is_err());
    }
}

#[test]
fn parse_passes_non_numeric_values_through() {
    let params = parse(r#"Moment.from({ flag: true, name: "x", missing: null })"#).unwrap();
    assert_eq!(params.get("antithesis.debugging.flag"), Some(&Value::Bool(true)));
    assert_eq!(params.get("antithesis.debugging.name"), Some(&Value::Str("x".to_string())));
    assert_eq!(params.get("antithesis.debugging.missing"), Some(&Value::Null));
}
