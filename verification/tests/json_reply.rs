use toolbox::llm::{extract_json, json_cut_is_defined, json_object_text, reply_content};

#[test]
fn bare_json_parses() {
    let v = extract_json(r#"{"a": 1}"#).unwrap();
    assert_eq!(v["a"], 1);
}

#[test]
fn nested_object_is_captured_whole() {
    let v = extract_json(r#"{"a": {"b": 2}}"#).unwrap();
    assert_eq!(v["a"]["b"], 2);
}

#[test]
fn fenced_json_with_language_tag() {
    let text = "```json\n{\"regions\": [], \"continuation_note\": \"n/a\"}\n```";
    let v = extract_json(text).unwrap();
    assert!(v["regions"].is_array());
    assert_eq!(v["continuation_note"], "n/a");
}

#[test]
fn fenced_json_without_language_tag() {
    let text = "```\n{\"a\": 1}\n```";
    let v = extract_json(text).unwrap();
    assert_eq!(v["a"], 1);
}

#[test]
fn prose_around_json_is_ignored() {
    let text = "Here you go:\n  {\"a\": 1}\nLet me know if you need more.";
    let v = extract_json(text).unwrap();
    assert_eq!(v["a"], 1);
}

#[test]
fn fenced_prose_then_json() {
    let text = "```\nSure, here it is:\n{\"a\": 1}\n```";
    let v = extract_json(text).unwrap();
    assert_eq!(v["a"], 1);
}

#[test]
fn unclosed_single_fence_falls_back_to_whole_text() {
    let text = "```json\n{\"a\": 1}";
    let v = extract_json(text).unwrap();
    assert_eq!(v["a"], 1);
}

#[test]
fn no_braces_is_error() {
    let err = extract_json("no json here").unwrap_err();
    assert!(err.contains("no JSON object"), "unexpected error: {err}");
}

#[test]
fn empty_input_is_error() {
    let err = extract_json("").unwrap_err();
    assert!(err.contains("no JSON object"), "unexpected error: {err}");
}

#[test]
fn opening_without_closing_brace_is_error() {
    let err = extract_json(r#"{"a": 1"#).unwrap_err();
    assert!(err.contains("no closing brace"), "unexpected error: {err}");
}

#[test]
fn malformed_json_is_parse_error() {
    let err = extract_json(r#"{"a":}"#).unwrap_err();
    assert!(!err.contains("no JSON object"), "unexpected error: {err}");
}

// ----- further cases -----

#[test]
fn cut_runs_from_first_open_to_last_close_brace() {
    assert_eq!(json_object_text("x {a} y {b} z").unwrap(), "{a} y {b}");
    assert_eq!(json_object_text("```\n{1}\n```\n{2}").unwrap(), "{1}");
    assert_eq!(json_object_text("é{ü}é").unwrap(), "{ü}");
    assert_eq!(json_object_text("no close {").unwrap_err(), "no closing brace found");
    assert_eq!(json_object_text("}").unwrap_err(), "no JSON object found");
}

#[test]
fn parse_errors_carry_the_parser_message() {
    let err = extract_json("{\"a\": }").unwrap_err();
    assert_eq!(err, serde_json::from_str::<serde_json::Value>("{\"a\": }").unwrap_err().to_string());
    assert!(extract_json("x {\"k\": [1, 2]} y").unwrap()["k"].is_array());
}

#[test]
fn cuts_that_cross_their_start_are_undefined() {
    assert!(!json_cut_is_defined("} {"));
    // a `}` just ahead of the first `{` leaves an empty cut
    assert!(json_cut_is_defined("}{"));
    assert_eq!(json_object_text("}{").unwrap(), "");
    let err = extract_json("}{").unwrap_err();
    assert_eq!(err, serde_json::from_str::<serde_json::Value>("").unwrap_err().to_string());
    assert!(!json_cut_is_defined("````"));
    assert!(json_cut_is_defined("``` ```"));
    assert!(json_cut_is_defined("{}"));
    assert!(json_cut_is_defined(""));
}

#[test]
fn completion_text_is_the_first_choice() {
    assert_eq!(reply_content(vec![]).unwrap_err(), "llm returned no choices");
    assert_eq!(reply_content(vec![None, Some("x".to_string())]).unwrap_err(), "llm returned no content");
    assert_eq!(reply_content(vec![Some("a".to_string()), Some("b".to_string())]).unwrap(), "a");
}
