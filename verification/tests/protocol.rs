use serde_json::Value;
use toolbox::server::{classify_message, message_error, MessageClass, INVALID_REQUEST, PARSE_ERROR};

fn value(msg: &str) -> Value {
    serde_json::from_str(msg).unwrap()
}

/// The request and notification types need string `jsonrpc` and `method`.
fn fits_message_type(msg: &str) -> bool {
    let v = value(msg);
    v["jsonrpc"].is_string() && v["method"].is_string()
}

#[test]
fn parses_request_with_params() {
    let msg = r#"{"jsonrpc":"2.0","id":1,"method":"tools/call","params":{"name":"man_page"}}"#;
    assert_eq!(classify_message(msg), MessageClass::Request);
    assert!(fits_message_type(msg));
    assert_eq!(message_error(MessageClass::Request, true), None);
    let v = value(msg);
    assert_eq!(v["jsonrpc"], "2.0");
    assert_eq!(v["id"], 1);
    assert_eq!(v["method"], "tools/call");
    assert!(v.get("params").is_some());
}

#[test]
fn parses_request_without_params() {
    let msg = r#"{"jsonrpc":"2.0","id":"abc","method":"tools/list"}"#;
    assert_eq!(classify_message(msg), MessageClass::Request);
    assert_eq!(value(msg)["id"], "abc");
    assert!(value(msg).get("params").is_none());
}

#[test]
fn parses_notification() {
    let msg = r#"{"jsonrpc":"2.0","method":"notifications/initialized"}"#;
    assert_eq!(classify_message(msg), MessageClass::Notification);
    assert_eq!(value(msg)["method"], "notifications/initialized");
}

#[test]
fn rejects_invalid_json() {
    assert_eq!(classify_message("not json"), MessageClass::ParseError);
    let (code, message) = message_error(MessageClass::ParseError, false).unwrap();
    assert_eq!(code, PARSE_ERROR);
    assert_eq!(message, "parsing json failed");
}

#[test]
fn rejects_request_missing_method() {
    let msg = r#"{"jsonrpc":"2.0","id":1}"#;
    let class = classify_message(msg);
    assert_eq!(class, MessageClass::Request);
    assert!(!fits_message_type(msg));
    assert_eq!(message_error(class, false).unwrap().0, INVALID_REQUEST);
}

#[test]
fn rejects_notification_missing_method() {
    let msg = r#"{"jsonrpc":"2.0"}"#;
    let class = classify_message(msg);
    assert_eq!(class, MessageClass::Notification);
    assert!(!fits_message_type(msg));
    assert_eq!(message_error(class, false).unwrap(), (INVALID_REQUEST, "invalid request"));
}

#[test]
fn rejects_request_missing_jsonrpc() {
    let msg = r#"{"id":1,"method":"tools/list"}"#;
    let class = classify_message(msg);
    assert_eq!(class, MessageClass::Request);
    assert!(!fits_message_type(msg));
    assert_eq!(message_error(class, false).unwrap().0, INVALID_REQUEST);
}

#[test]
fn id_zero_is_a_request() {
    let msg = r#"{"jsonrpc":"2.0","id":0,"method":"ping"}"#;
    assert_eq!(classify_message(msg), MessageClass::Request);
    assert_eq!(value(msg)["id"], 0);
}

#[test]
fn id_null_is_a_notification() {
    // an `id` member, even null, makes the message a request
    let msg = r#"{"jsonrpc":"2.0","id":null,"method":"ping"}"#;
    assert_eq!(classify_message(msg), MessageClass::Request);
}

#[test]
fn non_object_json_has_no_id() {
    assert_eq!(classify_message("[1, 2]"), MessageClass::Notification);
    assert_eq!(classify_message("  {\"id\": 3} "), MessageClass::Request);
    assert_eq!(classify_message("{\"id\": 3} x"), MessageClass::ParseError);
}
