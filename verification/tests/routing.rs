use toolbox::search_web::{format_result, format_results, SearchConfig, SearchHit};
use toolbox::server::{
    all_tools, route, same_text, tool_named, Refusal, Route, Tool, INVALID_PARAMS, INVALID_REQUEST,
    METHOD_NOT_FOUND, PARSE_ERROR, PROTOCOL_VERSION, SERVER_NAME, SERVER_VERSION,
};

#[test]
fn initialize_returns_server_info() {
    assert_eq!(route("initialize", None), Route::Initialize);
    assert_eq!(route("tools/list", None), Route::ListTools);
    assert_eq!(PROTOCOL_VERSION, "2025-11-25");
    assert_eq!(SERVER_NAME, "toolbox");
    assert_eq!(SERVER_VERSION, "0.1.0");
}

#[test]
fn tools_list_returns_tools() {
    let names: Vec<&str> = all_tools().iter().map(|t| t.name()).collect();
    assert_eq!(names.len(), 6);
    assert_eq!(names, vec!["man_page", "fetch_url", "read_doc", "search_doc", "search_web", "triage_doc"]);
}

#[test]
fn tool_calls_route_by_name() {
    assert_eq!(route("tools/call", Some("man_page")), Route::CallTool(Tool::ManPage));
    assert_eq!(route("tools/call", Some("triage_doc")), Route::CallTool(Tool::TriageDoc));
    assert_eq!(tool_named("search_web"), Some(Tool::SearchWeb));
    assert_eq!(tool_named("Search_web"), None);
}

#[test]
fn tools_call_unknown_tool() {
    let r = route("tools/call", Some("nonexistent"));
    assert_eq!(r, Route::Refuse(Refusal::UnknownTool));
    assert_eq!(Refusal::UnknownTool.code(), INVALID_PARAMS);
    assert_eq!(Refusal::UnknownTool.message(), "unknown tool");
    assert!(!Refusal::UnknownTool.echoes_id());
}

#[test]
fn tools_call_missing_params() {
    let r = route("tools/call", None);
    assert_eq!(r, Route::Refuse(Refusal::BadParams));
    assert_eq!(Refusal::BadParams.code(), -32602);
    assert_eq!(Refusal::BadParams.message(), "bad params");
}

#[test]
fn server_unknown_method() {
    assert_eq!(route("foo/bar", None), Route::Refuse(Refusal::MethodNotFound));
    assert_eq!(route("Initialize", None), Route::Refuse(Refusal::MethodNotFound));
    assert_eq!(Refusal::MethodNotFound.code(), METHOD_NOT_FOUND);
    assert_eq!(METHOD_NOT_FOUND, -32601);
    assert_eq!(Refusal::MethodNotFound.message(), "method not found");
    assert!(Refusal::MethodNotFound.echoes_id());
    assert_eq!(PARSE_ERROR, -32700);
    assert_eq!(INVALID_REQUEST, -32600);
}

#[test]
fn text_comparison_is_exact() {
    assert!(same_text("é", "é"));
    assert!(!same_text("e", "é"));
    assert!(!same_text("ab", "abc"));
    assert!(same_text("", ""));
}

fn hit(t: &str, c: &str, u: &str) -> SearchHit {
    SearchHit { title: t.to_string(), content: c.to_string(), url: u.to_string() }
}

#[test]
fn search_results_are_numbered_and_capped() {
    assert_eq!(format_result(&hit("T", "C", "U"), 0), "1. T\n   C\n   U");
    let config = SearchConfig::default();
    assert_eq!(config.num_results(), 5);
    assert_eq!(config.url(), "http://172.17.0.1:8888");
    let rs: Vec<SearchHit> = (0..7).map(|i| hit(&format!("t{i}"), "c", "u")).collect();
    let out = format_results(&rs, &config);
    assert!(out.starts_with("1. t0\n   c\n   u\n\n2. t1"), "{out}");
    assert!(out.ends_with("5. t4\n   c\n   u"), "{out}");
    assert_eq!(out.matches("\n\n").count(), 4);
    assert_eq!(format_results(&Vec::new(), &config), "");
    let three = SearchConfig::new(Some("http://engine:1".to_string()), Some(3));
    assert_eq!(three.url(), "http://engine:1");
    assert_eq!(three.num_results(), 3);
    let out = format_results(&rs, &three);
    assert!(out.matches("\n\n").count() < 3, "{out}");
    assert!(out.ends_with("3. t2\n   c\n   u"), "{out}");
    let unset = SearchConfig::new(None, None);
    assert_eq!(unset.url(), "http://172.17.0.1:8888");
    assert_eq!(unset.num_results(), 5);
}
