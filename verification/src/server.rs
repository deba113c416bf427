//! Request routing of the JSON-RPC server: which method is answered how,
//! which tool a call names, and the errors for everything else.

use vstd::prelude::*;
use vstd::string::*;
use vstd::utf8::*;
use crate::llm::json_parse;

verus! {

broadcast use vstd::utf8::group_utf8_lib;

/// JSON-RPC error code: the message is not JSON.
pub const PARSE_ERROR: i32 = -32700;
/// JSON-RPC error code: the message is JSON but not a request.
pub const INVALID_REQUEST: i32 = -32600;
/// JSON-RPC error code: no such method.
pub const METHOD_NOT_FOUND: i32 = -32601;
/// JSON-RPC error code: the method's parameters are wrong.
pub const INVALID_PARAMS: i32 = -32602;
/// JSON-RPC error code: the server failed.
pub const INTERNAL_ERROR: i32 = -32603;

/// MCP protocol revision the server speaks.
pub const PROTOCOL_VERSION: &'static str = "2025-11-25";
/// Name the server reports.
pub const SERVER_NAME: &'static str = "toolbox";
/// Version the server reports.
pub const SERVER_VERSION: &'static str = "0.1.0";

/// The tools the server offers.
#[derive(Clone, Copy, Debug, PartialEq, Eq, Structural)]
pub enum Tool {
    ManPage,
    FetchUrl,
    ReadDoc,
    SearchDoc,
    SearchWeb,
    TriageDoc,
}

/// The name a tool is called by.
pub open spec fn tool_name_spec(t: Tool) -> Seq<char> {
    match t {
        Tool::ManPage => "man_page"@,
        Tool::FetchUrl => "fetch_url"@,
        Tool::ReadDoc => "read_doc"@,
        Tool::SearchDoc => "search_doc"@,
        Tool::SearchWeb => "search_web"@,
        Tool::TriageDoc => "triage_doc"@,
    }
}

/// The tools in the order `tools/list` gives them.
pub open spec fn tool_order() -> Seq<Tool> {
    seq![Tool::ManPage, Tool::FetchUrl, Tool::ReadDoc, Tool::SearchDoc, Tool::SearchWeb, Tool::TriageDoc]
}

impl Tool {
    /// The name the tool is called by.
    pub fn name(&self) -> (s: &'static str)
        ensures
            s@ == tool_name_spec(*self),
    {
        match self {
            Tool::ManPage => "man_page",
            Tool::FetchUrl => "fetch_url",
            Tool::ReadDoc => "read_doc",
            Tool::SearchDoc => "search_doc",
            Tool::SearchWeb => "search_web",
            Tool::TriageDoc => "triage_doc",
        }
    }
}

/// All tools, in the order `tools/list` gives them.
pub fn all_tools() -> (v: Vec<Tool>)
    ensures
        v@ == tool_order(),
{
    let v = vec![Tool::ManPage, Tool::FetchUrl, Tool::ReadDoc, Tool::SearchDoc, Tool::SearchWeb, Tool::TriageDoc];
    assert(v@ =~= tool_order());
    v
}

/// Whether two strings are the same, compared by their bytes.
pub fn same_text(a: &str, b: &str) -> (r: bool)
    ensures
        r == (a@ == b@),
{
    let x = a.as_bytes();
    let y = b.as_bytes();
    proof {
        assert(x@ == encode_utf8(a@));
        assert(y@ == encode_utf8(b@));
        assert(a@ == decode_utf8(x@));
        assert(b@ == decode_utf8(y@));
    }
    if x.len() != y.len() {
        return false;
    }
    let mut i: usize = 0;
    while i < x.len()
        invariant
            x@ == encode_utf8(a@),
            y@ == encode_utf8(b@),
            x@.len() == y@.len(),
            i <= x@.len(),
            forall|j: int| 0 <= j < i ==> x@[j] == y@[j],
        decreases x@.len() - i,
    {
        if x[i] != y[i] {
            assert(x@[i as int] != y@[i as int]);
            return false;
        }
        i = i + 1;
    }
    assert(x@ =~= y@);
    true
}

/// The tool called `name`, if there is one.
pub open spec fn tool_named_spec(name: Seq<char>) -> Option<Tool> {
    if name == tool_name_spec(Tool::ManPage) {
        Some(Tool::ManPage)
    } else if name == tool_name_spec(Tool::FetchUrl) {
        Some(Tool::FetchUrl)
    } else if name == tool_name_spec(Tool::ReadDoc) {
        Some(Tool::ReadDoc)
    } else if name == tool_name_spec(Tool::SearchDoc) {
        Some(Tool::SearchDoc)
    } else if name == tool_name_spec(Tool::SearchWeb) {
        Some(Tool::SearchWeb)
    } else if name == tool_name_spec(Tool::TriageDoc) {
        Some(Tool::TriageDoc)
    } else {
        None
    }
}

/// The tool called `name`, if there is one.
pub fn tool_named(name: &str) -> (t: Option<Tool>)
    ensures
        t == tool_named_spec(name@),
{
    let all = all_tools();
    let mut i: usize = 0;
    while i < all.len()
        invariant
            all@ == tool_order(),
            i <= all@.len(),
            forall|j: int| 0 <= j < i ==> name@ != tool_name_spec(#[trigger] tool_order()[j]),
        decreases all@.len() - i,
    {
        let t = all[i];
        if same_text(name, t.name()) {
            return Some(t);
        }
        i = i + 1;
    }
    assert(name@ != tool_name_spec(tool_order()[0]));
    assert(name@ != tool_name_spec(tool_order()[1]));
    assert(name@ != tool_name_spec(tool_order()[2]));
    assert(name@ != tool_name_spec(tool_order()[3]));
    assert(name@ != tool_name_spec(tool_order()[4]));
    assert(name@ != tool_name_spec(tool_order()[5]));
    None
}

/// Why a request is refused.
#[derive(Clone, Copy, Debug, PartialEq, Eq, Structural)]
pub enum Refusal {
    /// The parameters of a `tools/call` did not parse.
    BadParams,
    /// A `tools/call` names no tool of the server.
    UnknownTool,
    /// No such method.
    MethodNotFound,
}

pub open spec fn refusal_code(r: Refusal) -> i32 {
    match r {
        Refusal::BadParams => INVALID_PARAMS,
        Refusal::UnknownTool => INVALID_PARAMS,
        Refusal::MethodNotFound => METHOD_NOT_FOUND,
    }
}

pub open spec fn refusal_message(r: Refusal) -> Seq<char> {
    match r {
        Refusal::BadParams => "bad params"@,
        Refusal::UnknownTool => "unknown tool"@,
        Refusal::MethodNotFound => "method not found"@,
    }
}

impl Refusal {
    /// The JSON-RPC error code of the refusal.
    pub fn code(&self) -> (c: i32)
        ensures
            c == refusal_code(*self),
    {
        match self {
            Refusal::BadParams => INVALID_PARAMS,
            Refusal::UnknownTool => INVALID_PARAMS,
            Refusal::MethodNotFound => METHOD_NOT_FOUND,
        }
    }

    /// The error message of the refusal.
    pub fn message(&self) -> (s: &'static str)
        ensures
            s@ == refusal_message(*self),
    {
        match self {
            Refusal::BadParams => "bad params",
            Refusal::UnknownTool => "unknown tool",
            Refusal::MethodNotFound => "method not found",
        }
    }

    /// Whether the error reply carries the request's id: only an unknown
    /// method does; a failed tool call replies without one.
    pub fn echoes_id(&self) -> (b: bool)
        ensures
            b == (*self == Refusal::MethodNotFound),
    {
        match self {
            Refusal::MethodNotFound => true,
            _ => false,
        }
    }
}

/// How the server answers a request.
#[derive(Clone, Copy, Debug, PartialEq, Eq, Structural)]
pub enum Route {
    /// The `initialize` reply: protocol version, capabilities, server info.
    Initialize,
    /// The `tools/list` reply: every tool's definition.
    ListTools,
    /// Run the tool on the call's arguments.
    CallTool(Tool),
    /// An error reply.
    Refuse(Refusal),
}

/// The route for a request with `method`; `tool` is the tool name of a
/// `tools/call` whose parameters parsed, `None` when they did not.
pub open spec fn route_spec(method: Seq<char>, tool: Option<Seq<char>>) -> Route {
    if method == "initialize"@ {
        Route::Initialize
    } else if method == "tools/list"@ {
        Route::ListTools
    } else if method == "tools/call"@ {
        match tool {
            None => Route::Refuse(Refusal::BadParams),
            Some(name) => match tool_named_spec(name) {
                Some(t) => Route::CallTool(t),
                None => Route::Refuse(Refusal::UnknownTool),
            },
        }
    } else {
        Route::Refuse(Refusal::MethodNotFound)
    }
}

/// Routes a request: `initialize` and `tools/list` are answered, a
/// `tools/call` of a known tool runs it, a `tools/call` whose parameters
/// did not parse or that names no tool is refused, and so is any other
/// method.
pub fn route(method: &str, tool: Option<&str>) -> (r: Route)
    ensures
        r == route_spec(
            method@,
            match tool {
                Some(t) => Some(t@),
                None => None,
            },
        ),
{
    if same_text(method, "initialize") {
        Route::Initialize
    } else if same_text(method, "tools/list") {
        Route::ListTools
    } else if same_text(method, "tools/call") {
        match tool {
            None => Route::Refuse(Refusal::BadParams),
            Some(name) => match tool_named(name) {
                Some(t) => Route::CallTool(t),
                None => Route::Refuse(Refusal::UnknownTool),
            },
        }
    } else {
        Route::Refuse(Refusal::MethodNotFound)
    }
}

/// A `tools/call` that names a tool reaches exactly that tool: the tool
/// names are distinct, so each routes to its own tool and to no other.
pub proof fn law_calls_reach_the_named_tool(t: Tool)
    ensures
        tool_named_spec(tool_name_spec(t)) == Some(t),
        route_spec("tools/call"@, Some(tool_name_spec(t))) == Route::CallTool(t),
{
    reveal_strlit("man_page");
    reveal_strlit("fetch_url");
    reveal_strlit("read_doc");
    reveal_strlit("search_doc");
    reveal_strlit("search_web");
    reveal_strlit("triage_doc");
    reveal_strlit("tools/call");
    reveal_strlit("tools/list");
    reveal_strlit("initialize");
    assert("tools/call"@[0] != "initialize"@[0]);
    assert("tools/call"@[6] != "tools/list"@[6]);
    // lengths 8, 9, 8, 10, 10, 10; same-length names differ at a letter
    assert("man_page"@[0] != "read_doc"@[0]);
    assert("search_doc"@[0] != "triage_doc"@[0]);
    assert("search_doc"@[7] != "search_web"@[7]);
    assert("search_web"@[0] != "triage_doc"@[0]);
}

// ----- incoming messages -----

/// Whether `text` is JSON whose top-level value is an object with a
/// member named `key`.
pub uninterp spec fn json_has_member(text: Seq<char>, key: Seq<char>) -> bool;

/// `serde_json::from_str::<serde_json::Value>(text)` and, when it parses,
/// `Value::get(key)` on the result: `None` exactly when the text does not
/// parse (see `json_parse`), else whether the member is there, named
/// `json_has_member`.
#[verifier::external_body]
fn json_top_member(text: &str, key: &str) -> (r: Option<bool>)
    ensures
        (r is None) == (json_parse(text@) is Err),
        r is Some ==> r->0 == json_has_member(text@, key@),
{
    serde_json::from_str::<serde_json::Value>(text).ok().map(|v| v.get(key).is_some())
}

/// What an incoming line is.
#[derive(Clone, Copy, Debug, PartialEq, Eq, Structural)]
pub enum MessageClass {
    /// Not JSON.
    ParseError,
    /// A message with an `id` member (even `null`): a request.
    Request,
    /// A message without an `id` member: a notification.
    Notification,
}

/// Classifies an incoming line: not JSON, a request (it has an `id`
/// member) or a notification.
pub fn classify_message(line: &str) -> (r: MessageClass)
    ensures
        json_parse(line@) is Err ==> r == MessageClass::ParseError,
        json_parse(line@) is Ok ==> r == (if json_has_member(line@, "id"@) {
            MessageClass::Request
        } else {
            MessageClass::Notification
        }),
{
    match json_top_member(line, "id") {
        None => MessageClass::ParseError,
        Some(true) => MessageClass::Request,
        Some(false) => MessageClass::Notification,
    }
}

/// The error reply's code and message for a line of class `class` whose
/// fields did (`well_formed`) or did not fit that class: a parse error for
/// non-JSON, an invalid request for a misshapen request or notification,
/// none otherwise.
pub fn message_error(class: MessageClass, well_formed: bool) -> (r: Option<(i32, &'static str)>)
    ensures
        match r {
            Some((code, message)) => if class == MessageClass::ParseError {
                code == PARSE_ERROR && message@ == "parsing json failed"@
            } else {
                !well_formed && code == INVALID_REQUEST && message@ == "invalid request"@
            },
            None => class != MessageClass::ParseError && well_formed,
        },
{
    match class {
        MessageClass::ParseError => Some((PARSE_ERROR, "parsing json failed")),
        _ => if well_formed {
            None
        } else {
            Some((INVALID_REQUEST, "invalid request"))
        },
    }
}

} // verus!
