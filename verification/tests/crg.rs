use graphify_plugins::crg::{ranked_in, ranked_nodes, CrgError, CrgMcpClient, RankedNode, CRG_TOOLS};
use graphify_plugins::json::{no_fields, object, string, with_field, Json};

#[test]
fn initialize_request_has_expected_shape() {
    let v = CrgMcpClient::initialize_request();
    assert_eq!(v.get_str("method"), Some("initialize"));
    assert_eq!(v.get("params").unwrap().get_str("protocolVersion"), Some("2025-03-26"));
}

#[test]
fn call_tool_request_has_expected_shape() {
    let args = object(with_field(
        with_field(no_fields(), "pattern", string("callers_of")),
        "target",
        string("crate::auth::verify"),
    ));
    let v = CrgMcpClient::call_tool_request(2, "query_graph_tool", args);
    assert_eq!(v.get_str("method"), Some("tools/call"));
    let params = v.get("params").unwrap();
    assert_eq!(params.get_str("name"), Some("query_graph_tool"));
    assert_eq!(params.get("arguments").unwrap().get_str("pattern"), Some("callers_of"));
}

#[test]
fn extracts_text_from_plain_json_response() {
    let raw = r#"{"jsonrpc":"2.0","id":2,"result":{"content":[{"type":"text","text":"hello"},{"type":"text","text":"world"}]}}"#;
    assert_eq!(CrgMcpClient::extract_result_content(raw).as_deref(), Some("hello\nworld"));
}

#[test]
fn extracts_text_from_sse_response() {
    let raw = "event: message\ndata: {\"jsonrpc\":\"2.0\",\"id\":2,\"result\":{\"content\":[{\"type\":\"text\",\"text\":\"sse hit\"}]}}\n\n";
    assert_eq!(CrgMcpClient::extract_result_content(raw).as_deref(), Some("sse hit"));
}

#[test]
fn empty_result_returns_none() {
    let raw = r#"{"jsonrpc":"2.0","id":2,"result":{"content":[]}}"#;
    assert!(CrgMcpClient::extract_result_content(raw).is_none());
}

#[test]
fn a_reply_without_text_is_an_error() {
    assert!(matches!(CrgMcpClient::tool_result("not json"), Err(CrgError::EmptyResult)));
    assert!(matches!(CrgMcpClient::tool_result("{}"), Err(CrgError::EmptyResult)));
    let raw = r#"{"result":{"content":[{"text":"ok"},{"text":7}]}}"#;
    assert_eq!(CrgMcpClient::tool_result(raw).ok().as_deref(), Some("ok"));
}

fn nothing_known() -> RankedNode {
    RankedNode { name: None, file_path: None, line_start: None, kind: None, risk: None }
}

#[test]
fn a_ranking_is_read_in_order() {
    let text = r#"{"review_priorities":[{"name":"f","file_path":"a.rs","line_start":4294967295,"risk_score":1,"kind":null,"more":[]},{},{"risk_score":-2},{"risk_score":0.25}]}"#;
    let first = RankedNode {
        name: Some("f".into()),
        file_path: Some("a.rs".into()),
        line_start: Some(u32::MAX),
        risk: Some("1".into()),
        ..nothing_known()
    };
    let scored = |t: &str| RankedNode { risk: Some(t.into()), ..nothing_known() };
    assert_eq!(ranked_nodes(text).ok().unwrap(), [first, nothing_known(), scored("-2"), scored("0.25")]);
}

#[test]
fn items_that_do_not_fit_are_passed_over() {
    for item in [
        r#""f""#,
        "7",
        "null",
        r#"{"name":1}"#,
        r#"{"qualified_name":true}"#,
        r#"{"file_path":[]}"#,
        r#"{"kind":{}}"#,
        r#"{"line_start":4294967296}"#,
        r#"{"line_start":-1}"#,
        r#"{"line_start":4.0}"#,
        r#"{"line_end":"9"}"#,
        r#"{"risk_score":"0.5"}"#,
        r#"["f",null,"a.rs",3,4,0.5]"#,
    ] {
        let text = format!("{{\"review_priorities\":[{item},{{\"name\":\"g\"}}]}}");
        let got = ranked_nodes(&text).ok().unwrap();
        assert_eq!(got, [RankedNode { name: Some("g".into()), ..nothing_known() }], "{item}");
    }
    let whole = r#"{"review_priorities":[["f",null,"a.rs",3,4,0.5,"fn"]]}"#;
    let got = ranked_nodes(whole).ok().unwrap();
    assert_eq!(got[0].file_path.as_deref(), Some("a.rs"));
    assert_eq!(got[0].line_start, Some(3));
    assert_eq!(got[0].kind.as_deref(), Some("fn"));
}

#[test]
fn a_result_without_a_ranking_has_no_nodes() {
    for text in ["{}", "[]", "7", r#"{"review_priorities":{}}"#, r#"{"review_priorities":null}"#] {
        assert_eq!(ranked_nodes(text).ok().unwrap(), []);
    }
    let one = object(with_field(no_fields(), "name", string("f")));
    let v = object(with_field(no_fields(), "review_priorities", Json::Array(vec![one, Json::Null])));
    assert_eq!(ranked_in(&v), [RankedNode { name: Some("f".into()), ..nothing_known() }]);
}

#[test]
fn a_result_that_is_not_json_is_an_error() {
    assert!(matches!(ranked_nodes("no"), Err(CrgError::Parse(_))));
    let raw = r#"{"result":{"content":[{"text":"no"}]}}"#;
    assert!(matches!(CrgMcpClient::changes_result(raw), Err(CrgError::Parse(_))));
    assert!(matches!(CrgMcpClient::changes_result("{}"), Err(CrgError::EmptyResult)));
}

#[test]
fn not_initialized_call_fails() {
    let c = CrgMcpClient::new("http://127.0.0.1:1/mcp");
    let err = c.call_tool("query_graph_tool", object(no_fields())).err().unwrap();
    assert!(matches!(err, CrgError::NotInitialized));
    assert!(matches!(c.detect_changes("/ws", None), Err(CrgError::NotInitialized)));
}

#[test]
fn tool_list_matches_crg() {
    assert_eq!(CRG_TOOLS.len(), 4);
    assert!(CRG_TOOLS.contains(&"detect_changes_tool"));
}

#[test]
fn initialize_is_noop_when_already_initialized() {
    let mut c = CrgMcpClient::new("http://127.0.0.1:1/mcp");
    c.session_id = Some("ses-test".to_string());
    assert_eq!(c.accept_session(None).unwrap(), "ses-test");
    assert_eq!(c.session_id.as_deref(), Some("ses-test"));
}

#[test]
fn a_session_opens_by_its_header() {
    let mut c = CrgMcpClient::new("http://127.0.0.1:1/mcp");
    assert!(matches!(c.accept_session(None), Err(CrgError::NoSessionId)));
    assert!(!c.is_initialized());
    assert_eq!(c.accept_session(Some("ses-1")).unwrap(), "ses-1");
    assert!(c.is_initialized());
    assert_eq!(c.accept_session(Some("ses-2")).unwrap(), "ses-1");
}

#[test]
fn changes_are_asked_for_against_a_base() {
    let mut c = CrgMcpClient::new("http://127.0.0.1:1/mcp");
    c.session_id = Some("s".to_string());
    let call = c.detect_changes("/ws", Some("main")).ok().unwrap();
    assert_eq!(call.session, "s");
    let args = call.body.get("params").unwrap().get("arguments").unwrap();
    assert_eq!(args.get_str("repo_root"), Some("/ws"));
    assert_eq!(args.get_str("detail_level"), Some("standard"));
    assert_eq!(args.get_str("base"), Some("main"));
    let call = c.detect_changes("/ws", None).ok().unwrap();
    assert!(call.body.get("params").unwrap().get("arguments").unwrap().get("base").is_none());
}

#[test]
fn errors_of_the_client_have_texts() {
    assert_eq!(CrgError::Ureq("x".into()).message(), "ureq error: x");
    assert_eq!(CrgError::Io("x".into()).message(), "io error: x");
    assert_eq!(CrgError::NotInitialized.message(), "not initialized: call initialize() first");
    assert_eq!(CrgError::NoSessionId.message(), "no Mcp-Session-Id in initialize response");
    assert_eq!(CrgError::EmptyResult.message(), "empty result from CRG");
    assert_eq!(CrgError::Parse("x".into()).message(), "parse error: x");
}
