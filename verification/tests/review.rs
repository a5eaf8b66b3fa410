use graphify_plugins::crg::{CrgError, CrgMcpClient};
use graphify_plugins::graph::{Edge, GraphOutput, GraphUpdateEvent, Node, NodeId, WorkspaceContext};
use graphify_plugins::packet::parse_meta;
use graphify_plugins::resolver::resolve_line;
use graphify_plugins::review::{
    bound_node_ids, gone_bindings, rated, CrgPriority, Incoming, IngestError, IngestPayload, ReviewItem, ReviewPlugin,
    ReviewSearchError,
};

const URL: &str = "http://127.0.0.1:1/mcp";

fn bound(key: &str) -> ReviewPlugin {
    let mut p = ReviewPlugin::new(URL);
    p.bind(WorkspaceContext { workspace_key: key.into(), workspace_name: "ws".into(), root_path: "/tmp/ws".into() });
    p
}

fn node(id: &str) -> Node {
    Node {
        id: NodeId(id.into()),
        label: "n".into(),
        kind: "function".into(),
        source_file: "src/auth.rs".into(),
        start_line: 1,
        end_line: 50,
    }
}

fn graph(ids: &[&str]) -> GraphOutput {
    GraphOutput { nodes: ids.iter().map(|i| node(i)).collect(), edges: vec![] }
}

fn payload(id: &str, severity: &str) -> IngestPayload {
    IngestPayload {
        version: "1.0".to_string(),
        source: "code-review-graph".to_string(),
        workspace_key: "elsewhere".to_string(),
        reviews: vec![ReviewItem {
            review_id: id.to_string(),
            file_path: "src/auth.rs".to_string(),
            line_number: 42,
            severity: severity.to_string(),
            category: "security".to_string(),
            comment: "timing attack".to_string(),
            created_at: "2026-08-10T00:00:00Z".to_string(),
        }],
    }
}

fn update() -> GraphUpdateEvent {
    GraphUpdateEvent { workspace_key: "w-1".into(), modified_nodes: vec![] }
}

#[test]
fn lib_plugin_id_and_workspace_key_roundtrip() {
    let p = ReviewPlugin::new(URL);
    assert_eq!(p.get_id(), "graphify-plugin-review");
    assert_eq!(p.get_workspace_key(), "");
    assert_eq!(bound("w-abc").get_workspace_key(), "w-abc");
}

#[test]
fn search_crg_unbound_returns_no_repo_root() {
    let p = ReviewPlugin::new(URL);
    let err = p.review_search_crg(&[], "now").err().unwrap();
    assert!(matches!(err, ReviewSearchError::NoRepoRoot));
}

#[test]
fn ingest_binds_lines_and_queries_context() {
    let mut p = bound("w-1");
    let packet = p.sync_toon(Incoming::Graph(graph(&["src/auth.rs:function:verify_token"])), 0, 0);
    assert!(packet.starts_with("metadata:\n"));
    assert!(p.graph.is_some());
    let got = p.review_ingest(&payload("crg-sec-001", "high"), "now");
    assert_eq!((got.bound, got.orphan), (1, 0));
    assert_eq!(got.bindings.len(), 1);
    assert_eq!(got.bindings[0].id, "crg-sec-001");
    assert_eq!(got.bindings[0].severity, "high");
    assert_eq!(got.bindings[0].canonical_node_id, "src/auth.rs:function:verify_token");
    assert_eq!(got.bindings[0].workspace_key, "w-1");
    assert_eq!(got.bindings[0].status, "unresolved");
}

#[test]
fn ingest_orphan_line_not_binding() {
    let p = bound("w-1");
    let got = p.review_ingest(&payload("crg-002", "medium"), "now");
    assert_eq!((got.bound, got.orphan), (0, 1));
    assert_eq!(got.bindings.len(), 1);
    assert_eq!(got.bindings[0].canonical_node_id, "");
}

#[test]
fn search_crg_roundtrip_binds_and_returns_node_ids() {
    let mut p = bound("w-1");
    p.sync_toon(Incoming::Graph(graph(&["src/auth.rs:function:verify_token"])), 0, 0);
    let raw = r#"{"jsonrpc":"2.0","id":2,"result":{"content":[{"type":"text","text":"{\"status\":\"ok\",\"risk_score\":0.42,\"changed_file_count\":1,\"review_priorities\":[{\"name\":\"verify_token\",\"qualified_name\":\"crate::auth::verify_token\",\"file_path\":\"/tmp/ws/src/auth.rs\",\"line_start\":42,\"line_end\":50,\"risk_score\":0.4,\"kind\":\"function\"}]}"}]}}"#;
    let nodes = CrgMcpClient::changes_result(raw).ok().unwrap();
    assert_eq!(nodes.len(), 1);
    assert_eq!(nodes[0].risk.as_deref(), Some("0.4"));
    let ranked: Vec<CrgPriority> =
        nodes.into_iter().map(|n| rated(n, "medium".into(), "0.4".into())).collect();
    let found = p.review_search_crg(&ranked, "now").ok().unwrap();
    assert_eq!(found.workspace_key, "w-1");
    let got = p.review_ingest(&found, "now");
    assert_eq!(got.orphan, 0);
    assert_eq!(got.bindings[0].id, "crg-src/auth.rs:42:verify_token");
    assert_eq!(got.bindings[0].severity, "medium");
    assert_eq!(got.bindings[0].comment, "verify_token (risk 0.4)");
    let rows: Vec<_> = got.bindings.into_iter().map(Some).collect();
    assert_eq!(bound_node_ids(&rows), vec!["src/auth.rs:function:verify_token".to_string()]);
}

#[test]
fn a_ranked_node_without_a_place_is_passed_over() {
    let p = bound("w-1");
    let blank = CrgPriority {
        name: None,
        file_path: Some("/other/x.rs".into()),
        line_start: Some(7),
        kind: None,
        severity: "info".into(),
        risk: "0".into(),
    };
    let mut no_line = blank.clone();
    no_line.line_start = None;
    let found = p.review_search_crg(&[no_line, blank], "now").ok().unwrap();
    assert_eq!(found.reviews.len(), 1);
    assert_eq!(found.reviews[0].review_id, "crg-/other/x.rs:7:/other/x.rs");
    assert_eq!(found.reviews[0].category, "code-review");
}

#[test]
fn on_graph_updated_auto_resolves_drifted_node() {
    let mut p = bound("w-1");
    p.sync_toon(Incoming::Graph(graph(&["src/auth.rs:function:verify_token"])), 0, 0);
    let got = p.review_ingest(&payload("crg-drift-001", "high"), "now");
    assert_eq!((got.bound, got.orphan), (1, 0));
    let renamed = graph(&["src/auth.rs:function:verify_authentication_token"]);
    p.sync_toon(Incoming::Graph(renamed.clone()), 0, 0);
    let updated = p.on_graph_updated(&update(), &got.bindings);
    assert_eq!(updated.gone, vec!["crg-drift-001".to_string()], "drifted binding auto-resolved");
    assert_eq!(gone_bindings(&got.bindings, &renamed), updated.gone);
    let mut orphan = got.bindings;
    orphan[0].canonical_node_id = String::new();
    assert!(gone_bindings(&orphan, &renamed).is_empty(), "no orphan leakage from auto-resolve");
}

#[test]
fn on_graph_updated_keeps_present_node_unresolved() {
    let mut p = bound("w-1");
    p.sync_toon(Incoming::Graph(graph(&["src/auth.rs:function:verify_token"])), 0, 0);
    let got = p.review_ingest(&payload("crg-keep-001", "medium"), "now");
    assert_eq!((got.bound, got.orphan), (1, 0));
    p.sync_toon(Incoming::Graph(graph(&["src/auth.rs:function:verify_token"])), 0, 0);
    let updated = p.on_graph_updated(&update(), &got.bindings);
    assert!(updated.gone.is_empty(), "present node stays unresolved");
}

fn caller_graph(caller: &str, callee: &str) -> GraphOutput {
    let mut g = graph(&[caller, callee]);
    g.nodes[0].source_file = "src/main.rs".into();
    g.edges.push(Edge { source: NodeId(caller.into()), target: NodeId(callee.into()), relation: "calls".into() });
    g
}

#[test]
fn first_sync_is_baseline_no_impact_alert() {
    let mut p = bound("w-1");
    p.sync_toon(Incoming::Graph(graph(&["src/auth.rs:function:verify_token"])), 0, 0);
    let got = p.review_ingest(&payload("crg-base-001", "critical"), "now");
    let alerts = p.on_graph_updated(&update(), &got.bindings).alerts;
    assert!(alerts.is_empty(), "first sync must not alert (baseline)");
}

#[test]
fn impact_alert_emitted_when_caller_changes() {
    let mut p = bound("w-1");
    let v1 = caller_graph("src/main.rs:function:main", "src/auth.rs:function:verify_token");
    p.sync_toon(Incoming::Graph(v1), 0, 0);
    let got = p.review_ingest(&payload("crg-impact-001", "critical"), "now");
    assert_eq!(got.bindings[0].canonical_node_id, "src/auth.rs:function:verify_token");
    assert!(p.on_graph_updated(&update(), &got.bindings).alerts.is_empty(), "baseline: no alert");

    let v2 = caller_graph("src/admin.rs:function:admin_login", "src/auth.rs:function:verify_token");
    p.sync_toon(Incoming::Graph(v2), 0, 0);
    let updated = p.on_graph_updated(&update(), &got.bindings);
    assert!(updated.gone.is_empty());
    let alerts = updated.alerts;
    assert_eq!(alerts.len(), 1, "exactly one impact alert expected");
    assert_eq!(alerts[0].max_severity, "critical");
    assert_eq!(alerts[0].impacted_node.0, "src/auth.rs:function:verify_token");
}

#[test]
fn sync_toon_none_does_not_panic() {
    let mut p = bound("w-9");
    let out = p.sync_toon(Incoming::Nothing, 0, 0);
    assert!(out.contains("workspace_key"));
    assert_eq!(parse_meta(&out).workspace_key.as_deref(), Some("w-9"));
}

#[test]
fn sync_toon_garbage_is_lenient_and_caches_empty_graph() {
    let mut p = bound("w-1");
    let text = p.sync_toon(Incoming::Graph(graph(&[])), 0, 0);
    assert!(text.contains("workspace_key"), "summary packet expected: {text}");
    assert!(p.graph.expect("garbage toon caches an empty graph").nodes.is_empty());
}

#[test]
fn a_summary_counts_bindings() {
    let mut p = bound("w-1");
    let text = p.sync_toon(Incoming::Nothing, 7, 3);
    assert!(text.contains("bound\\\":7") && text.contains("unresolved\\\":3"), "{text}");
    let text = p.sync_toon(Incoming::Malformed, 7, 3);
    assert_eq!(parse_meta(&text).error.as_deref(), Some("Cannot parse .toon into GraphOutput."));
}

#[test]
fn errors_of_a_search_have_texts() {
    assert_eq!(ReviewSearchError::NoRepoRoot.message(), "no repo_root: plugin not bound to a workspace");
    assert_eq!(
        ReviewSearchError::Crg(CrgError::EmptyResult).message(),
        "CRG bridge error: empty result from CRG"
    );
    assert_eq!(ReviewSearchError::Ingest(IngestError::Db("x".into())).message(), "ingest error: db error: x");
    assert_eq!(IngestError::Io("x".into()).message(), "io error: x");
    assert_eq!(IngestError::Json("x".into()).message(), "json error: x");
    assert_eq!(ReviewSearchError::Db("x".into()).message(), "registry db error: x");
}

#[test]
fn a_line_lies_in_the_innermost_node() {
    let mut g = graph(&["module", "function", "twin", "elsewhere"]);
    g.nodes[0].end_line = 100;
    g.nodes[1].start_line = 30;
    g.nodes[1].end_line = 60;
    g.nodes[2].start_line = 35;
    g.nodes[2].end_line = 65;
    g.nodes[3].source_file = "src/other.rs".into();
    g.nodes[3].start_line = 42;
    g.nodes[3].end_line = 42;
    let at = |file: &str, line: u32| resolve_line(&g, file, line).map(|r| r.node_id.0);
    assert_eq!(at("src/auth.rs", 42).as_deref(), Some("function"));
    assert_eq!(at("src/auth.rs", 62).as_deref(), Some("twin"));
    assert_eq!(at("src/auth.rs", 29).as_deref(), Some("module"));
    assert_eq!(at("src/auth.rs", 100).as_deref(), Some("module"));
    assert_eq!(at("src/auth.rs", 101), None);
    assert_eq!(at("src/missing.rs", 42), None);
}

#[test]
fn a_leading_dot_does_not_part_a_file_from_its_nodes() {
    let mut p = bound("w-1");
    assert!(p.resolve("src/auth.rs", 42).is_none());
    let mut g = graph(&["./src/auth.rs:function:verify_token"]);
    g.nodes[0].source_file = "./src/auth.rs".into();
    p.sync_toon(Incoming::Graph(g), 0, 0);
    let found = p.resolve("src/auth.rs", 42).unwrap();
    assert_eq!(found.node_id.0, "./src/auth.rs:function:verify_token");
}

#[test]
fn a_shifted_line_keeps_its_node() {
    let before = graph(&["src/auth.rs:function:verify_token"]);
    let mut after = before.clone();
    after.nodes[0].start_line += 10;
    after.nodes[0].end_line += 10;
    assert_eq!(resolve_line(&before, "src/auth.rs", 42), resolve_line(&after, "src/auth.rs", 52));
}

#[test]
fn a_plugin_can_be_set_up_otherwise() {
    let p = ReviewPlugin::new("http://elsewhere").with_registry_path("/tmp/graphify.db").with_crg_url(URL);
    assert_eq!(p.registry_path.as_deref(), Some("/tmp/graphify.db"));
    assert_eq!(p.crg_client.base_url, URL);
    assert!(!p.crg_client.is_initialized());
    assert!(p.graph().is_none());
}
