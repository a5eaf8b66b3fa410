use graphify_plugins::argus::{ArgusError, ArgusPlugin, Incoming};
use graphify_plugins::graph::{GraphOutput, GraphUpdateEvent, Node, NodeId, WorkspaceContext};
use graphify_plugins::packet::parse_meta;

fn node(id: &str, kind: &str, source_file: &str) -> Node {
    Node {
        id: NodeId(id.to_string()),
        label: id.to_string(),
        kind: kind.to_string(),
        source_file: source_file.to_string(),
        start_line: 1,
        end_line: 1,
    }
}

fn sample_graph() -> GraphOutput {
    GraphOutput {
        nodes: vec![
            node("phase:probe", "phase", ".argus/phases/probe.toml"),
            node("worker:probe/a", "worker", ".argus/phases/probe.toml"),
        ],
        edges: vec![],
    }
}

fn bound(key: &str) -> ArgusPlugin {
    let mut p = ArgusPlugin::new();
    p.bind(WorkspaceContext { workspace_key: key.into(), workspace_name: "ws".into(), root_path: "/tmp/ws".into() });
    p
}

fn event(nodes: &[&str]) -> GraphUpdateEvent {
    GraphUpdateEvent {
        workspace_key: "w-1".into(),
        modified_nodes: nodes.iter().map(|n| NodeId(n.to_string())).collect(),
    }
}

#[test]
fn plugin_id_and_workspace_key_roundtrip() {
    let p = ArgusPlugin::new();
    assert_eq!(p.get_id(), "graphify-plugin-argus");
    assert_eq!(p.get_workspace_key(), "");
    assert_eq!(bound("w-abc").get_workspace_key(), "w-abc");
}

#[test]
fn sync_toon_passive_parses_and_summarizes() {
    let mut p = bound("w-1");
    let raw = p.sync_toon(Incoming::Packet(sample_graph()));
    let meta = parse_meta(&raw);
    assert_eq!(meta.format_version.as_deref(), Some("1.0.0"));
    assert_eq!(meta.workspace_key.as_deref(), Some("w-1"));
    assert!(meta.error.is_none());
    assert_eq!(p.graph.as_ref().unwrap().nodes.len(), 2);
    assert!(raw.contains("nodes\\\":2"), "{raw}");
}

#[test]
fn sync_toon_passive_garbage_parses_to_empty_graph() {
    let mut p = bound("w-1");
    let raw = p.sync_toon(Incoming::Packet(GraphOutput { nodes: vec![], edges: vec![] }));
    let meta = parse_meta(&raw);
    assert!(meta.error.is_none(), "{raw}");
    assert_eq!(p.graph.as_ref().map(|g| g.nodes.len()), Some(0));
}

#[test]
fn sync_toon_proactive_missing_binary_returns_error_packet() {
    let mut p = bound("w-1");
    let raw = p.sync_toon(Incoming::Failed(ArgusError::Spawn {
        bin: "/nonexistent/argus-definitely-not-here".into(),
        source: "not found".into(),
    }));
    let meta = parse_meta(&raw);
    assert!(meta.error.is_some(), "expected error packet, got: {raw}");
    assert_eq!(
        meta.error.as_deref(),
        Some("argus graph failed: spawn `/nonexistent/argus-definitely-not-here` failed: not found")
    );
}

#[test]
fn a_malformed_packet_keeps_the_graph() {
    let mut p = bound("w-1");
    p.sync_toon(Incoming::Exported(sample_graph()));
    let raw = p.sync_toon(Incoming::Malformed);
    assert_eq!(parse_meta(&raw).error.as_deref(), Some("Cannot parse .toon into GraphOutput."));
    assert_eq!(p.graph.as_ref().unwrap().nodes.len(), 2);
}

#[test]
fn on_graph_updated_emits_retest_signal_via_callback() {
    let mut p = bound("w-1");
    p.sync_toon(Incoming::Packet(sample_graph()));
    let got = p.on_graph_updated(&event(&["worker:probe/a"]));
    assert_eq!(got.len(), 1);
    assert_eq!(got[0].kind, "RetestSignal");
    assert_eq!(got[0].phase, "probe");
}

#[test]
fn on_graph_updated_without_callback_does_not_panic() {
    let mut p = bound("w-1");
    p.sync_toon(Incoming::Packet(sample_graph()));
    p.on_graph_updated(&event(&["worker:probe/a"]));
}

#[test]
fn on_graph_updated_without_graph_is_noop() {
    let mut p = bound("w-1");
    assert!(p.on_graph_updated(&event(&["worker:probe/a"])).is_empty());
}

#[test]
fn an_unnamed_update_compares_with_the_snapshot() {
    let mut p = bound("w-1");
    p.sync_toon(Incoming::Packet(sample_graph()));
    assert!(p.on_graph_updated(&event(&[])).is_empty(), "the first snapshot is the baseline");
    assert!(p.on_graph_updated(&event(&[])).is_empty(), "nothing has changed");
    let mut g = sample_graph();
    g.nodes.push(node("worker:load/b", "worker", ".argus/phases/load.toml"));
    p.sync_toon(Incoming::Packet(g));
    let got = p.on_graph_updated(&event(&[]));
    assert_eq!(got.len(), 1);
    assert_eq!(got[0].phase, "load");
}

#[test]
fn a_named_update_takes_a_snapshot_too() {
    let mut p = bound("w-1");
    p.sync_toon(Incoming::Packet(sample_graph()));
    assert_eq!(p.on_graph_updated(&event(&["worker:probe/a"])).len(), 1);
    let mut g = sample_graph();
    g.nodes.push(node("worker:load/b", "worker", ".argus/phases/load.toml"));
    p.sync_toon(Incoming::Packet(g));
    let got = p.on_graph_updated(&event(&[]));
    assert_eq!(got.len(), 1);
    assert_eq!(got[0].phase, "load");
}

#[test]
fn errors_of_the_orchestrator_have_texts() {
    let e = ArgusError::Exit { code: -3, stderr: "boom".into() };
    assert_eq!(e.message(), "`argus graph` exited with code -3: boom");
    assert_eq!(ArgusError::Io("x".into()).message(), "io error: x");
    assert_eq!(ArgusError::Parse("x".into()).message(), "cannot parse argus graph JSON: x");
}

#[test]
fn an_orchestrator_can_be_named() {
    let p = ArgusPlugin::new();
    assert_eq!(p.argus_bin, "argus");
    assert!(p.state_dir.is_none() && p.graph().is_none());
    let p = p.with_argus_bin("/opt/argus").with_state_dir("/tmp/state");
    assert_eq!(p.argus_bin, "/opt/argus");
    assert_eq!(p.state_dir.as_deref(), Some("/tmp/state"));
}
