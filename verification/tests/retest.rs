use graphify_plugins::graph::{GraphOutput, Node, NodeId};
use graphify_plugins::retest::{detect_retests, phase_of_worker, retests_for_seeds};

fn node(id: &str, kind: &str, source_file: &str) -> Node {
    Node {
        id: NodeId(id.to_string()),
        label: id.to_string(),
        kind: kind.to_string(),
        source_file: source_file.to_string(),
        start_line: 1,
        end_line: 1,
    }
}

fn graph_with_worker() -> GraphOutput {
    GraphOutput {
        nodes: vec![
            node("phase:probe", "phase", ".argus/phases/probe.toml"),
            node("worker:probe/a", "worker", ".argus/phases/probe.toml"),
            node("evidence:probe/a/0", "evidence", "probe-a.log"),
        ],
        edges: vec![],
    }
}

#[test]
fn worker_id_seed_triggers_phase() {
    let signals = detect_retests(&graph_with_worker(), &[NodeId("worker:probe/a".into())], "w-1");
    assert_eq!(signals.len(), 1);
    assert_eq!(signals[0].phase, "probe");
    assert_eq!(signals[0].kind, "RetestSignal");
    assert_eq!(signals[0].workspace_key, "w-1");
    assert!(!signals[0].event_id.is_empty());
}

#[test]
fn phase_node_seed_triggers_phase() {
    let signals = detect_retests(&graph_with_worker(), &[NodeId("phase:probe".into())], "w-1");
    assert_eq!(signals.len(), 1);
    assert_eq!(signals[0].phase, "probe");
    assert!(signals[0].nodes.iter().any(|n| n == "phase:probe"));
}

#[test]
fn empty_seeds_no_signal() {
    assert!(detect_retests(&graph_with_worker(), &[], "w-1").is_empty());
}

#[test]
fn unrelated_seed_no_signal() {
    let signals = detect_retests(&graph_with_worker(), &[NodeId("ghost".into())], "w-1");
    assert!(signals.is_empty());
}

#[test]
fn same_phase_deduped_once() {
    let signals = detect_retests(
        &graph_with_worker(),
        &[NodeId("worker:probe/a".into()), NodeId("phase:probe".into())],
        "w-1",
    );
    assert_eq!(signals.len(), 1);
}

#[test]
fn serializes_with_kind_discriminator() {
    let signals = retests_for_seeds(&graph_with_worker(), &[NodeId("worker:probe/a".into())], "w-1");
    assert_eq!(signals[0].kind, "RetestSignal");
    assert_eq!(signals[0].phase, "probe");
}

#[test]
fn signals_carry_a_fresh_id() {
    let g = graph_with_worker();
    let a = detect_retests(&g, &[NodeId("phase:probe".into())], "w-1");
    let b = detect_retests(&g, &[NodeId("phase:probe".into())], "w-1");
    assert_eq!(a[0].event_id.len(), 36);
    assert_eq!(&a[0].event_id[14..15], "4");
    assert_ne!(a[0].event_id, b[0].event_id);
    assert!(a[0].generated_at.ends_with('Z'));
}

#[test]
fn a_worker_id_names_its_phase() {
    assert_eq!(phase_of_worker("worker:probe/a").as_deref(), Some("probe"));
    assert_eq!(phase_of_worker("worker:/a"), None);
    assert_eq!(phase_of_worker("worker:probe"), None);
    assert_eq!(phase_of_worker("phase:probe/a"), None);
}
