use graphify_plugins::graph::{Edge, GraphOutput, Node, NodeId};
use graphify_plugins::guard::covers_of;
use graphify_plugins::impact::{detect_impact, severity_rank, Covered, ImpactAlert, ReviewBinding, SeedCover};
use graphify_plugins::radius::{radius, IMPACT_DEPTH};

fn binding(id: &str, node_id: &str, severity: &str) -> ReviewBinding {
    ReviewBinding {
        workspace_key: "w-1".to_string(),
        id: id.to_string(),
        canonical_node_id: node_id.to_string(),
        file_path: String::new(),
        line_number: 1,
        signature_hash: "v1_default".to_string(),
        severity: severity.to_string(),
        category: String::new(),
        comment: String::new(),
        status: "unresolved".to_string(),
        created_at: String::new(),
        updated_at: String::new(),
        resolution_reason: String::new(),
        resolved_at: String::new(),
        resolved_by: String::new(),
    }
}

fn node(id: &str) -> Node {
    Node {
        id: NodeId(id.to_string()),
        label: id.to_string(),
        kind: "function".to_string(),
        source_file: format!("{}.rs", id.replace(':', "_")),
        start_line: 1,
        end_line: 10,
    }
}

fn edge(from: &str, to: &str) -> Edge {
    Edge { source: NodeId(from.to_string()), target: NodeId(to.to_string()), relation: "calls".to_string() }
}

fn graph3() -> GraphOutput {
    GraphOutput { nodes: vec![node("a"), node("b"), node("c")], edges: vec![edge("a", "b"), edge("b", "c")] }
}

fn alerts_of(seeds: &[&str], rows: &[ReviewBinding]) -> Vec<ImpactAlert> {
    let seeds: Vec<NodeId> = seeds.iter().map(|s| NodeId(s.to_string())).collect();
    detect_impact(&covers_of(&graph3(), &seeds, rows), "w-1")
}

#[test]
fn critical_in_radius_produces_alert() {
    let rows = [binding("r-001", "c", "critical")];
    let alerts = alerts_of(&["a"], &rows);
    assert_eq!(alerts.len(), 1);
    let a = &alerts[0];
    assert_eq!(a.modified_node.0, "a");
    assert_eq!(a.impacted_node.0, "c");
    assert_eq!(a.review_ids, vec!["r-001"]);
    assert_eq!(a.max_severity, "critical");
    assert!(!a.event_id.is_empty());
    assert_eq!(a.workspace_key, "w-1");
    assert_eq!(a.alert_message, "modified node a impacts c: 1 unresolved review(s) in BFS radius");
}

#[test]
fn high_also_alerted_medium_not() {
    let rows = [binding("r-001", "c", "high"), binding("r-002", "b", "medium")];
    let alerts = alerts_of(&["a"], &rows);
    assert_eq!(alerts.len(), 1);
    assert_eq!(alerts[0].review_ids, vec!["r-001"]);
}

#[test]
fn no_seed_no_alert() {
    let rows = [binding("r-001", "c", "critical")];
    let alerts = alerts_of(&[], &rows);
    assert!(alerts.is_empty());
}

#[test]
fn seed_not_in_graph_skipped() {
    let rows = [binding("r-001", "c", "critical")];
    let alerts = alerts_of(&["ghost"], &rows);
    assert!(alerts.is_empty());
}

#[test]
fn duplicate_coverage_deduped() {
    let rows = [binding("r-001", "c", "critical")];
    let alerts = alerts_of(&["a", "b"], &rows);
    assert_eq!(alerts.len(), 1);
}

#[test]
fn severity_rank_order() {
    assert!(severity_rank("critical") > severity_rank("high"));
    assert!(severity_rank("high") > severity_rank("medium"));
    assert!(severity_rank("medium") > severity_rank("low"));
    assert_eq!(severity_rank("unknown"), 0);
}

#[test]
fn the_worst_review_sets_the_severity() {
    let rows = [binding("r-1", "b", "high"), binding("r-2", "b", "critical"), binding("r-3", "b", "low")];
    let alerts = alerts_of(&["b"], &rows);
    assert_eq!(alerts.len(), 1);
    assert_eq!(alerts[0].max_severity, "critical");
    assert_eq!(alerts[0].review_ids, vec!["r-1", "r-2"]);
    assert_eq!(alerts[0].severities, vec!["high", "critical"]);
    assert!(alerts[0].event_id.contains('-'));
}

#[test]
fn a_node_that_cannot_be_looked_up_is_passed_over() {
    let cover = SeedCover {
        seed: NodeId("a".into()),
        cover: Some(vec![Covered { id: NodeId("a".into()), unresolved: None }]),
    };
    assert!(detect_impact(&[cover], "w-1").is_empty());
}

#[test]
fn a_radius_goes_two_steps_either_way() {
    let g = GraphOutput {
        nodes: ["a", "b", "c", "d", "e", "lone"].iter().map(|n| node(n)).collect(),
        edges: vec![edge("a", "b"), edge("b", "c"), edge("c", "d"), edge("d", "e"), edge("e", "ghost")],
    };
    let near = |id: &str, steps: usize| {
        radius(&g, &NodeId(id.to_string()), steps).map(|v| v.into_iter().map(|n| n.0).collect::<Vec<_>>())
    };
    assert_eq!(IMPACT_DEPTH, 2);
    assert_eq!(near("c", 2).unwrap(), ["c", "b", "d", "a", "e"]);
    assert_eq!(near("a", 2).unwrap(), ["a", "b", "c"]);
    assert_eq!(near("e", 2).unwrap(), ["e", "d", "c"]);
    assert_eq!(near("a", 0).unwrap(), ["a"]);
    assert_eq!(near("lone", 2).unwrap(), ["lone"]);
    assert_eq!(near("ghost", 2), None);
}

#[test]
fn a_review_out_of_the_radius_is_not_raised() {
    let mut g = graph3();
    g.nodes.push(node("d"));
    g.edges.push(edge("c", "d"));
    let rows = [binding("r-001", "d", "critical")];
    assert!(detect_impact(&covers_of(&g, &[NodeId("a".into())], &rows), "w-1").is_empty());
    assert_eq!(detect_impact(&covers_of(&g, &[NodeId("b".into())], &rows), "w-1").len(), 1);
}
