use graphify_plugins::gitignore::ensure_gitignore;
use graphify_plugins::graph::{GraphUpdateEvent, NodeId, WorkspaceContext};
use graphify_plugins::handoff::{
    build_snapshot, close_snapshot, envelope_for, snapshot_note, HandoffSnapshot, MemoryQueryCriteria, PLUGIN_ID as MEMORY_ID,
    RECORD_KIND_SNAPSHOT,
};
use graphify_plugins::packet::{emit_packet, parse_meta};
use graphify_plugins::plugin::{relay_json, DocumentRead, IncomingPacket, RelayPlugin, PLUGIN_ID};
use graphify_plugins::relay::{get_repo, Error, SaveArgs, SpecFile};
use graphify_plugins::render::{
    addable_files, close_message, close_report, CommitOutcome, FileFact, RepoFacts, Templates,
};
use graphify_plugins::state::RelayState;

const NOW: &str = "2026-01-02T03:04:05.678Z";

fn ctx() -> WorkspaceContext {
    WorkspaceContext { workspace_key: "w-1".into(), workspace_name: "ws".into(), root_path: "/tmp/ws".into() }
}

fn unrooted() -> RelayPlugin {
    let mut p = RelayPlugin::new();
    p.bind(ctx(), None, None);
    p
}

fn bound(state: RelayState) -> RelayPlugin {
    let mut p = RelayPlugin::new();
    p.bind(ctx(), Some("/tmp/ws".into()), Some(state));
    p
}

fn templates() -> Templates {
    Templates { backend: "Resume — {{repo_name}}".into(), frontend: "F".into(), infra: "I".into() }
}

fn facts() -> RepoFacts {
    RepoFacts { git: None, intent_source: None }
}

fn inited() -> RelayPlugin {
    let mut p = unrooted();
    let state = RelayPlugin::init_state("demo", NOW);
    p.relay_init(None, state, None).unwrap();
    p
}

fn save(p: &mut RelayPlugin, args: &SaveArgs<'_>) -> String {
    let change = p.relay_save(args, p.state.clone(), NOW).ok().unwrap();
    p.commit(change.state);
    p.save_reply(&change.repo, args.kind, &templates(), &facts()).ok().unwrap().answer
}

fn named<'a>(repo: &'a str) -> SaveArgs<'a> {
    let mut args = SaveArgs::none();
    args.repo = Some(repo);
    args
}

fn packet(text: String, carried: Result<Option<RelayState>, String>) -> Option<IncomingPacket> {
    Some(IncomingPacket { bytes: text.into_bytes(), carried })
}

fn state_with_baton(baton: &str) -> RelayState {
    let mut s = RelayState::fresh_at(NOW);
    s.active_baton = baton.into();
    s
}

#[test]
fn plugin_id_and_unbound_key() {
    let p = RelayPlugin::new();
    assert_eq!(p.get_id(), PLUGIN_ID);
    assert_eq!(p.get_workspace_key(), "");
    assert!(p.root().is_none());
    assert!(p.state().is_none());
    assert!(p.workspace_key().is_none());
}

#[test]
fn lib_bind_roundtrips_workspace_key() {
    let p = unrooted();
    assert_eq!(p.get_workspace_key(), "w-1");
    assert_eq!(p.workspace_key(), Some("w-1"));
}

#[test]
fn bind_without_root_produces_error_packet() {
    let mut p = unrooted();
    assert!(p.root().is_none());
    let out = p.sync_toon(None);
    let meta = parse_meta(&out);
    assert_eq!(meta.error.as_deref(), Some("No relay.json found. Run relayInit first."));
}

#[test]
fn bind_loads_existing_state() {
    let p = bound(state_with_baton("api"));
    assert_eq!(p.root(), Some("/tmp/ws"));
    assert_eq!(p.state().unwrap().active_baton, "api");
}

#[test]
fn binding_without_a_root_holds_no_state() {
    let mut p = RelayPlugin::new().with_registry_path("/db");
    p.bind(ctx(), None, Some(state_with_baton("api")));
    assert!(p.state().is_none());
    assert_eq!(p.registry_path.as_deref(), Some("/db"));
}

#[test]
fn proactive_sync_emits_compliant_packet() {
    let mut p = bound(RelayState::fresh());
    let out = p.sync_toon(None);
    let meta = parse_meta(&out);
    assert_eq!(meta.format_version.as_deref(), Some("1.0.0"));
    assert_eq!(meta.workspace_key.as_deref(), Some(p.get_workspace_key()));
    assert!(meta.error.is_none());
    assert!(out.contains("active_nodes\\\":[]"), "{out}");
    assert!(out.contains("schema_version\\\":\\\"1.0.0"), "{out}");
}

#[test]
fn passive_sync_restores_snapshot_and_acks() {
    let mut p = bound(state_with_baton("local"));
    let mut external = state_with_baton("remote");
    external.state_snapshot.open_threads = vec!["t1".into()];
    let text = emit_packet(p.get_workspace_key(), &relay_json(&external));
    let out = p.sync_toon(packet(text, Ok(Some(external))));
    let meta = parse_meta(&out);
    assert!(meta.error.is_none(), "{:?}", meta.error);
    assert_eq!(p.state().unwrap().active_baton, "remote");
    assert_eq!(p.state().unwrap().state_snapshot.open_threads, vec!["t1"]);
}

#[test]
fn passive_sync_rejects_foreign_workspace_key() {
    let mut p = bound(state_with_baton("local"));
    let other = state_with_baton("remote");
    let text = emit_packet("w-foreign-key", &relay_json(&other));
    let out = p.sync_toon(packet(text, Ok(Some(other))));
    let meta = parse_meta(&out);
    assert!(meta.error.as_deref().is_some_and(|e| e.contains("workspace_key mismatch")));
    assert_eq!(p.state().unwrap().active_baton, "local");
}

#[test]
fn passive_sync_rejects_major_mismatch() {
    let mut p = bound(RelayState::fresh());
    let text = "metadata:\n  format_version: \"2.0.0\"\n  workspace_key: \"w\"\n  plugin_data: {}\n";
    let out = p.sync_toon(packet(text.to_string(), Ok(None)));
    let meta = parse_meta(&out);
    assert!(meta.error.as_deref().is_some_and(|e| e.contains("unsupported format_version")));
}

#[test]
fn packets_are_refused_with_a_reason() {
    let mut p = bound(state_with_baton("local"));
    let out = p.sync_toon(packet("nothing".into(), Ok(Some(state_with_baton("x")))));
    assert_eq!(parse_meta(&out).error.as_deref(), Some("missing format_version in toon metadata"));
    let out = p.sync_toon(packet("metadata:\n  format_version: \"1.0.0\"\n".into(), Err("bad".into())));
    assert_eq!(parse_meta(&out).error.as_deref(), Some("malformed toon: bad"));
    assert_eq!(p.state().unwrap().active_baton, "local");
}

#[test]
fn a_packet_without_a_root_restores_nothing() {
    let mut p = unrooted();
    let text = emit_packet("w-1", &relay_json(&state_with_baton("remote")));
    let out = p.sync_toon(packet(text, Ok(Some(state_with_baton("remote")))));
    assert!(p.state().is_none());
    assert!(parse_meta(&out).error.is_some());
}

#[test]
fn on_graph_updated_tracks_only_matching_workspace() {
    let mut p = unrooted();
    let event = |key: &str, ids: &[&str]| GraphUpdateEvent {
        workspace_key: key.into(),
        modified_nodes: ids.iter().map(|i| NodeId(i.to_string())).collect(),
    };
    p.on_graph_updated(&event("w-1", &["a", "b"]));
    assert_eq!(p.active_nodes(), &["a".to_string(), "b".to_string()]);
    p.on_graph_updated(&event("w-1", &["a"]));
    assert_eq!(p.active_nodes().len(), 2);
    p.on_graph_updated(&event("w-other", &["x"]));
    assert_eq!(p.active_nodes().len(), 2);
}

#[test]
fn init_refuses_existing_root_and_files_created() {
    let mut p = unrooted();
    let state = RelayPlugin::init_state("測試專案", NOW);
    assert_eq!(state.project_context, "測試專案");
    assert_eq!(p.init_place(None).unwrap(), "/tmp/ws");
    let out = p.relay_init(None, state, None).unwrap();
    assert!(out.starts_with("Initialized relay at"));
    assert!(out.contains("- specs/ and .code-relay/ created"));
    assert_eq!(p.root(), Some("/tmp/ws"));
    let again = RelayPlugin::init_state("x", NOW);
    let err = p.relay_init(Some("/tmp/ws"), again, None).unwrap_err().message();
    assert!(err.starts_with("relay.json already exists at"), "{err}");
    assert_eq!(p.state().unwrap().project_context, "測試專案");
    assert!(matches!(RelayPlugin::new().init_place(None), Err(Error::NoRoot)));
}

#[test]
fn save_clamps_confidence_and_splits_debt_tag() {
    let mut p = inited();
    let mut args = named("api");
    args.confidence = Some((4.6f64).round() as i64);
    args.debt_tag = Some("a,b, ,c");
    args.role = Some("backend");
    args.active_phase = Some("dev");
    args.volatile_state = Some("寫 relay.rs");
    args.next_session_starter = Some("繼續 Slice B");
    save(&mut p, &args);
    let state = p.state().unwrap();
    let repo = get_repo(state, "api").unwrap();
    assert_eq!(repo.confidence_score, 5);
    assert_eq!(repo.debt_tag, vec!["a", "b", "c"]);
    assert_eq!(repo.role, "backend");
    assert_eq!(state.active_baton, "api");
}

#[test]
fn full_flow_lifecycle() {
    let mut p = inited();
    let mut args = named("api");
    args.confidence = Some((4.6f64).round() as i64);
    args.debt_tag = Some("x");
    let out = save(&mut p, &args);
    assert!(out.starts_with("Saved state for \"api\"."), "{out}");
    assert!(out.contains("Active baton: api"));
    save(&mut p, &named("web"));

    let out = p.relay_status(&vec![]).unwrap();
    assert!(out.contains("Relay root:"));
    assert!(out.contains("Active baton: api"));
    assert!(out.contains("Repos (2):"));
    assert!(out.contains("conf=5"));
    assert!(out.contains("Specs: (none)"));

    let out = p.relay_resume(None, None, &templates(), &facts()).unwrap();
    assert!(out.contains("Resume — api"), "{out}");

    let err = p.relay_switch("nope", p.state.clone(), NOW).err().unwrap().message();
    assert_eq!(err, "repo \"nope\" not registered. Run relaySave in that repo first.");
    let change = p.relay_switch("web", p.state.clone(), NOW).ok().unwrap();
    p.commit(change.state);
    let out = p.switch_reply("web", None, &templates(), &facts()).ok().unwrap().answer;
    assert!(out.starts_with("Baton passed to \"web\"."));
    assert_eq!(p.state().unwrap().active_baton, "web");

    let out = p.relay_resume(None, None, &templates(), &facts()).unwrap();
    assert!(out.contains("Resume — web"), "{out}");

    let todo = || DocumentRead::Text("# tasks\n\n- fix x\n- fix y\n".into());
    let add = p.relay_add("/tmp/ws/todo.md", todo(), Some("api"), p.state.clone(), NOW).ok().unwrap();
    assert_eq!(
        add.answer,
        "Added handoff \"todo.md\" to \"api\".\nParsed 3 line(s) into open_threads.\nTotal open threads: 3"
    );
    p.commit(add.state);
    let add = p.relay_add("/tmp/ws/todo.md", todo(), Some("api"), p.state.clone(), NOW).ok().unwrap();
    assert!(add.answer.contains("Parsed 3 line(s)"), "{}", add.answer);
    p.commit(add.state);
    assert_eq!(p.state().unwrap().state_snapshot.open_threads.len(), 3);
    assert_eq!(get_repo(p.state().unwrap(), "api").unwrap().handoffs.len(), 2);

    let next = Some("下一個 session 從 Slice C 開始");
    let closing = p.relay_close(Some("api"), next, &[], p.state.clone(), NOW).ok().unwrap();
    p.commit(closing.state);
    let step = p.close_next_step(&closing.repo, &facts()).unwrap();
    let out = close_report(&closing.repo, &closing.issues, &closing.diffs, &step, &CommitOutcome::NotARepo, None);
    assert!(out.contains("Closing ritual for \"api\"."));
    assert!(out.contains("Consistency: OK"));
    assert!(out.contains("Spec sync: no changes"));
    assert!(out.contains("not a git repo — skipped commit"));
    assert!(step.contains("Next session starter — api"));
    assert!(step.contains("下一個 session 從 Slice C 開始"));
    assert!(step.contains("Confidence"), "{step}");
    assert!(step.contains("5/5"), "{step}");
}

#[test]
fn add_reports_file_not_found() {
    let p = inited();
    let err = p.relay_add("missing.md", DocumentRead::Missing, None, p.state.clone(), NOW).err().unwrap();
    assert_eq!(err.message(), "File not found: missing.md");
    let err = p.relay_add("x", DocumentRead::Unreadable("denied".into()), None, None, NOW).err().unwrap();
    assert_eq!(err.message(), "io: denied");
}

#[test]
fn resume_unknown_repo_text() {
    let mut p = inited();
    save(&mut p, &named("api"));
    let err = p.relay_resume(Some("ghost"), None, &templates(), &facts()).unwrap_err().message();
    assert_eq!(err, "repo \"ghost\" not registered.");
    let err = p.relay_resume(Some(""), None, &templates(), &facts()).unwrap_err().message();
    assert_eq!(err, "No active baton set and no repo given. Run relaySwitch <repo> first.");
    assert!(p.resume_target(None).is_ok());
}

#[test]
fn no_root_frozen_error_for_all_tools() {
    let p = unrooted();
    let text = "No relay.json found. Run relayInit first.";
    assert_eq!(p.relay_status(&vec![]).unwrap_err().message(), text);
    assert_eq!(p.relay_save(&SaveArgs::none(), None, NOW).err().unwrap().message(), text);
    assert_eq!(p.relay_close(None, None, &[], None, NOW).err().unwrap().message(), text);
    assert_eq!(p.relay_switch("x", None, NOW).err().unwrap().message(), text);
    assert_eq!(p.relay_resume(None, None, &templates(), &facts()).unwrap_err().message(), text);
    let doc = DocumentRead::Text("x".into());
    assert_eq!(p.relay_add("x", doc, None, None, NOW).err().unwrap().message(), text);
    assert_eq!(p.save_reply("x", None, &templates(), &facts()).err().unwrap().message(), text);
}

#[test]
fn a_tool_means_the_bound_directory() {
    let p = inited();
    let change = p.relay_save(&SaveArgs::none(), None, NOW).ok().unwrap();
    assert_eq!(change.repo, "ws");
    assert_eq!(change.state.active_baton, "ws");
    assert_eq!(change.state.updated_at, NOW);
}

#[test]
fn close_commits_in_git_repo_and_seeds_gitignore() {
    let mut p = unrooted();
    let update = ensure_gitignore("").unwrap();
    let out = p.relay_init(None, RelayPlugin::init_state("p", NOW), Some(&update.note)).unwrap();
    assert!(out.contains(".gitignore updated (relay.json, RESUME.md, next_step.md)"), "{out}");
    save(&mut p, &named("api"));
    let specs = [SpecFile { name: "api".into(), content: "# API\nspec body\n".into() }];
    let closing = p.relay_close(Some("api"), None, &specs, p.state.clone(), NOW).ok().unwrap();
    p.commit(closing.state);
    let files = [
        FileFact { name: "relay.json".into(), exists: true, ignored: true },
        FileFact { name: "specs".into(), exists: true, ignored: false },
    ];
    assert_eq!(addable_files(&files), ["specs"]);
    assert!(close_message("api", NOW).contains("relay: close api"));
    let step = p.close_next_step("api", &facts()).unwrap();
    let out = close_report("api", &closing.issues, &closing.diffs, &step, &CommitOutcome::Committed("abc".into()), None);
    assert!(out.contains("committed: "), "{out}");
    assert!(!out.contains("skipped"), "{out}");
    assert!(out.contains("Spec sync: api:added"), "{out}");
}

#[test]
fn a_close_of_an_unknown_repo_is_refused_after_the_sync() {
    let mut p = inited();
    let closing = p.relay_close(Some("ghost"), Some("n"), &[], p.state.clone(), NOW).ok().unwrap();
    assert!(closing.state.repos.is_empty());
    p.commit(closing.state);
    assert!(matches!(p.close_next_step("ghost", &facts()), Err(Error::RepoUnknown(_))));
}

#[test]
fn close_persists_snapshot_to_registry() {
    let mut p = inited();
    save(&mut p, &named("api"));
    let closing = p.relay_close(Some("api"), Some("接 P4 collection 寫入"), &[], p.state.clone(), NOW).ok().unwrap();
    p.commit(closing.state);
    let s = p.state().unwrap();
    let snap = close_snapshot(p.workspace_key().unwrap(), s, get_repo(s, "api").unwrap(), 77);
    assert_eq!(snap.payload.task_goal, "接 P4 collection 寫入");
    assert_eq!(snap.snapshot_id, "snap-77");
    assert_eq!(snap.workspace_key, "w-1");
    let out = close_report(&closing.repo, &closing.issues, &closing.diffs, "N", &CommitOutcome::NotARepo, None);
    assert!(out.contains("Closing ritual for \"api\"."));
    assert!(!out.contains("Snapshot: skipped"), "{out}");
}

#[test]
fn bytes_that_are_no_text_are_read_leniently() {
    let mut p = bound(state_with_baton("local"));
    let mut bytes = b"metadata:\n  format_version: \"1.0.0\"\n  workspace_key: ".to_vec();
    bytes.push(0xff);
    let out = p.sync_toon(Some(IncomingPacket { bytes, carried: Ok(None) }));
    assert_eq!(parse_meta(&out).error.as_deref(), Some("workspace_key mismatch: \u{fffd}"));
    let out = p.consume_packet("metadata:\n  format_version: 3\n", Ok(None));
    assert_eq!(parse_meta(&out).error.as_deref(), Some("unsupported format_version: 3"));
}

#[test]
fn close_with_broken_registry_appends_note_only() {
    let note = snapshot_note("unable to open database");
    let none: Vec<String> = vec![];
    let out = close_report("api", &none, &vec![], "N", &CommitOutcome::NotARepo, Some(&note));
    assert!(out.contains("Closing ritual for \"api\"."));
    assert!(out.contains("Snapshot: skipped"), "{out}");
}

fn sample_snapshot() -> HandoffSnapshot {
    build_snapshot(
        "snap-1",
        "session-1",
        "ws_test_0001",
        "繼續 Slice C",
        vec!["node:foo".to_string(), "node:bar".to_string()],
        "toon:…",
        MemoryQueryCriteria {
            target_symbols: vec!["relay_init".to_string()],
            domain_categories: vec!["plugin".to_string()],
            search_terms: vec!["handoff".to_string()],
        },
        5,
    )
}

#[test]
fn build_snapshot_two_tier_payload() {
    let s = sample_snapshot();
    assert_eq!(s.payload.task_goal, "繼續 Slice C");
    assert_eq!(s.payload.pinned_node_ids, vec!["node:foo", "node:bar"]);
    assert_eq!(s.payload.focused_subgraph_toon, "toon:…");
    assert_eq!(s.payload.reconstructable_query_metadata.target_symbols, vec!["relay_init"]);
    assert_eq!(s.expires_at, 0);
}

#[test]
fn an_envelope_names_its_snapshot() {
    let s = sample_snapshot();
    let env = envelope_for(&s);
    assert_eq!(env.plugin_id, MEMORY_ID);
    assert_eq!(env.record_id, "snap-1");
    assert_eq!(env.record_kind, RECORD_KIND_SNAPSHOT);
    assert_eq!(env.payload, s.payload);
    assert!(env.references.is_empty());
}

#[test]
fn a_goal_falls_back() {
    let mut p = inited();
    let mut args = named("api");
    args.volatile_state = Some("halfway");
    save(&mut p, &args);
    save(&mut p, &named("web"));
    let s = p.state().unwrap();
    assert_eq!(close_snapshot("w", s, get_repo(s, "api").unwrap(), 1).payload.task_goal, "halfway");
    assert_eq!(close_snapshot("w", s, get_repo(s, "web").unwrap(), 1).payload.task_goal, "(none)");
}

#[test]
fn repositories_stay_in_order() {
    let mut p = inited();
    for name in ["web", "api", "infra", "api"] {
        save(&mut p, &named(name));
    }
    let names: Vec<&str> = p.state().unwrap().repos.iter().map(|r| r.0.as_str()).collect();
    assert_eq!(names, ["api", "infra", "web"]);
}

#[test]
fn the_baton_decides_what_is_resumed() {
    let mut p = inited();
    save(&mut p, &named("api"));
    save(&mut p, &named("web"));
    assert_eq!(p.resume_target(None).unwrap().name, "api");
    let change = p.relay_switch("web", p.state.clone(), NOW).ok().unwrap();
    p.commit(change.state);
    assert_eq!(p.resume_target(None).unwrap().name, "web");
    assert_eq!(p.resume_target(Some("api")).unwrap().name, "api");
}
