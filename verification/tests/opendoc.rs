use graphify_plugins::blocks::spec_id_for;
use graphify_plugins::graph::WorkspaceContext;
use graphify_plugins::json::Json;
use graphify_plugins::opendoc::{
    discover_doc_paths, entry_action, index_docs, search_in, DocFile, DriftStatus, EntryAction, Error, LinkRow, NoOpBackend,
    OpendocPlugin, RestBackend, SearchHit, SpecSearchBackend, SEARCH_TOP_K,
};
use graphify_plugins::packet::parse_meta;

fn ctx(key: &str) -> WorkspaceContext {
    WorkspaceContext { workspace_key: key.into(), workspace_name: "ws".into(), root_path: "/tmp".into() }
}

fn bound() -> OpendocPlugin {
    let mut p = OpendocPlugin::new();
    p.bind(ctx("w-abc"));
    p
}

fn doc(path: &str, text: &str) -> DocFile {
    DocFile { path: path.into(), text: Some(text.into()) }
}

fn strings(v: &[&str]) -> Vec<String> {
    v.iter().map(|s| s.to_string()).collect()
}

#[test]
fn plugin_id_is_stable() {
    let p = OpendocPlugin::new();
    assert_eq!(p.get_id(), "graphify-plugin-opendoc");
}

#[test]
fn unbound_workspace_key_is_empty() {
    let p = OpendocPlugin::new();
    assert_eq!(p.get_workspace_key(), "");
    assert!(matches!(p.require_ctx(), Err(Error::NotBound)));
}

#[test]
fn bind_roundtrips_workspace_key() {
    let mut p = OpendocPlugin::new();
    p.bind(ctx("w-abc"));
    assert_eq!(p.get_workspace_key(), "w-abc");
}

#[test]
fn sync_toon_proactive_emits_metadata() {
    let p = bound();
    let s = p.sync_toon(0, "", None);
    let meta = parse_meta(&s);
    assert_eq!(meta.format_version.as_deref(), Some("1.0.0"));
    assert!(meta.workspace_key.is_some());
}

#[test]
fn sync_toon_passive_major_mismatch_returns_error() {
    let p = bound();
    let bad_packet = "metadata:\n  format_version: \"2.0.0\"\n  workspace_key: \"w-x\"\n";
    let s = p.sync_toon(0, "", Some(bad_packet.as_bytes()));
    let meta = parse_meta(&s);
    assert!(meta.error.is_some(), "must return error for v2 packet");
    assert!(meta.error.unwrap().contains("Major version"));
}

#[test]
fn sync_passes_a_reported_error_on() {
    let p = bound();
    let s = p.sync_toon(0, "", Some(b"metadata:\n  format_version: 1.0.0\n  error: broken\n"));
    assert_eq!(parse_meta(&s).error.as_deref(), Some("broken"));
    let s = p.sync_toon(3, "od", Some(b"metadata:\n  format_version: 1.2.0\n"));
    assert!(parse_meta(&s).error.is_none());
    assert!(s.contains("od_workspace_id"));
}

#[test]
fn index_yields_links_only_for_blocks_with_symbols() {
    let docs = [doc("auth.md", "## verify_token\n\nValidates.\n\n# Symbol: crate::auth::verify_token\n")];
    let rows = index_docs(&docs, "ws-1");
    assert_eq!(rows.len(), 1);
    assert_eq!(rows[0].workspace_key, "ws-1");
    assert_eq!(rows[0].doc_path, "auth.md");
    assert_eq!(rows[0].symbol, "crate::auth::verify_token");
    assert!(rows[0].signature.len() == 40);
}

#[test]
fn block_without_symbol_produces_no_row() {
    let rows = index_docs(&[doc("doc.md", "## intro\n\nNo symbols.\n")], "ws-1");
    assert!(rows.is_empty());
}

#[test]
fn nonexistent_file_skipped() {
    let rows = index_docs(&[DocFile { path: "missing.md".into(), text: None }], "ws-1");
    assert!(rows.is_empty());
}

#[test]
fn only_markdown_is_indexed() {
    let text = "## a\n\n# Symbol: x\n";
    let rows = index_docs(&[doc("a.txt", text), doc("b.markdown", text)], "ws-1");
    assert_eq!(rows.len(), 1);
    assert_eq!(rows[0].doc_path, "b.markdown");
}

#[test]
fn discover_finds_markdown_recursively() {
    let paths = discover_doc_paths(&strings(&["notmd.txt", "sub/b.md", "root.md", "sub/a.md"]));
    assert!(paths.contains(&"root.md".to_string()));
    assert!(paths.contains(&"sub/a.md".to_string()));
    assert!(paths.contains(&"sub/b.md".to_string()));
    assert!(!paths.iter().any(|p| p.ends_with(".txt")));
    assert_eq!(paths, ["root.md", "sub/a.md", "sub/b.md"]);
}

#[test]
fn discover_ignores_hidden_dirs() {
    let paths = discover_doc_paths(&strings(&["visible.md", ".git/hidden.md"]));
    assert!(paths.contains(&"visible.md".to_string()));
    assert!(!paths.iter().any(|p| p.contains(".git")));
}

#[test]
fn entries_are_skipped_entered_or_taken() {
    assert_eq!(entry_action(".git", true), EntryAction::Skip);
    assert_eq!(entry_action("sub", true), EntryAction::Descend);
    assert_eq!(entry_action("a.md", false), EntryAction::Take);
    assert_eq!(entry_action("a.txt", false), EntryAction::Skip);
}

#[test]
fn index_all_docs_persists_links() {
    let docs = [doc("auth.md", "## verify_token\n\nDesc.\n\n# Symbol: crate::auth::verify_token\n")];
    let rows = bound().index_doc_paths(&docs);
    assert_eq!(rows.map(|r| r.len()).ok(), Some(1), "one Symbol row from auth.md");
    assert!(matches!(OpendocPlugin::new().index_doc_paths(&docs), Err(Error::NotBound)));
}

#[test]
fn fetch_code_to_doc_context_returns_links_for_symbol() {
    let docs = [doc("db.md", "## get_user\n\nUser lookup.\n\n# Symbol: crate::db::get_user\n")];
    let hard = index_docs(&docs, "w-abc");
    let rows = bound().fetch_code_to_doc_context("crate::db::get_user", hard, None).ok().unwrap();
    assert_eq!(rows.len(), 1);
    assert_eq!(rows[0].doc_path, "db.md");
}

#[test]
fn fetch_code_to_doc_context_unknown_symbol_returns_empty() {
    let rows = bound().fetch_code_to_doc_context("nonexistent", Vec::new(), None).ok().unwrap();
    assert!(rows.is_empty());
    assert!(matches!(
        OpendocPlugin::new().fetch_code_to_doc_context("x", Vec::new(), None),
        Err(Error::NotBound)
    ));
}

#[test]
fn a_search_is_made_where_no_link_is() {
    let rows = index_docs(&[doc("a.md", "## a\n\nA.\n\n# Symbol: x\n")], "w-abc");
    assert_eq!(search_in(&Vec::new(), Some("od")), Some("od"));
    assert_eq!(search_in(&Vec::new(), None), None);
    assert_eq!(search_in(&rows, Some("od")), None);
}

#[test]
fn packets_are_answered_by_their_text() {
    let text = "metadata:\n  format_version: 2.0.0\n";
    assert_eq!(bound().sync_toon(1, "od", Some(text.as_bytes())), bound().sync_text(1, "od", Some(text)));
    let out = bound().sync_toon(0, "", Some(b"metadata:\n  error: x\xffy\n"));
    assert_eq!(parse_meta(&out).error.as_deref(), Some("x\u{fffd}y"));
}

#[test]
fn hits_stand_in_where_no_link_is() {
    let hits = vec![
        SearchHit { doc_path: "a.md".into(), spec_id: "slug".into(), heading: Some("登入流程".into()) },
        SearchHit { doc_path: "b.md".into(), spec_id: "raw".into(), heading: None },
    ];
    let rows = bound().fetch_code_to_doc_context("sym", Vec::new(), Some(&hits)).ok().unwrap();
    assert_eq!(rows.len(), 2);
    assert_eq!(rows[0].spec_id, spec_id_for("a.md", "登入流程"));
    assert_eq!(rows[0].signature, "");
    assert_eq!(rows[1].spec_id, "raw");
    assert_eq!(rows[1].workspace_key, "w-abc");
}

#[test]
fn audit_drift_up_to_date() {
    let text = "## verify_token\n\nOriginal.\n\n# Symbol: crate::auth::verify_token\n";
    let rows = index_docs(&[doc("auth.md", text)], "w-abc");
    let items = bound().audit_drift(&rows, &[Some(text.to_string())]).ok().unwrap();
    assert_eq!(items.len(), 1);
    assert_eq!(items[0].status, DriftStatus::UpToDate);
}

#[test]
fn blocks_of_one_heading_are_told_apart_by_their_signature() {
    let text = "## usage\n\nFirst.\n\n# Symbol: a::f\n\n## usage\n\nSecond.\n\n# Symbol: b::g\n";
    let rows = index_docs(&[doc("u.md", text)], "w-abc");
    assert_eq!(rows.len(), 2);
    assert_eq!(rows[0].spec_id, rows[1].spec_id);
    let texts = [Some(text.to_string()), Some(text.to_string())];
    let items = bound().audit_drift(&rows, &texts).ok().unwrap();
    assert!(items.iter().all(|i| i.status == DriftStatus::UpToDate));
    let changed = Some(text.replace("Second.", "Other."));
    let items = bound().audit_drift(&rows, &[changed.clone(), changed]).ok().unwrap();
    assert_eq!(items[0].status, DriftStatus::UpToDate);
    assert_eq!(items[1].status, DriftStatus::DocChanged);
}

#[test]
fn audit_drift_doc_changed() {
    let text = "## verify_token\n\nOriginal.\n\n# Symbol: crate::auth::verify_token\n";
    let rows = index_docs(&[doc("auth.md", text)], "w-abc");
    let changed = "## verify_token\n\nModified content.\n\n# Symbol: crate::auth::verify_token\n";
    let items = bound().audit_drift(&rows, &[Some(changed.to_string())]).ok().unwrap();
    assert_eq!(items.len(), 1);
    assert_eq!(items[0].status, DriftStatus::DocChanged);
}

#[test]
fn audit_drift_doc_missing() {
    let text = "## verify_token\n\nOriginal.\n\n# Symbol: crate::auth::verify_token\n";
    let rows = index_docs(&[doc("auth.md", text)], "w-abc");
    let items = bound().audit_drift(&rows, &[None]).ok().unwrap();
    assert_eq!(items.len(), 1);
    assert_eq!(items[0].status, DriftStatus::DocMissing);
}

#[test]
fn a_block_that_left_its_document_is_missing() {
    let text = "## verify_token\n\nOriginal.\n\n# Symbol: crate::auth::verify_token\n";
    let rows = index_docs(&[doc("auth.md", text)], "w-abc");
    let items = bound().audit_drift(&rows, &[Some("## renamed\n\nOriginal.\n".to_string())]).ok().unwrap();
    assert_eq!(items[0].status, DriftStatus::DocMissing);
    assert!(matches!(OpendocPlugin::new().audit_drift(&rows, &[None]), Err(Error::NotBound)));
}

#[test]
fn audit_code_missing_finds_unimplemented_symbols() {
    let text = "## verify_token\n\nA.\n\n# Symbol: crate::auth::verify_token\n\n## login\n\nB.\n\n# Symbol: crate::auth::login\n";
    let rows = index_docs(&[doc("auth.md", text)], "w-abc");
    let missing = bound().audit_code_missing(&rows, &strings(&["crate::auth::verify_token"])).ok().unwrap();
    assert_eq!(missing.len(), 1);
    assert_eq!(missing[0].symbol, "crate::auth::login");
    assert_eq!(missing[0].status, DriftStatus::CodeMissing);
}

#[test]
fn audit_code_missing_empty_when_all_known() {
    let rows = index_docs(&[doc("auth.md", "## v\n\nA.\n\n# Symbol: crate::auth::verify_token\n")], "w-abc");
    let missing = bound().audit_code_missing(&rows, &strings(&["crate::auth::verify_token"])).ok().unwrap();
    assert!(missing.is_empty());
    assert!(matches!(OpendocPlugin::new().audit_code_missing(&rows, &Vec::new()), Err(Error::NotBound)));
}

#[test]
fn sync_toon_reflects_link_count_after_index() {
    let rows: Vec<LinkRow> =
        index_docs(&[doc("auth.md", "## v\n\nA.\n\n# Symbol: crate::auth::verify_token\n")], "w-abc");
    let s = bound().sync_toon(rows.len(), "", None);
    assert!(s.contains("link_count"), "missing link_count in packet: {s}");
    assert!(s.contains("link_count\\\":1"), "{s}");
}

#[test]
fn noop_returns_empty() {
    let backend = NoOpBackend;
    assert!(backend.search("any_ws", "any query").is_empty());
}

#[test]
fn rest_backend_strips_trailing_slash() {
    let b = RestBackend::new("http://127.0.0.1:8080/");
    assert_eq!(b.base_url, "http://127.0.0.1:8080");
}

#[test]
fn a_search_posts_its_query() {
    let b = RestBackend::new("http://x//");
    assert_eq!(b.search_url(), "http://x/api/v1/search");
    let body = RestBackend::search_request("token");
    assert_eq!(body.get_str("query"), Some("token"));
    assert!(matches!(body.get("top_k"), Some(Json::UInt(SEARCH_TOP_K))));
}

#[test]
fn errors_of_the_plugin_have_texts() {
    assert_eq!(Error::NotBound.message(), "plugin not bound to a workspace context");
    assert_eq!(Error::Io("x".into()).message(), "io error: x");
    assert_eq!(Error::Sqlite("y".into()).message(), "sqlite: y");
}

#[test]
fn a_registry_can_be_named() {
    let p = OpendocPlugin::new().with_registry_path("/tmp/graphify.db");
    assert_eq!(p.registry_path.as_deref(), Some("/tmp/graphify.db"));
}
