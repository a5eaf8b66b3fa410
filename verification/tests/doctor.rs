use graphify_plugins::doctor::{
    apply_fix, check_dir, check_registry, check_relay_file, deletion_targets, exit_code, read_relay, render,
    repo_entries, scan, DirEntry, EntryProbe, Finding, Place, RelayRead, Report, RootFacts, Scan, Verdict,
    WorkspaceFact,
};

fn ws_relay(key: &str, path: &str) -> String {
    format!(
        r#"{{"schema_version":"2.0.0","project_context":"","active_baton":"{key}","repos":{{"{key}":{{"name":"{key}","path":"{path}"}}}}}}"#
    )
}

/// Checks a state file in `/ws/<name>`, where only the named directories exist.
fn check_at(name: &str, body: &str, dirs: &[&str], home: Option<&str>, top: Option<&str>, scan_mode: bool) -> Finding {
    let root = format!("/ws/{name}");
    let read = read_relay(Ok(body));
    let mut probes = Vec::new();
    if let RelayRead::Value(v) = &read {
        for e in repo_entries(v).unwrap_or_default() {
            let candidate = if e.path.starts_with('/') { e.path.clone() } else { format!("{root}/{}", e.path) };
            let key_dir = format!("{root}/{}", e.key);
            probes.push(EntryProbe {
                is_dir: e.path == "." || dirs.contains(&candidate.as_str()),
                canonical: candidate,
                key_is_dir: dirs.contains(&key_dir.as_str()),
            });
        }
    }
    let facts = RootFacts { name: name.into(), canonical: root.clone() };
    let place = Place {
        dir: root.clone(),
        home: home.map(|h| h.to_string()),
        git_toplevel: top.map(|t| t.to_string()),
    };
    check_relay_file(&format!("{root}/relay.json"), &read, &facts, &probes, &place, scan_mode)
}

fn check(body: &str, dirs: &[&str]) -> Finding {
    check_at("r", body, dirs, None, None, false)
}

fn report(finding: Finding, mirror: bool) -> Report {
    check_dir("/ws/r", Some(finding), mirror).unwrap()
}

const GHOST: &str = r#"{"repos":{"ghost":{"path":"ghost"}}}"#;
const LEGACY: &str = r#"{"project_context":"Legacy","repos":{"api":{"name":"api","path":"api"}}}"#;

#[test]
fn foreign_bare_name_entry_is_dirty() {
    let f = check(
        r#"{"schema_version":"1.0.0","repos":{"llm-stock-analyzer-integration":{"name":"x","path":"llm-stock-analyzer-integration"}}}"#,
        &[],
    );
    assert_eq!(f.verdict, Verdict::Dirty);
    assert!(f.reasons.iter().any(|r| r.contains("llm-stock-analyzer-integration")), "{:?}", f.reasons);
    assert_eq!(
        f.reasons,
        ["foreign repo \"llm-stock-analyzer-integration\" (path=llm-stock-analyzer-integration, no such dir)"]
    );
}

#[test]
fn monorepo_subdir_entry_not_killed() {
    let f = check(&ws_relay("graphify-sdk-php", "graphify-sdk-php"), &["/ws/r/graphify-sdk-php"]);
    assert_eq!(f.verdict, Verdict::Clean, "{:?}", f.reasons);
}

#[test]
fn legacy_self_entry_with_stale_bare_path_not_killed() {
    let body = r#"{"schema_version":"1.0.0","project_context":"self","active_baton":"r","repos":{"r":{"name":"r","path":"r"}}}"#;
    let f = check(body, &[]);
    assert_eq!(f.verdict, Verdict::Info, "{:?}", f.reasons);
    assert!(!f.reasons.iter().any(|r| r.contains("foreign")), "{:?}", f.reasons);
    assert!(deletion_targets(&[report(f, true)]).is_empty());
}

#[test]
fn absolute_path_outside_root_is_dirty() {
    let f = check(r#"{"schema_version":"2.0.0","repos":{"a":{"name":"a","path":"/outside/sub"}}}"#, &["/outside/sub"]);
    assert_eq!(f.verdict, Verdict::Dirty);
    assert!(f.reasons.iter().any(|r| r.contains("outside relay root")), "{:?}", f.reasons);
}

#[test]
fn an_absolute_path_inside_needs_its_name() {
    let body = r#"{"repos":{"a":{"path":"/ws/r/sub"}}}"#;
    let f = check(body, &["/ws/r/sub"]);
    assert_eq!(f.reasons, ["foreign repo \"a\" (path=/ws/r/sub, no such dir)"]);
    assert_eq!(check(body, &["/ws/r/sub", "/ws/r/a"]).verdict, Verdict::Clean);
}

#[test]
fn unparseable_json_is_dirty() {
    let f = check("{not json", &[]);
    assert_eq!(f.verdict, Verdict::Dirty);
    assert!(f.reasons.iter().any(|r| r.contains("unparseable")));
}

#[test]
fn unreadable_and_malformed_files_are_dirty() {
    let facts = RootFacts { name: "r".into(), canonical: "/ws/r".into() };
    let place = Place { dir: "/ws/r".into(), home: None, git_toplevel: None };
    let f = check_relay_file("p", &read_relay(Err("denied")), &facts, &[], &place, false);
    assert_eq!((f.verdict, f.reasons), (Verdict::Dirty, vec!["unreadable: denied".to_string()]));
    let f = check(r#"{"repos":[]}"#, &[]);
    assert_eq!(f.reasons, ["repos field malformed (not an object)"]);
}

#[test]
fn stray_under_home_is_dirty() {
    let f = check_at("r", &ws_relay("r", "."), &[], Some("/ws/r/"), None, false);
    assert_eq!(f.verdict, Verdict::Dirty);
    assert!(f.reasons.iter().any(|r| r.contains("stray location")), "{:?}", f.reasons);
}

#[test]
fn scan_mode_flags_orphan_inside_git_repo() {
    let f = check_at("sub", &ws_relay("sub", "."), &[], None, Some("/ws"), true);
    assert_eq!(f.verdict, Verdict::Dirty);
    assert!(f.reasons.iter().any(|r| r.contains("orphan state file")), "{:?}", f.reasons);
    assert_eq!(check_at("sub", &ws_relay("sub", "."), &[], None, Some("/ws"), false).verdict, Verdict::Clean);
    assert_eq!(check_at("sub", &ws_relay("sub", "."), &[], None, Some("/ws/sub"), true).verdict, Verdict::Clean);
}

#[test]
fn legacy_global_fields_are_info_not_dirty() {
    let f = check(
        r#"{"schema_version":"1.0.0","project_context":"Legacy","active_baton":"api","repos":{"api":{"name":"api","path":"api"}}}"#,
        &["/ws/r/api"],
    );
    assert_eq!(f.verdict, Verdict::Info, "{:?}", f.reasons);
    assert!(f.reasons.iter().any(|r| r.contains("legacy global schema")));
    assert!(deletion_targets(&[report(f, true)]).is_empty());
    let f2 = check(&ws_relay("own", "own"), &["/ws/r/own"]);
    assert_eq!(f2.verdict, Verdict::Clean, "{:?}", f2.reasons);
}

#[test]
fn a_used_snapshot_is_legacy() {
    let f = check(r#"{"repos":{},"state_snapshot":{"open_threads":["t"]}}"#, &[]);
    assert_eq!(f.verdict, Verdict::Info);
    assert!(f.reasons[0].contains("state_snapshot"));
    let f = check(r#"{"repos":{},"state_snapshot":{"last_session":"s"}}"#, &[]);
    assert_eq!(f.verdict, Verdict::Info);
    let f = check(r#"{"repos":{},"state_snapshot":{"open_threads":[],"last_session":""}}"#, &[]);
    assert_eq!(f.verdict, Verdict::Clean);
}

#[test]
fn multiple_dirty_reasons_all_reported() {
    let body = r#"{"schema_version":"1.0.0","repos":{"ghost":{"name":"g","path":"ghost"}}}"#;
    let f = check_at("home", body, &[], Some("/ws/home"), None, false);
    assert_eq!(f.verdict, Verdict::Dirty);
    assert!(f.reasons.len() >= 2, "{:?}", f.reasons);
}

#[test]
fn fix_deletes_only_dirty() {
    let reports = [
        report(check(GHOST, &[]), true),
        report(check(LEGACY, &["/ws/r/api"]), true),
        report(check(&ws_relay("api", "api"), &["/ws/r/api"]), true),
    ];
    let targets = deletion_targets(&reports);
    assert_eq!(targets.len(), 2, "{targets:?}");
    assert_eq!(targets, ["/ws/r/relay.json", "/ws/r/.relay"]);
    let done: Vec<(String, Option<String>)> = targets.into_iter().map(|t| (t, None)).collect();
    assert!(apply_fix(&done).is_empty());
}

#[test]
fn one_failed_deletion_does_not_hide_the_others() {
    let done = [("a".to_string(), None), ("b".to_string(), Some("denied".to_string()))];
    assert_eq!(apply_fix(&done), [("b".to_string(), "denied".to_string())]);
}

#[test]
fn fix_reports_targets_before_deletion() {
    let targets = deletion_targets(&[report(check(GHOST, &[]), false)]);
    let listing = targets.join(", ");
    assert!(listing.contains("relay.json"), "{listing}");
}

#[test]
fn scan_reports_all_repos_and_exit_code_1() {
    let dirs = ["/ws/A/own", "/ws/B/own", "/ws/C/own"];
    let own = ws_relay("own", "own");
    let reports: Vec<Report> = [("C", own.as_str()), ("A", own.as_str()), ("B", GHOST)]
        .iter()
        .map(|(n, body)| check_dir(n, Some(check_at(n, body, &dirs, None, None, true)), false).unwrap())
        .collect();
    let reports = scan(reports);
    assert_eq!(reports.len(), 3);
    let paths: Vec<&str> = reports.iter().map(|r| r.finding.path.as_str()).collect();
    assert_eq!(paths, ["/ws/A/relay.json", "/ws/B/relay.json", "/ws/C/relay.json"]);
    let dirty = reports.iter().filter(|r| r.finding.verdict == Verdict::Dirty).count();
    assert_eq!(dirty, 1);
    assert_eq!(exit_code(&reports, None), 1);
    let out = render(&reports);
    assert!(out.contains("[DIRTY]"));
    assert_eq!(out.matches("[CLEAN]").count() + out.matches("[INFO]").count(), 2);
}

#[test]
fn a_report_is_rendered_line_by_line() {
    let out = render(&[report(check(GHOST, &[]), false), report(check(LEGACY, &["/ws/r/api"]), false)]);
    assert_eq!(
        out,
        "[DIRTY] /ws/r/relay.json\n  - foreign repo \"ghost\" (path=ghost, no such dir)\n[INFO]  /ws/r/relay.json\n  - legacy global schema (project_context present) — consider relayInit to upgrade"
    );
}

#[test]
fn no_state_file_reports_clean_exit_0() {
    assert!(check_dir("/ws", None, true).is_none());
    let reports = scan(Vec::new());
    assert!(reports.is_empty());
    assert_eq!(render(&reports), "no relay state file");
    assert_eq!(exit_code(&reports, None), 0);
}

#[test]
fn exit_code_contract_after_fix() {
    let reports: Vec<Report> = Vec::new();
    assert_eq!(exit_code(&reports, Some(&[])), 0);
    let failures = vec![("relay.json".to_string(), "gone".to_string())];
    assert_eq!(exit_code(&reports, Some(&failures)), 1);
}

#[test]
fn scan_nonexistent_root_yields_empty() {
    let mut s = Scan::start("/nonexistent/relay-doctor-scan");
    while let Some((_, depth)) = s.next_dir() {
        s.visit(depth, None, &[]);
    }
    assert!(scan(s.found).is_empty());
}

#[test]
fn a_scan_goes_three_levels_deep() {
    let entry = |path: String, name: &str, is_dir: bool| DirEntry { path, name: name.into(), is_dir };
    let mut s = Scan::start("/w");
    let mut seen = Vec::new();
    while let Some((dir, depth)) = s.next_dir() {
        let entries: Vec<DirEntry> = [("d", true), (".git", true), ("target", true), ("node_modules", true), ("f", false)]
            .iter()
            .map(|(n, d)| entry(format!("{dir}/{n}"), n, *d))
            .collect();
        s.visit(depth, None, &entries);
        seen.push((dir, depth));
    }
    let expected: Vec<(String, u8)> =
        vec![("/w".into(), 0), ("/w/d".into(), 1), ("/w/d/d".into(), 2), ("/w/d/d/d".into(), 3)];
    assert_eq!(seen, expected);
}

#[test]
fn a_scan_reports_what_it_reaches() {
    let tree: [(&str, &[&str]); 6] = [
        ("/w", &["a", ".h", "b"]),
        ("/w/a", &["target", "c"]),
        ("/w/a/c", &["d"]),
        ("/w/a/c/d", &["e"]),
        ("/w/a/c/d/e", &[]),
        ("/w/.h", &["x"]),
    ];
    let mut s = Scan::start("/w");
    while let Some((dir, depth)) = s.next_dir() {
        let names = tree.iter().find(|t| t.0 == dir).map_or(&[][..], |t| t.1);
        let entries: Vec<DirEntry> = names
            .iter()
            .map(|n| DirEntry { path: format!("{dir}/{n}"), name: n.to_string(), is_dir: true })
            .collect();
        let finding = Finding { path: dir, verdict: Verdict::Clean, reasons: vec![] };
        s.visit(depth, Some(Report { finding, mirror_dir: None }), &entries);
    }
    let paths: Vec<String> = scan(s.found).into_iter().map(|r| r.finding.path).collect();
    assert_eq!(paths, ["/w", "/w/a", "/w/a/c", "/w/a/c/d", "/w/b"]);
}

#[test]
fn registry_records_outside_git_are_warned_of() {
    let fact = |key: &str, path: &str, is_dir: bool, in_git: bool, derived: &str| WorkspaceFact {
        workspace_key: key.into(),
        root_path: path.into(),
        is_dir,
        in_git,
        derived_key: derived.into(),
    };
    let ws = [
        fact("gone", "/gone", false, false, "x"),
        fact("repo", "/repo", true, true, "x"),
        fact("ok", "/plain", true, false, "ok"),
        fact("home", "/home/z", true, false, "home"),
        fact("odd", "/odd", true, false, "x"),
    ];
    let warns = check_registry(&ws, Some("/home/z"));
    assert_eq!(warns.len(), 2);
    assert_eq!(warns[0].0, "home");
    assert_eq!(
        warns[0].1,
        "registry workspace record likely polluted by gateway cwd ($HOME); verify manually (path: /home/z)"
    );
    assert!(warns[1].1.contains("(key mismatch)"));
    assert_eq!(check_registry(&ws, None).len(), 1);
}
