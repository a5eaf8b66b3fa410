use graphify_plugins::relay::{
    add_handoff, add_report, consistency_check, diff_specs, extract_intent, get_repo, list_specs, save_repo, Error,
    FoundFile, SaveArgs, SpecFile,
};
use graphify_plugins::render::{
    addable_files, after_commit_step, begin_commit, close_message, close_report, commit_args, file_text, git_short_stat, init_report, load_template,
    render_next_step, render_resume, save_report, status_report, switch_report, CommitMove, CommitOutcome,
    CommitStep, FileFact, GitFacts, RepoFacts, Templates,
};
use graphify_plugins::state::{persist, RelayState, RepoState, RELAY_DIR_GITIGNORE};

const NOW: &str = "2026-01-02T03:04:05.678Z";

fn templates() -> Templates {
    Templates {
        backend: "# Resume — {{repo_name}}\nrole {{role}}\ndebt:\n{{debt_tag}}\n{{handoffs}}\n{{git_commit}} {{git_stat}} {{spec_intent}}".into(),
        frontend: "F {{repo_name}}".into(),
        infra: "I {{repo_name}}".into(),
    }
}

fn no_facts() -> RepoFacts {
    RepoFacts { git: None, intent_source: None }
}

fn spec(name: &str, content: &str) -> SpecFile {
    SpecFile { name: name.into(), content: content.into() }
}

#[test]
fn fresh_state_has_schema_1_0_0() {
    let s = RelayState::fresh();
    assert_eq!(s.schema_version, "1.0.0");
    assert!(s.repos.is_empty());
}

#[test]
fn repo_defaults_confidence_3_and_path_to_name() {
    let r = RepoState::for_repo("foo");
    assert_eq!(r.confidence_score, 3);
    assert_eq!(r.path, "foo");
    assert!(r.debt_tag.is_empty());
}

#[test]
fn a_written_state_is_stamped() {
    let mut s = RelayState::fresh_at("then");
    assert_eq!(s.updated_at, "then");
    persist(&mut s, NOW);
    assert_eq!(s.updated_at, NOW);
}

#[test]
fn relay_dir_has_gitignore() {
    assert!(RELAY_DIR_GITIGNORE.contains("!.gitignore"));
    assert_eq!(RELAY_DIR_GITIGNORE, "*\n!.gitignore\n");
}

#[test]
fn load_template_known_and_fallback() {
    let t = templates();
    assert!(load_template(&t, Some("backend")).starts_with("# Resume"));
    assert!(load_template(&t, Some("frontend")).contains("{{repo_name}}"));
    assert!(load_template(&t, Some("infra")).contains("{{repo_name}}"));
    assert_eq!(load_template(&t, Some("nope")), load_template(&t, Some("backend")));
    assert_eq!(load_template(&t, None), load_template(&t, Some("backend")));
}

#[test]
fn extract_intent_prefers_heading_and_truncates() {
    let doc = "# Full Title Line That Is Very Long And Should Be Truncated Past 120 Characters Because Legacy Cuts The Spec Intent String At 120 With An Ellipsis Suffix Marker\nbody";
    let intent = extract_intent(doc);
    assert_eq!(intent.chars().count(), 120);
    assert!(intent.ends_with("..."));
    assert_eq!(extract_intent("plain first line"), "plain first line");
    assert_eq!(extract_intent("### Sub\nmore"), "Sub");
    assert_eq!(extract_intent(""), "");
}

#[test]
fn consistency_check_flags_all_rules() {
    let specs = [
        spec("no-title", "no heading here\n"),
        spec("conflict", "# T\nsee conflict: between a and b\n"),
        spec("broken", "# T\nbroken: something\n"),
        spec("removed", "# T\n## REMOVED Requirements\nold requirement\n"),
        spec("removed-clean", "# T\n## REMOVED Requirements\n"),
        spec("clean", "# Good\nfine\n"),
    ];
    let (ok, issues) = consistency_check(&specs);
    assert!(!ok);
    assert_eq!(issues.len(), 4, "{issues:?}");
    assert!(issues.iter().any(|i| i == "no-title: missing top-level title"));
    assert!(issues.iter().any(|i| i == "conflict: contains CONFLICT marker"));
    assert!(issues.iter().any(|i| i == "broken: contains BROKEN marker"));
    assert!(issues.iter().any(|i| i == "removed: has REMOVED requirements (reconcile drift)"));
}

#[test]
fn an_intent_is_a_heading_of_the_first_three_levels() {
    assert_eq!(extract_intent("text\n#### Deep\n## Title\n"), "Title");
    assert_eq!(extract_intent("text\n#### Deep\n"), "text");
}

#[test]
fn only_a_heading_removes_requirements() {
    let prose = "# T\nRemoved requirements are listed elsewhere.\nbody\n";
    assert_eq!(consistency_check(&[spec("a", prose)]), (true, vec![]));
    let flagged = vec!["a: has REMOVED requirements (reconcile drift)".to_string()];
    for text in ["# T\n##removed requirements\n\nold\n", "# T\n## Removed Requirements (2)\nold\n"] {
        assert_eq!(consistency_check(&[spec("a", text)]), (false, flagged.clone()));
    }
    for text in ["# T\n    ## REMOVED Requirements\nold\n", "# T\nold\n## REMOVED Requirements\n \n", "# T\n# REMOVED Requirements\nold\n"] {
        assert_eq!(consistency_check(&[spec("a", text)]), (true, vec![]));
    }
    // An earlier mention of the heading in a line does not stand for it.
    let mentioned = "# T see ## REMOVED Requirements\nx\n## REMOVED Requirements\n";
    assert_eq!(consistency_check(&[spec("a", mentioned)]), (true, vec![]));
}

#[test]
fn consistency_ignores_case() {
    let (ok, issues) = consistency_check(&[spec("a", "# T\nCONFLICT: x\nBrOkEn: y\n")]);
    assert!(!ok);
    assert_eq!(issues, ["a: contains CONFLICT marker", "a: contains BROKEN marker"]);
    assert_eq!(consistency_check(&[spec("b", "# T\n")]), (true, vec![]));
}

#[test]
fn diff_specs_tracks_added_and_modified() {
    let mut state = RelayState::fresh();
    let first = diff_specs(&mut state.spec_sync, &[spec("a", "# A\none\n"), spec("b", "# B\none\n")], NOW);
    let statuses: Vec<&str> = first.iter().map(|(_, s)| s.as_str()).collect();
    assert_eq!(statuses, vec!["added", "added"]);
    assert_eq!(state.spec_sync.drift.len(), 2);

    let second = diff_specs(&mut state.spec_sync, &[spec("a", "# A\none\n"), spec("b", "# B\ntwo\n")], NOW);
    let statuses: Vec<&str> = second.iter().map(|(_, s)| s.as_str()).collect();
    assert_eq!(statuses, vec!["unchanged", "modified"]);
    assert_eq!(state.spec_sync.drift.len(), 1);
    assert!(state.spec_sync.drift[0].contains("modified"));
}

#[test]
fn an_unchanged_sync_keeps_the_old_drift() {
    let mut state = RelayState::fresh();
    diff_specs(&mut state.spec_sync, &[spec("a", "hello")], NOW);
    assert_eq!(state.spec_sync.drift, ["a (added)"]);
    assert_eq!(state.spec_sync.specs, [("a".to_string(), "aaf4c61ddcc5".to_string())]);
    diff_specs(&mut state.spec_sync, &[spec("a", "hello")], "later");
    assert_eq!(state.spec_sync.drift, ["a (added)"]);
    assert_eq!(state.spec_sync.last_sync, "later");
}

#[test]
fn specs_are_listed_by_name() {
    let found: Vec<FoundFile> = [("b.md", true), ("a.md", true), (".md", true), ("c.txt", true), ("d.md", false)]
        .iter()
        .map(|(n, f)| FoundFile { name: n.to_string(), is_file: *f })
        .collect();
    assert_eq!(list_specs(&found), ["a", "b"]);
}

#[test]
fn a_save_takes_the_baton_once() {
    let mut s = RelayState::fresh_at(NOW);
    save_repo(&mut s, "web", &SaveArgs::none(), NOW);
    save_repo(&mut s, "api", &SaveArgs::none(), NOW);
    assert_eq!(s.active_baton, "web");
    let names: Vec<&str> = s.repos.iter().map(|r| r.0.as_str()).collect();
    assert_eq!(names, ["api", "web"]);
    assert!(get_repo(&s, "ghost").is_none());
}

#[test]
fn a_save_keeps_what_it_is_not_told() {
    let mut s = RelayState::fresh_at(NOW);
    let mut args = SaveArgs::none();
    args.role = Some("backend");
    args.confidence = Some(-7);
    args.debt_tag = Some("x");
    save_repo(&mut s, "api", &args, NOW);
    save_repo(&mut s, "api", &SaveArgs::none(), "later");
    let r = get_repo(&s, "api").unwrap();
    assert_eq!(r.role, "backend");
    assert_eq!(r.confidence_score, 1);
    assert_eq!(r.debt_tag, ["x"]);
    assert_eq!(r.last_updated, "later");
    assert_eq!(r.path, "api");
}

#[test]
fn a_document_opens_each_thread_once() {
    let mut s = RelayState::fresh_at(NOW);
    assert_eq!(add_handoff(&mut s, "api", "todo.md", "# tasks\n\n- fix x\n  - fix x\n", NOW), 3);
    assert_eq!(s.state_snapshot.open_threads, ["# tasks", "- fix x"]);
    assert_eq!(add_report("todo.md", "api", 3, 2), "Added handoff \"todo.md\" to \"api\".\nParsed 3 line(s) into open_threads.\nTotal open threads: 2");
    add_handoff(&mut s, "api", "todo.md", "# tasks\n", NOW);
    assert_eq!(s.state_snapshot.open_threads.len(), 2);
    assert_eq!(get_repo(&s, "api").unwrap().handoffs.len(), 2);
}

#[test]
fn a_resume_shows_what_is_known() {
    let mut s = RelayState::fresh_at(NOW);
    let mut args = SaveArgs::none();
    args.debt_tag = Some("a,b");
    save_repo(&mut s, "api", &args, NOW);
    add_handoff(&mut s, "api", "todo.md", "x\n", NOW);
    let r = get_repo(&s, "api").unwrap();
    let facts = RepoFacts {
        git: Some(GitFacts { commit: "abc".into(), stat: "".into(), porcelain: " M x\n?? y".into() }),
        intent_source: Some("# Intent\n".into()),
    };
    assert_eq!(
        render_resume(&s, r, None, &templates(), &facts),
        "# Resume — api\nrole (unset)\ndebt:\n- a\n- b\n### From todo.md (2026-01-02T03:04:05.678Z)\nx\nabc 2 files uncommitted Intent"
    );
    assert_eq!(render_resume(&s, r, Some("infra"), &templates(), &facts), "I api");
    let bare = render_resume(&s, r, Some("nope"), &templates(), &no_facts());
    assert!(bare.ends_with("(not a git repo) n/a (no spec yet)"), "{bare}");
}

#[test]
fn a_next_step_shows_debts_and_confidence() {
    let mut s = RelayState::fresh_at(NOW);
    save_repo(&mut s, "api", &SaveArgs::none(), NOW);
    let text = render_next_step(&s, get_repo(&s, "api").unwrap(), &no_facts());
    assert_eq!(
        text,
        "# Next session starter — api\n\n> Run this first in the next session.\n\n(none planned)\n\n## Open debts\n(none)\n\n## Confidence\n3/5\n\n---\n_Generated 2026-01-02T03:04:05.678Z_\n"
    );
    assert_eq!(file_text("x"), "x\n");
}

#[test]
fn a_summary_lists_every_repo() {
    let mut s = RelayState::fresh_at(NOW);
    s.project_context = "demo".into();
    let mut args = SaveArgs::none();
    args.next_session_starter = Some("go");
    save_repo(&mut s, "api", &args, NOW);
    add_handoff(&mut s, "web", "t.md", "x", NOW);
    let text = status_report(&s, "/ws", &vec!["a".to_string(), "b".to_string()]);
    assert_eq!(
        text,
        "Relay root: /ws\nProject: demo\nActive baton: api\nRepos (2):\n  - api [?] conf=3 → go\n  - web [?] conf=3 · 1 handoff(s)\nSpecs: a, b\nDrift: (none)\nUpdated: 2026-01-02T03:04:05.678Z"
    );
}

#[test]
fn answers_have_their_texts() {
    assert_eq!(save_report("api", "web", "R"), "Saved state for \"api\".\nActive baton: web\n\nR");
    assert_eq!(switch_report("api", "R"), "Baton passed to \"api\".\n\nR");
    assert_eq!(close_message("api", NOW), "relay: close api [2026-01-02T03:04:05.678Z]");
    assert_eq!(
        init_report("/ws", Some("note")),
        "Initialized relay at /ws/relay.json\n- specs/ and .code-relay/ created\n- note\n- run relaySave to register the current repo"
    );
    assert_eq!(git_short_stat(" 1 file changed", "a\nb"), " 1 file changed (2 files uncommitted)");
    assert_eq!(git_short_stat("", ""), "0 files uncommitted");
}

#[test]
fn a_closing_report_names_everything() {
    let issues = vec!["a: contains BROKEN marker".to_string()];
    let diffs = vec![("a".to_string(), "added".to_string()), ("b".to_string(), "unchanged".to_string())];
    assert_eq!(
        close_report("api", &issues, &diffs, "N", &CommitOutcome::Committed("abc".into()), Some("note")),
        "Closing ritual for \"api\".\nConsistency: ISSUES\n  - a: contains BROKEN marker\nSpec sync: a:added\n\nN\n\ncommitted: abc\n\nnote"
    );
    let none: Vec<String> = vec![];
    let text = close_report("api", &none, &vec![], "N", &CommitOutcome::NotARepo, None);
    assert_eq!(
        text,
        "Closing ritual for \"api\".\nConsistency: OK\nSpec sync: no changes\n\nN\n\nnot a git repo — skipped commit"
    );
    let same = vec![("a".to_string(), "unchanged".to_string())];
    let text = close_report("api", &none, &same, "N", &CommitOutcome::NotARepo, None);
    assert!(text.contains("\nSpec sync: no changes\n"), "{text}");
    let mixed = vec![
        ("a".to_string(), "modified".to_string()),
        ("b".to_string(), "unchanged".to_string()),
        ("c".to_string(), "added".to_string()),
    ];
    let text = close_report("api", &none, &mixed, "N", &CommitOutcome::NotARepo, None);
    assert!(text.contains("\nSpec sync: a:modified,c:added\n"), "{text}");
    for (outcome, line) in [
        (CommitOutcome::NothingToAdd, "\n\nnothing to commit (files ignored or missing)"),
        (CommitOutcome::AddFailed, "committed: commit skipped: git add failed"),
        (CommitOutcome::CommitFailed, "committed: commit skipped: git commit failed"),
    ] {
        assert!(close_report("api", &none, &vec![], "N", &outcome, None).ends_with(line));
    }
}

#[test]
fn a_commit_takes_what_exists_and_is_not_ignored() {
    let files = [
        FileFact { name: "relay.json".into(), exists: true, ignored: true },
        FileFact { name: "gone".into(), exists: false, ignored: false },
        FileFact { name: "specs".into(), exists: true, ignored: false },
    ];
    assert_eq!(addable_files(&files), ["specs"]);
}

#[test]
fn a_commit_goes_step_by_step() {
    let ignored = FileFact { name: "relay.json".into(), exists: true, ignored: true };
    let specs = FileFact { name: "specs".into(), exists: true, ignored: false };
    assert!(matches!(begin_commit(false, &[]), CommitMove::Done(CommitOutcome::NotARepo)));
    let CommitMove::Step(add) = begin_commit(true, &[ignored, specs]) else { panic!("no step") };
    assert_eq!(commit_args(&add, "m"), ["add", "specs"]);
    assert!(matches!(after_commit_step(&add, false, ""), CommitMove::Done(CommitOutcome::AddFailed)));
    let CommitMove::Step(commit) = after_commit_step(&add, true, "") else { panic!("no step") };
    assert_eq!(commit_args(&commit, "m"), ["commit", "-m", "m"]);
    assert!(matches!(after_commit_step(&commit, false, ""), CommitMove::Done(CommitOutcome::CommitFailed)));
    let CommitMove::Step(hash) = after_commit_step(&commit, true, "") else { panic!("no step") };
    assert!(matches!(hash, CommitStep::Hash));
    assert_eq!(commit_args(&hash, "m"), ["log", "-1", "--format=%H"]);
    let CommitMove::Done(CommitOutcome::Committed(h)) = after_commit_step(&hash, true, "abc") else {
        panic!("not done")
    };
    assert_eq!(h, "abc");
    let gone = FileFact { name: "specs".into(), exists: false, ignored: false };
    assert!(matches!(begin_commit(true, &[gone]), CommitMove::Done(CommitOutcome::NothingToAdd)));
}

#[test]
fn errors_of_the_relay_have_texts() {
    assert_eq!(Error::NoRoot.message(), "No relay.json found. Run relayInit first.");
    assert_eq!(Error::RootExists("/ws".into()).message(), "relay.json already exists at /ws. Edit it or run relaySave.");
    assert_eq!(
        Error::RepoNotRegistered("x".into()).message(),
        "repo \"x\" not registered. Run relaySave in that repo first."
    );
    assert_eq!(
        Error::NoActiveBaton.message(),
        "No active baton set and no repo given. Run relaySwitch <repo> first."
    );
    assert_eq!(Error::RepoUnknown("x".into()).message(), "repo \"x\" not registered.");
    assert_eq!(Error::FileNotFound("x".into()).message(), "File not found: x");
    assert_eq!(Error::Io("x".into()).message(), "io: x");
    assert_eq!(Error::Json("x".into()).message(), "json: x");
    assert_eq!(Error::Toon("x".into()).message(), "toon: x");
}

#[test]
fn comparing_again_finds_no_change() {
    let mut s = RelayState::fresh_at("then");
    let specs = [spec("api", "# A\n"), spec("web", "# W\n")];
    let first = diff_specs(&mut s.spec_sync, &specs, "then");
    assert_eq!(first[0], ("api".to_string(), "added".to_string()));
    assert_eq!(s.spec_sync.drift, ["api (added)", "web (added)"]);
    let digests = s.spec_sync.specs.clone();
    let again = diff_specs(&mut s.spec_sync, &specs, NOW);
    assert!(again.iter().all(|d| d.1 == "unchanged"));
    assert_eq!(s.spec_sync.drift, ["api (added)", "web (added)"]);
    assert_eq!(s.spec_sync.specs, digests);
    assert_eq!(s.spec_sync.last_sync, NOW);
}
