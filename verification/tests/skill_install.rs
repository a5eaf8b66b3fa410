use graphify_plugins::skill_install::{
    content_for_install, detect_agents, install_into, is_managed, may_write, target_paths, uninstall_into, Agent,
    AgentDirs, Scope, SkillInstallError, Target, MARKER,
};
use graphify_plugins::text::to_lower;

const SKILL: &str = "---\nname: graphify-relay\n---\n\n# Code Relay — Skill (graphify-relay)\n\ngraphify handoff status # show\n\n---\nend\n";

fn name_of(a: Agent) -> String {
    format!("{a:?}").to_lowercase()
}

fn claude() -> String {
    name_of(Agent::Claude)
}

fn target(path: &str, content: Option<&str>) -> Target {
    Target { path: path.into(), exists: content.is_some(), content: content.map(|c| c.to_string()), failure: None }
}

#[test]
fn install_writes_marked_copy() {
    let paths = target_paths("/home/u", "/cwd", &[Agent::Opencode], Scope::User, &claude());
    assert_eq!(paths, ["/home/u/.config/opencode/skills/graphify-relay/SKILL.md"]);
    let report = install_into(&[target(&paths[0], None)]);
    assert_eq!(report.installed, paths);
    let content = content_for_install(SKILL);
    assert!(content.contains(MARKER));
    assert!(content.contains("# Code Relay — Skill"));
    assert!(content.contains("graphify handoff status"));
}

#[test]
fn reinstall_is_idempotent() {
    let content = content_for_install(SKILL);
    let first = install_into(&[target("p", None)]);
    let second = install_into(&[target("p", Some(&content))]);
    assert_eq!(first.installed, second.installed);
    assert_eq!(content.matches(MARKER).count(), 1);
    assert!(may_write(true, Some(&content)));
}

#[test]
fn install_never_overwrites_user_file() {
    let report = install_into(&[target("p", Some("# my own skill\n"))]);
    assert!(report.installed.is_empty());
    assert_eq!(report.skipped.len(), 1);
    assert_eq!(report.skipped[0].1, "exists without managed marker — not touched");
    assert!(!may_write(true, Some("# my own skill\n")));
    assert!(!may_write(true, None));
    assert!(may_write(false, None));
}

#[test]
fn a_failed_write_is_skipped() {
    let mut t = target("p", None);
    t.failure = Some("denied".into());
    let report = install_into(&[t]);
    assert_eq!(report.skipped, [("p".to_string(), "io error: denied".to_string())]);
    assert_eq!(report.total(), 1);
}

#[test]
fn uninstall_removes_only_managed_files() {
    let content = content_for_install(SKILL);
    let out = uninstall_into(&[target("p", Some(&content)), target("absent", None)]).unwrap();
    assert_eq!(out.removed, ["p"]);
    assert!(out.skipped.is_empty());
    assert_eq!(out.total(), 1);
}

#[test]
fn uninstall_skips_unmanaged_target() {
    let out = uninstall_into(&[target("p", Some("# user content\n"))]).unwrap();
    assert!(out.removed.is_empty());
    assert_eq!(out.skipped.len(), 1);
    assert_eq!(out.skipped[0].1, "exists without managed marker — left alone");
}

#[test]
fn a_failed_removal_ends_the_run() {
    let content = content_for_install(SKILL);
    let mut t = target("p", Some(&content));
    t.failure = Some("denied".into());
    let err = uninstall_into(&[t]).unwrap_err();
    assert_eq!(err.message(), "io error: denied");
    assert_eq!(SkillInstallError::NoHome.message(), "cannot resolve $HOME");
}

#[test]
fn cline_skips_unmanaged_rules_file() {
    let paths = target_paths("/home/u", "/cwd", &[Agent::Cline], Scope::Project, &claude());
    assert_eq!(paths, ["/cwd/.clinerules"]);
    let report = install_into(&[target(&paths[0], Some("always verify with cargo test\n"))]);
    assert!(report.installed.is_empty());
    assert_eq!(report.skipped.len(), 1);
}

#[test]
fn claude_project_scope_installs_nothing() {
    let paths = target_paths("/home/u", "/cwd", &[Agent::Claude], Scope::Project, &claude());
    assert!(paths.is_empty());
}

#[test]
fn each_agent_has_its_targets() {
    let all = Agent::ALL;
    let dot = format!("/h/.{}/skills/graphify-relay/SKILL.md", name_of(Agent::Claude));
    assert_eq!(
        target_paths("/h", "/c", &all, Scope::User, &claude()),
        ["/h/.config/opencode/skills/graphify-relay/SKILL.md".to_string(), dot]
    );
    assert_eq!(
        target_paths("/h", "/c", &all, Scope::Project, &claude()),
        [
            "/c/.opencode/skills/graphify-relay/SKILL.md",
            "/c/.cursor/rules/graphify-relay.mdc",
            "/c/.clinerules"
        ]
    );
}

#[test]
fn detect_agents_looks_at_home_and_cwd() {
    let found = AgentDirs { home_opencode: true, home_claude: true, cwd_cursor: true, cwd_clinerules: false };
    assert_eq!(detect_agents(&found), vec![Agent::Opencode, Agent::Claude, Agent::Cursor]);
}

#[test]
fn content_marker_lands_after_frontmatter() {
    let content = content_for_install(SKILL);
    assert!(content.contains("---\n<!-- managed by graphify handoff skill -->"));
    assert!(!SKILL.contains(MARKER));
    assert!(content.starts_with("---\nname: graphify-relay\n---\n<!-- "));
}

#[test]
fn a_text_without_frontmatter_starts_with_the_marker() {
    assert_eq!(content_for_install("x"), "<!-- managed by graphify handoff skill -->\nx");
    assert!(is_managed(Some(&content_for_install("x"))));
    assert!(!is_managed(Some("x")));
    assert!(!is_managed(None));
}

#[test]
fn names_parse_whatever_their_case() {
    let n = claude();
    for a in Agent::ALL {
        assert_eq!(a.name(&n), name_of(a));
        assert_eq!(Agent::parse(&a.name(&n).to_uppercase(), &n), Some(a));
    }
    assert_eq!(Agent::parse("vim", &n), None);
    assert_eq!(Scope::parse("User"), Some(Scope::User));
    assert_eq!(Scope::parse("PROJECT"), Some(Scope::Project));
    assert_eq!(Scope::parse("team"), None);
    assert_eq!(to_lower("ÀB"), "Àb");
}

#[test]
fn an_uninstall_undoes_an_install() {
    let content = content_for_install(SKILL);
    let before = [target("a", None), target("b", Some("# mine\n")), target("c", Some(&content))];
    let report = install_into(&before);
    assert_eq!(report.installed, ["a", "c"]);
    let skipped: Vec<&str> = report.skipped.iter().map(|s| s.0.as_str()).collect();
    assert_eq!(skipped, ["b"]);
    let after = [target("a", Some(&content)), target("b", Some("# mine\n")), target("c", Some(&content))];
    let undone = uninstall_into(&after).unwrap();
    assert_eq!(undone.removed, report.installed);
    let left: Vec<&str> = undone.skipped.iter().map(|s| s.0.as_str()).collect();
    assert_eq!(left, ["b"]);
    let gone = [target("a", None), target("b", Some("# mine\n")), target("c", None)];
    let again = uninstall_into(&gone).unwrap();
    assert!(again.removed.is_empty());
    assert_eq!(again.skipped.len(), 1);
}
