use graphify_plugins::root::{git_toplevel, is_relay_root, resolve_root, workspace_root, RootOverride, RELAY_JSON};

fn files(v: &[&str]) -> Vec<String> {
    v.iter().map(|s| s.to_string()).collect()
}

fn dir_override(path: &str) -> Option<RootOverride> {
    Some(RootOverride { path: path.into(), is_file: false, parent: None })
}

#[test]
fn non_git_dir_root_is_cwd_itself() {
    assert_eq!(workspace_root("/tmp/dir", &None, None), "/tmp/dir");
}

#[test]
fn git_subdir_resolves_to_toplevel() {
    assert_eq!(workspace_root("/repo/src/deep", &None, Some("/repo")), "/repo");
}

#[test]
fn git_subdir_ignores_parent_stray_relay() {
    let ws = workspace_root("/outer/proj/src/deep", &None, Some("/outer/proj"));
    assert_eq!(ws, "/outer/proj");
    assert!(!is_relay_root(&files(&["src"])));
    assert_eq!(resolve_root("/outer/proj/src/deep", &None, Some("/outer/proj"), &files(&["src"])), None);
}

#[test]
fn non_git_dir_ignores_parent_stray_relay() {
    assert_eq!(resolve_root("/outer/proj/src/deep", &None, None, &files(&[])), None);
}

#[test]
fn env_override_binds_directory() {
    let got = resolve_root("/tmp/elsewhere", &dir_override("/shared"), Some("/git"), &files(&[RELAY_JSON]));
    assert_eq!(got.as_deref(), Some("/shared"));
}

#[test]
fn env_override_file_uses_parent_dir() {
    let o = Some(RootOverride { path: "/shared/relay.json".into(), is_file: true, parent: Some("/shared".into()) });
    assert_eq!(workspace_root("/tmp/elsewhere", &o, None), "/shared");
    let o = Some(RootOverride { path: "/".into(), is_file: true, parent: None });
    assert_eq!(workspace_root("/tmp/elsewhere", &o, None), "/");
}

#[test]
fn no_relay_means_no_root() {
    assert_eq!(resolve_root("/dir", &None, None, &files(&["README.md"])), None);
}

#[test]
fn is_relay_root_detects_file() {
    assert!(!is_relay_root(&files(&[])));
    assert!(is_relay_root(&files(&["a", "relay.json"])));
}

#[test]
fn git_answers_are_trimmed() {
    assert_eq!(git_toplevel(Some("/repo\n")).as_deref(), Some("/repo"));
    assert_eq!(git_toplevel(Some(" \n")), None);
    assert_eq!(git_toplevel(None), None);
}
