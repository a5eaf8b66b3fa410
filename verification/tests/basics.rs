use graphify_plugins::cli::flag;
use graphify_plugins::clock::{civil_from_days, now_iso, now_rfc3339, rfc3339_utc, signed_seconds, unix_now};
use graphify_plugins::decimal::{decimal_string, hex_lower, padded_string, signed_string, wide_string};
use graphify_plugins::gitignore::ensure_gitignore;
use graphify_plugins::order::{comes_before, sort_strings};
use graphify_plugins::paths::{absolute, basename, join_path, same_path, under};
use graphify_plugins::template::fill;
use graphify_plugins::text::{
    str_clip, str_contains, str_lines, str_split, str_split_once, str_strip_all, str_trim, str_trim_end_char,
};

fn strings(v: &[&str]) -> Vec<String> {
    v.iter().map(|s| s.to_string()).collect()
}

#[test]
fn timestamp_is_iso_utc_with_millis() {
    let t = now_iso();
    assert!(t.ends_with('Z'));
    assert!(t.len() >= 20);
}

#[test]
fn millis_have_three_digits() {
    let t = now_iso();
    let dot = t.len() - 5;
    assert_eq!(&t[dot..dot + 1], ".");
    assert!(t[dot + 1..dot + 4].chars().all(|c| c.is_ascii_digit()), "{t}");
}

#[test]
fn seconds_become_dates() {
    assert_eq!(rfc3339_utc(0), "1970-01-01T00:00:00Z");
    assert_eq!(rfc3339_utc(951_782_400), "2000-02-29T00:00:00Z");
    assert_eq!(rfc3339_utc(1_700_000_000), "2023-11-14T22:13:20Z");
    assert_eq!(rfc3339_utc(4_107_542_399), "2100-02-28T23:59:59Z");
    assert_eq!(rfc3339_utc(4_107_542_400), "2100-03-01T00:00:00Z");
}

#[test]
fn days_become_civil_dates() {
    assert_eq!(civil_from_days(0), (1970, 1, 1));
    assert_eq!(civil_from_days(-1), (1969, 12, 31));
    assert_eq!(civil_from_days(11_016), (2000, 2, 29));
    assert_eq!(civil_from_days(-719_468), (0, 3, 1));
}

#[test]
fn the_clocks_are_set() {
    assert!(now_rfc3339().starts_with("20"));
    assert!(unix_now() > 1_600_000_000);
}

#[test]
fn numbers_have_their_digits() {
    assert_eq!(decimal_string(0), "0");
    assert_eq!(decimal_string(u64::MAX), "18446744073709551615");
    assert_eq!(wide_string(u128::MAX), "340282366920938463463374607431768211455");
    assert_eq!(signed_string(-42), "-42");
    assert_eq!(signed_string(i64::MIN), "-9223372036854775808");
    assert_eq!(padded_string(7, 3), "007");
    assert_eq!(padded_string(1234, 3), "1234");
    assert_eq!(hex_lower(&[0, 15, 255]), "000fff");
}

#[test]
fn texts_are_taken_apart() {
    assert_eq!(str_lines("a\r\nb\n\nc\r"), ["a", "b", "", "c\r"]);
    assert_eq!(str_lines(""), [""; 0]);
    assert_eq!(str_split("a,,b", ','), ["a", "", "b"]);
    assert_eq!(str_split_once("k: v: w", ':'), Some(("k", " v: w")));
    assert_eq!(str_split_once("none", ':'), None);
    assert_eq!(str_trim("\u{3000} x\t\n"), "x");
    assert_eq!(str_strip_all("####x#", "##"), "x#");
    assert_eq!(str_trim_end_char("http://x///", '/'), "http://x");
    assert_eq!(str_clip("在寫測試", 2), "在寫");
    assert!(str_contains("abc", ""));
    assert!(!str_contains("abc", "cb"));
}

#[test]
fn texts_sort_by_characters_or_by_components() {
    assert_eq!(sort_strings(strings(&["b", "a-b", "a/b", "a"]), false), ["a", "a-b", "a/b", "b"]);
    assert_eq!(sort_strings(strings(&["b", "a-b", "a/b", "a"]), true), ["a", "a/b", "a-b", "b"]);
    assert!(comes_before("a/z", "a-a", true));
    assert!(!comes_before("a/z", "a-a", false));
}

#[test]
fn paths_compare_by_components() {
    assert!(same_path("/a//b/", "/a/./b"));
    assert!(!same_path("/a/b", "a/b"));
    assert!(!same_path("./a", "a"));
    assert!(under("/ws/sub", "/ws"));
    assert!(under("/ws", "/ws"));
    assert!(!under("/ws-other", "/ws"));
    assert!(under("/x", "/"));
    assert!(absolute("/x") && !absolute("x"));
    assert_eq!(basename("/a/b/"), "b");
    assert_eq!(basename("/"), "");
    assert_eq!(basename("a/.."), "");
    assert_eq!(join_path("/a", "b"), "/a/b");
    assert_eq!(join_path("/a/", "b"), "/a/b");
    assert_eq!(join_path("", "b"), "b");
}

#[test]
fn a_flag_has_the_value_after_it() {
    let args = strings(&["close", "--repo", "api", "--next", "go", "--repo", "web", "--conf"]);
    assert_eq!(flag(&args, "--repo"), Some("api"));
    assert_eq!(flag(&args, "--next"), Some("go"));
    assert_eq!(flag(&args, "--conf"), None);
    assert_eq!(flag(&args, "--kind"), None);
}

#[test]
fn fill_substitutes_known_vars() {
    let vars = vec![("repo_name", "api".to_string()), ("volatile_state", "在寫測試".to_string())];
    let out = fill("R: {{repo_name}} V: {{volatile_state}} U: {{unknown}}", &vars);
    assert_eq!(out, "R: api V: 在寫測試 U: ");
}

#[test]
fn an_open_placeholder_stays() {
    let vars = vec![("a", "1".to_string())];
    assert_eq!(fill("{{a}} {{a", &vars), "1 {{a");
    assert_eq!(fill("no braces", &vars), "no braces");
}

#[test]
fn a_placeholder_may_stand_in_braces() {
    let vars = vec![("a", "1".to_string())];
    assert_eq!(fill("{{{a}}}", &vars), "{1}");
    assert_eq!(fill("{{ {{a}} }}", &vars), "{{ 1 }}");
    assert_eq!(fill("{{}}|{{a b}}|}}{{a}}", &vars), "||}}1");
}

#[test]
fn an_ignore_file_is_completed_once() {
    let first = ensure_gitignore("").unwrap();
    assert_eq!(first.content, "# Code Relay (local state)\nrelay.json\nRESUME.md\nnext_step.md\n");
    assert_eq!(first.note, ".gitignore updated (relay.json, RESUME.md, next_step.md)");
    assert!(ensure_gitignore(&first.content).is_none());
    let second = ensure_gitignore("target\nrelay.json\n").unwrap();
    assert_eq!(second.content, "target\nrelay.json\n# Code Relay (local state)\nRESUME.md\nnext_step.md\n");
    assert!(ensure_gitignore(&second.content).is_none());
}

#[test]
fn an_ignore_file_keeps_its_lines() {
    let kept = ensure_gitignore("a \n\n# b\r\nc\n\n").unwrap();
    let before = ["a ", "", "# b", "c"];
    assert_eq!(kept.content.lines().take(4).collect::<Vec<_>>(), before);
    let blank = ensure_gitignore(" \n\n").unwrap();
    assert!(blank.content.starts_with(" # Code Relay"));
}

#[test]
fn seconds_keep_their_number() {
    assert_eq!(signed_seconds(0), 0);
    assert_eq!(signed_seconds(1_767_323_045), 1_767_323_045);
    assert_eq!(signed_seconds(u64::MAX), -1);
}
