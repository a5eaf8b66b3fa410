use graphify_plugins::graph::{Node, NodeId};
use graphify_plugins::skeleton::{
    count_tokens, emit_group, extract_signature, extract_skeleton, is_declaration_kind, pluralize_kind,
};
use graphify_plugins::text::str_lines;

fn node(kind: &str, label: &str, start_line: usize, end_line: usize) -> Node {
    Node {
        id: NodeId(label.into()),
        label: label.into(),
        kind: kind.into(),
        source_file: "test".into(),
        start_line,
        end_line,
    }
}

#[test]
fn test_rust_skeleton() {
    let content = r#"
use std::collections::HashMap;

/// A rate limiter implementation.
pub struct RateLimiter {
    max: u32,
    window: u64,
}

impl RateLimiter {
    pub fn new(max: u32, window: u64) -> Self {
        RateLimiter { max, window }
    }
}
"#;
    let nodes = [
        node("module", "test", 1, 14),
        node("function", "new", 11, 13),
        node("struct", "RateLimiter", 5, 8),
    ];
    let skeleton = extract_skeleton("/tmp/test.rs", content, &nodes);
    assert!(skeleton.contains("Structs"));
    assert!(skeleton.contains("RateLimiter"));
    assert!(skeleton.contains("Functions"));
    assert!(skeleton.contains("new"));
    assert_eq!(
        skeleton,
        "// test.rs — tokens: 28 -> 53\n\n\
         // ── Structs (1) ──\n  pub struct RateLimiter { ... }  // line 5\n\n\
         // ── Functions (1) ──\n  pub fn new(max: u32, window: u64) -> Self { ... }  // line 11\n\n"
    );
}

#[test]
fn test_python_skeleton() {
    let content = r#"
import os
from typing import Optional

class Config:
    def __init__(self, name: str):
        self.name = name

def hello(name: str) -> str:
    return f"Hi {name}"
"#;
    let nodes = [node("class", "Config", 5, 7), node("function", "hello", 9, 10)];
    let skeleton = extract_skeleton("test.py", content, &nodes);
    assert!(skeleton.contains("Classes"));
    assert!(skeleton.contains("Config"));
    assert!(skeleton.contains("Functions"));
    assert!(skeleton.contains("hello"));
    assert!(skeleton.contains("  class Config:  // line 5\n"), "{skeleton}");
    assert!(skeleton.contains("  def hello(name: str) -> str:  // line 9\n"), "{skeleton}");
}

#[test]
fn a_file_without_nodes_is_empty() {
    assert_eq!(extract_skeleton("a/b.rs", "x", &[]), "// (empty — no declarations found in a/b.rs)");
}

#[test]
fn heads_run_over_lines() {
    let ls = str_lines("fn f(\n    a: u8,\n) -> u8\n{\n    a\n}");
    assert_eq!(extract_signature(&ls, 1, 6), "fn f( a: u8, ) -> u8  { ... }");
    assert_eq!(extract_signature(&ls, 1, 2), "fn f( a: u8,");
    assert_eq!(extract_signature(&ls, 0, 6), "");
    assert_eq!(extract_signature(&ls, 9, 9), "");
    let ls = str_lines("if x:\n# note\n    y");
    assert_eq!(extract_signature(&ls, 1, 3), "if x:");
    let ls = str_lines("def f():\n    # c\n\n    return 1");
    assert_eq!(extract_signature(&ls, 1, 4), "def f():");
    assert_eq!(extract_signature(&ls, 1, 2), "def f(): # c");
    let ls = str_lines("def f():\n    # c\nreturn 1");
    assert_eq!(extract_signature(&ls, 1, 3), "def f(): # c return 1");
}

#[test]
fn tokens_are_runs_of_word_characters() {
    assert_eq!(count_tokens(""), 0);
    assert_eq!(count_tokens("a_b c.d  在寫 é1!"), 5);
}

#[test]
fn kinds_have_headers() {
    assert!(is_declaration_kind("variable"));
    assert!(!is_declaration_kind("module"));
    assert_eq!(pluralize_kind("class"), "Classes");
    assert_eq!(pluralize_kind("other"), "other");
    let mut out = String::from("x");
    emit_group(&mut out, "const", &[]);
    assert_eq!(out, "x");
    emit_group(&mut out, "const", &[("A".to_string(), 3)]);
    assert_eq!(out, "x// ── Constants (1) ──\n  A  // line 3\n\n");
}
