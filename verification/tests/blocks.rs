use graphify_plugins::blocks::{
    blocks_from_events, extract_blocks, heading_level_of, is_symbol_heading, sha1_12, sha1_hex, spec_id_for,
    HeadingLevel, MdEvent,
};

const DOC: &str = "docs/auth.md";

#[test]
fn sha1_12_matches_known_vector() {
    assert_eq!(sha1_12("hello"), "aaf4c61ddcc5");
    assert_eq!(sha1_12(""), "da39a3ee5e6b");
}

#[test]
fn sha1_of_text_is_forty_digits() {
    assert_eq!(sha1_hex("hello"), "aaf4c61ddcc5e8a2dabede0f3b482cd9aea9434d");
    assert_eq!(spec_id_for("hel", "lo"), "aaf4c61ddcc5");
}

#[test]
fn empty_markdown_yields_no_blocks() {
    assert!(extract_blocks("", DOC).is_empty());
}

#[test]
fn single_heading_yields_one_block() {
    let md = "## verify_token\n\nValidates JWT.\n";
    let blocks = extract_blocks(md, DOC);
    assert_eq!(blocks.len(), 1);
    assert_eq!(blocks[0].heading, "verify_token");
    assert_eq!(blocks[0].doc_path, DOC);
    assert!(blocks[0].content.contains("Validates JWT."));
    assert!(blocks[0].symbols.is_empty());
    assert!(blocks[0].block_signature.len() == 40);
}

#[test]
fn multiple_headings_split_into_blocks() {
    let md = "## verify_token\n\nToken validation.\n\n## get_user\n\nUser lookup.\n";
    let blocks = extract_blocks(md, DOC);
    assert_eq!(blocks.len(), 2);
    assert_eq!(blocks[0].heading, "verify_token");
    assert_eq!(blocks[1].heading, "get_user");
    assert!(blocks[0].content.contains("Token validation."));
    assert!(!blocks[0].content.contains("User lookup."));
    assert!(blocks[1].content.contains("User lookup."));
}

#[test]
fn symbol_declaration_attaches_to_current_block() {
    let md = "## verify_token\n\nValidates tokens.\n\n# Symbol: crate::auth::verify_token\n\nMore content.\n";
    let blocks = extract_blocks(md, DOC);
    assert_eq!(blocks.len(), 1, "Symbol heading should not split block");
    assert_eq!(blocks[0].symbols, vec!["crate::auth::verify_token"]);
    assert!(blocks[0].content.contains("Validates tokens."));
    assert!(blocks[0].content.contains("More content."));
}

#[test]
fn multiple_symbols_in_one_block() {
    let md = "## auth\n\nAuth module.\n\n# Symbol: crate::auth::login\n\n# Symbol: crate::auth::logout\n";
    let blocks = extract_blocks(md, DOC);
    assert_eq!(blocks.len(), 1);
    assert_eq!(blocks[0].symbols, vec!["crate::auth::login", "crate::auth::logout"]);
}

#[test]
fn symbol_before_any_block_is_dropped() {
    let md = "# Symbol: orphan\n\n## verify_token\n\ncontent\n";
    let blocks = extract_blocks(md, DOC);
    assert_eq!(blocks.len(), 1);
    assert!(blocks[0].symbols.is_empty(), "orphan symbol should be dropped");
}

#[test]
fn symbol_inside_code_fence_is_not_captured() {
    let md = "## verify_token\n\nExample:\n\n```\n# Symbol: fake\n```\n\nReal.\n";
    let blocks = extract_blocks(md, DOC);
    assert_eq!(blocks.len(), 1);
    assert!(blocks[0].symbols.is_empty(), "code-fence # Symbol: is not a heading");
}

#[test]
fn spec_id_is_deterministic() {
    let md = "## verify_token\n\ncontent\n";
    let b1 = extract_blocks(md, DOC);
    let b2 = extract_blocks(md, DOC);
    assert_eq!(b1[0].spec_id, b2[0].spec_id);
    assert_eq!(b1[0].spec_id.len(), 12);
}

#[test]
fn spec_id_differs_by_doc_path() {
    let md = "## verify_token\n\ncontent\n";
    let b1 = extract_blocks(md, "docs/a.md");
    let b2 = extract_blocks(md, "docs/b.md");
    assert_ne!(b1[0].spec_id, b2[0].spec_id);
}

#[test]
fn block_signature_changes_with_content() {
    let md1 = "## verify_token\n\nOriginal.\n";
    let md2 = "## verify_token\n\nModified.\n";
    let b1 = extract_blocks(md1, DOC);
    let b2 = extract_blocks(md2, DOC);
    assert_eq!(b1[0].spec_id, b2[0].spec_id, "spec_id is by heading, not content");
    assert_ne!(b1[0].block_signature, b2[0].block_signature);
}

#[test]
fn h1_title_then_h2_blocks() {
    let md = "# Auth Module\n\nOverview.\n\n## verify_token\n\nContent.\n\n## get_user\n\nMore.\n";
    let blocks = extract_blocks(md, DOC);
    assert_eq!(blocks.len(), 3, "H1 title is also a block");
    assert_eq!(blocks[0].heading, "Auth Module");
    assert_eq!(blocks[1].heading, "verify_token");
    assert_eq!(blocks[2].heading, "get_user");
}

#[test]
fn heading_with_inline_code() {
    let md = "## `verify_token` function\n\nContent.\n\n# Symbol: crate::auth::verify_token\n";
    let blocks = extract_blocks(md, DOC);
    assert_eq!(blocks.len(), 1);
    assert_eq!(blocks[0].heading, "verify_token function");
    assert_eq!(blocks[0].symbols, vec!["crate::auth::verify_token"]);
}

#[test]
fn duplicate_symbol_deduplicated() {
    let md = "## auth\n\nContent.\n\n# Symbol: crate::auth::login\n\n# Symbol: crate::auth::login\n";
    let blocks = extract_blocks(md, DOC);
    assert_eq!(blocks[0].symbols, vec!["crate::auth::login"]);
}

#[test]
fn symbol_headings_are_told_apart() {
    assert!(is_symbol_heading("Symbol: crate::x"));
    assert!(is_symbol_heading("  sYMBOL:x"));
    assert!(!is_symbol_heading("Symbols"));
    assert_eq!(heading_level_of(HeadingLevel::H1), 1);
    assert_eq!(heading_level_of(HeadingLevel::H6), 6);
}

#[test]
fn a_block_is_consistent_with_its_content() {
    let blocks = extract_blocks("## a\n\nx\n\n## b\n\ny\n", DOC);
    for b in &blocks {
        assert_eq!(b.spec_id, spec_id_for(DOC, &b.heading));
        assert_eq!(b.block_signature, sha1_hex(&b.content));
    }
}

#[test]
fn no_events_make_no_block() {
    let none: Vec<MdEvent> = Vec::new();
    assert!(blocks_from_events(&none, DOC).is_empty());
}
