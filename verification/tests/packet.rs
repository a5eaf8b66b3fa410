use graphify_plugins::json::{no_fields, object, string, with_field, Json};
use graphify_plugins::packet::{
    emit_error_packet, emit_packet, emit_packet_text, escape_string, major_mismatch, packet_data, parse_meta,
    unescape_string, FORMAT_VERSION,
};

#[test]
fn emit_and_parse_packet_roundtrip() {
    let inner = object(with_field(no_fields(), "schema_version", string("1.0.0")));
    let data = object(with_field(with_field(no_fields(), "handoff", inner), "active_nodes", Json::Array(vec![])));
    let packet = emit_packet("w-abc123", &data);
    let meta = parse_meta(&packet);
    assert_eq!(meta.format_version.as_deref(), Some("1.0.0"));
    assert_eq!(meta.workspace_key.as_deref(), Some("w-abc123"));
    assert!(meta.error.is_none());
}

#[test]
fn emit_and_parse_roundtrip() {
    let inner = object(with_field(no_fields(), "bindings", Json::UInt(7)));
    let data = object(with_field(no_fields(), "review", inner));
    let packet = emit_packet("w-abc", &data);
    let meta = parse_meta(&packet);
    assert_eq!(meta.format_version.as_deref(), Some("1.0.0"));
    assert_eq!(meta.workspace_key.as_deref(), Some("w-abc"));
    assert!(meta.error.is_none());
}

#[test]
fn a_packet_gives_its_data_back() {
    for data in ["{\"handoff\":{\"a\":\"x: \\n y\"}}", "", "1"] {
        assert_eq!(packet_data(&emit_packet_text("w-abc", data)).as_deref(), Some(data));
    }
    assert_eq!(packet_data(&emit_error_packet("no")), None);
    assert_eq!(packet_data("plugin_data: 1\n"), None);
    assert_eq!(packet_data("metadata:\n\n  plugin_data: 1\n"), None);
}

#[test]
fn error_packet_carries_error() {
    let packet = emit_error_packet("No relay.json found. Run relayInit first.");
    let meta = parse_meta(&packet);
    assert_eq!(meta.error.as_deref(), Some("No relay.json found. Run relayInit first."));
    assert!(meta.workspace_key.is_none());
}

#[test]
fn sync_error_packet_carries_error() {
    let packet = emit_error_packet("No bindings yet.");
    let meta = parse_meta(&packet);
    assert_eq!(meta.error.as_deref(), Some("No bindings yet."));
    let packet = emit_error_packet("No relay.json found. Run relayInit first.");
    let meta = parse_meta(&packet);
    assert_eq!(meta.error.as_deref(), Some("No relay.json found. Run relayInit first."));
    assert!(meta.workspace_key.is_none());
}

#[test]
fn major_mismatch_detected() {
    assert!(!major_mismatch("1.0.0"));
    assert!(!major_mismatch("1.5.0"));
    assert!(major_mismatch("2.0.0"));
    assert!(major_mismatch("0.9.0"));
}

#[test]
fn sync_major_mismatch_detected() {
    assert!(!major_mismatch("1.0.0"));
    assert!(!major_mismatch("1.5.0"));
    assert!(major_mismatch("2.0.0"));
    assert!(major_mismatch("0.9.0"));
}

#[test]
fn a_version_without_dots_is_its_own_major() {
    assert!(!major_mismatch("1"));
    assert!(major_mismatch(""));
    assert!(major_mismatch("10.0.0"));
    assert!(!major_mismatch(FORMAT_VERSION));
}

#[test]
fn escape_roundtrip_with_hostile_strings() {
    let samples = [
        "plain",
        "with space",
        "comma, and quote \"q\"",
        "colon: bracket[ brace}",
        "-leading-hyphen",
        "123-starts-numeric",
        "多語系\u{1F680}emojis",
        "newline\nand\ttab",
    ];
    for s in samples {
        assert_eq!(unescape_string(&escape_string(s)), s);
    }
}

#[test]
fn escape_roundtrip() {
    let samples = ["plain", "with space", ".quote\"q\".", "colon: bracket[", "多語系\u{1F680}"];
    for s in samples {
        assert_eq!(unescape_string(&escape_string(s)), s);
    }
}

#[test]
fn parse_meta_tolerates_missing_keys() {
    let meta = parse_meta("metadata:\n  plugin_data: {}\n");
    assert!(meta.format_version.is_none());
    assert!(meta.workspace_key.is_none());
}

#[test]
fn parse_meta_ignores_other_sections() {
    let packet = "metadata:\n  format_version: \"1.0.0\"\n  workspace_key: \"wk\"\n\nnodes[0,]{...}\n";
    let meta = parse_meta(packet);
    assert_eq!(meta.format_version.as_deref(), Some("1.0.0"));
}

#[test]
fn a_packet_is_three_quoted_lines() {
    assert_eq!(
        emit_packet_text("w key", "{\"a\":1}"),
        "metadata:\n  format_version: \"1.0.0\"\n  workspace_key: \"w key\"\n  plugin_data: \"{\\\"a\\\":1}\"\n"
    );
}

#[test]
fn rendered_data_reaches_the_packet() {
    let data = object(with_field(no_fields(), "n", Json::UInt(7)));
    let packet = emit_packet("w", &data);
    assert!(packet.contains("{\\\"n\\\":7}"), "{packet}");
}

#[test]
fn any_key_comes_back_out_of_a_packet() {
    for key in ["", "null", "a\\b\"c", "line\nbreak\r\n", "  padded  ", "metadata:"] {
        let meta = parse_meta(&emit_packet_text(key, "{}"));
        assert_eq!(meta.workspace_key.as_deref(), Some(key));
        let meta = parse_meta(&emit_error_packet(key));
        assert_eq!(meta.error.as_deref(), Some(key));
    }
}
