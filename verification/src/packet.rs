//! The `.toon` exchange packet: a `metadata:` block of escaped `key: value`
//! lines. Every plugin answers a sync with one, and reads the metadata of one
//! that it is handed.
use vstd::prelude::*;

use crate::json::{json_rendered, render_json, Json};
use crate::text::{
    char_pos, is_space, is_whitespace, lemma_char_pos, lemma_char_pos_is, lines, opt_text, same,
    split_once, starts_with, str_lines, str_split_once, str_starts_with, str_trim, strip_cr,
    to_chars, trim, trim_start, views,
};

verus! {

/// Version of the packet contract.
pub const FORMAT_VERSION: &'static str = "1.0.0";

/// The metadata read from a packet.
pub struct PacketMeta {
    pub format_version: Option<String>,
    pub workspace_key: Option<String>,
    pub error: Option<String>,
}

/// Model of [`PacketMeta`].
#[verifier::ext_equal]
pub struct MetaView {
    pub format_version: Option<Seq<char>>,
    pub workspace_key: Option<Seq<char>>,
    pub error: Option<Seq<char>>,
}

impl View for PacketMeta {
    type V = MetaView;

    open spec fn view(&self) -> MetaView {
        MetaView {
            format_version: opt_text(self.format_version),
            workspace_key: opt_text(self.workspace_key),
            error: opt_text(self.error),
        }
    }
}

/// A decimal digit of ASCII.
pub open spec fn is_digit(c: char) -> bool {
    '0' <= c <= '9'
}

/// A character that forces quotes round the string that holds it.
pub open spec fn is_special(c: char) -> bool {
    is_space(c) || c == ':' || c == '[' || c == ']' || c == '{' || c == '}' || c == '-' || c == '\\'
        || c == '"'
}

/// Whether a string is written in quotes: the empty string, the three literals,
/// one that holds a special character, one that starts with a digit.
pub open spec fn needs_quoting(s: Seq<char>) -> bool {
    ||| s.len() == 0
    ||| s == "null"@
    ||| s == "true"@
    ||| s == "false"@
    ||| exists|i: int| 0 <= i < s.len() && is_special(#[trigger] s[i])
    ||| is_digit(s[0])
}

/// The characters that stand for `c` inside quotes.
pub open spec fn escape_char(c: char) -> Seq<char> {
    if c == '"' {
        seq!['\\', '"']
    } else if c == '\\' {
        seq!['\\', '\\']
    } else if c == '\n' {
        seq!['\\', 'n']
    } else if c == '\r' {
        seq!['\\', 'r']
    } else if c == '\t' {
        seq!['\\', 't']
    } else {
        seq![c]
    }
}

/// The text between the quotes.
pub open spec fn escape_body(s: Seq<char>) -> Seq<char>
    decreases s.len(),
{
    if s.len() == 0 {
        Seq::empty()
    } else {
        escape_char(s[0]) + escape_body(s.drop_first())
    }
}

/// A string as a packet writes it.
pub open spec fn escaped(s: Seq<char>) -> Seq<char> {
    if needs_quoting(s) {
        seq!['"'] + escape_body(s) + seq!['"']
    } else {
        s
    }
}

/// What a backslash followed by `c` stands for.
pub open spec fn unescape_pair(c: char) -> Seq<char> {
    if c == '"' {
        seq!['"']
    } else if c == '\\' {
        seq!['\\']
    } else if c == 'n' {
        seq!['\n']
    } else if c == 'r' {
        seq!['\r']
    } else if c == 't' {
        seq!['\t']
    } else {
        seq!['\\', c]
    }
}

/// What the text between quotes stands for.
pub open spec fn unescape_body(s: Seq<char>) -> Seq<char>
    decreases s.len(),
{
    if s.len() == 0 {
        Seq::empty()
    } else if s[0] == '\\' && s.len() > 1 {
        unescape_pair(s[1]) + unescape_body(s.skip(2))
    } else {
        seq![s[0]] + unescape_body(s.drop_first())
    }
}

/// The string that a packet's text stands for.
pub open spec fn unescaped(s: Seq<char>) -> Seq<char> {
    if s.len() >= 2 && s[0] == '"' && s.last() == '"' {
        unescape_body(s.subrange(1, s.len() - 1))
    } else {
        s
    }
}

/// Writes a string for a packet, in quotes where it needs them.
pub fn escape_string(s: &str) -> (r: String)
    ensures
        r@ == escaped(s@),
{
    let cs = to_chars(s);
    let mut quote: bool = cs.len() == 0 || same(s, "null") || same(s, "true") || same(s, "false");
    let mut i: usize = 0;
    while i < cs.len()
        invariant
            i <= cs.len(),
            cs@ == s@,
            quote == (s@.len() == 0 || s@ == "null"@ || s@ == "true"@ || s@ == "false"@ || exists|
                j: int,
            | 0 <= j < i && is_special(#[trigger] s@[j])),
        decreases cs.len() - i,
    {
        let c = cs[i];
        if is_whitespace(c) || c == ':' || c == '[' || c == ']' || c == '{' || c == '}' || c == '-'
            || c == '\\' || c == '"' {
            assert(is_special(s@[i as int]));
            quote = true;
        }
        i += 1;
    }
    if cs.len() > 0 && '0' <= cs[0] && cs[0] <= '9' {
        quote = true;
    }
    if !quote {
        return s.to_owned();
    }
    let mut out = String::new();
    out.push('"');
    let mut k: usize = 0;
    assert(s@.skip(0) == s@);
    while k < cs.len()
        invariant
            k <= cs.len(),
            cs@ == s@,
            out@ + escape_body(s@.skip(k as int)) == seq!['"'] + escape_body(s@),
        decreases cs.len() - k,
    {
        let c = cs[k];
        let ghost before = out@;
        if c == '"' {
            out.push('\\');
            out.push('"');
        } else if c == '\\' {
            out.push('\\');
            out.push('\\');
        } else if c == '\n' {
            out.push('\\');
            out.push('n');
        } else if c == '\r' {
            out.push('\\');
            out.push('r');
        } else if c == '\t' {
            out.push('\\');
            out.push('t');
        } else {
            out.push(c);
        }
        proof {
            let t = s@.skip(k as int);
            assert(t.drop_first() == s@.skip(k + 1));
            assert(out@ == before + escape_char(c));
            assert(out@ + escape_body(s@.skip(k + 1)) == before + (escape_char(c) + escape_body(
                s@.skip(k + 1),
            )));
        }
        k += 1;
    }
    assert(s@.skip(k as int).len() == 0);
    assert(out@ + escape_body(s@.skip(k as int)) == out@);
    out.push('"');
    assert(out@ == seq!['"'] + escape_body(s@) + seq!['"']);
    out
}

/// Reads a string that a packet wrote.
pub fn unescape_string(s: &str) -> (r: String)
    ensures
        r@ == unescaped(s@),
{
    let cs = to_chars(s);
    if cs.len() < 2 || cs[0] != '"' || cs[cs.len() - 1] != '"' {
        return s.to_owned();
    }
    let end: usize = cs.len() - 1;
    let ghost body = s@.subrange(1, end as int);
    let mut out = String::new();
    let mut i: usize = 1;
    assert(body.skip(0) == body);
    assert(out@ + unescape_body(body) == unescape_body(body));
    while i < end
        invariant
            1 <= i <= end,
            end == cs.len() - 1,
            cs@ == s@,
            body == s@.subrange(1, end as int),
            out@ + unescape_body(body.skip(i - 1)) == unescape_body(body),
        decreases end - i,
    {
        let ghost t = body.skip(i - 1);
        let ghost before = out@;
        let c = cs[i];
        if c == '\\' && i + 1 < end {
            let d = cs[i + 1];
            if d == '"' {
                out.push('"');
            } else if d == '\\' {
                out.push('\\');
            } else if d == 'n' {
                out.push('\n');
            } else if d == 'r' {
                out.push('\r');
            } else if d == 't' {
                out.push('\t');
            } else {
                out.push('\\');
                out.push(d);
            }
            proof {
                assert(t.skip(2) == body.skip(i + 1));
                assert(out@ == before + unescape_pair(d));
                assert(out@ + unescape_body(body.skip(i + 1)) == before + (unescape_pair(d)
                    + unescape_body(t.skip(2))));
            }
            i += 2;
        } else {
            out.push(c);
            proof {
                assert(t.drop_first() == body.skip(i as int));
                assert(out@ == before + seq![c]);
                assert(out@ + unescape_body(body.skip(i as int)) == before + (seq![c]
                    + unescape_body(t.drop_first())));
            }
            i += 1;
        }
    }
    assert(body.skip(i - 1).len() == 0);
    assert(out@ + unescape_body(body.skip(i - 1)) == out@);
    out
}

/// The packet that carries `data`, a rendered JSON value, for a workspace.
pub open spec fn packet_text(workspace_key: Seq<char>, data: Seq<char>) -> Seq<char> {
    "metadata:\n  format_version: "@ + escaped(FORMAT_VERSION@) + "\n  workspace_key: "@ + escaped(
        workspace_key,
    ) + "\n  plugin_data: "@ + escaped(data) + "\n"@
}

/// The packet that reports an error.
pub open spec fn error_packet_text(error: Seq<char>) -> Seq<char> {
    "metadata:\n  format_version: "@ + escaped(FORMAT_VERSION@) + "\n  error: "@ + escaped(error)
        + "\n"@
}

/// Writes a packet round an already rendered JSON value.
pub fn emit_packet_text(workspace_key: &str, data: &str) -> (r: String)
    ensures
        r@ == packet_text(workspace_key@, data@),
{
    let mut out = "metadata:\n  format_version: ".to_owned();
    out.append(escape_string(FORMAT_VERSION).as_str());
    out.append("\n  workspace_key: ");
    out.append(escape_string(workspace_key).as_str());
    out.append("\n  plugin_data: ");
    out.append(escape_string(data).as_str());
    out.append("\n");
    out
}

/// Writes the packet that carries a plugin's data for a workspace.
pub fn emit_packet(workspace_key: &str, plugin_data: &Json) -> (r: String)
    ensures
        r@ == packet_text(workspace_key@, json_rendered(plugin_data@)),
{
    let data = render_json(plugin_data);
    emit_packet_text(workspace_key, data.as_str())
}

/// Writes a packet that reports an error.
pub fn emit_error_packet(error: &str) -> (r: String)
    ensures
        r@ == error_packet_text(error@),
{
    let mut out = "metadata:\n  format_version: ".to_owned();
    out.append(escape_string(FORMAT_VERSION).as_str());
    out.append("\n  error: ");
    out.append(escape_string(error).as_str());
    out.append("\n");
    out
}

/// No metadata at all.
pub open spec fn no_meta() -> MetaView {
    MetaView { format_version: None, workspace_key: None, error: None }
}

/// The metadata after one line of the block, given without outer white space.
pub open spec fn meta_entry(m: MetaView, line: Seq<char>) -> MetaView {
    match split_once(line, ':') {
        None => m,
        Some((k, v)) => {
            let key = trim(k);
            let value = Some(unescaped(trim(v)));
            if key == "format_version"@ {
                MetaView { format_version: value, ..m }
            } else if key == "workspace_key"@ {
                MetaView { workspace_key: value, ..m }
            } else if key == "error"@ {
                MetaView { error: value, ..m }
            } else {
                m
            }
        },
    }
}

/// Whether a line still belongs to the metadata block: indented and not blank.
pub open spec fn in_block(line: Seq<char>) -> bool {
    trim(line).len() > 0 && starts_with(line, "  "@)
}

/// The metadata after the lines of the block, which ends at the first line that
/// is blank or not indented.
pub open spec fn meta_block(ls: Seq<Seq<char>>, m: MetaView) -> MetaView
    decreases ls.len(),
{
    if ls.len() == 0 || !in_block(ls[0]) {
        m
    } else {
        meta_block(ls.drop_first(), meta_entry(m, trim(ls[0])))
    }
}

/// The metadata of a text given by its lines: that of the block below the first
/// `metadata:` line.
pub open spec fn meta_of(ls: Seq<Seq<char>>) -> MetaView
    decreases ls.len(),
{
    if ls.len() == 0 {
        no_meta()
    } else if trim(ls[0]) == "metadata:"@ {
        meta_block(ls.drop_first(), no_meta())
    } else {
        meta_of(ls.drop_first())
    }
}

/// Reads the metadata of a `.toon` text.
pub fn parse_meta(toon: &str) -> (meta: PacketMeta)
    ensures
        meta@ == meta_of(lines(toon@)),
{
    let ls = str_lines(toon);
    let ghost all = lines(toon@);
    let mut meta = PacketMeta { format_version: None, workspace_key: None, error: None };
    let mut i: usize = 0;
    assert(all.skip(0) == all);
    while i < ls.len() && !same(str_trim(ls[i]), "metadata:")
        invariant
            i <= ls.len(),
            views(ls@) == all,
            meta_of(all.skip(i as int)) == meta_of(all),
        decreases ls.len() - i,
    {
        assert(all.skip(i as int)[0] == ls@[i as int]@);
        assert(all.skip(i as int).drop_first() == all.skip(i + 1));
        i += 1;
    }
    if i >= ls.len() {
        assert(all.skip(i as int).len() == 0);
        return meta;
    }
    assert(all.skip(i as int)[0] == ls@[i as int]@);
    assert(all.skip(i as int).drop_first() == all.skip(i + 1));
    i += 1;
    while i < ls.len() && !str_trim(ls[i]).is_empty() && str_starts_with(ls[i], "  ")
        invariant
            i <= ls.len(),
            views(ls@) == all,
            meta_block(all.skip(i as int), meta@) == meta_of(all),
        decreases ls.len() - i,
    {
        let line = str_trim(ls[i]);
        assert(all.skip(i as int)[0] == ls@[i as int]@);
        assert(all.skip(i as int).drop_first() == all.skip(i + 1));
        let ghost before = meta@;
        if let Some((k, v)) = str_split_once(line, ':') {
            let key = str_trim(k);
            let value = unescape_string(str_trim(v));
            if same(key, "format_version") {
                meta.format_version = Some(value);
            } else if same(key, "workspace_key") {
                meta.workspace_key = Some(value);
            } else if same(key, "error") {
                meta.error = Some(value);
            }
        }
        assert(meta@ == meta_entry(before, line@));
        i += 1;
    }
    proof {
        if i < ls.len() {
            assert(all.skip(i as int)[0] == ls@[i as int]@);
        }
    }
    meta
}

/// The data after one line of the block, given without outer white space.
pub open spec fn data_entry(d: Option<Seq<char>>, line: Seq<char>) -> Option<Seq<char>> {
    match split_once(line, ':') {
        Some((k, v)) if trim(k) == "plugin_data"@ => Some(unescaped(trim(v))),
        _ => d,
    }
}

/// The data after the lines of the block.
pub open spec fn data_block(ls: Seq<Seq<char>>, d: Option<Seq<char>>) -> Option<Seq<char>>
    decreases ls.len(),
{
    if ls.len() == 0 || !in_block(ls[0]) {
        d
    } else {
        data_block(ls.drop_first(), data_entry(d, trim(ls[0])))
    }
}

/// The data that a text given by its lines carries in the block below its first
/// `metadata:` line.
pub open spec fn data_of(ls: Seq<Seq<char>>) -> Option<Seq<char>>
    decreases ls.len(),
{
    if ls.len() == 0 {
        None
    } else if trim(ls[0]) == "metadata:"@ {
        data_block(ls.drop_first(), None)
    } else {
        data_of(ls.drop_first())
    }
}

/// Reads the data that a `.toon` text carries, a rendered JSON value.
pub fn packet_data(toon: &str) -> (r: Option<String>)
    ensures
        opt_text(r) == data_of(lines(toon@)),
{
    let ls = str_lines(toon);
    let ghost all = lines(toon@);
    let mut data: Option<String> = None;
    let mut i: usize = 0;
    assert(all.skip(0) == all);
    while i < ls.len() && !same(str_trim(ls[i]), "metadata:")
        invariant
            i <= ls.len(),
            views(ls@) == all,
            data_of(all.skip(i as int)) == data_of(all),
        decreases ls.len() - i,
    {
        assert(all.skip(i as int)[0] == ls@[i as int]@);
        assert(all.skip(i as int).drop_first() == all.skip(i + 1));
        i += 1;
    }
    if i >= ls.len() {
        assert(all.skip(i as int).len() == 0);
        return None;
    }
    assert(all.skip(i as int)[0] == ls@[i as int]@);
    assert(all.skip(i as int).drop_first() == all.skip(i + 1));
    i += 1;
    while i < ls.len() && !str_trim(ls[i]).is_empty() && str_starts_with(ls[i], "  ")
        invariant
            i <= ls.len(),
            views(ls@) == all,
            data_block(all.skip(i as int), opt_text(data)) == data_of(all),
        decreases ls.len() - i,
    {
        let line = str_trim(ls[i]);
        assert(all.skip(i as int)[0] == ls@[i as int]@);
        assert(all.skip(i as int).drop_first() == all.skip(i + 1));
        let ghost before = opt_text(data);
        if let Some((k, v)) = str_split_once(line, ':') {
            if same(str_trim(k), "plugin_data") {
                data = Some(unescape_string(str_trim(v)));
            }
        }
        assert(opt_text(data) == data_entry(before, line@));
        i += 1;
    }
    proof {
        if i < ls.len() {
            assert(all.skip(i as int)[0] == ls@[i as int]@);
        }
    }
    data
}

/// The version's first dotted part is not `1`.
pub open spec fn is_major_mismatch(format_version: Seq<char>) -> bool {
    format_version.take(char_pos(format_version, '.') as int) != "1"@
}

/// Whether a packet's version has another MAJOR than this contract.
pub fn major_mismatch(format_version: &str) -> (r: bool)
    ensures
        r == is_major_mismatch(format_version@),
{
    proof {
        lemma_char_pos(format_version@, '.');
    }
    match str_split_once(format_version, '.') {
        Some((major, _)) => !same(major, "1"),
        None => {
            assert(format_version@.take(format_version@.len() as int) == format_version@);
            !same(format_version, "1")
        },
    }
}

proof fn lemma_unescape_escape(s: Seq<char>)
    ensures
        unescape_body(escape_body(s)) == s,
    decreases s.len(),
{
    if s.len() > 0 {
        let rest = escape_body(s.drop_first());
        let e = escape_char(s[0]);
        lemma_unescape_escape(s.drop_first());
        let all = e + rest;
        assert(all[0] == e[0]);
        if e.len() == 2 {
            assert(all[1] == e[1]);
            assert(all.skip(2) == rest);
        } else {
            assert(all.drop_first() == rest);
        }
        assert(seq![s[0]] + s.drop_first() == s);
    }
}

/// Reading what was written gives the string back, whatever it holds.
pub proof fn law_unescape_inverts_escape(s: Seq<char>)
    ensures
        unescaped(escaped(s)) == s,
{
    if needs_quoting(s) {
        let q = escaped(s);
        let b = escape_body(s);
        assert(q.len() == b.len() + 2);
        assert(q[0] == '"' && q.last() == '"');
        assert(q.subrange(1, q.len() - 1) == b);
        lemma_unescape_escape(s);
    } else if s.len() >= 2 && s[0] == '"' {
        assert(is_special(s[0]));
    }
}

proof fn lemma_escape_body_chars(s: Seq<char>)
    ensures
        forall|i: int|
            0 <= i < escape_body(s).len() ==> #[trigger] escape_body(s)[i] != '\n' && escape_body(
                s,
            )[i] != '\r',
    decreases s.len(),
{
    if s.len() > 0 {
        lemma_escape_body_chars(s.drop_first());
        let e = escape_char(s[0]);
        let rest = escape_body(s.drop_first());
        assert forall|i: int| 0 <= i < escape_body(s).len() implies #[trigger] escape_body(s)[i]
            != '\n' && escape_body(s)[i] != '\r' by {
            if i >= e.len() {
                assert(escape_body(s)[i] == rest[i - e.len()]);
            } else {
                assert(escape_body(s)[i] == e[i]);
            }
        }
    }
}

/// A written string stays on its line and has no white space at its ends.
proof fn lemma_escaped_shape(s: Seq<char>)
    ensures
        escaped(s).len() > 0,
        !is_space(escaped(s)[0]),
        !is_space(escaped(s).last()),
        forall|i: int|
            0 <= i < escaped(s).len() ==> #[trigger] escaped(s)[i] != '\n' && escaped(s)[i] != '\r',
{
    let e = escaped(s);
    if needs_quoting(s) {
        lemma_escape_body_chars(s);
        let b = escape_body(s);
        assert forall|i: int| 0 <= i < e.len() implies #[trigger] e[i] != '\n' && e[i] != '\r' by {
            if 0 < i < e.len() - 1 {
                assert(e[i] == b[i - 1]);
            }
        }
    } else {
        assert forall|i: int| 0 <= i < e.len() implies #[trigger] e[i] != '\n' && e[i] != '\r' by {
            assert(!is_special(s[i]));
        }
        assert(!is_special(s[0]));
        assert(!is_special(s[s.len() - 1]));
    }
}

/// A line feed ends a line.
pub proof fn lemma_lines_cons(line: Seq<char>, rest: Seq<char>)
    requires
        forall|i: int| 0 <= i < line.len() ==> line[i] != '\n',
    ensures
        lines(line + seq!['\n'] + rest) == seq![strip_cr(line)] + lines(rest),
{
    let s = line + seq!['\n'] + rest;
    lemma_char_pos_is(s, '\n', line.len());
    assert(s.take(line.len() as int) == line);
    assert(s.skip(line.len() as int + 1) == rest);
}

proof fn lemma_trim_inner(t: Seq<char>)
    requires
        t.len() > 0,
        !is_space(t[0]),
        !is_space(t.last()),
    ensures
        trim(t) == t,
        trim(seq![' '] + t) == t,
        trim(seq![' ', ' '] + t) == t,
{
    reveal_with_fuel(trim_start, 3);
    let a = seq![' '] + t;
    let b = seq![' ', ' '] + t;
    assert(a.drop_first() == t);
    assert(b.drop_first() == a);
}

/// One `key: value` line of a block, read.
proof fn lemma_entry(key: Seq<char>, value: Seq<char>)
    requires
        key.len() > 0,
        forall|i: int| 0 <= i < key.len() ==> !is_space(key[i]) && key[i] != ':' && key[i] != '\n',
    ensures
        ({
            let line = seq![' ', ' '] + key + seq![':', ' '] + escaped(value);
            &&& in_block(line)
            &&& strip_cr(line) == line
            &&& forall|i: int| 0 <= i < line.len() ==> line[i] != '\n'
            &&& split_once(trim(line), ':') == Some((key, seq![' '] + escaped(value)))
            &&& trim(key) == key
            &&& trim(seq![' '] + escaped(value)) == escaped(value)
            &&& unescaped(escaped(value)) == value
        }),
{
    let e = escaped(value);
    lemma_escaped_shape(value);
    law_unescape_inverts_escape(value);
    let t = key + seq![':', ' '] + e;
    let line = seq![' ', ' '] + key + seq![':', ' '] + e;
    assert(line == seq![' ', ' '] + t);
    assert(t[0] == key[0]);
    assert(t.last() == e.last());
    lemma_trim_inner(t);
    lemma_trim_inner(e);
    lemma_trim_inner(key);
    lemma_char_pos_is(t, ':', key.len());
    assert(t.take(key.len() as int) == key);
    assert(t.skip(key.len() as int + 1) == seq![' '] + e);
    reveal_strlit("  ");
    assert(line.take(2) == "  "@);
    assert(line.last() == e.last());
    assert forall|i: int| 0 <= i < line.len() implies line[i] != '\n' by {
        if i >= key.len() + 4 {
            assert(line[i] == e[i - key.len() - 4]);
        } else if 2 <= i < key.len() + 2 {
            assert(line[i] == key[i - 2]);
        }
    }
}

/// The metadata of a block whose first line is a `key: value` line.
proof fn lemma_block_step(key: Seq<char>, value: Seq<char>, rest: Seq<char>, m: MetaView)
    requires
        key.len() > 0,
        forall|i: int| 0 <= i < key.len() ==> !is_space(key[i]) && key[i] != ':' && key[i] != '\n',
    ensures
        ({
            let line = seq![' ', ' '] + key + seq![':', ' '] + escaped(value);
            &&& meta_block(lines(line + seq!['\n'] + rest), m) == meta_block(
                lines(rest),
                meta_entry(m, trim(line)),
            )
            &&& split_once(trim(line), ':') == Some((key, seq![' '] + escaped(value)))
            &&& trim(key) == key
            &&& trim(seq![' '] + escaped(value)) == escaped(value)
            &&& unescaped(escaped(value)) == value
        }),
{
    let line = seq![' ', ' '] + key + seq![':', ' '] + escaped(value);
    lemma_entry(key, value);
    lemma_lines_cons(line, rest);
    let ls = lines(line + seq!['\n'] + rest);
    assert(ls[0] == line);
    assert(ls.drop_first() == lines(rest));
}

proof fn lemma_header(rest: Seq<char>)
    ensures
        meta_of(lines("metadata:"@ + seq!['\n'] + rest)) == meta_block(lines(rest), no_meta()),
{
    reveal_strlit("metadata:");
    let h = "metadata:"@;
    lemma_lines_cons(h, rest);
    assert(strip_cr(h) == h);
    lemma_trim_inner(h);
    let ls = lines(h + seq!['\n'] + rest);
    assert(ls[0] == h);
    assert(ls.drop_first() == lines(rest));
}

/// The fixed parts of a packet, as the line breaks, keys and colons they are.
proof fn lemma_fixed_parts()
    ensures
        "metadata:\n  format_version: "@ == "metadata:"@ + seq!['\n'] + (seq![' ', ' ']
            + "format_version"@ + seq![':', ' ']),
        "\n  workspace_key: "@ == seq!['\n'] + (seq![' ', ' '] + "workspace_key"@ + seq![':', ' ']),
        "\n  plugin_data: "@ == seq!['\n'] + (seq![' ', ' '] + "plugin_data"@ + seq![':', ' ']),
        "\n  error: "@ == seq!['\n'] + (seq![' ', ' '] + "error"@ + seq![':', ' ']),
        "\n"@ == seq!['\n'],
{
    reveal_strlit("metadata:\n  format_version: ");
    reveal_strlit("\n  workspace_key: ");
    reveal_strlit("\n  plugin_data: ");
    reveal_strlit("\n  error: ");
    reveal_strlit("\n");
    reveal_strlit("metadata:");
    reveal_strlit("format_version");
    reveal_strlit("workspace_key");
    reveal_strlit("plugin_data");
    reveal_strlit("error");
    assert("metadata:\n  format_version: "@ =~= "metadata:"@ + seq!['\n'] + (seq![' ', ' ']
        + "format_version"@ + seq![':', ' ']));
    assert("\n  workspace_key: "@ =~= seq!['\n'] + (seq![' ', ' '] + "workspace_key"@ + seq![
        ':',
        ' ',
    ]));
    assert("\n  plugin_data: "@ =~= seq!['\n'] + (seq![' ', ' '] + "plugin_data"@ + seq![':', ' ']));
    assert("\n  error: "@ =~= seq!['\n'] + (seq![' ', ' '] + "error"@ + seq![':', ' ']));
    assert("\n"@ =~= seq!['\n']);
}

/// The keys of the metadata are different words without colons or white space.
proof fn lemma_keys()
    ensures
        ({
            let word = |k: Seq<char>|
                k.len() > 0 && forall|i: int|
                    0 <= i < k.len() ==> !is_space(k[i]) && k[i] != ':' && k[i] != '\n';
            &&& word("format_version"@)
            &&& word("workspace_key"@)
            &&& word("plugin_data"@)
            &&& word("error"@)
        }),
        "format_version"@[0] == 'f',
        "workspace_key"@[0] == 'w',
        "plugin_data"@[0] == 'p',
        "error"@[0] == 'e',
{
    reveal_strlit("format_version");
    reveal_strlit("workspace_key");
    reveal_strlit("plugin_data");
    reveal_strlit("error");
}

/// Reading a carrying packet gives back the contract's version and the
/// workspace it was written for, and no error.
pub proof fn law_packet_roundtrip(workspace_key: Seq<char>, data: Seq<char>)
    ensures
        meta_of(lines(packet_text(workspace_key, data))) == (MetaView {
            format_version: Some(FORMAT_VERSION@),
            workspace_key: Some(workspace_key),
            error: None,
        }),
{
    let k1 = "format_version"@;
    let k2 = "workspace_key"@;
    let k3 = "plugin_data"@;
    let v1 = FORMAT_VERSION@;
    let l1 = seq![' ', ' '] + k1 + seq![':', ' '] + escaped(v1);
    let l2 = seq![' ', ' '] + k2 + seq![':', ' '] + escaped(workspace_key);
    let l3 = seq![' ', ' '] + k3 + seq![':', ' '] + escaped(data);
    let r3 = Seq::<char>::empty();
    let r2 = l3 + seq!['\n'] + r3;
    let r1 = l2 + seq!['\n'] + r2;
    let r0 = l1 + seq!['\n'] + r1;
    lemma_fixed_parts();
    lemma_keys();
    assert(packet_text(workspace_key, data) =~= "metadata:"@ + seq!['\n'] + r0);
    let m0 = no_meta();
    let m1 = MetaView { format_version: Some(v1), ..m0 };
    let m2 = MetaView { workspace_key: Some(workspace_key), ..m1 };
    lemma_header(r0);
    lemma_block_step(k1, v1, r1, m0);
    lemma_block_step(k2, workspace_key, r2, m1);
    lemma_block_step(k3, data, r3, m2);
    assert(meta_entry(m0, trim(l1)) == m1);
    assert(meta_entry(m1, trim(l2)) == m2);
    assert(meta_entry(m2, trim(l3)) == m2);
}

/// The data of a block whose first line is a `key: value` line.
proof fn lemma_data_step(key: Seq<char>, value: Seq<char>, rest: Seq<char>, d: Option<Seq<char>>)
    requires
        key.len() > 0,
        forall|i: int| 0 <= i < key.len() ==> !is_space(key[i]) && key[i] != ':' && key[i] != '\n',
    ensures
        data_block(
            lines(seq![' ', ' '] + key + seq![':', ' '] + escaped(value) + seq!['\n'] + rest),
            d,
        ) == data_block(
            lines(rest),
            if key == "plugin_data"@ {
                Some(value)
            } else {
                d
            },
        ),
{
    let line = seq![' ', ' '] + key + seq![':', ' '] + escaped(value);
    lemma_entry(key, value);
    lemma_lines_cons(line, rest);
    let ls = lines(line + seq!['\n'] + rest);
    assert(ls[0] == line);
    assert(ls.drop_first() == lines(rest));
}

/// Reading a carrying packet gives back the data it was written with.
pub proof fn law_packet_data_roundtrip(workspace_key: Seq<char>, data: Seq<char>)
    ensures
        data_of(lines(packet_text(workspace_key, data))) == Some(data),
{
    let k1 = "format_version"@;
    let k2 = "workspace_key"@;
    let k3 = "plugin_data"@;
    let l1 = seq![' ', ' '] + k1 + seq![':', ' '] + escaped(FORMAT_VERSION@);
    let l2 = seq![' ', ' '] + k2 + seq![':', ' '] + escaped(workspace_key);
    let l3 = seq![' ', ' '] + k3 + seq![':', ' '] + escaped(data);
    let r3 = Seq::<char>::empty();
    let r2 = l3 + seq!['\n'] + r3;
    let r1 = l2 + seq!['\n'] + r2;
    let r0 = l1 + seq!['\n'] + r1;
    let h = "metadata:"@;
    lemma_fixed_parts();
    lemma_keys();
    assert(packet_text(workspace_key, data) =~= h + seq!['\n'] + r0);
    reveal_strlit("metadata:");
    lemma_lines_cons(h, r0);
    assert(strip_cr(h) == h);
    lemma_trim_inner(h);
    let ls = lines(h + seq!['\n'] + r0);
    assert(ls[0] == h);
    assert(ls.drop_first() == lines(r0));
    lemma_data_step(k1, FORMAT_VERSION@, r1, None);
    lemma_data_step(k2, workspace_key, r2, None);
    lemma_data_step(k3, data, r3, None);
    assert(data_block(lines(r3), Some(data)) == Some(data));
}

/// Reading an error packet gives back the error, and no workspace.
pub proof fn law_error_packet_roundtrip(error: Seq<char>)
    ensures
        meta_of(lines(error_packet_text(error))) == (MetaView {
            format_version: Some(FORMAT_VERSION@),
            workspace_key: None,
            error: Some(error),
        }),
{
    let k1 = "format_version"@;
    let k2 = "error"@;
    let v1 = FORMAT_VERSION@;
    let l1 = seq![' ', ' '] + k1 + seq![':', ' '] + escaped(v1);
    let l2 = seq![' ', ' '] + k2 + seq![':', ' '] + escaped(error);
    let r2 = Seq::<char>::empty();
    let r1 = l2 + seq!['\n'] + r2;
    let r0 = l1 + seq!['\n'] + r1;
    lemma_fixed_parts();
    lemma_keys();
    assert(error_packet_text(error) =~= "metadata:"@ + seq!['\n'] + r0);
    let m0 = no_meta();
    let m1 = MetaView { format_version: Some(v1), ..m0 };
    let m2 = MetaView { error: Some(error), ..m1 };
    lemma_header(r0);
    lemma_block_step(k1, v1, r1, m0);
    lemma_block_step(k2, error, r2, m1);
    assert(meta_entry(m0, trim(l1)) == m1);
    assert(meta_entry(m1, trim(l2)) == m2);
}

/// The version that every written packet carries is one that readers accept.
pub proof fn law_own_version_is_accepted()
    ensures
        !is_major_mismatch(FORMAT_VERSION@),
{
    reveal_strlit("1.0.0");
    reveal_strlit("1");
    lemma_char_pos_is(FORMAT_VERSION@, '.', 1);
    assert(FORMAT_VERSION@.take(1) == "1"@);
}

/// A text is written in quotes just where a reader would take it for something else without
/// them: the empty one, the three literals, one that starts with a digit, and one with white
/// space, a mark of the format, a quote or a backslash in it. Any other is written as it is.
pub proof fn law_what_is_quoted(s: Seq<char>)
    ensures
        ({
            let quoted = s.len() == 0 || s == "null"@ || s == "true"@ || s == "false"@ || (
            '0' <= s[0] <= '9') || exists|i: int|
                0 <= i < s.len() && (is_space(#[trigger] s[i]) || seq![
                    ':',
                    '[',
                    ']',
                    '{',
                    '}',
                    '-',
                    '\\',
                    '"',
                ].contains(s[i]));
            &&& !quoted ==> escaped(s) == s
            &&& quoted ==> escaped(s).len() >= 2 && escaped(s)[0] == '"' && escaped(s).last() == '"'
        }),
{
    let marks = seq![':', '[', ']', '{', '}', '-', '\\', '"'];
    assert forall|c: char| is_special(c) <==> is_space(c) || marks.contains(c) by {
        if is_special(c) && !is_space(c) {
            assert(marks[0] == ':' && marks[1] == '[' && marks[2] == ']' && marks[3] == '{'
                && marks[4] == '}' && marks[5] == '-' && marks[6] == '\\' && marks[7] == '"');
        }
    }
    if exists|i: int| 0 <= i < s.len() && is_special(#[trigger] s[i]) {
        let i = choose|i: int| 0 <= i < s.len() && is_special(#[trigger] s[i]);
        assert(is_space(s[i]) || marks.contains(s[i]));
    }
    if exists|i: int| 0 <= i < s.len() && (is_space(#[trigger] s[i]) || marks.contains(s[i])) {
        let i = choose|i: int|
            0 <= i < s.len() && (is_space(#[trigger] s[i]) || marks.contains(s[i]));
        assert(is_special(s[i]));
    }
}

/// Inside quotes a quote, a backslash, a line feed, a carriage return and a tab are written
/// with a backslash; every other character stands for itself. A backslash in front of any
/// other character is read as it is.
pub proof fn law_escapes(c: char, s: Seq<char>)
    ensures
        escape_body(seq!['"'] + s) == seq!['\\', '"'] + escape_body(s),
        escape_body(seq!['\\'] + s) == seq!['\\', '\\'] + escape_body(s),
        escape_body(seq!['\n'] + s) == seq!['\\', 'n'] + escape_body(s),
        escape_body(seq!['\r'] + s) == seq!['\\', 'r'] + escape_body(s),
        escape_body(seq!['\t'] + s) == seq!['\\', 't'] + escape_body(s),
        c != '"' && c != '\\' && c != '\n' && c != '\r' && c != '\t' ==> escape_body(seq![c] + s)
            == seq![c] + escape_body(s),
        c != '"' && c != '\\' && c != 'n' && c != 'r' && c != 't' ==> unescape_body(
            seq!['\\', c] + s,
        ) == seq!['\\', c] + unescape_body(s),
        escape_body(Seq::empty()) == Seq::<char>::empty(),
{
    assert forall|d: char| #[trigger] escape_body(seq![d] + s) == escape_char(d) + escape_body(
        s,
    ) by {
        let t = seq![d] + s;
        assert(t.drop_first() =~= s);
        assert(t[0] == d);
    }
    let u = seq!['\\', c] + s;
    assert(u.skip(2) =~= s);
    assert(u[0] == '\\' && u[1] == c);
}

/// What is written never breaks its line, so a value cannot start another entry.
pub proof fn law_values_stay_on_their_line(s: Seq<char>)
    ensures
        !escaped(s).contains('\n'),
{
    lemma_escape_body_no_break(s);
    let e = escaped(s);
    if needs_quoting(s) {
        let b = escape_body(s);
        assert forall|i: int| 0 <= i < e.len() implies e[i] != '\n' by {
            if 0 < i < e.len() - 1 {
                assert(e[i] == b[i - 1]);
                assert(b.contains(b[i - 1]));
            }
        }
    } else if s.contains('\n') {
        let i = choose|i: int| 0 <= i < s.len() && s[i] == '\n';
        assert(is_special(s[i]));
    }
}

proof fn lemma_escape_body_no_break(s: Seq<char>)
    ensures
        !escape_body(s).contains('\n'),
    decreases s.len(),
{
    if s.len() > 0 {
        let a = escape_char(s[0]);
        let b = escape_body(s.drop_first());
        lemma_escape_body_no_break(s.drop_first());
        assert forall|i: int| 0 <= i < (a + b).len() implies (a + b)[i] != '\n' by {
            if i >= a.len() {
                assert((a + b)[i] == b[i - a.len()]);
                assert(b.contains(b[i - a.len()]));
            }
        }
    }
}

/// A version is accepted just where its first part is `1`, whatever follows the first dot.
pub proof fn law_versions_by_their_first_part(major: Seq<char>, rest: Seq<char>)
    requires
        !major.contains('.'),
    ensures
        is_major_mismatch(major) <==> major != "1"@,
        is_major_mismatch(major + seq!['.'] + rest) <==> major != "1"@,
{
    assert forall|j: int| 0 <= j < major.len() implies major[j] != '.' by {
        assert(major.contains(major[j]));
    }
    let v = major + seq!['.'] + rest;
    lemma_char_pos_is(major, '.', major.len());
    lemma_char_pos_is(v, '.', major.len());
    assert(major.take(major.len() as int) =~= major);
    assert(v.take(major.len() as int) =~= major);
}

proof fn lemma_meta_block_append(a: Seq<Seq<char>>, b: Seq<Seq<char>>, m: MetaView)
    requires
        forall|i: int| 0 <= i < a.len() ==> in_block(#[trigger] a[i]),
    ensures
        meta_block(a + b, m) == meta_block(b, meta_block(a, m)),
    decreases a.len(),
{
    if a.len() == 0 {
        assert(a + b =~= b);
    } else {
        assert(in_block(a[0]));
        let t = a.drop_first();
        assert forall|i: int| 0 <= i < t.len() implies in_block(#[trigger] t[i]) by {
            assert(t[i] == a[i + 1]);
        }
        lemma_meta_block_append(t, b, meta_entry(m, trim(a[0])));
        assert((a + b).drop_first() =~= t + b);
        assert((a + b)[0] == a[0]);
    }
}

proof fn lemma_entry_line(key: Seq<char>, value: Seq<char>)
    requires
        key.len() > 0,
        !key.contains(':'),
        !is_space(key[0]),
        !is_space(key.last()),
    ensures
        ({
            let line = seq![' ', ' '] + key + seq![':'] + value;
            &&& in_block(line)
            &&& split_once(trim(line), ':') matches Some((k, v))
            &&& trim(k) == key
            &&& trim(v) == trim(value)
        }),
{
    let line = seq![' ', ' '] + key + seq![':'] + value;
    let body = key + seq![':'] + value;
    let trimmed = trim(line);
    reveal_strlit("  ");
    assert("  "@ =~= seq![' ', ' ']);
    assert(line =~= seq![' ', ' '] + body);
    assert(crate::text::is_blank(seq![' ', ' '])) by {
        crate::text::law_white_space(' ');
    }
    assert(body[0] == key[0]);
    crate::text::lemma_trim_start_of(seq![' ', ' '], body);
    assert(trimmed == crate::text::trim_end(body));
    crate::text::law_trim_end(body);
    crate::text::law_white_space(':');
    let k = trimmed.len() as int;
    let cut = body.skip(k);
    if k <= key.len() {
        assert(cut[key.len() - k] == body[key.len() as int]);
        assert(is_space(cut[key.len() - k]));
    }
    let rest = trimmed.skip(key.len() as int + 1);
    assert(trimmed =~= key + seq![':'] + rest) by {
        assert(body =~= trimmed + cut);
        assert forall|i: int| 0 <= i < trimmed.len() implies trimmed[i] == body[i] by {}
    }
    crate::text::law_split(key, ':', rest);
    let e = Seq::<char>::empty();
    crate::text::law_trim(e, key, e);
    assert(e + key + e =~= key);
    assert(value =~= rest + cut) by {
        assert(body == trimmed + cut);
        assert(value =~= body.skip(key.len() as int + 1));
        assert((trimmed + cut).skip(key.len() as int + 1) =~= rest + cut);
    }
    lemma_trim_ignores_end(rest, cut);
    assert(line.take(2) =~= seq![' ', ' ']);
}

/// Metadata is read from the indented lines right below the first `metadata:` line. An entry
/// replaces one of the same name above it and leaves the others; an entry of another name
/// says nothing.
pub proof fn law_metadata_entries(
    front: Seq<Seq<char>>,
    title: Seq<char>,
    block: Seq<Seq<char>>,
    key: Seq<char>,
    value: Seq<char>,
)
    requires
        forall|i: int| 0 <= i < front.len() ==> trim(#[trigger] front[i]) != "metadata:"@,
        trim(title) == "metadata:"@,
        forall|i: int|
            0 <= i < block.len() ==> trim(#[trigger] block[i]).len() > 0 && starts_with(
                block[i],
                seq![' ', ' '],
            ),
        key.len() > 0,
        !key.contains(':'),
        !is_space(key[0]),
        !is_space(key.last()),
    ensures
        ({
            let line = seq![' ', ' '] + key + seq![':'] + value;
            let m = meta_of(front + seq![title] + block);
            let n = meta_of(front + seq![title] + block.push(line));
            let v = unescaped(trim(value));
            &&& key == "format_version"@ ==> n == (MetaView { format_version: Some(v), ..m })
            &&& key == "workspace_key"@ ==> n == (MetaView { workspace_key: Some(v), ..m })
            &&& key == "error"@ ==> n == (MetaView { error: Some(v), ..m })
            &&& key != "format_version"@ && key != "workspace_key"@ && key != "error"@ ==> n == m
        }),
        meta_of(front) == (MetaView { format_version: None, workspace_key: None, error: None }),
    decreases front.len(),
{
    let line = seq![' ', ' '] + key + seq![':'] + value;
    reveal_strlit("  ");
    assert("  "@ =~= seq![' ', ' ']);
    if front.len() > 0 {
        let t = front.drop_first();
        assert forall|i: int| 0 <= i < t.len() implies trim(#[trigger] t[i]) != "metadata:"@ by {
            assert(t[i] == front[i + 1]);
        }
        law_metadata_entries(t, title, block, key, value);
        assert(trim(front[0]) != "metadata:"@);
        let a = front + seq![title] + block;
        let b = front + seq![title] + block.push(line);
        assert(a.drop_first() =~= t + seq![title] + block);
        assert(b.drop_first() =~= t + seq![title] + block.push(line));
        assert(a[0] == front[0] && b[0] == front[0]);
    } else {
        let a = front + seq![title] + block;
        let b = front + seq![title] + block.push(line);
        assert(a.drop_first() =~= block);
        assert(b.drop_first() =~= block + seq![line]);
        assert(a[0] == title && b[0] == title);
        lemma_meta_block_append(block, seq![line], no_meta());
        let m = meta_block(block, no_meta());
        lemma_entry_line(key, value);
        let trimmed = trim(line);
        assert(seq![line].drop_first() =~= Seq::<Seq<char>>::empty());
        assert(meta_block(seq![line], m) == meta_entry(m, trimmed)) by {
            assert(seq![line][0] == line);
            assert(meta_block(Seq::<Seq<char>>::empty(), meta_entry(m, trimmed)) == meta_entry(
                m,
                trimmed,
            ));
        }
        reveal_strlit("format_version");
        reveal_strlit("workspace_key");
        reveal_strlit("error");
        assert("format_version"@.len() == 14 && "workspace_key"@.len() == 13 && "error"@.len() == 5);
    }
}

proof fn lemma_trim_ignores_end(s: Seq<char>, cut: Seq<char>)
    requires
        crate::text::is_blank(cut),
    ensures
        trim(s + cut) == trim(s),
{
    crate::text::law_trimmed(s);
    let t = trim(s);
    let (a, b) = choose|a: Seq<char>, b: Seq<char>|
        crate::text::is_blank(a) && crate::text::is_blank(b) && s == #[trigger] (a + t + b);
    let c = b + cut;
    assert(crate::text::is_blank(c)) by {
        assert forall|i: int| 0 <= i < c.len() implies is_space(#[trigger] c[i]) by {}
    }
    crate::text::law_trim(a, t, c);
    assert(s + cut =~= a + t + c);
}

/// The block ends at the first line that is blank or not indented: nothing from there on is
/// read as metadata.
pub proof fn law_metadata_ends(title: Seq<char>, block: Seq<Seq<char>>, rest: Seq<Seq<char>>)
    requires
        trim(title) == "metadata:"@,
        forall|i: int|
            0 <= i < block.len() ==> trim(#[trigger] block[i]).len() > 0 && starts_with(
                block[i],
                seq![' ', ' '],
            ),
        rest.len() > 0,
        trim(rest[0]).len() == 0 || !starts_with(rest[0], seq![' ', ' ']),
    ensures
        meta_of(seq![title] + block + rest) == meta_of(seq![title] + block),
        data_of(seq![title] + block + rest) == data_of(seq![title] + block),
{
    reveal_strlit("  ");
    assert("  "@ =~= seq![' ', ' ']);
    let a = seq![title] + block + rest;
    let b = seq![title] + block;
    assert(a.drop_first() =~= block + rest);
    assert(b.drop_first() =~= block);
    assert(a[0] == title && b[0] == title);
    lemma_meta_block_append(block, rest, no_meta());
    lemma_data_block_append(block, rest, None);
}

proof fn lemma_data_block_append(a: Seq<Seq<char>>, b: Seq<Seq<char>>, d: Option<Seq<char>>)
    requires
        forall|i: int| 0 <= i < a.len() ==> in_block(#[trigger] a[i]),
    ensures
        data_block(a + b, d) == data_block(b, data_block(a, d)),
    decreases a.len(),
{
    if a.len() == 0 {
        assert(a + b =~= b);
    } else {
        assert(in_block(a[0]));
        let t = a.drop_first();
        assert forall|i: int| 0 <= i < t.len() implies in_block(#[trigger] t[i]) by {
            assert(t[i] == a[i + 1]);
        }
        lemma_data_block_append(t, b, data_entry(d, trim(a[0])));
        assert((a + b).drop_first() =~= t + b);
        assert((a + b)[0] == a[0]);
    }
}

/// The data of a packet is the value of the last `plugin_data` entry of the block; no other entry
/// says anything of it.
pub proof fn law_data_entries(
    title: Seq<char>,
    block: Seq<Seq<char>>,
    key: Seq<char>,
    value: Seq<char>,
)
    requires
        trim(title) == "metadata:"@,
        forall|i: int|
            0 <= i < block.len() ==> trim(#[trigger] block[i]).len() > 0 && starts_with(
                block[i],
                seq![' ', ' '],
            ),
        key.len() > 0,
        !key.contains(':'),
        !is_space(key[0]),
        !is_space(key.last()),
    ensures
        ({
            let line = seq![' ', ' '] + key + seq![':'] + value;
            let n = data_of(seq![title] + block.push(line));
            &&& key == "plugin_data"@ ==> n == Some(unescaped(trim(value)))
            &&& key != "plugin_data"@ ==> n == data_of(seq![title] + block)
        }),
        data_of(seq![title]) is None,
{
    let line = seq![' ', ' '] + key + seq![':'] + value;
    reveal_strlit("  ");
    assert("  "@ =~= seq![' ', ' ']);
    let a = seq![title] + block;
    let b = seq![title] + block.push(line);
    assert(a.drop_first() =~= block);
    assert(b.drop_first() =~= block + seq![line]);
    assert(a[0] == title && b[0] == title);
    lemma_data_block_append(block, seq![line], None);
    lemma_entry_line(key, value);
    let d = data_block(block, None);
    let none = Seq::<Seq<char>>::empty();
    assert(seq![line].drop_first() =~= none);
    assert(seq![line][0] == line);
    assert(data_block(none, data_entry(d, trim(line))) == data_entry(d, trim(line)));
    assert(seq![title].drop_first() =~= none);
    assert(data_block(none, None) is None);
}

}
