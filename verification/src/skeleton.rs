//! A compact text skeleton of a source file: its declarations by kind, each with
//! its head and its line.
use vstd::prelude::*;

use crate::decimal::{decimal, decimal_string, wide_string};
use crate::graph::Node;
use crate::paths::{basename, last_name};
use crate::text::{
    char_pos, ends_with, is_blank, is_space, is_whitespace, law_trim, law_trimmed, lemma_char_pos, lemma_char_pos_is,
    lines, pos_from, same, starts_with, str_ends_with, str_lines, str_starts_with, str_trim, str_trim_end,
    str_trim_start, to_chars, trim, trim_end, trim_start, views,
};

verus! {

/// How many kinds of declarations there are.
pub const KINDS: usize = 13;

/// The kinds of declarations, in the order in which they are shown.
pub open spec fn kind_name(k: int) -> Seq<char> {
    if k == 0 {
        "struct"@
    } else if k == 1 {
        "enum"@
    } else if k == 2 {
        "union"@
    } else if k == 3 {
        "class"@
    } else if k == 4 {
        "interface"@
    } else if k == 5 {
        "type"@
    } else if k == 6 {
        "trait"@
    } else if k == 7 {
        "impl_block"@
    } else if k == 8 {
        "function"@
    } else if k == 9 {
        "method"@
    } else if k == 10 {
        "const"@
    } else if k == 11 {
        "static"@
    } else {
        "variable"@
    }
}

fn kind_at(k: usize) -> (r: &'static str)
    requires
        k < KINDS,
    ensures
        r@ == kind_name(k as int),
{
    match k {
        0 => "struct",
        1 => "enum",
        2 => "union",
        3 => "class",
        4 => "interface",
        5 => "type",
        6 => "trait",
        7 => "impl_block",
        8 => "function",
        9 => "method",
        10 => "const",
        11 => "static",
        _ => "variable",
    }
}

/// Whether a kind is one of declarations.
pub open spec fn is_declaration(kind: Seq<char>) -> bool {
    exists|k: int| 0 <= k < KINDS && kind == #[trigger] kind_name(k)
}

/// Whether a node of this kind is shown.
pub fn is_declaration_kind(kind: &str) -> (r: bool)
    ensures
        r == is_declaration(kind@),
{
    let mut k: usize = 0;
    while k < KINDS
        invariant
            k <= KINDS,
            forall|j: int| 0 <= j < k ==> kind@ != #[trigger] kind_name(j),
        decreases KINDS - k,
    {
        if same(kind, kind_at(k)) {
            return true;
        }
        k += 1;
    }
    false
}

/// The header of a kind.
pub open spec fn plural(kind: Seq<char>) -> Seq<char> {
    if kind == "class"@ {
        "Classes"@
    } else if kind == "function"@ {
        "Functions"@
    } else if kind == "struct"@ {
        "Structs"@
    } else if kind == "enum"@ {
        "Enums"@
    } else if kind == "trait"@ {
        "Traits"@
    } else if kind == "impl_block"@ {
        "Impl Blocks"@
    } else if kind == "interface"@ {
        "Interfaces"@
    } else if kind == "type"@ {
        "Types"@
    } else if kind == "method"@ {
        "Methods"@
    } else if kind == "const"@ {
        "Constants"@
    } else if kind == "static"@ {
        "Statics"@
    } else if kind == "variable"@ {
        "Variables"@
    } else if kind == "union"@ {
        "Unions"@
    } else {
        kind
    }
}

/// The header of a kind; any other word stays as it is.
pub fn pluralize_kind<'a>(kind: &'a str) -> (r: &'a str)
    ensures
        r@ == plural(kind@),
{
    if same(kind, "class") {
        "Classes"
    } else if same(kind, "function") {
        "Functions"
    } else if same(kind, "struct") {
        "Structs"
    } else if same(kind, "enum") {
        "Enums"
    } else if same(kind, "trait") {
        "Traits"
    } else if same(kind, "impl_block") {
        "Impl Blocks"
    } else if same(kind, "interface") {
        "Interfaces"
    } else if same(kind, "type") {
        "Types"
    } else if same(kind, "method") {
        "Methods"
    } else if same(kind, "const") {
        "Constants"
    } else if same(kind, "static") {
        "Statics"
    } else if same(kind, "variable") {
        "Variables"
    } else if same(kind, "union") {
        "Unions"
    } else {
        kind
    }
}

// ---- heads of declarations ----

/// How far a line is indented, in bytes.
pub open spec fn indent(line: Seq<char>) -> nat {
    vstd::utf8::encode_utf8(line.take(line.len() - trim_start(line).len())).len()
}

fn indent_of(line: &str) -> (r: usize)
    ensures
        r == indent(line@),
{
    let n: usize = line.unicode_len();
    let rest = str_trim_start(line);
    let m: usize = rest.unicode_len();
    proof {
        lemma_trim_start_len(line@);
        assert(line@.subrange(0, n - m) =~= line@.take(n - m));
    }
    line.substring_char(0, n - m).as_bytes_vec().len()
}

proof fn lemma_trim_start_len(s: Seq<char>)
    ensures
        trim_start(s).len() <= s.len(),
    decreases s.len(),
{
    if s.len() > 0 && is_space(s[0]) {
        lemma_trim_start_len(s.drop_first());
    }
}

/// Whether a line is neither blank nor a comment.
pub open spec fn is_substance(line: Seq<char>) -> bool {
    trim(line).len() > 0 && !starts_with(trim(line), "#"@)
}

/// The first line of substance from line `i` on, or `stop` where there is none.
pub open spec fn next_substance(ls: Seq<Seq<char>>, i: int, stop: int) -> int
    decreases stop - i,
{
    if i >= stop {
        stop
    } else if is_substance(ls[i]) {
        i
    } else {
        next_substance(ls, i + 1, stop)
    }
}

/// Whether the body of a declaration starts after line `i`: the line ends in a
/// colon, and the next line of substance is further indented.
pub open spec fn body_follows(ls: Seq<Seq<char>>, i: int, stop: int) -> bool {
    let next = next_substance(ls, i + 1, stop);
    &&& ends_with(trim(ls[i]), ":"@)
    &&& next < stop
    &&& indent(ls[next]) > indent(ls[i])
}

fn find_substance(ls: &Vec<&str>, from: usize, stop: usize) -> (r: usize)
    requires
        from <= stop <= ls@.len(),
    ensures
        r == next_substance(views(ls@), from as int, stop as int),
        from <= r <= stop,
{
    let ghost all = views(ls@);
    let mut i: usize = from;
    while i < stop
        invariant
            from <= i <= stop <= ls@.len(),
            all == views(ls@),
            next_substance(all, i as int, stop as int) == next_substance(
                all,
                from as int,
                stop as int,
            ),
        decreases stop - i,
    {
        assert(all[i as int] == ls@[i as int]@);
        let t = str_trim(ls[i]);
        if !t.is_empty() && !str_starts_with(t, "#") {
            return i;
        }
        i += 1;
    }
    stop
}

/// The head of a declaration from line `i` on, behind what was read before.
pub open spec fn head_from(ls: Seq<Seq<char>>, i: int, stop: int, read: Seq<char>) -> Seq<char>
    decreases stop - i,
{
    if i >= stop {
        trim(read)
    } else {
        let t = trim(ls[i]);
        let p = char_pos(t, '{');
        let next = read + t + " "@;
        if t.len() == 0 {
            head_from(ls, i + 1, stop, read)
        } else if p < t.len() {
            read + trim_end(t.take(p as int)) + " { ... }"@
        } else if body_follows(ls, i, stop) {
            trim(next)
        } else {
            head_from(ls, i + 1, stop, next)
        }
    }
}

/// The head of the declaration on the lines `start` to `end`, counted from 1: up to
/// its body.
pub open spec fn signature(ls: Seq<Seq<char>>, start: nat, end: nat) -> Seq<char> {
    if start == 0 || start > ls.len() {
        Seq::empty()
    } else {
        head_from(
            ls,
            start - 1,
            if end < ls.len() {
                end as int
            } else {
                ls.len() as int
            },
            Seq::empty(),
        )
    }
}

/// The head of the declaration on the lines `start_line` to `end_line`.
pub fn extract_signature(ls: &Vec<&str>, start_line: usize, end_line: usize) -> (r: String)
    ensures
        r@ == signature(views(ls@), start_line as nat, end_line as nat),
{
    let ghost all = views(ls@);
    assert(all.len() == ls@.len());
    if start_line == 0 || start_line > ls.len() {
        return String::new();
    }
    let stop: usize = if end_line < ls.len() {
        end_line
    } else {
        ls.len()
    };
    let mut sig = String::new();
    let mut i: usize = start_line - 1;
    assert(sig@ =~= Seq::<char>::empty());
    while i < stop
        invariant
            stop <= ls.len(),
            all == views(ls@),
            start_line >= 1,
            head_from(all, i as int, stop as int, sig@) == head_from(
                all,
                start_line - 1,
                stop as int,
                Seq::empty(),
            ),
            signature(all, start_line as nat, end_line as nat) == head_from(
                all,
                start_line - 1,
                stop as int,
                Seq::empty(),
            ),
        decreases stop - i,
    {
        assert(all[i as int] == ls@[i as int]@);
        let t = str_trim(ls[i]);
        if !t.is_empty() {
            let cs = to_chars(t);
            assert(t@.skip(0) =~= t@);
            let p: usize = pos_from(&cs, '{', 0);
            if p < cs.len() {
                assert(t@.subrange(0, p as int) =~= t@.take(p as int));
                sig.append(str_trim_end(t.substring_char(0, p)));
                sig.append(" { ... }");
                return sig;
            }
            sig.append(t);
            sig.append(" ");
            if str_ends_with(t, ":") {
                let next: usize = find_substance(ls, i + 1, stop);
                if next < stop {
                    assert(all[next as int] == ls@[next as int]@);
                    if indent_of(ls[next]) > indent_of(ls[i]) {
                        return str_trim(sig.as_str()).to_owned();
                    }
                }
            }
        }
        i += 1;
    }
    str_trim(sig.as_str()).to_owned()
}

// ---- groups ----

/// The declarations of a kind: the head and the line of each, in order.
pub open spec fn group_of(ls: Seq<Seq<char>>, nodes: Seq<Node>, kind: Seq<char>) -> Seq<
    (Seq<char>, nat),
>
    decreases nodes.len(),
{
    if nodes.len() == 0 {
        Seq::empty()
    } else {
        let r = group_of(ls, nodes.drop_last(), kind);
        let n = nodes.last();
        if n.kind@ == kind {
            r.push((signature(ls, n.start_line as nat, n.end_line as nat), n.start_line as nat))
        } else {
            r
        }
    }
}

/// The models of some declarations.
pub open spec fn entry_views(v: Seq<(String, usize)>) -> Seq<(Seq<char>, nat)> {
    v.map_values(|e: (String, usize)| (e.0@, e.1 as nat))
}

fn collect_group(ls: &Vec<&str>, nodes: &[Node], kind: &str) -> (r: Vec<(String, usize)>)
    ensures
        entry_views(r@) == group_of(views(ls@), nodes@, kind@),
{
    let mut out: Vec<(String, usize)> = Vec::new();
    let mut i: usize = 0;
    assert(nodes@.take(0).len() == 0);
    assert(entry_views(out@) =~= group_of(views(ls@), nodes@.take(0), kind@));
    while i < nodes.len()
        invariant
            i <= nodes.len(),
            entry_views(out@) == group_of(views(ls@), nodes@.take(i as int), kind@),
        decreases nodes.len() - i,
    {
        let n = &nodes[i];
        let ghost before = out@;
        proof {
            assert(nodes@.take(i + 1).drop_last() =~= nodes@.take(i as int));
            assert(nodes@.take(i + 1).last() == nodes@[i as int]);
        }
        if same(n.kind.as_str(), kind) {
            let sig = extract_signature(ls, n.start_line, n.end_line);
            out.push((sig, n.start_line));
            assert(entry_views(out@) =~= entry_views(before).push((sig@, n.start_line as nat)));
        }
        i += 1;
    }
    assert(nodes@.take(i as int) =~= nodes@);
    out
}

/// The lines of some declarations.
pub open spec fn entries_text(es: Seq<(Seq<char>, nat)>) -> Seq<char>
    decreases es.len(),
{
    if es.len() == 0 {
        Seq::empty()
    } else {
        entries_text(es.drop_last()) + ("  "@ + es.last().0 + "  // line "@ + decimal(es.last().1)
            + "\n"@)
    }
}

/// A group of declarations, under its header; nothing where it has none.
pub open spec fn group_text(kind: Seq<char>, es: Seq<(Seq<char>, nat)>) -> Seq<char> {
    if es.len() == 0 {
        Seq::empty()
    } else {
        "// ── "@ + plural(kind) + " ("@ + decimal(es.len()) + ") ──\n"@ + entries_text(es)
            + "\n"@
    }
}

/// Appends a group of declarations.
pub fn emit_group(output: &mut String, kind: &str, entries: &[(String, usize)])
    ensures
        final(output)@ == old(output)@ + group_text(kind@, entry_views(entries@)),
{
    let ghost start = output@;
    let ghost es = entry_views(entries@);
    assert(es.len() == entries@.len());
    if entries.len() == 0 {
        assert(start + Seq::<char>::empty() =~= start);
        return;
    }
    output.append("// ── ");
    output.append(pluralize_kind(kind));
    output.append(" (");
    output.append(decimal_string(entries.len() as u64).as_str());
    output.append(") ──\n");
    let ghost head = "// ── "@ + plural(kind@) + " ("@ + decimal(es.len()) + ") ──\n"@;
    let mut i: usize = 0;
    proof {
        assert(es.take(0).len() == 0);
        assert(output@ =~= start + (head + entries_text(es.take(0))));
    }
    while i < entries.len()
        invariant
            i <= entries.len(),
            es == entry_views(entries@),
            output@ == start + (head + entries_text(es.take(i as int))),
        decreases entries.len() - i,
    {
        let ghost before = output@;
        proof {
            assert(es.take(i + 1).drop_last() =~= es.take(i as int));
            assert(es.take(i + 1).last() == (entries@[i as int].0@, entries@[i as int].1 as nat));
        }
        output.append("  ");
        output.append(entries[i].0.as_str());
        output.append("  // line ");
        output.append(decimal_string(entries[i].1 as u64).as_str());
        output.append("\n");
        assert(output@ =~= before + ("  "@ + es[i as int].0 + "  // line "@ + decimal(
            es[i as int].1,
        ) + "\n"@));
        assert(output@ =~= start + (head + entries_text(es.take(i + 1))));
        i += 1;
    }
    assert(es.take(i as int) =~= es);
    output.append("\n");
    assert(output@ =~= start + group_text(kind@, es));
}

// ---- sizes ----

/// What `char::is_alphanumeric` says of a character.
pub uninterp spec fn is_alphanumeric(c: char) -> bool;

/// Whether a character is a letter or a number, by `char::is_alphanumeric`. Claimed:
/// the answer is a function of the character, and of the first 128 characters the
/// letters and digits are the ones.
#[verifier::external_body]
fn alphanumeric(c: char) -> (r: bool)
    ensures
        r == is_alphanumeric(c),
        (c as u32) < 128 ==> r == ('0' <= c <= '9' || 'a' <= c <= 'z' || 'A' <= c <= 'Z'),
{
    c.is_alphanumeric()
}

/// Whether a character belongs to a token.
pub open spec fn is_token_char(c: char) -> bool {
    !is_space(c) && (is_alphanumeric(c) || c == '_')
}

/// How many tokens a text has: the runs of characters that belong to one.
pub open spec fn token_count(s: Seq<char>) -> nat
    decreases s.len(),
{
    if s.len() == 0 {
        0
    } else {
        let n = token_count(s.drop_last());
        if is_token_char(s.last()) && !(s.len() > 1 && is_token_char(s[s.len() - 2])) {
            n + 1
        } else {
            n
        }
    }
}

/// How many tokens a text has, roughly.
pub fn count_tokens(content: &str) -> (r: usize)
    ensures
        r == token_count(content@),
{
    let cs = to_chars(content);
    let mut n: usize = 0;
    let mut inside: bool = false;
    let mut i: usize = 0;
    assert(content@.take(0).len() == 0);
    while i < cs.len()
        invariant
            i <= cs.len(),
            cs@ == content@,
            n <= i,
            n == token_count(content@.take(i as int)),
            inside == (i > 0 && is_token_char(content@[i - 1])),
        decreases cs.len() - i,
    {
        let c = cs[i];
        proof {
            let s = content@.take(i + 1);
            assert(s.drop_last() =~= content@.take(i as int));
            assert(s.last() == c);
            if i > 0 {
                assert(s[s.len() - 2] == content@[i - 1]);
            }
        }
        let alnum = alphanumeric(c);
        let t: bool = !is_whitespace(c) && (alnum || c == '_');
        if t && !inside {
            n += 1;
        }
        inside = t;
        i += 1;
    }
    assert(content@.take(i as int) =~= content@);
    n
}

/// How many words a text has: the runs of characters that are not white space.
pub open spec fn word_count(s: Seq<char>) -> nat
    decreases s.len(),
{
    if s.len() == 0 {
        0
    } else {
        let n = word_count(s.drop_last());
        if !is_space(s.last()) && (s.len() == 1 || is_space(s[s.len() - 2])) {
            n + 1
        } else {
            n
        }
    }
}

fn count_words(s: &str) -> (r: usize)
    ensures
        r == word_count(s@),
        r <= 0x8000_0000_0000_0000,
{
    let cs = to_chars(s);
    let mut n: usize = 0;
    let mut inside: bool = false;
    let mut i: usize = 0;
    assert(s@.take(0).len() == 0);
    while i < cs.len()
        invariant
            i <= cs.len(),
            cs@ == s@,
            2 * n <= i + 1,
            !inside ==> 2 * n <= i,
            n == word_count(s@.take(i as int)),
            inside == (i > 0 && !is_space(s@[i - 1])),
        decreases cs.len() - i,
    {
        let c = cs[i];
        proof {
            let t = s@.take(i + 1);
            assert(t.drop_last() =~= s@.take(i as int));
            assert(t.last() == c);
            if i > 0 {
                assert(t[t.len() - 2] == s@[i - 1]);
            }
        }
        let w: bool = !is_whitespace(c);
        if w && !inside {
            n += 1;
        }
        inside = w;
        i += 1;
    }
    assert(s@.take(i as int) =~= s@);
    n
}

/// The estimated size of some declarations: the words of each head and three more.
pub open spec fn entries_size(es: Seq<(Seq<char>, nat)>) -> nat
    decreases es.len(),
{
    if es.len() == 0 {
        0
    } else {
        entries_size(es.drop_last()) + word_count(es.last().0) + 3
    }
}

/// The estimated size of a group: eight and the bytes of its kind for the header,
/// and its declarations; nothing where it has none.
pub open spec fn group_size(kind: Seq<char>, es: Seq<(Seq<char>, nat)>) -> nat {
    if es.len() == 0 {
        0
    } else {
        8 + vstd::utf8::encode_utf8(kind).len() + entries_size(es)
    }
}

fn estimate_group(kind: &str, entries: &[(String, usize)]) -> (r: u128)
    ensures
        r == group_size(kind@, entry_views(entries@)),
        r <= 0x1_0000_0000_0000_0007 + entries@.len() * 0x8000_0000_0000_0003,
{
    let ghost es = entry_views(entries@);
    assert(es.len() == entries@.len());
    if entries.len() == 0 {
        return 0;
    }
    let width: usize = kind.as_bytes_vec().len();
    let mut total: u128 = 8 + width as u128;
    let mut i: usize = 0;
    assert(es.take(0).len() == 0);
    while i < entries.len()
        invariant
            i <= entries.len(),
            es == entry_views(entries@),
            total == 8 + width + entries_size(es.take(i as int)),
            total <= 0x1_0000_0000_0000_0007 + i * 0x8000_0000_0000_0003,
        decreases entries.len() - i,
    {
        proof {
            assert(es.take(i + 1).drop_last() =~= es.take(i as int));
            assert(es.take(i + 1).last() == (entries@[i as int].0@, entries@[i as int].1 as nat));
        }
        let w: usize = count_words(entries[i].0.as_str());
        total = total + (w as u128 + 3);
        i += 1;
    }
    assert(es.take(i as int) =~= es);
    total
}

// ---- the skeleton ----

/// The groups of the first `k` kinds, one after the other.
pub open spec fn groups_text(ls: Seq<Seq<char>>, nodes: Seq<Node>, k: int) -> Seq<char>
    decreases k,
{
    if k <= 0 {
        Seq::empty()
    } else {
        groups_text(ls, nodes, k - 1) + group_text(
            kind_name(k - 1),
            group_of(ls, nodes, kind_name(k - 1)),
        )
    }
}

/// The estimated size of the groups of the first `k` kinds.
pub open spec fn groups_size(ls: Seq<Seq<char>>, nodes: Seq<Node>, k: int) -> nat
    decreases k,
{
    if k <= 0 {
        0
    } else {
        groups_size(ls, nodes, k - 1) + group_size(
            kind_name(k - 1),
            group_of(ls, nodes, kind_name(k - 1)),
        )
    }
}

/// How many declarations the groups of the first `k` kinds have.
spec fn grouped(ls: Seq<Seq<char>>, nodes: Seq<Node>, k: int) -> nat
    decreases k,
{
    if k <= 0 {
        0
    } else {
        grouped(ls, nodes, k - 1) + group_of(ls, nodes, kind_name(k - 1)).len()
    }
}

/// Whether a kind is among the first `k`, as a number.
spec fn among(kind: Seq<char>, k: int) -> nat
    decreases k,
{
    if k <= 0 {
        0
    } else if kind == kind_name(k - 1) {
        among(kind, k - 1) + 1
    } else {
        among(kind, k - 1)
    }
}

proof fn lemma_kinds_differ(i: int, j: int)
    requires
        0 <= i < j < KINDS,
    ensures
        kind_name(i) != kind_name(j),
{
    reveal_strlit("struct");
    reveal_strlit("enum");
    reveal_strlit("union");
    reveal_strlit("class");
    reveal_strlit("interface");
    reveal_strlit("type");
    reveal_strlit("trait");
    reveal_strlit("impl_block");
    reveal_strlit("function");
    reveal_strlit("method");
    reveal_strlit("const");
    reveal_strlit("static");
    reveal_strlit("variable");
    if kind_name(i) == kind_name(j) {
        assert(kind_name(i).len() == kind_name(j).len());
        assert(kind_name(i)[0] == kind_name(j)[0]);
        assert(kind_name(i)[1] == kind_name(j)[1]);
        assert(kind_name(i)[2] == kind_name(j)[2]);
    }
}

proof fn lemma_among(kind: Seq<char>, k: int)
    requires
        0 <= k <= KINDS,
    ensures
        among(kind, k) <= 1,
        among(kind, k) == 1 ==> exists|j: int| 0 <= j < k && kind == #[trigger] kind_name(j),
    decreases k,
{
    if k > 0 {
        lemma_among(kind, k - 1);
        if kind == kind_name(k - 1) && among(kind, k - 1) == 1 {
            let j = choose|j: int| 0 <= j < k - 1 && kind == #[trigger] kind_name(j);
            lemma_kinds_differ(j, k - 1);
        }
    }
}

proof fn lemma_grouped_push(ls: Seq<Seq<char>>, nodes: Seq<Node>, k: int)
    requires
        nodes.len() > 0,
    ensures
        grouped(ls, nodes, k) == grouped(ls, nodes.drop_last(), k) + among(nodes.last().kind@, k),
    decreases k,
{
    if k > 0 {
        lemma_grouped_push(ls, nodes, k - 1);
    }
}

/// Every node is in at most one group.
proof fn lemma_grouped(ls: Seq<Seq<char>>, nodes: Seq<Node>, k: int)
    requires
        0 <= k <= KINDS,
    ensures
        grouped(ls, nodes, k) <= nodes.len(),
    decreases nodes.len(),
{
    if nodes.len() > 0 {
        lemma_grouped(ls, nodes.drop_last(), k);
        lemma_grouped_push(ls, nodes, k);
        lemma_among(nodes.last().kind@, k);
    } else {
        lemma_grouped_none(ls, nodes, k);
    }
}

proof fn lemma_grouped_none(ls: Seq<Seq<char>>, nodes: Seq<Node>, k: int)
    requires
        nodes.len() == 0,
    ensures
        grouped(ls, nodes, k) == 0,
    decreases k,
{
    if k > 0 {
        lemma_grouped_none(ls, nodes, k - 1);
    }
}

/// The skeleton of a file with some declarations, given the number of its tokens.
pub open spec fn skeleton_text(
    path: Seq<char>,
    content: Seq<char>,
    nodes: Seq<Node>,
    tokens: nat,
) -> Seq<char> {
    if nodes.len() == 0 {
        "// (empty — no declarations found in "@ + path + ")"@
    } else {
        "// "@ + last_name(path) + " — tokens: "@ + decimal(tokens) + " -> "@ + decimal(
            groups_size(lines(content), nodes, KINDS as int),
        ) + "\n\n"@ + groups_text(lines(content), nodes, KINDS as int)
    }
}

/// The skeleton of a file, given the number of its tokens.
pub fn skeleton_of(path: &str, content: &str, nodes: &[Node], tokens: usize) -> (r: String)
    ensures
        r@ == skeleton_text(path@, content@, nodes@, tokens as nat),
{
    if nodes.len() == 0 {
        let mut out = "// (empty — no declarations found in ".to_owned();
        out.append(path);
        out.append(")");
        return out;
    }
    let ls = str_lines(content);
    let count: usize = nodes.len();
    let mut body = String::new();
    let mut size: u128 = 0;
    let mut k: usize = 0;
    let ghost all = views(ls@);
    assert(body@ =~= groups_text(all, nodes@, 0));
    while k < KINDS
        invariant
            k <= KINDS,
            all == views(ls@),
            count == nodes@.len(),
            body@ == groups_text(all, nodes@, k as int),
            size == groups_size(all, nodes@, k as int),
            size <= k * 0x1_0000_0000_0000_0007 + grouped(all, nodes@, k as int)
                * 0x8000_0000_0000_0003,
        decreases KINDS - k,
    {
        let kind = kind_at(k);
        let entries = collect_group(&ls, nodes, kind);
        emit_group(&mut body, kind, &entries);
        let s: u128 = estimate_group(kind, &entries);
        proof {
            let g = grouped(all, nodes@, k as int);
            let e = entries@.len();
            assert(entry_views(entries@).len() == e);
            lemma_grouped(all, nodes@, k + 1);
            assert(g + e == grouped(all, nodes@, k + 1));
        }
        size = size + s;
        k += 1;
    }
    let mut out = "// ".to_owned();
    out.append(basename(path).as_str());
    out.append(" — tokens: ");
    out.append(decimal_string(tokens as u64).as_str());
    out.append(" -> ");
    out.append(wide_string(size).as_str());
    out.append("\n\n");
    out.append(body.as_str());
    out
}

/// The skeleton of a file, given the nodes that were found in it.
pub fn extract_skeleton(path: &str, content: &str, nodes: &[Node]) -> (r: String)
    ensures
        r@ == skeleton_text(path@, content@, nodes@, token_count(content@)),
{
    let tokens: usize = count_tokens(content);
    skeleton_of(path, content, nodes, tokens)
}

proof fn lemma_group_has(ls: Seq<Seq<char>>, nodes: Seq<Node>, i: int)
    requires
        0 <= i < nodes.len(),
    ensures
        group_of(ls, nodes, nodes[i].kind@).contains(
            (
                signature(ls, nodes[i].start_line as nat, nodes[i].end_line as nat),
                nodes[i].start_line as nat,
            ),
        ),
    decreases nodes.len(),
{
    let n = nodes[i];
    let e = (signature(ls, n.start_line as nat, n.end_line as nat), n.start_line as nat);
    let g = group_of(ls, nodes, n.kind@);
    let r = group_of(ls, nodes.drop_last(), n.kind@);
    if i == nodes.len() - 1 {
        assert(g[r.len() as int] == e);
    } else {
        assert(nodes.drop_last()[i] == n);
        lemma_group_has(ls, nodes.drop_last(), i);
        let k = choose|k: int| 0 <= k < r.len() && r[k] == e;
        assert(g[k] == e);
    }
}

/// Every node of a declaration is shown, with its head and its line, in the group of
/// its kind.
pub proof fn law_declarations_are_shown(ls: Seq<Seq<char>>, nodes: Seq<Node>, i: int)
    requires
        0 <= i < nodes.len(),
        is_declaration(nodes[i].kind@),
    ensures
        exists|k: int|
            0 <= k < KINDS && group_of(ls, nodes, #[trigger] kind_name(k)).contains(
                (
                    signature(ls, nodes[i].start_line as nat, nodes[i].end_line as nat),
                    nodes[i].start_line as nat,
                ),
            ),
{
    lemma_group_has(ls, nodes, i);
    let k = choose|k: int| 0 <= k < KINDS && nodes[i].kind@ == #[trigger] kind_name(k);
    assert(group_of(ls, nodes, kind_name(k)) == group_of(ls, nodes, nodes[i].kind@));
}

/// Whether a line is blank or a comment, which says nothing of where a body starts.
pub open spec fn is_passed_over(line: Seq<char>) -> bool {
    trim(line).len() == 0 || trim(line)[0] == '#'
}

/// Whether a line starts with some white space that fills a number of bytes.
pub open spec fn is_indented_by(line: Seq<char>, lead: Seq<char>) -> bool {
    &&& lead.is_prefix_of(line)
    &&& is_blank(lead)
    &&& lead.len() < line.len()
    &&& !is_space(line[lead.len() as int])
}

proof fn lemma_substance(line: Seq<char>)
    ensures
        is_substance(line) <==> !is_passed_over(line),
{
    let t = trim(line);
    reveal_strlit("#");
    assert("#"@ =~= seq!['#']);
    if t.len() > 0 {
        assert(t.take(1) =~= seq![t[0]]);
        if t.take(1) == "#"@ {
            assert(t.take(1)[0] == '#');
        }
    }
}

proof fn lemma_next_substance(ls: Seq<Seq<char>>, i: int, stop: int, n: int)
    requires
        i <= n <= stop,
        forall|j: int| i <= j < n ==> is_passed_over(#[trigger] ls[j]),
        n < stop ==> !is_passed_over(ls[n]),
    ensures
        next_substance(ls, i, stop) == n,
    decreases n - i,
{
    if i < stop {
        lemma_substance(ls[i]);
        if i < n {
            assert(is_passed_over(ls[i]));
            lemma_next_substance(ls, i + 1, stop, n);
        }
    }
}

/// The indentation of a line is the white space in front of it, in bytes: of blanks and
/// tabs, as many as there are.
pub proof fn law_indentation(line: Seq<char>, lead: Seq<char>)
    requires
        is_indented_by(line, lead),
    ensures
        indent(line) == vstd::utf8::encode_utf8(lead).len(),
        (forall|i: int| 0 <= i < lead.len() ==> #[trigger] lead[i] == ' ' || lead[i] == '\t')
            ==> indent(line) == lead.len(),
{
    let t = line.skip(lead.len() as int);
    assert(lead =~= line.subrange(0, lead.len() as int));
    assert(line =~= lead + t);
    assert(t[0] == line[lead.len() as int]);
    crate::text::lemma_trim_start_of(lead, t);
    assert(line.take(line.len() - t.len()) =~= lead);
    if forall|i: int| 0 <= i < lead.len() ==> #[trigger] lead[i] == ' ' || lead[i] == '\t' {
        lemma_narrow(lead);
    }
}

proof fn lemma_narrow(s: Seq<char>)
    requires
        forall|i: int| 0 <= i < s.len() ==> #[trigger] s[i] == ' ' || s[i] == '\t',
    ensures
        vstd::utf8::encode_utf8(s).len() == s.len(),
{
    assert(vstd::utf8::is_ascii_chars(s)) by {
        assert forall|i: int| 0 <= i < s.len() implies '\0' <= #[trigger] s[i] <= '\u{7f}' by {}
    }
    vstd::utf8::is_ascii_chars_encode_utf8(s);
}

/// Whether line `n` is the next behind line `i` that is neither blank nor a comment, and not
/// further indented, or `stop` where there is none.
pub open spec fn is_level(ls: Seq<Seq<char>>, i: int, stop: int, n: int) -> bool {
    &&& i < n <= stop
    &&& forall|j: int| i < j < n ==> is_passed_over(#[trigger] ls[j])
    &&& n < stop ==> !is_passed_over(ls[n]) && indent(ls[n]) <= indent(ls[i])
}

/// Whether no body starts behind line `i`: it does not end in a colon, or the next line
/// that is neither blank nor a comment, if there is one in front of `stop`, is not further
/// indented.
pub open spec fn goes_on(ls: Seq<Seq<char>>, i: int, stop: int) -> bool {
    ||| trim(ls[i]).last() != ':'
    ||| exists|n: int| is_level(ls, i, stop, n)
}

/// The line at which a declaration ends: the one that is said, or the last of the file.
pub open spec fn stop_at(ls: Seq<Seq<char>>, end: nat) -> int {
    if end < ls.len() {
        end as int
    } else {
        ls.len() as int
    }
}

/// A head ends at a colon: where the first line ends in one and has no brace, and the next
/// line that is neither blank nor a comment is further indented, however far the first one
/// is indented itself, the head is the first line, trimmed.
pub proof fn law_a_head_ends_where_an_indented_body_starts(
    ls: Seq<Seq<char>>,
    start: nat,
    end: nat,
    n: int,
    lead: Seq<char>,
    further: Seq<char>,
)
    requires
        1 <= start <= n < stop_at(ls, end),
        !trim(ls[start - 1]).contains('{'),
        trim(ls[start - 1]).len() > 0,
        trim(ls[start - 1]).last() == ':',
        forall|j: int| start <= j < n ==> is_passed_over(#[trigger] ls[j]),
        !is_passed_over(ls[n]),
        is_indented_by(ls[start - 1], lead),
        is_indented_by(ls[n], further),
        vstd::utf8::encode_utf8(further).len() > vstd::utf8::encode_utf8(lead).len(),
    ensures
        signature(ls, start, end) == trim(ls[start - 1]),
{
    let i = start - 1;
    let stop = stop_at(ls, end);
    let t = trim(ls[i]);
    law_indentation(ls[i], lead);
    law_indentation(ls[n], further);
    lemma_next_substance(ls, i + 1, stop, n);
    lemma_no_brace(t);
    lemma_ends_in_colon(t);
    assert(body_follows(ls, i, stop));
    law_trimmed(ls[i]);
    lemma_trim_one(t);
    assert(Seq::<char>::empty() + t + " "@ =~= t + " "@);
}

proof fn lemma_no_brace(t: Seq<char>)
    requires
        !t.contains('{'),
    ensures
        char_pos(t, '{') >= t.len(),
{
    lemma_char_pos(t, '{');
    if char_pos(t, '{') < t.len() {
        assert(t[char_pos(t, '{') as int] == '{');
        assert(t.contains('{'));
    }
}

proof fn lemma_ends_in_colon(t: Seq<char>)
    requires
        t.len() > 0,
    ensures
        ends_with(t, ":"@) <==> t.last() == ':',
{
    reveal_strlit(":");
    assert(":"@ =~= seq![':']);
    let e = t.skip(t.len() - 1);
    assert(e =~= seq![t.last()]);
    if e == ":"@ {
        assert(e[0] == ':');
    }
}

proof fn lemma_trim_one(t: Seq<char>)
    requires
        t.len() > 0,
        !is_space(t[0]),
        !is_space(t.last()),
    ensures
        trim(t + " "@) == t,
{
    reveal_strlit(" ");
    let e = Seq::<char>::empty();
    assert(is_blank(" "@));
    law_trim(e, t, " "@);
    assert(e + t + " "@ =~= t + " "@);
}

/// A head ends at a brace: where the first line has one, the head is what stands in front
/// of the first brace, without white space at its end, and a mark for the body.
pub proof fn law_a_head_ends_at_a_brace(
    ls: Seq<Seq<char>>,
    start: nat,
    end: nat,
    front: Seq<char>,
    rest: Seq<char>,
)
    requires
        1 <= start <= stop_at(ls, end),
        trim(ls[start - 1]) == front + seq!['{'] + rest,
        !front.contains('{'),
    ensures
        signature(ls, start, end) == trim_end(front) + " { ... }"@,
{
    let t = trim(ls[start - 1]);
    assert forall|j: int| 0 <= j < front.len() implies t[j] != '{' by {
        assert(t[j] == front[j]);
        assert(front.contains(front[j]));
    }
    lemma_char_pos_is(t, '{', front.len());
    assert(t.take(front.len() as int) =~= front);
    assert(Seq::<char>::empty() + trim_end(front) =~= trim_end(front));
}

proof fn lemma_head_behind(ls: Seq<Seq<char>>, i: int, stop: int, r: Seq<char>)
    requires
        0 <= i,
        stop <= ls.len(),
        r.len() > 0,
        !is_space(r[0]),
        !is_space(r.last()),
    ensures
        ({
            let h = head_from(ls, i, stop, Seq::empty());
            head_from(ls, i, stop, r + " "@) == (if h.len() == 0 {
                r
            } else {
                r + " "@ + h
            })
        }),
    decreases stop - i,
{
    let e = Seq::<char>::empty();
    let h = head_from(ls, i, stop, e);
    reveal_strlit(" ");
    lemma_trim_one(r);
    if i >= stop {
        law_trimmed(e);
        assert(is_blank(e));
    } else {
        let t = trim(ls[i]);
        let p = char_pos(t, '{');
        law_trimmed(ls[i]);
        if t.len() == 0 {
            lemma_head_behind(ls, i + 1, stop, r);
        } else if p < t.len() {
            let x = trim_end(t.take(p as int));
            reveal_strlit(" { ... }");
            assert(h =~= x + " { ... }"@);
            assert(r + " "@ + x + " { ... }"@ =~= r + " "@ + h);
        } else {
            assert(e + t + " "@ =~= t + " "@);
            let r2 = r + " "@ + t;
            assert(r2[0] == r[0] && r2.last() == t.last());
            assert(r + " "@ + t + " "@ =~= r2 + " "@);
            lemma_trim_one(t);
            lemma_trim_one(r2);
            if !body_follows(ls, i, stop) {
                lemma_head_behind(ls, i + 1, stop, r2);
                lemma_head_behind(ls, i + 1, stop, t);
                let h2 = head_from(ls, i + 1, stop, e);
                assert(r2 + " "@ + h2 =~= r + " "@ + (t + " "@ + h2));
            }
        }
    }
}

/// A head goes on over lines: a line without a brace behind which no body starts stands in
/// the head, trimmed, with one blank between it and the head that the lines behind it make.
pub proof fn law_a_head_goes_on(ls: Seq<Seq<char>>, start: nat, end: nat)
    requires
        1 <= start <= stop_at(ls, end),
        !trim(ls[start - 1]).contains('{'),
        trim(ls[start - 1]).len() > 0 ==> goes_on(ls, start - 1, stop_at(ls, end)),
    ensures
        ({
            let t = trim(ls[start - 1]);
            let rest = signature(ls, start + 1, end);
            signature(ls, start, end) == (if t.len() == 0 {
                rest
            } else if rest.len() == 0 {
                t
            } else {
                t + " "@ + rest
            })
        }),
{
    let i = start - 1;
    let stop = stop_at(ls, end);
    let t = trim(ls[i]);
    let e = Seq::<char>::empty();
    law_trimmed(ls[i]);
    law_trimmed(e);
    assert(is_blank(e));
    assert(trim(e) =~= e);
    lemma_no_brace(t);
    let h = head_from(ls, i + 1, stop, e);
    assert(h == signature(ls, start + 1, end)) by {
        if start + 1 > ls.len() {
            assert(h == trim(e));
        }
    }
    assert(signature(ls, start, end) == head_from(ls, i, stop, e));
    if t.len() > 0 {
        lemma_ends_in_colon(t);
        if t.last() == ':' {
            let n = choose|n: int| is_level(ls, i, stop, n);
            lemma_next_substance(ls, i + 1, stop, n);
        }
        assert(!body_follows(ls, i, stop));
        assert(e + t + " "@ =~= t + " "@);
        lemma_head_behind(ls, i + 1, stop, t);
    }
}

/// There is no head on a line that does not exist or lies behind the end.
pub proof fn law_no_head_without_a_line(ls: Seq<Seq<char>>, start: nat, end: nat)
    requires
        start == 0 || start > stop_at(ls, end),
    ensures
        signature(ls, start, end) == Seq::<char>::empty(),
{
    let e = Seq::<char>::empty();
    law_trimmed(e);
    assert(is_blank(e));
    assert(trim(e) =~= e);
}

/// A group lists the nodes of its kind, all of them and in order, each with its head and
/// its first line.
pub proof fn law_groups_list_their_nodes(ls: Seq<Seq<char>>, nodes: Seq<Node>, kind: Seq<char>)
    ensures
        group_of(ls, nodes, kind) == nodes.filter(|n: Node| n.kind@ == kind).map_values(
            |n: Node|
                (signature(ls, n.start_line as nat, n.end_line as nat), n.start_line as nat),
        ),
    decreases nodes.len(),
{
    reveal(Seq::filter);
    let f = |n: Node| n.kind@ == kind;
    let g = |n: Node|
        (signature(ls, n.start_line as nat, n.end_line as nat), n.start_line as nat);
    if nodes.len() > 0 {
        law_groups_list_their_nodes(ls, nodes.drop_last(), kind);
        let a = nodes.drop_last().filter(f);
        assert(a.push(nodes.last()).map_values(g) =~= a.map_values(g).push(g(nodes.last())));
    } else {
        assert(group_of(ls, nodes, kind) =~= nodes.filter(f).map_values(g));
    }
}

/// A group is shown under its header, which counts it, with a line for each declaration and
/// an empty line behind; a group without any is not shown at all.
pub proof fn law_groups_are_shown(
    kind: Seq<char>,
    es: Seq<(Seq<char>, nat)>,
    head: Seq<char>,
    line: nat,
)
    ensures
        group_text(kind, Seq::empty()) == Seq::<char>::empty(),
        group_text(kind, seq![(head, line)]) == "// ── "@ + plural(kind) + " ("@ + decimal(1)
            + ") ──\n"@ + ("  "@ + head + "  // line "@ + decimal(line) + "\n"@) + "\n"@,
        ({
            let more = es.push((head, line));
            &&& group_text(kind, more) == "// ── "@ + plural(kind) + " ("@ + decimal(
                es.len() + 1,
            ) + ") ──\n"@ + entries_text(more) + "\n"@
            &&& entries_text(more) == entries_text(es) + ("  "@ + head + "  // line "@ + decimal(
                line,
            ) + "\n"@)
        }),
{
    let one = seq![(head, line)];
    assert(one.drop_last() =~= Seq::<(Seq<char>, nat)>::empty());
    let row = "  "@ + head + "  // line "@ + decimal(line) + "\n"@;
    assert(entries_text(one) =~= row) by {
        assert(entries_text(one.drop_last()) =~= Seq::<char>::empty());
    }
    let more = es.push((head, line));
    assert(more.drop_last() =~= es);
}

/// The headers of the kinds of declarations, in the order in which their groups are shown.
pub proof fn law_kinds_and_headers()
    ensures
        KINDS == 13,
        plural(kind_name(0)) == "Structs"@,
        plural(kind_name(1)) == "Enums"@,
        plural(kind_name(2)) == "Unions"@,
        plural(kind_name(3)) == "Classes"@,
        plural(kind_name(4)) == "Interfaces"@,
        plural(kind_name(5)) == "Types"@,
        plural(kind_name(6)) == "Traits"@,
        plural(kind_name(7)) == "Impl Blocks"@,
        plural(kind_name(8)) == "Functions"@,
        plural(kind_name(9)) == "Methods"@,
        plural(kind_name(10)) == "Constants"@,
        plural(kind_name(11)) == "Statics"@,
        plural(kind_name(12)) == "Variables"@,
        kind_name(0) == "struct"@ && kind_name(1) == "enum"@ && kind_name(2) == "union"@,
        kind_name(3) == "class"@ && kind_name(4) == "interface"@ && kind_name(5) == "type"@,
        kind_name(6) == "trait"@ && kind_name(7) == "impl_block"@ && kind_name(8) == "function"@,
        kind_name(9) == "method"@ && kind_name(10) == "const"@ && kind_name(11) == "static"@,
        kind_name(12) == "variable"@,
{
    lemma_plural(0, "Structs"@);
    lemma_plural(1, "Enums"@);
    lemma_plural(2, "Unions"@);
    lemma_plural(3, "Classes"@);
    lemma_plural(4, "Interfaces"@);
    lemma_plural(5, "Types"@);
    lemma_plural(6, "Traits"@);
    lemma_plural(7, "Impl Blocks"@);
    lemma_plural(8, "Functions"@);
    lemma_plural(9, "Methods"@);
    lemma_plural(10, "Constants"@);
    lemma_plural(11, "Statics"@);
    lemma_plural(12, "Variables"@);
}

proof fn lemma_plural(k: int, header: Seq<char>)
    requires
        0 <= k < KINDS,
        k == 0 ==> header == "Structs"@,
        k == 1 ==> header == "Enums"@,
        k == 2 ==> header == "Unions"@,
        k == 3 ==> header == "Classes"@,
        k == 4 ==> header == "Interfaces"@,
        k == 5 ==> header == "Types"@,
        k == 6 ==> header == "Traits"@,
        k == 7 ==> header == "Impl Blocks"@,
        k == 8 ==> header == "Functions"@,
        k == 9 ==> header == "Methods"@,
        k == 10 ==> header == "Constants"@,
        k == 11 ==> header == "Statics"@,
        k == 12 ==> header == "Variables"@,
    ensures
        plural(kind_name(k)) == header,
{
    assert forall|j: int| 0 <= j < KINDS && j != k implies kind_name(j) != kind_name(k) by {
        if j < k {
            lemma_kinds_differ(j, k);
        } else {
            lemma_kinds_differ(k, j);
        }
    }
    assert(kind_name(0) == "struct"@ && kind_name(1) == "enum"@ && kind_name(2) == "union"@);
    assert(kind_name(3) == "class"@ && kind_name(4) == "interface"@ && kind_name(5) == "type"@);
    assert(kind_name(6) == "trait"@ && kind_name(7) == "impl_block"@ && kind_name(8)
        == "function"@);
    assert(kind_name(9) == "method"@ && kind_name(10) == "const"@ && kind_name(11) == "static"@);
    assert(kind_name(12) == "variable"@);
}

/// Tokens are counted where they start, and words likewise: behind a text that ends in
/// white space, or behind none, one more run of characters counts one more.
pub proof fn law_counts_go_up_by_one(s: Seq<char>, run: Seq<char>)
    requires
        s.len() == 0 || is_space(s.last()),
        run.len() > 0,
    ensures
        (forall|i: int| 0 <= i < run.len() ==> !is_space(#[trigger] run[i])) ==> word_count(s + run)
            == word_count(s) + 1,
        (forall|i: int|
            0 <= i < run.len() ==> !is_space(#[trigger] run[i]) && (is_alphanumeric(run[i])
                || run[i] == '_')) ==> token_count(s + run) == token_count(s) + 1,
        (forall|i: int| 0 <= i < run.len() ==> is_space(#[trigger] run[i])) ==> word_count(s + run)
            == word_count(s) && token_count(s + run) == token_count(s),
        word_count(Seq::empty()) == 0,
        token_count(Seq::empty()) == 0,
    decreases run.len(),
{
    let t = s + run;
    let r = run.drop_last();
    assert(t.drop_last() =~= s + r);
    assert(t.last() == run.last());
    assert(run.last() == run[run.len() - 1]);
    if r.len() > 0 {
        law_counts_go_up_by_one(s, r);
        assert(t[t.len() - 2] == run[run.len() - 2]);
        assert forall|i: int| 0 <= i < r.len() implies #[trigger] r[i] == run[i] by {}
    } else {
        assert(s + r =~= s);
        if s.len() > 0 {
            assert(t[t.len() - 2] == s.last());
        }
    }
}

/// A character that is neither a letter, a number nor an underscore ends a token, also in
/// the middle of a word.
pub proof fn law_tokens_end_at_marks(s: Seq<char>, c: char, run: Seq<char>)
    requires
        is_space(c) || !(is_alphanumeric(c) || c == '_'),
        run.len() > 0,
        forall|i: int|
            0 <= i < run.len() ==> !is_space(#[trigger] run[i]) && (is_alphanumeric(run[i])
                || run[i] == '_'),
    ensures
        token_count(s.push(c)) == token_count(s),
        token_count(s.push(c) + run) == token_count(s) + 1,
    decreases run.len(),
{
    let u = s.push(c);
    let t = u + run;
    let r = run.drop_last();
    assert(u.drop_last() =~= s);
    assert(t.drop_last() =~= u + r);
    assert(t.last() == run[run.len() - 1]);
    assert(is_token_char(t.last()));
    assert(!is_token_char(c));
    if r.len() > 0 {
        assert forall|i: int| 0 <= i < r.len() implies !is_space(#[trigger] r[i]) && (
        is_alphanumeric(r[i]) || r[i] == '_') by {
            assert(r[i] == run[i]);
        }
        law_tokens_end_at_marks(s, c, r);
        assert(t[t.len() - 2] == run[run.len() - 2]);
        assert(is_token_char(run[run.len() - 2]));
        assert(token_count(t) == token_count(t.drop_last()));
    } else {
        assert(u + r =~= u);
        assert(t[t.len() - 2] == c);
        assert(token_count(t) == token_count(t.drop_last()) + 1);
    }
}

/// The groups of a skeleton stand in the order of the kinds.
pub proof fn law_groups_in_order(ls: Seq<Seq<char>>, nodes: Seq<Node>)
    ensures
        ({
            let g = |kind: Seq<char>| group_text(kind, group_of(ls, nodes, kind));
            groups_text(ls, nodes, KINDS as int) == g("struct"@) + g("enum"@) + g("union"@) + g(
                "class"@,
            ) + g("interface"@) + g("type"@) + g("trait"@) + g("impl_block"@) + g("function"@) + g(
                "method"@,
            ) + g("const"@) + g("static"@) + g("variable"@)
        }),
        ({
            let n = |kind: Seq<char>| group_size(kind, group_of(ls, nodes, kind));
            groups_size(ls, nodes, KINDS as int) == n("struct"@) + n("enum"@) + n("union"@) + n(
                "class"@,
            ) + n("interface"@) + n("type"@) + n("trait"@) + n("impl_block"@) + n("function"@) + n(
                "method"@,
            ) + n("const"@) + n("static"@) + n("variable"@)
        }),
{
    reveal_with_fuel(groups_text, 14);
    reveal_with_fuel(groups_size, 14);
    let g = |kind: Seq<char>| group_text(kind, group_of(ls, nodes, kind));
    let none = Seq::<char>::empty();
    assert(none + g("struct"@) =~= g("struct"@));
}

/// The estimated size of a group: for its header eight and the bytes of the kind, and for each
/// declaration three and the words of its head; nothing for a group without any.
pub proof fn law_group_sizes(
    kind: Seq<char>,
    es: Seq<(Seq<char>, nat)>,
    head: Seq<char>,
    line: nat,
)
    ensures
        group_size(kind, Seq::empty()) == 0,
        group_size(kind, seq![(head, line)]) == 11 + vstd::utf8::encode_utf8(kind).len()
            + word_count(head),
        es.len() > 0 ==> group_size(kind, es.push((head, line))) == group_size(kind, es) + 3
            + word_count(head),
{
    let one = seq![(head, line)];
    assert(one.drop_last() =~= Seq::<(Seq<char>, nat)>::empty());
    assert(entries_size(one.drop_last()) == 0);
    assert(es.push((head, line)).drop_last() =~= es);
}

/// A skeleton starts with the name of the file and the two sizes, and shows every declaration
/// with its head and its line; a file without declarations says so.
pub proof fn law_skeleton_shows_every_declaration(
    path: Seq<char>,
    content: Seq<char>,
    nodes: Seq<Node>,
    tokens: nat,
    i: int,
)
    requires
        0 <= i < nodes.len(),
        is_declaration(nodes[i].kind@),
    ensures
        skeleton_text(path, content, Seq::empty(), tokens)
            == "// (empty — no declarations found in "@ + path + ")"@,
        ({
            let ls = lines(content);
            let n = nodes[i];
            let start = "// "@ + last_name(path) + " — tokens: "@ + decimal(tokens) + " -> "@
                + decimal(groups_size(ls, nodes, KINDS as int)) + "\n\n"@;
            let row = "  "@ + signature(ls, n.start_line as nat, n.end_line as nat) + "  // line "@
                + decimal(n.start_line as nat) + "\n"@;
            exists|a: Seq<char>, b: Seq<char>|
                skeleton_text(path, content, nodes, tokens) == #[trigger] (start + a + row + b)
        }),
{
    let ls = lines(content);
    let n = nodes[i];
    let e = (signature(ls, n.start_line as nat, n.end_line as nat), n.start_line as nat);
    let row = "  "@ + e.0 + "  // line "@ + decimal(e.1) + "\n"@;
    let start = "// "@ + last_name(path) + " — tokens: "@ + decimal(tokens) + " -> "@ + decimal(
        groups_size(ls, nodes, KINDS as int),
    ) + "\n\n"@;
    let k = choose|k: int| 0 <= k < KINDS && n.kind@ == #[trigger] kind_name(k);
    lemma_group_has(ls, nodes, i);
    let es = group_of(ls, nodes, kind_name(k));
    let j = choose|j: int| 0 <= j < es.len() && es[j] == e;
    lemma_entries_have(es, j);
    let (x, y) = choose|x: Seq<char>, y: Seq<char>| entries_text(es) == #[trigger] (x + row + y);
    let head = "// ── "@ + plural(kind_name(k)) + " ("@ + decimal(es.len()) + ") ──\n"@;
    lemma_groups_have(ls, nodes, KINDS as int, k);
    let g = group_text(kind_name(k), es);
    let (p, q) = choose|p: Seq<char>, q: Seq<char>|
        groups_text(ls, nodes, KINDS as int) == #[trigger] (p + g + q);
    lemma_row_in_place(start, p, head, x, row, y, "\n"@, q);
}

proof fn lemma_row_in_place(
    start: Seq<char>,
    p: Seq<char>,
    head: Seq<char>,
    x: Seq<char>,
    row: Seq<char>,
    y: Seq<char>,
    end: Seq<char>,
    q: Seq<char>,
)
    ensures
        start + (p + (head + (x + row + y) + end) + q) == start + (p + head + x) + row + (y + end
            + q),
{
    assert(start + (p + (head + (x + row + y) + end) + q) =~= start + (p + head + x) + row + (y
        + end + q));
}

proof fn lemma_entries_have(es: Seq<(Seq<char>, nat)>, j: int)
    requires
        0 <= j < es.len(),
    ensures
        exists|x: Seq<char>, y: Seq<char>|
            entries_text(es) == #[trigger] (x + ("  "@ + es[j].0 + "  // line "@ + decimal(es[j].1)
                + "\n"@) + y),
    decreases es.len(),
{
    let init = es.drop_last();
    let row = "  "@ + es[j].0 + "  // line "@ + decimal(es[j].1) + "\n"@;
    let last = "  "@ + es.last().0 + "  // line "@ + decimal(es.last().1) + "\n"@;
    if j < init.len() {
        lemma_entries_have(init, j);
        assert(init[j] == es[j]);
        let (x, y) = choose|x: Seq<char>, y: Seq<char>|
            entries_text(init) == #[trigger] (x + row + y);
        assert(entries_text(es) =~= x + row + (y + last));
    } else {
        assert(entries_text(es) =~= entries_text(init) + row + Seq::<char>::empty());
    }
}

proof fn lemma_groups_have(ls: Seq<Seq<char>>, nodes: Seq<Node>, n: int, k: int)
    requires
        0 <= k < n,
    ensures
        exists|p: Seq<char>, q: Seq<char>|
            groups_text(ls, nodes, n) == #[trigger] (p + group_text(
                kind_name(k),
                group_of(ls, nodes, kind_name(k)),
            ) + q),
    decreases n,
{
    let g = group_text(kind_name(k), group_of(ls, nodes, kind_name(k)));
    let last = group_text(kind_name(n - 1), group_of(ls, nodes, kind_name(n - 1)));
    if k < n - 1 {
        lemma_groups_have(ls, nodes, n - 1, k);
        let (p, q) = choose|p: Seq<char>, q: Seq<char>|
            groups_text(ls, nodes, n - 1) == #[trigger] (p + g + q);
        assert(groups_text(ls, nodes, n) =~= p + g + (q + last));
    } else {
        assert(groups_text(ls, nodes, n) =~= groups_text(ls, nodes, n - 1) + g
            + Seq::<char>::empty());
    }
}

/// White space ends a word and adds none, and a character that goes on with a word adds none.
pub proof fn law_words_end_at_white_space(s: Seq<char>, c: char)
    ensures
        is_space(c) ==> word_count(s.push(c)) == word_count(s),
        s.len() > 0 && !is_space(s.last()) ==> word_count(s.push(c)) == word_count(s),
        !is_space(c) && (s.len() == 0 || is_space(s.last())) ==> word_count(s.push(c))
            == word_count(s) + 1,
{
    let t = s.push(c);
    assert(t.drop_last() =~= s);
    assert(t.last() == c);
    if s.len() > 0 {
        assert(t[t.len() - 2] == s.last());
    }
}

}
