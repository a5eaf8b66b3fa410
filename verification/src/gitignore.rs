//! The entries of the relay in a repository's ignore file.
use vstd::prelude::*;

use crate::text::{
    char_pos, is_space, join, join_strs, lemma_char_pos, lemma_char_pos_is, lemma_line_at, line_at,
    lines, same, str_lines, str_trim, str_trim_end_char, strip_cr, trim, trim_end, trim_end_char,
    trim_start, views,
};

verus! {

/// The header above the entries.
pub const GITIGNORE_HEADER: &'static str = "# Code Relay (local state)";

/// The entries that an ignore file needs.
pub open spec fn needed_entries() -> Seq<Seq<char>> {
    seq!["relay.json"@, "RESUME.md"@, "next_step.md"@]
}

/// Those of `entries` that are not lines of a text, in order.
pub open spec fn missing_of(entries: Seq<Seq<char>>, content: Seq<char>) -> Seq<Seq<char>>
    decreases entries.len(),
{
    if entries.len() == 0 {
        Seq::empty()
    } else {
        let r = missing_of(entries.drop_last(), content);
        if lines(content).contains(entries.last()) {
            r
        } else {
            r.push(entries.last())
        }
    }
}

/// The entries that an ignore file lacks.
pub open spec fn missing_entries(content: Seq<char>) -> Seq<Seq<char>> {
    missing_of(needed_entries(), content)
}

/// The header as it is put behind a text.
pub open spec fn header_after(content: Seq<char>) -> Seq<char> {
    if trim(content).len() == 0 {
        GITIGNORE_HEADER@ + "\n"@
    } else {
        "\n"@ + GITIGNORE_HEADER@ + "\n"@
    }
}

/// An ignore file with the entries it lacked.
pub open spec fn completed(content: Seq<char>) -> Seq<char> {
    trim_end_char(content, '\n') + header_after(content) + join(missing_entries(content), "\n"@)
        + "\n"@
}

/// A new ignore file, and the note that names what was added.
pub struct IgnoreUpdate {
    pub content: String,
    pub note: String,
}

fn is_line(ls: &Vec<&str>, entry: &str) -> (r: bool)
    ensures
        r == views(ls@).contains(entry@),
{
    let mut i: usize = 0;
    while i < ls.len()
        invariant
            i <= ls.len(),
            forall|j: int| 0 <= j < i ==> views(ls@)[j] != entry@,
        decreases ls.len() - i,
    {
        if same(ls[i], entry) {
            assert(views(ls@)[i as int] == entry@);
            return true;
        }
        i += 1;
    }
    false
}

/// What an ignore file has to become; nothing where it has all entries.
pub fn ensure_gitignore(content: &str) -> (r: Option<IgnoreUpdate>)
    ensures
        match r {
            Some(u) => missing_entries(content@).len() > 0 && u.content@ == completed(content@)
                && u.note@ == ".gitignore updated ("@ + join(missing_entries(content@), ", "@)
                + ")"@,
            None => missing_entries(content@).len() == 0,
        },
{
    let ls = str_lines(content);
    let mut entries: Vec<&str> = Vec::new();
    entries.push("relay.json");
    entries.push("RESUME.md");
    entries.push("next_step.md");
    let ghost all = needed_entries();
    assert(views(entries@) =~= all);
    let mut missing: Vec<&str> = Vec::new();
    let mut i: usize = 0;
    assert(all.take(0).len() == 0);
    assert(views(missing@) =~= missing_of(all.take(0), content@));
    while i < entries.len()
        invariant
            i <= entries.len(),
            views(ls@) == lines(content@),
            views(entries@) == all,
            views(missing@) == missing_of(all.take(i as int), content@),
        decreases entries.len() - i,
    {
        let ghost before = missing@;
        proof {
            assert(all.take(i + 1).drop_last() =~= all.take(i as int));
            assert(all.take(i + 1).last() == entries@[i as int]@);
        }
        if !is_line(&ls, entries[i]) {
            missing.push(entries[i]);
            assert(views(missing@) =~= views(before).push(entries@[i as int]@));
        }
        i += 1;
    }
    assert(all.take(i as int) =~= all);
    assert(views(missing@).len() == missing@.len());
    if missing.len() == 0 {
        return None;
    }
    let header = if str_trim(content).is_empty() {
        let mut h = GITIGNORE_HEADER.to_owned();
        h.append("\n");
        h
    } else {
        let mut h = "\n".to_owned();
        h.append(GITIGNORE_HEADER);
        h.append("\n");
        h
    };
    let mut new_content = str_trim_end_char(content, '\n').to_owned();
    new_content.append(header.as_str());
    new_content.append(join_strs(&missing, "\n").as_str());
    new_content.append("\n");
    let mut note = ".gitignore updated (".to_owned();
    note.append(join_strs(&missing, ", ").as_str());
    note.append(")");
    Some(IgnoreUpdate { content: new_content, note })
}

proof fn lemma_entry_shape(e: Seq<char>)
    requires
        needed_entries().contains(e),
    ensures
        e.len() > 0,
        !is_space(e[0]),
        e.last() != '\r',
        forall|k: int| 0 <= k < e.len() ==> e[k] != '\n',
{
    reveal_strlit("relay.json");
    reveal_strlit("RESUME.md");
    reveal_strlit("next_step.md");
    let i = choose|i: int| 0 <= i < needed_entries().len() && needed_entries()[i] == e;
    if i == 0 {
        assert(e == "relay.json"@);
    } else if i == 1 {
        assert(e == "RESUME.md"@);
    } else {
        assert(e == "next_step.md"@);
    }
}

/// Where a joined text has one of its parts.
proof fn lemma_join_part(v: Seq<Seq<char>>, k: int) -> (off: int)
    requires
        0 <= k < v.len(),
    ensures
        ({
            let j = join(v, seq!['\n']);
            &&& 0 <= off && off + v[k].len() <= j.len()
            &&& j.subrange(off, off + v[k].len()) == v[k]
            &&& off == 0 || j[off - 1] == '\n'
            &&& off + v[k].len() == j.len() || j[off + v[k].len()] == '\n'
        }),
    decreases v.len(),
{
    let j = join(v, seq!['\n']);
    if v.len() == 1 {
        assert(j.subrange(0, j.len() as int) =~= j);
        0
    } else {
        let p = join(v.drop_last(), seq!['\n']);
        assert(j == p + seq!['\n'] + v.last());
        if k == v.len() - 1 {
            let off = p.len() as int + 1;
            assert(j.subrange(off, off + v[k].len()) =~= v[k]);
            off
        } else {
            let off = lemma_join_part(v.drop_last(), k);
            assert(v.drop_last()[k] == v[k]);
            assert(j.subrange(off, off + v[k].len()) =~= p.subrange(off, off + v[k].len()));
            if off > 0 {
                assert(j[off - 1] == p[off - 1]);
            }
            if off + v[k].len() < p.len() {
                assert(j[off + v[k].len()] == p[off + v[k].len()]);
            }
            off
        }
    }
}

proof fn lemma_missing(entries: Seq<Seq<char>>, content: Seq<char>, e: Seq<char>)
    ensures
        missing_of(entries, content).contains(e) <==> entries.contains(e) && !lines(
            content,
        ).contains(e),
    decreases entries.len(),
{
    if entries.len() > 0 {
        let init = entries.drop_last();
        let r = missing_of(init, content);
        let all = missing_of(entries, content);
        lemma_missing(init, content, e);
        if r.contains(e) {
            let k = choose|k: int| 0 <= k < r.len() && r[k] == e;
            assert(all[k] == e);
        }
        if init.contains(e) {
            let k = choose|k: int| 0 <= k < init.len() && init[k] == e;
            assert(entries[k] == e);
        }
        if entries.contains(e) && !init.contains(e) {
            let k = choose|k: int| 0 <= k < entries.len() && entries[k] == e;
            if k < init.len() {
                assert(init[k] == e);
            }
            if !lines(content).contains(e) {
                assert(all[r.len() as int] == e);
            }
        }
        if all.contains(e) && !r.contains(e) {
            let k = choose|k: int| 0 <= k < all.len() && all[k] == e;
            if k < r.len() {
                assert(r[k] == e);
            }
            assert(entries[entries.len() - 1] == e);
        }
    }
}

proof fn lemma_trim_end_char(s: Seq<char>, c: char)
    ensures
        trim_end_char(s, c).len() <= s.len(),
        trim_end_char(s, c) == s.take(trim_end_char(s, c).len() as int),
        forall|i: int| trim_end_char(s, c).len() <= i < s.len() ==> s[i] == c,
    decreases s.len(),
{
    if s.len() > 0 && s.last() == c {
        lemma_trim_end_char(s.drop_last(), c);
        let t = trim_end_char(s.drop_last(), c);
        assert(s.take(t.len() as int) =~= s.drop_last().take(t.len() as int));
        assert forall|i: int| t.len() <= i < s.len() implies s[i] == c by {
            if i < s.len() - 1 {
                assert(s[i] == s.drop_last()[i]);
            }
        }
    } else {
        assert(s.take(s.len() as int) =~= s);
    }
}

proof fn lemma_blank(s: Seq<char>, i: int)
    requires
        trim(s).len() == 0,
        0 <= i < s.len(),
    ensures
        is_space(s[i]),
{
    lemma_blank_start(s);
    let t = trim_start(s);
    lemma_blank_end(t);
    let n = s.len() - t.len();
    if i >= n {
        assert(s[i] == t[i - n]);
    }
}

proof fn lemma_blank_start(s: Seq<char>)
    ensures
        trim_start(s).len() <= s.len(),
        trim_start(s) == s.skip(s.len() - trim_start(s).len()),
        forall|i: int| 0 <= i < s.len() - trim_start(s).len() ==> is_space(#[trigger] s[i]),
    decreases s.len(),
{
    if s.len() > 0 && is_space(s[0]) {
        let r = s.drop_first();
        lemma_blank_start(r);
        let t = trim_start(r);
        assert(s.skip(s.len() - t.len()) =~= r.skip(r.len() - t.len()));
        assert forall|i: int| 0 <= i < s.len() - t.len() implies is_space(#[trigger] s[i]) by {
            if i > 0 {
                assert(s[i] == r[i - 1]);
            }
        }
    } else {
        assert(s.skip(0) =~= s);
    }
}

proof fn lemma_blank_end(s: Seq<char>)
    requires
        trim_end(s).len() == 0,
    ensures
        forall|i: int| 0 <= i < s.len() ==> is_space(#[trigger] s[i]),
    decreases s.len(),
{
    if s.len() > 0 {
        lemma_blank_end(s.drop_last());
        assert forall|i: int| 0 <= i < s.len() implies is_space(#[trigger] s[i]) by {
            if i < s.len() - 1 {
                assert(s[i] == s.drop_last()[i]);
            }
        }
    }
}

proof fn lemma_kept_line(content: Seq<char>, e: Seq<char>)
    requires
        needed_entries().contains(e),
        lines(content).contains(e),
    ensures
        lines(completed(content)).contains(e),
{
    lemma_entry_shape(e);
    lemma_line_at(content, e);
    let i = choose|i: int| line_at(content, e, i);
    let j = i + e.len();
    assert(content.subrange(i, j)[0] == e[0]);
    assert(content.subrange(i, j)[e.len() - 1] == e.last());
    if trim(content).len() == 0 {
        lemma_blank(content, i);
    }
    let t = trim_end_char(content, '\n');
    lemma_trim_end_char(content, '\n');
    assert(j <= t.len()) by {
        if j > t.len() {
            assert(content[j - 1] == '\n');
            assert(content[j - 1] == e.last());
            assert(e[e.len() - 1] != '\n');
        }
    }
    let h = header_after(content);
    reveal_strlit("\n");
    assert(h[0] == '\n');
    let tail = join(missing_entries(content), "\n"@) + "\n"@;
    let n = completed(content);
    assert(n =~= t + h + tail);
    assert forall|k: int| 0 <= k < t.len() implies n[k] == content[k] by {
        assert(n[k] == t[k]);
    }
    assert(n[t.len() as int] == '\n');
    assert(n.subrange(i, j) =~= e) by {
        assert forall|k: int| 0 <= k < e.len() implies n[i + k] == e[k] by {
            assert(content.subrange(i, j)[k] == e[k]);
        }
    }
    assert(line_at(n, e, i));
    lemma_line_at(n, e);
}

proof fn lemma_added_line(content: Seq<char>, e: Seq<char>)
    requires
        missing_entries(content).contains(e),
    ensures
        lines(completed(content)).contains(e),
{
    let v = missing_entries(content);
    lemma_missing(needed_entries(), content, e);
    lemma_entry_shape(e);
    reveal_strlit("\n");
    assert("\n"@ =~= seq!['\n']);
    let k = choose|k: int| 0 <= k < v.len() && v[k] == e;
    let off = lemma_join_part(v, k);
    let j = join(v, "\n"@);
    let head = trim_end_char(content, '\n') + header_after(content);
    let n = completed(content);
    assert(n =~= head + j + seq!['\n']);
    assert(head.last() == '\n');
    let i = head.len() + off;
    assert(n.subrange(i, i + e.len()) =~= j.subrange(off, off + e.len()));
    if off > 0 {
        assert(n[i - 1] == j[off - 1]);
    } else {
        assert(n[i - 1] == head.last());
    }
    if off + e.len() < j.len() {
        assert(n[i + e.len()] == j[off + e.len()]);
    } else {
        assert(n[i + e.len()] == '\n');
    }
    assert(line_at(n, e, i));
    lemma_line_at(n, e);
}

proof fn lemma_none_missing(entries: Seq<Seq<char>>, content: Seq<char>)
    requires
        forall|k: int| 0 <= k < entries.len() ==> lines(content).contains(#[trigger] entries[k]),
    ensures
        missing_of(entries, content).len() == 0,
    decreases entries.len(),
{
    if entries.len() > 0 {
        let init = entries.drop_last();
        assert forall|k: int| 0 <= k < init.len() implies lines(content).contains(
            #[trigger] init[k],
        ) by {
            assert(init[k] == entries[k]);
        }
        lemma_none_missing(init, content);
        assert(lines(content).contains(entries[entries.len() - 1]));
    }
}

/// A completed ignore file lacks nothing, so completing it a second time changes
/// nothing.
pub proof fn law_completing_is_idempotent(content: Seq<char>)
    ensures
        missing_entries(completed(content)).len() == 0,
{
    let entries = needed_entries();
    assert forall|k: int| 0 <= k < entries.len() implies lines(completed(content)).contains(
        #[trigger] entries[k],
    ) by {
        let e = entries[k];
        if lines(content).contains(e) {
            lemma_kept_line(content, e);
        } else {
            lemma_missing(entries, content, e);
            lemma_added_line(content, e);
        }
    }
    lemma_none_missing(entries, completed(content));
}

/// A text split behind a line feed: its lines are those of the two parts.
proof fn lemma_lines_split(u: Seq<char>, v: Seq<char>)
    ensures
        lines(u + seq!['\n'] + v) == lines(u + seq!['\n']) + lines(v),
    decreases u.len(),
{
    let head = u + seq!['\n'];
    let all = head + v;
    let p = char_pos(u, '\n');
    lemma_char_pos(u, '\n');
    assert(all[u.len() as int] == '\n' && head[u.len() as int] == '\n');
    assert forall|k: int| 0 <= k < u.len() implies all[k] == u[k] && head[k] == u[k] by {}
    lemma_char_pos_is(all, '\n', p);
    lemma_char_pos_is(head, '\n', p);
    assert(all.take(p as int) =~= head.take(p as int));
    if p < u.len() {
        let w = u.skip(p as int + 1);
        lemma_lines_split(w, v);
        assert(all.skip(p as int + 1) =~= w + seq!['\n'] + v);
        assert(head.skip(p as int + 1) =~= w + seq!['\n']);
    } else {
        assert(all.skip(p as int + 1) =~= v);
        assert(head.skip(p as int + 1) =~= Seq::empty());
        assert(lines(head.skip(p as int + 1)) =~= Seq::empty());
    }
    assert(lines(all) =~= lines(head) + lines(v));
}

/// A line feed behind a text that does not end in one only takes the carriage return off
/// its last line.
proof fn lemma_lines_ended(u: Seq<char>)
    requires
        u.len() > 0,
        u.last() != '\n',
    ensures
        lines(u).len() > 0,
        lines(u + seq!['\n']) == lines(u).drop_last().push(strip_cr(lines(u).last())),
    decreases u.len(),
{
    let head = u + seq!['\n'];
    let p = char_pos(u, '\n');
    lemma_char_pos(u, '\n');
    assert(head[u.len() as int] == '\n');
    assert forall|k: int| 0 <= k < u.len() implies head[k] == u[k] by {}
    lemma_char_pos_is(head, '\n', p);
    if p < u.len() {
        let w = u.skip(p as int + 1);
        assert(p < u.len() - 1);
        assert(w.last() == u.last());
        lemma_lines_ended(w);
        assert(head.skip(p as int + 1) =~= w + seq!['\n']);
        assert(head.take(p as int) =~= u.take(p as int));
        assert(lines(u).last() == lines(w).last());
        assert(lines(u).drop_last() =~= seq![strip_cr(u.take(p as int))] + lines(w).drop_last());
    } else {
        assert(head.take(p as int) =~= u);
        assert(head.skip(p as int + 1) =~= Seq::empty());
        assert(lines(head.skip(p as int + 1)) =~= Seq::empty());
        assert(lines(u) =~= seq![u]);
    }
    assert(lines(head) =~= lines(u).drop_last().push(strip_cr(lines(u).last())));
}

proof fn lemma_space_is_blank(s: Seq<char>)
    requires
        forall|k: int| 0 <= k < s.len() ==> is_space(#[trigger] s[k]),
    ensures
        trim(s).len() == 0,
    decreases s.len(),
{
    if s.len() > 0 {
        let r = s.drop_first();
        assert forall|k: int| 0 <= k < r.len() implies is_space(#[trigger] r[k]) by {
            assert(r[k] == s[k + 1]);
        }
        lemma_space_is_blank(r);
        assert(is_space(s[0]));
        assert(trim_start(s) == trim_start(r));
    }
}

proof fn lemma_space_lines(s: Seq<char>, i: int)
    requires
        forall|k: int| 0 <= k < s.len() ==> is_space(#[trigger] s[k]),
        0 <= i < lines(s).len(),
    ensures
        trim(lines(s)[i]).len() == 0,
    decreases s.len(),
{
    let p = char_pos(s, '\n');
    lemma_char_pos(s, '\n');
    if p >= s.len() {
        lemma_space_is_blank(s);
    } else if i == 0 {
        let first = strip_cr(s.take(p as int));
        assert forall|k: int| 0 <= k < first.len() implies is_space(#[trigger] first[k]) by {
            assert(first[k] == s[k]);
        }
        lemma_space_is_blank(first);
    } else {
        let rest = s.skip(p as int + 1);
        assert forall|k: int| 0 <= k < rest.len() implies is_space(#[trigger] rest[k]) by {
            assert(rest[k] == s[p as int + 1 + k]);
        }
        lemma_space_lines(rest, i - 1);
    }
}

/// Without its line feeds at the end a text does not end in one.
proof fn lemma_ends_otherwise(s: Seq<char>)
    ensures
        trim_end_char(s, '\n').len() > 0 ==> trim_end_char(s, '\n').last() != '\n',
    decreases s.len(),
{
    if s.len() > 0 && s.last() == '\n' {
        lemma_ends_otherwise(s.drop_last());
    }
}

/// The last line of a text that does not end in a line feed ends as the text does.
proof fn lemma_last_line(s: Seq<char>)
    requires
        s.len() > 0,
        s.last() != '\n',
    ensures
        lines(s).len() > 0,
        lines(s).last().len() > 0,
        lines(s).last().last() == s.last(),
    decreases s.len(),
{
    let p = char_pos(s, '\n');
    lemma_char_pos(s, '\n');
    if p < s.len() {
        let w = s.skip(p as int + 1);
        assert(p < s.len() - 1);
        assert(w.last() == s.last());
        lemma_last_line(w);
        assert(lines(s).last() == lines(w).last());
    }
}

/// The lines of an ignore file are kept: the completed file begins with them, in order,
/// up to one from which on there are only blank ones.
pub proof fn law_completing_keeps_lines(content: Seq<char>)
    requires
        content.len() == 0 || content.last() != '\r' || trim(lines(content).last()).len() == 0,
    ensures
        exists|n: int|
            0 <= n <= lines(content).len() && lines(content).take(n) == #[trigger] lines(
                completed(content),
            ).take(n) && forall|i: int|
                n <= i < lines(content).len() ==> trim(#[trigger] lines(content)[i]).len() == 0,
{
    let new = lines(completed(content));
    let before = lines(content);
    if trim(content).len() == 0 {
        assert forall|k: int| 0 <= k < content.len() implies is_space(#[trigger] content[k]) by {
            lemma_blank(content, k);
        }
        assert forall|i: int| 0 <= i < before.len() implies trim(#[trigger] before[i]).len()
            == 0 by {
            lemma_space_lines(content, i);
        }
        assert(before.take(0) =~= new.take(0));
    } else {
        let t = trim_end_char(content, '\n');
        let feed = seq!['\n'];
        lemma_trim_end_char(content, '\n');
        lemma_ends_otherwise(content);
        reveal_strlit("\n");
        assert("\n"@ =~= feed);
        let rest = GITIGNORE_HEADER@ + "\n"@ + join(missing_entries(content), "\n"@) + "\n"@;
        assert(completed(content) =~= t + feed + rest);
        lemma_lines_split(t, rest);
        let kept = lines(t + feed);
        if t.len() < content.len() {
            let tail = content.skip(t.len() as int + 1);
            assert(content =~= t + feed + tail);
            lemma_lines_split(t, tail);
            let n = kept.len() as int;
            assert(before.take(n) =~= kept);
            assert(new.take(n) =~= kept);
            assert forall|k: int| 0 <= k < tail.len() implies is_space(#[trigger] tail[k]) by {
                assert(tail[k] == content[t.len() as int + 1 + k]);
            }
            assert forall|i: int| n <= i < before.len() implies trim(#[trigger] before[i]).len()
                == 0 by {
                lemma_space_lines(tail, i - n);
            }
        } else {
            assert(t =~= content);
            if content.len() == 0 {
                lemma_space_is_blank(content);
            }
            lemma_lines_ended(content);
            let last = before.last();
            if last == strip_cr(last) {
                let n = before.len() as int;
                assert(kept =~= before);
                assert(before.take(n) =~= new.take(n));
            } else {
                let n = before.len() - 1;
                assert(before.take(n) =~= new.take(n));
                lemma_last_line(content);
            }
        }
    }
}

/// Whatever an ignore file holds, once completed it has a line for each of the three files of the
/// relay.
pub proof fn law_completed_files_ignore_the_relay(content: Seq<char>)
    ensures
        lines(completed(content)).contains("relay.json"@),
        lines(completed(content)).contains("RESUME.md"@),
        lines(completed(content)).contains("next_step.md"@),
{
    law_completing_is_idempotent(content);
    law_missing_entries(completed(content));
    let m = missing_entries(completed(content));
    let f = |e: Seq<char>| !lines(completed(content)).contains(e);
    let entries = seq!["relay.json"@, "RESUME.md"@, "next_step.md"@];
    crate::text::lemma_filter(entries, f);
    assert forall|i: int| 0 <= i < 3 implies !f(#[trigger] entries[i]) by {
        if f(entries[i]) {
            assert(m.contains(entries[i]));
        }
    }
    assert(!f(entries[0]) && !f(entries[1]) && !f(entries[2]));
}

/// What an ignore file lacks are those of the three files of the relay that are no line of it,
/// in this order.
pub proof fn law_missing_entries(content: Seq<char>)
    ensures
        missing_entries(content) == seq!["relay.json"@, "RESUME.md"@, "next_step.md"@].filter(
            |e: Seq<char>| !lines(content).contains(e),
        ),
{
    lemma_missing_is(seq!["relay.json"@, "RESUME.md"@, "next_step.md"@], content);
}

proof fn lemma_missing_is(entries: Seq<Seq<char>>, content: Seq<char>)
    ensures
        missing_of(entries, content) == entries.filter(
            |e: Seq<char>| !lines(content).contains(e),
        ),
    decreases entries.len(),
{
    reveal(Seq::filter);
    let f = |e: Seq<char>| !lines(content).contains(e);
    if entries.len() > 0 {
        lemma_missing_is(entries.drop_last(), content);
    } else {
        assert(missing_of(entries, content) =~= entries.filter(f));
    }
}

proof fn lemma_lines_of_joined(v: Seq<Seq<char>>)
    requires
        v.len() > 0,
        forall|i: int|
            0 <= i < v.len() ==> !(#[trigger] v[i]).contains('\n') && (v[i].len() == 0
                || v[i].last() != '\r'),
    ensures
        lines(join(v, seq!['\n']) + seq!['\n']) == v,
    decreases v.len(),
{
    let sep = seq!['\n'];
    let e = Seq::<char>::empty();
    let a = v[0];
    let rest = v.drop_first();
    crate::text::law_lines(a, e);
    assert(a + sep + e =~= a + sep);
    if rest.len() == 0 {
        assert(v =~= seq![a]);
        assert(seq![a] + lines(e) =~= v);
    } else {
        assert(v =~= seq![a] + rest);
        assert forall|i: int| 0 <= i < rest.len() implies !(#[trigger] rest[i]).contains('\n') && (
        rest[i].len() == 0 || rest[i].last() != '\r') by {
            assert(rest[i] == v[i + 1]);
        }
        lemma_lines_of_joined(rest);
        crate::text::lemma_join_front(a, rest, sep);
        let tail = join(rest, sep) + sep;
        crate::text::law_lines(a, tail);
        assert(join(v, sep) + sep =~= a + sep + tail);
    }
}

/// What is added to an ignore file stands behind all that it held, on lines of its own: the header,
/// and then each entry that was missing, in order. An empty file becomes just these lines.
pub proof fn law_what_completing_adds(content: Seq<char>)
    requires
        missing_entries(content).len() > 0,
    ensures
        content.len() == 0 ==> lines(completed(content)) == seq!["# Code Relay (local state)"@]
            + missing_entries(content),
        trim(content).len() > 0 ==> lines(completed(content)) == lines(
            trim_end_char(content, '\n') + seq!['\n'],
        ) + (seq!["# Code Relay (local state)"@] + missing_entries(content)),
{
    let h = GITIGNORE_HEADER@;
    let m = missing_entries(content);
    let nl = seq!['\n'];
    reveal_strlit("\n");
    assert("\n"@ =~= nl);
    reveal_strlit("# Code Relay (local state)");
    assert(!h.contains('\n')) by {
        assert forall|i: int| 0 <= i < h.len() implies h[i] != '\n' by {}
    }
    let f = |e: Seq<char>| !lines(content).contains(e);
    let entries = seq!["relay.json"@, "RESUME.md"@, "next_step.md"@];
    law_missing_entries(content);
    assert forall|i: int| 0 <= i < m.len() implies !(#[trigger] m[i]).contains('\n') && (m[i].len()
        == 0 || m[i].last() != '\r') by {
        crate::text::lemma_filter_keeps(entries, f, i);
        let k = choose|k: int| 0 <= k < entries.len() && #[trigger] entries[k] == m[i];
        reveal_strlit("relay.json");
        reveal_strlit("RESUME.md");
        reveal_strlit("next_step.md");
        assert(k == 0 || k == 1 || k == 2);
    }
    lemma_lines_of_joined(m);
    let tail = join(m, nl) + nl;
    crate::text::law_lines(h, tail);
    if content.len() == 0 {
        crate::text::law_trimmed(content);
        assert(crate::text::is_blank(content));
        assert(trim_end_char(content, '\n') =~= Seq::<char>::empty());
        assert(completed(content) =~= h + nl + tail);
    }
    if trim(content).len() > 0 {
        let t = trim_end_char(content, '\n');
        let r = h + nl + tail;
        assert(completed(content) =~= t + nl + r);
        lemma_lines_split(t, r);
    }
}

}
