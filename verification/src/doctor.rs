//! Health checks of relay state files: which are clean, which are merely old, and
//! which are dirty and may be deleted.
use vstd::prelude::*;

use crate::json::{
    as_str, fields, get, get_str, items, json_parsed, lemma_array_model, lemma_object_model, parse_json, Json, JsonView,
};
use crate::order::{before, comes_before, lemma_before_irreflexive, lemma_before_total, lemma_before_transitive};
use crate::paths::{absolute, is_absolute, is_same_path, is_under, joined, join_path, same_path, under};
use crate::text::{join, join_strings, opt_text, opt_view, same, starts_with, str_starts_with, texts};

verus! {

/// How a state file is judged.
#[derive(Debug, Clone, Copy, PartialEq, Eq, Structural)]
pub enum Verdict {
    Clean,
    Info,
    Dirty,
}

/// The judgement of one state file, with every reason for it.
#[derive(Debug, Clone, PartialEq, Eq)]
pub struct Finding {
    pub path: String,
    pub verdict: Verdict,
    pub reasons: Vec<String>,
}

/// The judgement of one directory: its state file, and the mirror beside it.
#[derive(Debug, Clone, PartialEq, Eq)]
pub struct Report {
    pub finding: Finding,
    pub mirror_dir: Option<String>,
}

/// A repository as a state file names it.
pub struct RepoEntry {
    pub key: String,
    pub path: String,
}

/// Model of [`RepoEntry`].
#[verifier::ext_equal]
pub struct EntryView {
    pub key: Seq<char>,
    pub path: Seq<char>,
}

impl View for RepoEntry {
    type V = EntryView;

    open spec fn view(&self) -> EntryView {
        EntryView { key: self.key@, path: self.path@ }
    }
}

/// The models of some entries, in order.
pub open spec fn entry_views(v: Seq<RepoEntry>) -> Seq<EntryView> {
    v.map_values(|e: RepoEntry| e@)
}

/// The entry of a field of `repos`: its path, or its name where it has none.
pub open spec fn entry_of(f: (Seq<char>, JsonView)) -> EntryView {
    EntryView {
        key: f.0,
        path: match get_str(f.1, "path"@) {
            Some(p) => p,
            None => f.0,
        },
    }
}

/// The repositories that a state file names; nothing where `repos` is no object.
pub open spec fn entries_of(v: JsonView) -> Option<Seq<EntryView>> {
    match get(v, "repos"@) {
        Some(JsonView::Object(fs)) => Some(
            fs.map_values(|f: (Seq<char>, JsonView)| entry_of(f)),
        ),
        _ => None,
    }
}

/// The repositories that a state file names.
pub fn repo_entries(v: &Json) -> (r: Option<Vec<RepoEntry>>)
    ensures
        match r {
            Some(es) => entries_of(v@) == Some(entry_views(es@)),
            None => entries_of(v@) is None,
        },
{
    broadcast use lemma_object_model;

    let repos = match v.get("repos") {
        Some(Json::Object(repos)) => repos,
        _ => return None,
    };
    let ghost f = |f: (Seq<char>, JsonView)| entry_of(f);
    let ghost all = fields(repos@).map_values(f);
    let mut es: Vec<RepoEntry> = Vec::new();
    let mut i: usize = 0;
    assert(entry_views(es@) =~= all.take(0));
    while i < repos.len()
        invariant
            i <= repos.len(),
            f == (|f: (Seq<char>, JsonView)| entry_of(f)),
            all == fields(repos@).map_values(f),
            entry_views(es@) == all.take(i as int),
        decreases repos.len() - i,
    {
        let ghost before = es@;
        let path = match repos[i].1.get_str("path") {
            Some(p) => p.to_owned(),
            None => repos[i].0.clone(),
        };
        let e = RepoEntry { key: repos[i].0.clone(), path };
        es.push(e);
        proof {
            assert(fields(repos@)[i as int] == (repos@[i as int].0@, repos@[i as int].1@));
            assert(e@ == all[i as int]);
            assert(entry_views(es@) =~= entry_views(before).push(e@));
            assert(all.take(i + 1) =~= all.take(i as int).push(all[i as int]));
        }
        i += 1;
    }
    assert(all.take(i as int) =~= all);
    Some(es)
}

/// What the file system says of an entry: whether its path is a directory and
/// what that is canonically, and whether the root has a directory of its name.
pub struct EntryProbe {
    pub is_dir: bool,
    pub canonical: String,
    pub key_is_dir: bool,
}

/// The directory of a state file: its name and its canonical path.
pub struct RootFacts {
    pub name: String,
    pub canonical: String,
}

/// The text about a foreign entry.
pub open spec fn foreign_text(e: EntryView, why: Seq<char>) -> Seq<char> {
    "foreign repo \""@ + e.key + "\" (path="@ + e.path + ", "@ + why + ")"@
}

/// Why an entry is foreign, if it is: its directory does not exist, unless it is
/// the old way to name the root itself; it lies outside the root; or nothing in
/// the root has its name.
pub open spec fn foreign_reason(root: RootFacts, e: EntryView, p: EntryProbe) -> Option<Seq<char>> {
    if !p.is_dir {
        if e.key == root.name@ && !is_absolute(e.path) && e.path == e.key {
            None
        } else {
            Some(foreign_text(e, "no such dir"@))
        }
    } else if is_absolute(e.path) && !is_under(p.canonical@, root.canonical@) {
        Some(foreign_text(e, "outside relay root"@))
    } else if e.key != root.name@ && !p.key_is_dir {
        Some(foreign_text(e, "no such dir"@))
    } else {
        None
    }
}

/// The reasons of the first `k` entries, in order.
pub open spec fn foreign_upto(
    root: RootFacts,
    es: Seq<EntryView>,
    ps: Seq<EntryProbe>,
    k: int,
) -> Seq<Seq<char>>
    decreases k,
{
    if k <= 0 {
        Seq::empty()
    } else {
        let r = foreign_upto(root, es, ps, k - 1);
        match foreign_reason(root, es[k - 1], ps[k - 1]) {
            Some(t) => r.push(t),
            None => r,
        }
    }
}

/// The reasons about foreign entries.
pub open spec fn foreign_of(root: RootFacts, v: JsonView, ps: Seq<EntryProbe>) -> Seq<Seq<char>> {
    match entries_of(v) {
        None => seq!["repos field malformed (not an object)"@],
        Some(es) => foreign_upto(root, es, ps, es.len() as int),
    }
}

fn foreign_line(e: &RepoEntry, why: &str) -> (r: String)
    ensures
        r@ == foreign_text(e@, why@),
{
    let mut out = "foreign repo \"".to_owned();
    out.append(e.key.as_str());
    out.append("\" (path=");
    out.append(e.path.as_str());
    out.append(", ");
    out.append(why);
    out.append(")");
    out
}

/// The reasons about foreign entries, given what the file system says of each.
pub fn foreign_reasons(root: &RootFacts, v: &Json, probes: &[EntryProbe]) -> (r: Vec<String>)
    requires
        entries_of(v@) matches Some(es) ==> probes@.len() == es.len(),
    ensures
        texts(r@) == foreign_of(*root, v@, probes@),
{
    let mut out: Vec<String> = Vec::new();
    let es = match repo_entries(v) {
        None => {
            out.push("repos field malformed (not an object)".to_owned());
            assert(texts(out@) =~= seq!["repos field malformed (not an object)"@]);
            return out;
        },
        Some(es) => es,
    };
    let ghost ev = entry_views(es@);
    assert(ev.len() == es@.len());
    let mut i: usize = 0;
    assert(texts(out@) =~= foreign_upto(*root, ev, probes@, 0));
    while i < es.len()
        invariant
            i <= es.len(),
            ev == entry_views(es@),
            probes@.len() == es@.len(),
            texts(out@) == foreign_upto(*root, ev, probes@, i as int),
        decreases es.len() - i,
    {
        let e = &es[i];
        let p = &probes[i];
        let ghost before = out@;
        assert(ev[i as int] == e@);
        let key = e.key.as_str();
        let abs = absolute(e.path.as_str());
        if !p.is_dir {
            if !(same(key, root.name.as_str()) && !abs && same(e.path.as_str(), key)) {
                let line = foreign_line(e, "no such dir");
                out.push(line);
                assert(texts(out@) =~= texts(before).push(line@));
            }
        } else if abs && !under(p.canonical.as_str(), root.canonical.as_str()) {
            let line = foreign_line(e, "outside relay root");
            out.push(line);
            assert(texts(out@) =~= texts(before).push(line@));
        } else if !same(key, root.name.as_str()) && !p.key_is_dir {
            let line = foreign_line(e, "no such dir");
            out.push(line);
            assert(texts(out@) =~= texts(before).push(line@));
        }
        i += 1;
    }
    out
}

/// Where a state file lies: its directory, the home directory where it is known,
/// and the top of the git repository around it where there is one.
pub struct Place {
    pub dir: String,
    pub home: Option<String>,
    pub git_toplevel: Option<String>,
}

/// The reasons about a place: directly under the home directory, or, in a scan,
/// inside a git repository but not at its top.
pub open spec fn stray_of(p: Place, scan_mode: bool) -> Seq<Seq<char>> {
    let a = if p.home is Some && is_same_path(p.home->0@, p.dir@) {
        seq![
            "stray location: directly under $HOME (shared by every session started there)"@,
        ]
    } else {
        Seq::empty()
    };
    if scan_mode && p.git_toplevel is Some && !is_same_path(p.git_toplevel->0@, p.dir@) {
        a.push(
            "stray location: inside git repo "@ + p.git_toplevel->0@
                + " but not its toplevel (orphan state file)"@,
        )
    } else {
        a
    }
}

/// The reasons about a place.
pub fn stray_reasons(place: &Place, scan_mode: bool) -> (r: Vec<String>)
    ensures
        texts(r@) == stray_of(*place, scan_mode),
{
    let mut out: Vec<String> = Vec::new();
    assert(texts(out@) =~= Seq::<Seq<char>>::empty());
    if let Some(h) = &place.home {
        if same_path(h.as_str(), place.dir.as_str()) {
            out.push(
                "stray location: directly under $HOME (shared by every session started there)".to_owned(),
            );
            assert(texts(out@) =~= seq![
                "stray location: directly under $HOME (shared by every session started there)"@,
            ]);
        }
    }
    if scan_mode {
        if let Some(tl) = &place.git_toplevel {
            if !same_path(tl.as_str(), place.dir.as_str()) {
                let ghost before = out@;
                let mut line = "stray location: inside git repo ".to_owned();
                line.append(tl.as_str());
                line.append(" but not its toplevel (orphan state file)");
                out.push(line);
                assert(texts(out@) =~= texts(before).push(line@));
            }
        }
    }
    out
}

/// Whether the field `key` is a text that is not empty.
pub open spec fn has_text_field(v: JsonView, key: Seq<char>) -> bool {
    get_str(v, key) matches Some(t) && t.len() > 0
}

/// Whether a snapshot holds anything: an open thread or a last session.
pub open spec fn is_snapshot_used(v: JsonView) -> bool {
    ||| get(v, "open_threads"@) matches Some(JsonView::Array(a)) && a.len() > 0
    ||| has_text_field(v, "last_session"@)
}

/// The reasons that a state file is of the old global kind.
pub open spec fn legacy_of(v: JsonView) -> Seq<Seq<char>> {
    let a = if has_text_field(v, "project_context"@) {
        seq![
            "legacy global schema (project_context present) — consider relayInit to upgrade"@,
        ]
    } else {
        Seq::empty()
    };
    if get(v, "state_snapshot"@) matches Some(ss) && is_snapshot_used(ss) {
        a.push("legacy global schema (state_snapshot present) — consider relayInit to upgrade"@)
    } else {
        a
    }
}

fn text_field(v: &Json, key: &str) -> (r: bool)
    ensures
        r == has_text_field(v@, key@),
{
    match v.get_str(key) {
        Some(t) => !t.is_empty(),
        None => false,
    }
}

fn snapshot_used(v: &Json) -> (r: bool)
    ensures
        r == is_snapshot_used(v@),
{
    broadcast use lemma_array_model;

    let threads = match v.get("open_threads") {
        Some(Json::Array(a)) => {
            assert(items(a@).len() == a@.len());
            a.len() > 0
        },
        _ => false,
    };
    threads || text_field(v, "last_session")
}

/// The reasons that a state file is of the old global kind: what counts is
/// content, for a new file has the same fields, empty.
pub fn legacy_reasons(v: &Json) -> (r: Vec<String>)
    ensures
        texts(r@) == legacy_of(v@),
{
    let mut out: Vec<String> = Vec::new();
    assert(texts(out@) =~= Seq::<Seq<char>>::empty());
    if text_field(v, "project_context") {
        out.push(
            "legacy global schema (project_context present) — consider relayInit to upgrade".to_owned(),
        );
        assert(texts(out@) =~= seq![
            "legacy global schema (project_context present) — consider relayInit to upgrade"@,
        ]);
    }
    if let Some(ss) = v.get("state_snapshot") {
        if snapshot_used(ss) {
            let ghost before = out@;
            out.push(
                "legacy global schema (state_snapshot present) — consider relayInit to upgrade".to_owned(),
            );
            assert(texts(out@) =~= texts(before).push(
                "legacy global schema (state_snapshot present) — consider relayInit to upgrade"@,
            ));
        }
    }
    out
}

/// A state file as it was read: not at all, not as JSON, or as a value.
pub enum RelayRead {
    Unreadable(String),
    Unparseable(String),
    Value(Json),
}

/// Reads a state file's text, given the text or why there is none.
pub fn read_relay(text: Result<&str, &str>) -> (r: RelayRead)
    ensures
        match text {
            Err(e) => r matches RelayRead::Unreadable(m) && m@ == e@,
            Ok(t) => match json_parsed(t@) {
                Ok(v) => r matches RelayRead::Value(j) && j@ == v,
                Err(e) => r matches RelayRead::Unparseable(m) && m@ == e,
            },
        },
{
    match text {
        Err(e) => RelayRead::Unreadable(e.to_owned()),
        Ok(t) => match parse_json(t) {
            Ok(v) => RelayRead::Value(v),
            Err(e) => RelayRead::Unparseable(e),
        },
    }
}

/// The reasons that make a state file dirty.
pub open spec fn dirty_reasons(
    read: RelayRead,
    root: RootFacts,
    probes: Seq<EntryProbe>,
    place: Place,
    scan_mode: bool,
) -> Seq<Seq<char>> {
    match read {
        RelayRead::Unreadable(e) => seq!["unreadable: "@ + e@],
        RelayRead::Unparseable(e) => seq!["unparseable JSON: "@ + e@],
        RelayRead::Value(v) => foreign_of(root, v@, probes) + stray_of(place, scan_mode),
    }
}

/// The reasons that are only worth knowing.
pub open spec fn info_reasons(read: RelayRead) -> Seq<Seq<char>> {
    match read {
        RelayRead::Value(v) => legacy_of(v@),
        _ => Seq::empty(),
    }
}

/// The verdict of some reasons.
pub open spec fn verdict_of(dirty: Seq<Seq<char>>, info: Seq<Seq<char>>) -> Verdict {
    if dirty.len() > 0 {
        Verdict::Dirty
    } else if info.len() > 0 {
        Verdict::Info
    } else {
        Verdict::Clean
    }
}

fn dirty_now(path: &str, head: &str, e: &str) -> (r: Finding)
    ensures
        r.path@ == path@,
        r.verdict == Verdict::Dirty,
        texts(r.reasons@) == seq![head@ + e@],
{
    let mut line = head.to_owned();
    line.append(e);
    let mut reasons: Vec<String> = Vec::new();
    reasons.push(line);
    assert(texts(reasons@) =~= seq![head@ + e@]);
    Finding { path: path.to_owned(), verdict: Verdict::Dirty, reasons }
}

/// The judgement of a state file: all reasons, those that make it dirty first.
pub fn check_relay_file(
    path: &str,
    read: &RelayRead,
    root: &RootFacts,
    probes: &[EntryProbe],
    place: &Place,
    scan_mode: bool,
) -> (r: Finding)
    requires
        read matches RelayRead::Value(v) ==> (entries_of(v@) matches Some(es) ==> probes@.len()
            == es.len()),
    ensures
        r.path@ == path@,
        texts(r.reasons@) == dirty_reasons(*read, *root, probes@, *place, scan_mode)
            + info_reasons(*read),
        r.verdict == verdict_of(
            dirty_reasons(*read, *root, probes@, *place, scan_mode),
            info_reasons(*read),
        ),
{
    let v = match read {
        RelayRead::Unreadable(e) => {
            let f = dirty_now(path, "unreadable: ", e.as_str());
            assert(texts(f.reasons@) + Seq::<Seq<char>>::empty() =~= texts(f.reasons@));
            return f;
        },
        RelayRead::Unparseable(e) => {
            let f = dirty_now(path, "unparseable JSON: ", e.as_str());
            assert(texts(f.reasons@) + Seq::<Seq<char>>::empty() =~= texts(f.reasons@));
            return f;
        },
        RelayRead::Value(v) => v,
    };
    let mut reasons = foreign_reasons(root, v, probes);
    let ghost a = reasons@;
    let mut stray = stray_reasons(place, scan_mode);
    let ghost b = stray@;
    let mut legacy = legacy_reasons(v);
    let ghost c = legacy@;
    reasons.append(&mut stray);
    let dirty: bool = reasons.len() > 0;
    let info: bool = legacy.len() > 0;
    proof {
        assert(texts(reasons@) =~= texts(a) + texts(b));
        assert(texts(reasons@).len() == reasons@.len());
        assert(texts(c).len() == c.len());
    }
    let ghost ab = reasons@;
    reasons.append(&mut legacy);
    assert(texts(reasons@) =~= texts(ab) + texts(c));
    let verdict = if dirty {
        Verdict::Dirty
    } else if info {
        Verdict::Info
    } else {
        Verdict::Clean
    };
    Finding { path: path.to_owned(), verdict, reasons }
}

/// The report of a directory, given the judgement of its state file where it has
/// one, and whether it has a mirror.
pub fn check_dir(dir: &str, finding: Option<Finding>, has_mirror: bool) -> (r: Option<Report>)
    ensures
        match finding {
            None => r is None,
            Some(f) => r matches Some(x) && x.finding == f && opt_text(x.mirror_dir) == (
            if has_mirror {
                Some(joined(dir@, ".relay"@))
            } else {
                None
            }),
        },
{
    match finding {
        None => None,
        Some(f) => Some(
            Report {
                finding: f,
                mirror_dir: if has_mirror {
                    Some(join_path(dir, ".relay"))
                } else {
                    None
                },
            },
        ),
    }
}

/// How deep a scan goes below its root.
pub const SCAN_DEPTH: u8 = 3;

/// Whether a scan enters a directory of a name: not a hidden one, nor one of build
/// outputs or packages.
pub open spec fn is_entered(name: Seq<char>) -> bool {
    !starts_with(name, "."@) && name != "target"@ && name != "node_modules"@
}

fn entered(name: &str) -> (r: bool)
    ensures
        r == is_entered(name@),
{
    !str_starts_with(name, ".") && !same(name, "target") && !same(name, "node_modules")
}

/// An entry of a directory.
pub struct DirEntry {
    pub path: String,
    pub name: String,
    pub is_dir: bool,
}

/// The directories that a scan still has to visit, each with its depth, the last
/// of them first, and the reports so far.
pub struct Scan {
    pub stack: Vec<(String, u8)>,
    pub found: Vec<Report>,
}

/// The models of some directories to visit.
pub open spec fn stack_views(v: Seq<(String, u8)>) -> Seq<(Seq<char>, u8)> {
    v.map_values(|e: (String, u8)| (e.0@, e.1))
}

/// The entries of a directory that a scan enters, at a depth.
pub open spec fn entered_dirs(entries: Seq<DirEntry>, depth: u8) -> Seq<(Seq<char>, u8)>
    decreases entries.len(),
{
    if entries.len() == 0 {
        Seq::empty()
    } else {
        let r = entered_dirs(entries.drop_last(), depth);
        let last = entries.last();
        if last.is_dir && is_entered(last.name@) {
            r.push((last.path@, depth))
        } else {
            r
        }
    }
}

impl Scan {
    /// No directory lies deeper than a scan goes.
    pub open spec fn is_bounded(self) -> bool {
        forall|i: int| 0 <= i < self.stack@.len() ==> (#[trigger] self.stack@[i]).1 <= SCAN_DEPTH
    }

    /// A scan of a directory and what lies below.
    pub fn start(root: &str) -> (r: Scan)
        ensures
            stack_views(r.stack@) == seq![(root@, 0u8)],
            r.found@.len() == 0,
            r.is_bounded(),
    {
        let mut stack: Vec<(String, u8)> = Vec::new();
        stack.push((root.to_owned(), 0u8));
        assert(stack_views(stack@) =~= seq![(root@, 0u8)]);
        Scan { stack, found: Vec::new() }
    }

    /// The next directory to visit, with its depth.
    pub fn next_dir(&mut self) -> (r: Option<(String, u8)>)
        requires
            old(self).is_bounded(),
        ensures
            final(self).is_bounded(),
            final(self).found == old(self).found,
            match r {
                None => old(self).stack@.len() == 0 && final(self).stack@ == old(self).stack@,
                Some(d) => old(self).stack@.len() > 0 && d == old(self).stack@.last()
                    && final(self).stack@ == old(self).stack@.drop_last() && d.1 <= SCAN_DEPTH,
            },
    {
        let ghost before = self.stack@;
        let r = self.stack.pop();
        proof {
            if before.len() > 0 {
                assert(before[before.len() - 1].1 <= SCAN_DEPTH);
                assert forall|i: int| 0 <= i < self.stack@.len() implies (
                #[trigger] self.stack@[i]).1 <= SCAN_DEPTH by {
                    assert(self.stack@[i] == before[i]);
                }
            }
        }
        r
    }

    /// Records a visit: the report of the directory, where it has one, and, unless
    /// it lies as deep as a scan goes, the directories in it.
    pub fn visit(&mut self, depth: u8, report: Option<Report>, entries: &[DirEntry])
        requires
            old(self).is_bounded(),
        ensures
            final(self).is_bounded(),
            final(self).found@ == (match report {
                Some(r) => old(self).found@.push(r),
                None => old(self).found@,
            }),
            stack_views(final(self).stack@) == stack_views(old(self).stack@) + (if depth
                < SCAN_DEPTH {
                entered_dirs(entries@, (depth + 1) as u8)
            } else {
                Seq::empty()
            }),
    {
        if let Some(r) = report {
            self.found.push(r);
        }
        let ghost start = stack_views(self.stack@);
        if depth >= SCAN_DEPTH {
            assert(start + Seq::empty() =~= start);
            return;
        }
        let ghost found = self.found@;
        let below: u8 = depth + 1;
        let mut i: usize = 0;
        assert(entries@.take(0).len() == 0);
        assert(stack_views(self.stack@) =~= start + entered_dirs(entries@.take(0), below));
        while i < entries.len()
            invariant
                i <= entries.len(),
                below <= SCAN_DEPTH,
                self.is_bounded(),
                self.found@ == found,
                stack_views(self.stack@) == start + entered_dirs(entries@.take(i as int), below),
            decreases entries.len() - i,
        {
            let ghost before = self.stack@;
            proof {
                assert(entries@.take(i + 1).drop_last() =~= entries@.take(i as int));
                assert(entries@.take(i + 1).last() == entries@[i as int]);
            }
            if entries[i].is_dir && entered(entries[i].name.as_str()) {
                self.stack.push((entries[i].path.clone(), below));
                proof {
                    assert(stack_views(self.stack@) =~= stack_views(before).push(
                        (entries@[i as int].path@, below),
                    ));
                    assert(start + entered_dirs(entries@.take(i + 1), below) =~= (start
                        + entered_dirs(entries@.take(i as int), below)).push(
                        (entries@[i as int].path@, below),
                    ));
                }
            }
            i += 1;
        }
        assert(entries@.take(i as int) =~= entries@);
    }
}

/// A directory, or another entry of one, with all that lies below it.
#[verifier::ext_equal]
pub struct DirTree {
    pub path: Seq<char>,
    pub name: Seq<char>,
    pub is_dir: bool,
    pub children: Seq<DirTree>,
}

/// Whether some entries are a listing of the children of a directory, in order.
pub open spec fn lists(entries: Seq<DirEntry>, children: Seq<DirTree>) -> bool {
    entries.len() == children.len() && forall|i: int|
        #![trigger entries[i]]
        0 <= i < entries.len() ==> entries[i].path@ == children[i].path && entries[i].name@
            == children[i].name && entries[i].is_dir == children[i].is_dir
}

/// Whether a scan goes on into an entry.
pub open spec fn is_entered_tree(t: DirTree) -> bool {
    t.is_dir && is_entered(t.name)
}

/// The children that a scan enters, at a depth.
pub open spec fn entered_children(children: Seq<DirTree>, depth: u8) -> Seq<(DirTree, u8)>
    decreases children.len(),
{
    if children.len() == 0 {
        Seq::empty()
    } else {
        let r = entered_children(children.drop_last(), depth);
        if is_entered_tree(children.last()) {
            r.push((children.last(), depth))
        } else {
            r
        }
    }
}

/// What a visit of a directory puts on the stack.
pub open spec fn below(d: (DirTree, u8)) -> Seq<(DirTree, u8)> {
    if d.1 < SCAN_DEPTH {
        entered_children(d.0.children, (d.1 + 1) as u8)
    } else {
        Seq::empty()
    }
}

/// The stack of a scan that still has to visit some directories.
pub open spec fn tree_stack(ts: Seq<(DirTree, u8)>) -> Seq<(Seq<char>, u8)> {
    ts.map_values(|d: (DirTree, u8)| (d.0.path, d.1))
}

/// The directories that a scan visits from one at a depth on, in order.
pub open spec fn visited_from(t: DirTree, depth: u8) -> Seq<Seq<char>>
    decreases SCAN_DEPTH + 1 - depth, 0int,
{
    if depth < SCAN_DEPTH {
        seq![t.path] + visited_children(t.children, (depth + 1) as u8)
    } else {
        seq![t.path]
    }
}

/// The directories that a scan visits from some children at a depth on, in order.
pub open spec fn visited_children(children: Seq<DirTree>, depth: u8) -> Seq<Seq<char>>
    decreases SCAN_DEPTH + 1 - depth, children.len() as int,
{
    if children.len() == 0 {
        Seq::empty()
    } else {
        let r = visited_children(children.drop_last(), depth);
        if is_entered_tree(children.last()) {
            visited_from(children.last(), depth) + r
        } else {
            r
        }
    }
}

/// The directories that a scan with a stack still visits, in order.
pub open spec fn remaining(ts: Seq<(DirTree, u8)>) -> Seq<Seq<char>>
    decreases ts.len(),
{
    if ts.len() == 0 {
        Seq::empty()
    } else {
        visited_from(ts.last().0, ts.last().1) + remaining(ts.drop_last())
    }
}

/// The reports of the directories that have one, in order.
pub open spec fn reports_of(
    paths: Seq<Seq<char>>,
    report_at: spec_fn(Seq<char>) -> Option<Report>,
) -> Seq<Report>
    decreases paths.len(),
{
    if paths.len() == 0 {
        Seq::empty()
    } else {
        recorded(reports_of(paths.drop_last(), report_at), report_at(paths.last()))
    }
}

/// The reports after a visit.
pub open spec fn recorded(found: Seq<Report>, report: Option<Report>) -> Seq<Report> {
    match report {
        Some(r) => found.push(r),
        None => found,
    }
}

/// Whether a route of child indices leads down from a directory through entries that a
/// scan enters.
pub open spec fn leads(t: DirTree, route: Seq<int>) -> bool
    decreases route.len(),
{
    route.len() == 0 || {
        &&& 0 <= route[0] < t.children.len()
        &&& is_entered_tree(t.children[route[0]])
        &&& leads(t.children[route[0]], route.drop_first())
    }
}

/// The entry at the end of a route.
pub open spec fn tree_at(t: DirTree, route: Seq<int>) -> DirTree
    decreases route.len(),
{
    if route.len() == 0 {
        t
    } else {
        tree_at(t.children[route[0]], route.drop_first())
    }
}

/// Whether a route from a directory at a depth leads to one at a path, no deeper than a
/// scan goes.
pub open spec fn reaches(t: DirTree, route: Seq<int>, depth: u8, path: Seq<char>) -> bool {
    depth + route.len() <= SCAN_DEPTH && leads(t, route) && tree_at(t, route).path == path
}

proof fn lemma_remaining_below(ts: Seq<(DirTree, u8)>, children: Seq<DirTree>, depth: u8)
    ensures
        remaining(ts + entered_children(children, depth)) == visited_children(children, depth)
            + remaining(ts),
    decreases children.len(),
{
    if children.len() == 0 {
        assert(ts + entered_children(children, depth) =~= ts);
    } else {
        let init = children.drop_last();
        lemma_remaining_below(ts, init, depth);
        if is_entered_tree(children.last()) {
            let s = ts + entered_children(children, depth);
            assert(s.last() == (children.last(), depth));
            assert(s.drop_last() =~= ts + entered_children(init, depth));
            assert(remaining(s) =~= visited_children(children, depth) + remaining(ts));
        }
    }
}

proof fn lemma_listing(entries: Seq<DirEntry>, children: Seq<DirTree>, depth: u8)
    requires
        lists(entries, children),
    ensures
        entered_dirs(entries, depth) == tree_stack(entered_children(children, depth)),
    decreases entries.len(),
{
    if entries.len() > 0 {
        let e = entries.drop_last();
        let c = children.drop_last();
        assert forall|i: int| #![trigger e[i]] 0 <= i < e.len() implies e[i].path@ == c[i].path
            && e[i].name@ == c[i].name && e[i].is_dir == c[i].is_dir by {
            assert(entries[i] == e[i]);
        }
        lemma_listing(e, c, depth);
        assert(entries[entries.len() - 1].path@ == children.last().path);
    }
    assert(entered_dirs(entries, depth) =~= tree_stack(entered_children(children, depth)));
}

proof fn lemma_reports_concat(
    a: Seq<Seq<char>>,
    b: Seq<Seq<char>>,
    report_at: spec_fn(Seq<char>) -> Option<Report>,
)
    ensures
        reports_of(a + b, report_at) == reports_of(a, report_at) + reports_of(b, report_at),
    decreases b.len(),
{
    if b.len() == 0 {
        assert(a + b =~= a);
    } else {
        lemma_reports_concat(a, b.drop_last(), report_at);
        assert((a + b).drop_last() =~= a + b.drop_last());
        assert((a + b).last() == b.last());
    }
    assert(reports_of(a + b, report_at) =~= reports_of(a, report_at) + reports_of(b, report_at));
}

/// One visit of a scan: what is found and what the stack still leads to stay the same
/// together, and the stack after the visit is the one that [`Scan::visit`] leaves for a
/// listing of the directory. So a scan that has emptied its stack has found the reports
/// of all that its stack led to at first.
pub proof fn law_scan_step(
    ts: Seq<(DirTree, u8)>,
    entries: Seq<DirEntry>,
    found: Seq<Report>,
    report_at: spec_fn(Seq<char>) -> Option<Report>,
)
    requires
        ts.len() > 0,
        lists(entries, ts.last().0.children),
    ensures
        tree_stack(ts.drop_last() + below(ts.last())) == tree_stack(ts).drop_last() + (if ts.last().1
            < SCAN_DEPTH {
            entered_dirs(entries, (ts.last().1 + 1) as u8)
        } else {
            Seq::empty()
        }),
        found + reports_of(remaining(ts), report_at) == recorded(
            found,
            report_at(ts.last().0.path),
        ) + reports_of(remaining(ts.drop_last() + below(ts.last())), report_at),
{
    let d = ts.last();
    let rest = ts.drop_last();
    let below_views = if d.1 < SCAN_DEPTH {
        entered_dirs(entries, (d.1 + 1) as u8)
    } else {
        Seq::empty()
    };
    let next = remaining(rest + below(d));
    if d.1 < SCAN_DEPTH {
        lemma_listing(entries, d.0.children, (d.1 + 1) as u8);
        lemma_remaining_below(rest, d.0.children, (d.1 + 1) as u8);
    } else {
        assert(rest + below(d) =~= rest);
    }
    assert(tree_stack(below(d)) =~= below_views);
    assert(tree_stack(rest + below(d)) =~= tree_stack(ts).drop_last() + below_views);
    assert(remaining(ts) =~= seq![d.0.path] + next);
    lemma_reports_concat(seq![d.0.path], next, report_at);
    assert(seq![d.0.path].drop_last() =~= Seq::empty());
    assert(seq![d.0.path].last() == d.0.path);
    assert(reports_of(seq![d.0.path].drop_last(), report_at) =~= Seq::empty());
    assert(found + reports_of(remaining(ts), report_at) =~= recorded(found, report_at(d.0.path))
        + reports_of(next, report_at));
}

proof fn lemma_in_concat(a: Seq<Seq<char>>, b: Seq<Seq<char>>, p: Seq<char>)
    ensures
        (a + b).contains(p) <==> a.contains(p) || b.contains(p),
{
    if a.contains(p) {
        let k = choose|k: int| 0 <= k < a.len() && a[k] == p;
        assert((a + b)[k] == p);
    }
    if b.contains(p) {
        let k = choose|k: int| 0 <= k < b.len() && b[k] == p;
        assert((a + b)[a.len() + k] == p);
    }
    if (a + b).contains(p) {
        let k = choose|k: int| 0 <= k < (a + b).len() && (a + b)[k] == p;
        if k < a.len() {
            assert(a[k] == p);
        } else {
            assert(b[k - a.len()] == p);
        }
    }
}

proof fn lemma_visited_from(t: DirTree, depth: u8, p: Seq<char>)
    requires
        depth <= SCAN_DEPTH,
    ensures
        visited_from(t, depth).contains(p) <==> exists|route: Seq<int>|
            reaches(t, route, depth, p),
    decreases SCAN_DEPTH + 1 - depth, 0int,
{
    let first = seq![t.path];
    let none = Seq::<int>::empty();
    if t.path == p {
        assert(first[0] == p);
        assert(reaches(t, none, depth, p));
    } else {
        assert(!first.contains(p));
    }
    if depth < SCAN_DEPTH {
        let next = (depth + 1) as u8;
        lemma_visited_children(t.children, next, p);
        lemma_in_concat(first, visited_children(t.children, next), p);
        if visited_children(t.children, next).contains(p) {
            let (i, route) = choose|i: int, route: Seq<int>|
                0 <= i < t.children.len() && is_entered_tree(t.children[i]) && #[trigger] reaches(
                    t.children[i],
                    route,
                    next,
                    p,
                );
            let whole = seq![i] + route;
            assert(whole.drop_first() =~= route);
            assert(reaches(t, whole, depth, p));
        }
    }
    if exists|route: Seq<int>| reaches(t, route, depth, p) {
        let route = choose|route: Seq<int>| reaches(t, route, depth, p);
        if route.len() > 0 {
            assert(depth < SCAN_DEPTH);
            assert(reaches(t.children[route[0]], route.drop_first(), (depth + 1) as u8, p));
        }
    }
}

proof fn lemma_visited_children(children: Seq<DirTree>, depth: u8, p: Seq<char>)
    requires
        depth <= SCAN_DEPTH,
    ensures
        visited_children(children, depth).contains(p) <==> exists|i: int, route: Seq<int>|
            0 <= i < children.len() && is_entered_tree(children[i]) && #[trigger] reaches(
                children[i],
                route,
                depth,
                p,
            ),
    decreases SCAN_DEPTH + 1 - depth, children.len() as int,
{
    if children.len() > 0 {
        let init = children.drop_last();
        let last = children.last();
        lemma_visited_children(init, depth, p);
        if is_entered_tree(last) {
            lemma_visited_from(last, depth, p);
            lemma_in_concat(visited_from(last, depth), visited_children(init, depth), p);
            if visited_from(last, depth).contains(p) {
                let route = choose|route: Seq<int>| reaches(last, route, depth, p);
                assert(reaches(children[children.len() - 1], route, depth, p));
            }
        }
        if visited_children(init, depth).contains(p) {
            let (i, route) = choose|i: int, route: Seq<int>|
                0 <= i < init.len() && is_entered_tree(init[i]) && #[trigger] reaches(
                    init[i],
                    route,
                    depth,
                    p,
                );
            assert(reaches(children[i], route, depth, p));
        }
        if exists|i: int, route: Seq<int>|
            0 <= i < children.len() && is_entered_tree(children[i]) && #[trigger] reaches(
                children[i],
                route,
                depth,
                p,
            ) {
            let (i, route) = choose|i: int, route: Seq<int>|
                0 <= i < children.len() && is_entered_tree(children[i]) && #[trigger] reaches(
                    children[i],
                    route,
                    depth,
                    p,
                );
            if i < init.len() {
                assert(reaches(init[i], route, depth, p));
            } else {
                assert(reaches(last, route, depth, p));
            }
        }
    }
}

proof fn lemma_in_reports(
    paths: Seq<Seq<char>>,
    report_at: spec_fn(Seq<char>) -> Option<Report>,
    r: Report,
)
    ensures
        reports_of(paths, report_at).contains(r) <==> exists|p: Seq<char>|
            #[trigger] paths.contains(p) && report_at(p) == Some(r),
    decreases paths.len(),
{
    if paths.len() > 0 {
        let init = paths.drop_last();
        let before = reports_of(init, report_at);
        let all = reports_of(paths, report_at);
        lemma_in_reports(init, report_at, r);
        assert(paths[paths.len() - 1] == paths.last());
        assert(paths.contains(paths.last()));
        if before.contains(r) {
            let k = choose|k: int| 0 <= k < before.len() && before[k] == r;
            assert(all[k] == r);
            let p = choose|p: Seq<char>| #[trigger] init.contains(p) && report_at(p) == Some(r);
            let j = choose|j: int| 0 <= j < init.len() && init[j] == p;
            assert(paths[j] == p);
            assert(paths.contains(p));
        }
        if report_at(paths.last()) == Some(r) {
            assert(all[before.len() as int] == r);
        }
        if all.contains(r) && !before.contains(r) {
            let k = choose|k: int| 0 <= k < all.len() && all[k] == r;
            if k < before.len() {
                assert(before[k] == r);
            }
        }
        if exists|p: Seq<char>| #[trigger] paths.contains(p) && report_at(p) == Some(r) {
            let p = choose|p: Seq<char>| #[trigger] paths.contains(p) && report_at(p) == Some(r);
            let j = choose|j: int| 0 <= j < paths.len() && paths[j] == p;
            if j < init.len() {
                assert(init[j] == p);
                assert(init.contains(p));
            }
        }
    }
}

/// A whole scan reports exactly the directories that have a report and lie at most
/// [`SCAN_DEPTH`] levels below its root, with no hidden directory and none of build
/// outputs or packages on the way to them or at its end.
pub proof fn law_whole_scan(
    root: DirTree,
    report_at: spec_fn(Seq<char>) -> Option<Report>,
    r: Report,
)
    ensures
        reports_of(remaining(seq![(root, 0u8)]), report_at).contains(r) <==> exists|
            route: Seq<int>,
        |
            route.len() <= SCAN_DEPTH && #[trigger] leads(root, route) && report_at(
                tree_at(root, route).path,
            ) == Some(r),
{
    let start = seq![(root, 0u8)];
    let paths = remaining(start);
    assert(start.drop_last() =~= Seq::empty());
    assert(start.last() == (root, 0u8));
    assert(remaining(start.drop_last()) =~= Seq::empty());
    assert(paths =~= visited_from(root, 0));
    lemma_in_reports(paths, report_at, r);
    if reports_of(paths, report_at).contains(r) {
        let p = choose|p: Seq<char>| #[trigger] paths.contains(p) && report_at(p) == Some(r);
        lemma_visited_from(root, 0, p);
        let route = choose|route: Seq<int>| reaches(root, route, 0, p);
        assert(leads(root, route));
    }
    if exists|route: Seq<int>|
        route.len() <= SCAN_DEPTH && #[trigger] leads(root, route) && report_at(
            tree_at(root, route).path,
        ) == Some(r) {
        let route = choose|route: Seq<int>|
            route.len() <= SCAN_DEPTH && #[trigger] leads(root, route) && report_at(
                tree_at(root, route).path,
            ) == Some(r);
        let p = tree_at(root, route).path;
        assert(reaches(root, route, 0, p));
        lemma_visited_from(root, 0, p);
    }
}

/// The paths of some reports.
pub open spec fn report_paths(v: Seq<Report>) -> Seq<Seq<char>> {
    v.map_values(|r: Report| r.finding.path@)
}

/// Sorts the reports of a scan by path, component by component.
pub fn scan(found: Vec<Report>) -> (r: Vec<Report>)
    ensures
        crate::order::is_sorted(report_paths(r@), true),
        r@.to_multiset() =~= found@.to_multiset(),
{
    let mut rest = found;
    let mut out: Vec<Report> = Vec::new();
    proof {
        vstd::seq_lib::lemma_multiset_commutative(out@, rest@);
        assert(out@ + rest@ =~= rest@);
    }
    while rest.len() > 0
        invariant
            crate::order::is_sorted(report_paths(out@), true),
            (out@ + rest@).to_multiset() =~= found@.to_multiset(),
        decreases rest.len(),
    {
        let ghost rest0 = rest@;
        let ghost out0 = out@;
        let x = rest.remove(0);
        let ghost xs = x.finding.path@;
        let ghost t0 = report_paths(out0);
        let mut k: usize = out.len();
        while k > 0 && comes_before(x.finding.path.as_str(), out[k - 1].finding.path.as_str(), true)
            invariant
                k <= out.len(),
                out@ == out0,
                t0 == report_paths(out@),
                xs == x.finding.path@,
                forall|i: int| k <= i < out@.len() ==> before(xs, #[trigger] t0[i], true),
            decreases k,
        {
            assert(t0[k - 1] == out@[k - 1].finding.path@);
            k -= 1;
        }
        proof {
            if k > 0 {
                assert(t0[k - 1] == out@[k - 1].finding.path@);
                assert forall|i: int| 0 <= i < k implies !before(xs, #[trigger] t0[i], true) by {
                    if i < k - 1 && before(xs, t0[i], true) {
                        lemma_before_total(t0[i], t0[k - 1], true);
                        if before(t0[i], t0[k - 1], true) {
                            lemma_before_transitive(xs, t0[i], t0[k - 1], true);
                        } else {
                            assert(!before(t0[k - 1], t0[i], true));
                        }
                    }
                }
            }
        }
        out.insert(k, x);
        proof {
            let t = report_paths(out@);
            assert(t =~= t0.insert(k as int, xs));
            assert forall|a: int, b: int| 0 <= a < b < t.len() implies !before(
                #[trigger] t[b],
                #[trigger] t[a],
                true,
            ) by {
                if a == k {
                    assert(t[b] == t0[b - 1]);
                    if before(t[b], xs, true) {
                        lemma_before_transitive(xs, t[b], xs, true);
                        lemma_before_irreflexive(xs, true);
                    }
                } else if b == k {
                    assert(t[a] == t0[a]);
                } else {
                    let p = if a < k {
                        a
                    } else {
                        a - 1
                    };
                    let q = if b < k {
                        b
                    } else {
                        b - 1
                    };
                    assert(t[a] == t0[p] && t[b] == t0[q]);
                }
            }
            vstd::seq_lib::to_multiset_insert(out0, k as int, x);
            vstd::seq_lib::lemma_multiset_commutative(out@, rest@);
            vstd::seq_lib::lemma_multiset_commutative(out0, rest0);
            vstd::seq_lib::to_multiset_insert(rest@, 0, x);
            assert(rest@.insert(0, x) =~= rest0);
            assert((out@ + rest@).to_multiset() =~= (out0 + rest0).to_multiset());
        }
    }
    assert(out@ + rest@ =~= out@);
    out
}

/// The files and directories to delete: each dirty state file, and the mirror
/// beside it.
pub open spec fn targets_of(reports: Seq<Report>) -> Seq<Seq<char>>
    decreases reports.len(),
{
    if reports.len() == 0 {
        Seq::empty()
    } else {
        let r = targets_of(reports.drop_last());
        let last = reports.last();
        if last.finding.verdict == Verdict::Dirty {
            let with_file = r.push(last.finding.path@);
            match last.mirror_dir {
                Some(m) => with_file.push(m@),
                None => with_file,
            }
        } else {
            r
        }
    }
}

/// The files and directories to delete.
pub fn deletion_targets(reports: &[Report]) -> (r: Vec<String>)
    ensures
        texts(r@) == targets_of(reports@),
{
    let mut out: Vec<String> = Vec::new();
    let mut i: usize = 0;
    assert(reports@.take(0).len() == 0);
    assert(texts(out@) =~= targets_of(reports@.take(0)));
    while i < reports.len()
        invariant
            i <= reports.len(),
            texts(out@) == targets_of(reports@.take(i as int)),
        decreases reports.len() - i,
    {
        let ghost before = out@;
        proof {
            assert(reports@.take(i + 1).drop_last() =~= reports@.take(i as int));
            assert(reports@.take(i + 1).last() == reports@[i as int]);
        }
        if reports[i].finding.verdict == Verdict::Dirty {
            out.push(reports[i].finding.path.clone());
            assert(texts(out@) =~= texts(before).push(reports@[i as int].finding.path@));
            if let Some(m) = &reports[i].mirror_dir {
                let ghost mid = out@;
                out.push(m.clone());
                assert(texts(out@) =~= texts(mid).push(m@));
            }
        }
        i += 1;
    }
    assert(reports@.take(i as int) =~= reports@);
    out
}

/// The deletions that failed, with their errors, in order.
pub open spec fn failed_of(results: Seq<(String, Option<String>)>) -> Seq<(Seq<char>, Seq<char>)>
    decreases results.len(),
{
    if results.len() == 0 {
        Seq::empty()
    } else {
        let r = failed_of(results.drop_last());
        match results.last().1 {
            Some(e) => r.push((results.last().0@, e@)),
            None => r,
        }
    }
}

/// The deletions that failed, given each target and the error it met.
pub fn apply_fix(results: &[(String, Option<String>)]) -> (r: Vec<(String, String)>)
    ensures
        crate::state::digest_views(r@) == failed_of(results@),
{
    let mut out: Vec<(String, String)> = Vec::new();
    let mut i: usize = 0;
    assert(results@.take(0).len() == 0);
    assert(crate::state::digest_views(out@) =~= failed_of(results@.take(0)));
    while i < results.len()
        invariant
            i <= results.len(),
            crate::state::digest_views(out@) == failed_of(results@.take(i as int)),
        decreases results.len() - i,
    {
        let ghost before = out@;
        proof {
            assert(results@.take(i + 1).drop_last() =~= results@.take(i as int));
            assert(results@.take(i + 1).last() == results@[i as int]);
        }
        if let Some(e) = &results[i].1 {
            out.push((results[i].0.clone(), e.clone()));
            assert(crate::state::digest_views(out@) =~= crate::state::digest_views(before).push(
                (results@[i as int].0@, e@),
            ));
        }
        i += 1;
    }
    assert(results@.take(i as int) =~= results@);
    out
}

/// The tag of a verdict.
pub open spec fn tag_of(v: Verdict) -> Seq<char> {
    match v {
        Verdict::Dirty => "[DIRTY]"@,
        Verdict::Info => "[INFO] "@,
        Verdict::Clean => "[CLEAN]"@,
    }
}

/// The lines of a report: its verdict and path, and a line per reason.
pub open spec fn report_lines(r: Report) -> Seq<Seq<char>> {
    seq![tag_of(r.finding.verdict) + " "@ + r.finding.path@] + texts(
        r.finding.reasons@,
    ).map_values(|t: Seq<char>| "  - "@ + t)
}

/// The lines of some reports, report after report.
pub open spec fn all_lines(reports: Seq<Report>) -> Seq<Seq<char>>
    decreases reports.len(),
{
    if reports.len() == 0 {
        Seq::empty()
    } else {
        all_lines(reports.drop_last()) + report_lines(reports.last())
    }
}

fn push_report(out: &mut Vec<String>, r: &Report)
    ensures
        texts(final(out)@) == texts(old(out)@) + report_lines(*r),
{
    let ghost start = texts(out@);
    let ghost out0 = out@;
    let mut head = match r.finding.verdict {
        Verdict::Dirty => "[DIRTY]".to_owned(),
        Verdict::Info => "[INFO] ".to_owned(),
        Verdict::Clean => "[CLEAN]".to_owned(),
    };
    head.append(" ");
    head.append(r.finding.path.as_str());
    out.push(head);
    let ghost f = |t: Seq<char>| "  - "@ + t;
    let ghost all = texts(r.finding.reasons@).map_values(f);
    let ghost first = seq![head@];
    assert(texts(out@) =~= start + (first + all.take(0)));
    let mut i: usize = 0;
    while i < r.finding.reasons.len()
        invariant
            i <= r.finding.reasons.len(),
            f == (|t: Seq<char>| "  - "@ + t),
            all == texts(r.finding.reasons@).map_values(f),
            texts(out@) == start + (first + all.take(i as int)),
        decreases r.finding.reasons.len() - i,
    {
        let ghost before = out@;
        let mut line = "  - ".to_owned();
        line.append(r.finding.reasons[i].as_str());
        out.push(line);
        proof {
            assert(line@ == all[i as int]);
            assert(texts(out@) =~= texts(before).push(line@));
            assert(all.take(i + 1) =~= all.take(i as int).push(all[i as int]));
            assert(start + (first + all.take(i + 1)) =~= (start + (first + all.take(
                i as int,
            ))).push(line@));
        }
        i += 1;
    }
    assert(all.take(i as int) =~= all);
}

/// The text of some reports.
pub fn render(reports: &[Report]) -> (r: String)
    ensures
        r@ == (if reports@.len() == 0 {
            "no relay state file"@
        } else {
            join(all_lines(reports@), "\n"@)
        }),
{
    if reports.len() == 0 {
        return "no relay state file".to_owned();
    }
    let mut out: Vec<String> = Vec::new();
    let mut i: usize = 0;
    assert(reports@.take(0).len() == 0);
    assert(texts(out@) =~= all_lines(reports@.take(0)));
    while i < reports.len()
        invariant
            i <= reports.len(),
            texts(out@) == all_lines(reports@.take(i as int)),
        decreases reports.len() - i,
    {
        proof {
            assert(reports@.take(i + 1).drop_last() =~= reports@.take(i as int));
            assert(reports@.take(i + 1).last() == reports@[i as int]);
        }
        push_report(&mut out, &reports[i]);
        i += 1;
    }
    assert(reports@.take(i as int) =~= reports@);
    join_strings(&out, "\n")
}

/// Whether some report is dirty.
pub open spec fn any_dirty(reports: Seq<Report>) -> bool {
    exists|i: int|
        0 <= i < reports.len() && (#[trigger] reports[i]).finding.verdict == Verdict::Dirty
}

/// The exit code: after a fix, whether a deletion failed; else whether anything
/// is dirty.
pub fn exit_code(reports: &[Report], fix_failures: Option<&[(String, String)]>) -> (r: i32)
    ensures
        r == 0 || r == 1,
        match fix_failures {
            Some(f) => r == 1 <==> f@.len() > 0,
            None => r == 1 <==> any_dirty(reports@),
        },
{
    if let Some(f) = fix_failures {
        return if f.len() == 0 {
            0
        } else {
            1
        };
    }
    let mut i: usize = 0;
    while i < reports.len()
        invariant
            i <= reports.len(),
            fix_failures is None,
            forall|j: int|
                0 <= j < i ==> (#[trigger] reports@[j]).finding.verdict != Verdict::Dirty,
        decreases reports.len() - i,
    {
        if reports[i].finding.verdict == Verdict::Dirty {
            return 1;
        }
        i += 1;
    }
    0
}

/// A workspace of the registry, and what the file system and git say of its root.
pub struct WorkspaceFact {
    pub workspace_key: String,
    pub root_path: String,
    pub is_dir: bool,
    pub in_git: bool,
    pub derived_key: String,
}

/// Why a workspace of the registry looks wrong, if it does: its root exists, is no
/// git repository, and is the home directory or has another key.
pub open spec fn registry_warning(w: WorkspaceFact, home: Option<Seq<char>>) -> Option<Seq<char>> {
    let is_home = home matches Some(h) && is_same_path(h, w.root_path@);
    if !w.is_dir || w.in_git || (w.derived_key@ == w.workspace_key@ && !is_home) {
        None
    } else {
        Some(
            (if is_home {
                "registry workspace record likely polluted by gateway cwd ($HOME); verify manually"@
            } else {
                "registry workspace record likely polluted by gateway cwd (key mismatch); verify manually"@
            }) + " (path: "@ + w.root_path@ + ")"@,
        )
    }
}

/// The warnings about some workspaces, each with its key, in order.
pub open spec fn registry_warnings(
    ws: Seq<WorkspaceFact>,
    home: Option<Seq<char>>,
) -> Seq<(Seq<char>, Seq<char>)>
    decreases ws.len(),
{
    if ws.len() == 0 {
        Seq::empty()
    } else {
        let r = registry_warnings(ws.drop_last(), home);
        match registry_warning(ws.last(), home) {
            Some(t) => r.push((ws.last().workspace_key@, t)),
            None => r,
        }
    }
}

/// The warnings about the workspaces of the registry.
pub fn check_registry(ws: &[WorkspaceFact], home: Option<&str>) -> (r: Vec<(String, String)>)
    ensures
        crate::state::digest_views(r@) == registry_warnings(ws@, opt_view(home)),
{
    let mut out: Vec<(String, String)> = Vec::new();
    let mut i: usize = 0;
    assert(ws@.take(0).len() == 0);
    assert(crate::state::digest_views(out@) =~= registry_warnings(ws@.take(0), opt_view(home)));
    while i < ws.len()
        invariant
            i <= ws.len(),
            crate::state::digest_views(out@) == registry_warnings(
                ws@.take(i as int),
                opt_view(home),
            ),
        decreases ws.len() - i,
    {
        let w = &ws[i];
        let ghost before = out@;
        proof {
            assert(ws@.take(i + 1).drop_last() =~= ws@.take(i as int));
            assert(ws@.take(i + 1).last() == ws@[i as int]);
        }
        let is_home = match home {
            Some(h) => same_path(h, w.root_path.as_str()),
            None => false,
        };
        if w.is_dir && !w.in_git && (!same(w.derived_key.as_str(), w.workspace_key.as_str())
            || is_home) {
            let mut text = if is_home {
                "registry workspace record likely polluted by gateway cwd ($HOME); verify manually".to_owned()
            } else {
                "registry workspace record likely polluted by gateway cwd (key mismatch); verify manually".to_owned()
            };
            text.append(" (path: ");
            text.append(w.root_path.as_str());
            text.append(")");
            out.push((w.workspace_key.clone(), text));
            assert(crate::state::digest_views(out@) =~= crate::state::digest_views(before).push(
                (w.workspace_key@, text@),
            ));
        }
        i += 1;
    }
    assert(ws@.take(i as int) =~= ws@);
    out
}

/// Only what belongs to a dirty state file is ever deleted.
pub proof fn law_only_dirty_is_deleted(reports: Seq<Report>, target: Seq<char>)
    requires
        targets_of(reports).contains(target),
    ensures
        exists|i: int|
            0 <= i < reports.len() && (#[trigger] reports[i]).finding.verdict == Verdict::Dirty && (
            reports[i].finding.path@ == target || opt_text(reports[i].mirror_dir) == Some(target)),
    decreases reports.len(),
{
    if reports.len() > 0 {
        let init = reports.drop_last();
        let r = targets_of(init);
        let all = targets_of(reports);
        let k = choose|k: int| 0 <= k < all.len() && all[k] == target;
        if k < r.len() {
            assert(r[k] == target);
            law_only_dirty_is_deleted(init, target);
            let i = choose|i: int|
                0 <= i < init.len() && (#[trigger] init[i]).finding.verdict == Verdict::Dirty && (
                init[i].finding.path@ == target || opt_text(init[i].mirror_dir) == Some(target));
            assert(reports[i] == init[i]);
        } else {
            assert(reports[reports.len() - 1] == reports.last());
        }
    }
}

/// Where nothing is dirty, nothing is deleted.
pub proof fn law_nothing_dirty_nothing_deleted(reports: Seq<Report>)
    requires
        !any_dirty(reports),
    ensures
        targets_of(reports).len() == 0,
{
    if targets_of(reports).len() > 0 {
        let t = targets_of(reports)[0];
        assert(targets_of(reports).contains(t));
        law_only_dirty_is_deleted(reports, t);
    }
}

/// Which directories a scan enters, and how deep it goes.
pub proof fn law_what_a_scan_enters(name: Seq<char>)
    ensures
        SCAN_DEPTH == 3,
        name.len() > 0 && name[0] == '.' ==> !is_entered(name),
        !is_entered("target"@),
        !is_entered("node_modules"@),
        (name.len() == 0 || name[0] != '.') && name != "target"@ && name != "node_modules"@
            ==> is_entered(name),
{
    reveal_strlit(".");
    assert("."@ =~= seq!['.']);
    if name.len() > 0 {
        assert(name.take(1) =~= seq![name[0]]);
        if name.take(1) == "."@ {
            assert(name.take(1)[0] == '.');
        }
    }
}

/// A state file names the repositories that are the fields of its `repos`, in order, each with
/// the text of its `path`, or with its name where it has no such text. A file whose `repos` is
/// no object names none and is malformed.
pub proof fn law_entries_of_a_file(v: JsonView, fs: Seq<(Seq<char>, JsonView)>, i: int)
    ensures
        get(v, "repos"@) == Some(JsonView::Object(fs)) ==> entries_of(v) is Some && entries_of(
            v,
        )->0.len() == fs.len(),
        get(v, "repos"@) == Some(JsonView::Object(fs)) && 0 <= i < fs.len() ==> {
            let e = entries_of(v)->0[i];
            &&& e.key == fs[i].0
            &&& get(fs[i].1, "path"@) matches Some(JsonView::Str(p)) ==> e.path == p
            &&& !(get(fs[i].1, "path"@) matches Some(JsonView::Str(_))) ==> e.path == fs[i].0
        },
        !(get(v, "repos"@) matches Some(JsonView::Object(_))) ==> entries_of(v) is None,
{
}

/// An entry whose directory exists is foreign where it lies outside of the root, by an absolute
/// path, or where it has neither the name of the root nor that of a directory in it; one whose
/// directory does not exist is foreign unless it is the root itself, named by its own name.
pub proof fn law_foreign_entries(root: RootFacts, e: EntryView, p: EntryProbe)
    ensures
        ({
            let text = |why: Seq<char>|
                "foreign repo \""@ + e.key + "\" (path="@ + e.path + ", "@ + why + ")"@;
            let is_root = e.key == root.name@;
            let absolute = e.path.len() > 0 && e.path[0] == '/';
            &&& !p.is_dir && is_root && !absolute && e.path == e.key ==> foreign_reason(root, e, p)
                is None
            &&& !p.is_dir && !(is_root && !absolute && e.path == e.key) ==> foreign_reason(
                root,
                e,
                p,
            ) == Some(text("no such dir"@))
            &&& p.is_dir && absolute && !is_under(p.canonical@, root.canonical@) ==> foreign_reason(
                root,
                e,
                p,
            ) == Some(text("outside relay root"@))
            &&& p.is_dir && !(absolute && !is_under(p.canonical@, root.canonical@)) && !is_root
                && !p.key_is_dir ==> foreign_reason(root, e, p) == Some(text("no such dir"@))
            &&& p.is_dir && (!absolute || is_under(p.canonical@, root.canonical@)) && (is_root
                || p.key_is_dir) ==> foreign_reason(root, e, p) is None
        }),
{
    crate::paths::law_absolute(e.path);
}

/// Every foreign entry has its reason, in the order of the entries, and no other has one.
pub proof fn law_every_foreign_entry_has_a_reason(
    root: RootFacts,
    v: JsonView,
    ps: Seq<EntryProbe>,
)
    requires
        entries_of(v) matches Some(es) ==> ps.len() == es.len(),
    ensures
        entries_of(v) is None ==> foreign_of(root, v, ps) == seq![
            "repos field malformed (not an object)"@,
        ],
        entries_of(v) matches Some(es) ==> foreign_of(root, v, ps) == Seq::new(
            es.len(),
            |i: int| foreign_reason(root, es[i], ps[i]),
        ).filter(|r: Option<Seq<char>>| r is Some).map_values(|r: Option<Seq<char>>| r->0),
{
    if let Some(es) = entries_of(v) {
        lemma_foreign_upto(root, es, ps, es.len() as int);
    }
}

proof fn lemma_foreign_upto(root: RootFacts, es: Seq<EntryView>, ps: Seq<EntryProbe>, k: int)
    requires
        0 <= k <= es.len(),
        es.len() == ps.len(),
    ensures
        foreign_upto(root, es, ps, k) == Seq::new(
            k as nat,
            |i: int| foreign_reason(root, es[i], ps[i]),
        ).filter(|r: Option<Seq<char>>| r is Some).map_values(|r: Option<Seq<char>>| r->0),
    decreases k,
{
    reveal(Seq::filter);
    let f = |r: Option<Seq<char>>| r is Some;
    let g = |r: Option<Seq<char>>| r->0;
    let all = Seq::new(k as nat, |i: int| foreign_reason(root, es[i], ps[i]));
    if k > 0 {
        lemma_foreign_upto(root, es, ps, k - 1);
        let init = Seq::new((k - 1) as nat, |i: int| foreign_reason(root, es[i], ps[i]));
        assert(all.drop_last() =~= init);
        let a = init.filter(f);
        assert(a.push(all.last()).map_values(g) =~= a.map_values(g).push(g(all.last())));
    } else {
        assert(all.filter(f).map_values(g) =~= foreign_upto(root, es, ps, k));
    }
}

/// A state file is stray directly under the home directory, and, in a scan alone, inside of a
/// git repository below its top.
pub proof fn law_stray_places(p: Place, scan_mode: bool)
    ensures
        ({
            let at_home = p.home matches Some(h) && is_same_path(h@, p.dir@);
            let below_top = p.git_toplevel matches Some(t) && !is_same_path(t@, p.dir@);
            let none = Seq::<Seq<char>>::empty();
            let home = seq![
                "stray location: directly under $HOME (shared by every session started there)"@,
            ];
            let inside = seq![
                "stray location: inside git repo "@ + p.git_toplevel->0@
                    + " but not its toplevel (orphan state file)"@,
            ];
            &&& !at_home && (!scan_mode || !below_top) ==> stray_of(p, scan_mode) == none
            &&& at_home && (!scan_mode || !below_top) ==> stray_of(p, scan_mode) == home
            &&& !at_home && scan_mode && below_top ==> stray_of(p, scan_mode) == inside
            &&& at_home && scan_mode && below_top ==> stray_of(p, scan_mode) == home + inside
        }),
{
    let none = Seq::<Seq<char>>::empty();
    let inside = "stray location: inside git repo "@ + p.git_toplevel->0@
        + " but not its toplevel (orphan state file)"@;
    let home = seq![
        "stray location: directly under $HOME (shared by every session started there)"@,
    ];
    assert(none.push(inside) =~= seq![inside]);
    assert(home.push(inside) =~= home + seq![inside]);
}

/// A state file is of the old kind where it has a project context that is not empty, and where
/// its snapshot has an open thread or a last session that is not empty; fields that are there
/// but empty say nothing.
pub proof fn law_old_kind(v: JsonView)
    ensures
        ({
            let context = get(v, "project_context"@) matches Some(JsonView::Str(t)) && t.len() > 0;
            let snapshot = get(v, "state_snapshot"@) matches Some(ss) && ((get(
                ss,
                "open_threads"@,
            ) matches Some(JsonView::Array(a)) && a.len() > 0) || (get(
                ss,
                "last_session"@,
            ) matches Some(JsonView::Str(t)) && t.len() > 0));
            let none = Seq::<Seq<char>>::empty();
            legacy_of(v) == (if context {
                seq![
                    "legacy global schema (project_context present) — consider relayInit to upgrade"@,
                ]
            } else {
                none
            }) + (if snapshot {
                seq![
                    "legacy global schema (state_snapshot present) — consider relayInit to upgrade"@,
                ]
            } else {
                none
            })
        }),
{
    let context = get(v, "project_context"@) matches Some(JsonView::Str(t)) && t.len() > 0;
    let snapshot = get(v, "state_snapshot"@) matches Some(ss) && ((get(
        ss,
        "open_threads"@,
    ) matches Some(JsonView::Array(a)) && a.len() > 0) || (get(
        ss,
        "last_session"@,
    ) matches Some(JsonView::Str(t)) && t.len() > 0));
    let none = Seq::<Seq<char>>::empty();
    assert(has_text_field(v, "project_context"@) <==> context);
    assert((get(v, "state_snapshot"@) matches Some(ss) && is_snapshot_used(ss)) <==> snapshot);
    let a = if context {
        seq!["legacy global schema (project_context present) — consider relayInit to upgrade"@]
    } else {
        none
    };
    let b = if snapshot {
        seq!["legacy global schema (state_snapshot present) — consider relayInit to upgrade"@]
    } else {
        none
    };
    assert(legacy_of(v) =~= a + b);
}

/// A file is dirty where it cannot be read or parsed, where an entry of it is foreign and where
/// it is stray; otherwise the old kind is worth a note, and all else is clean.
pub proof fn law_verdicts(
    read: RelayRead,
    root: RootFacts,
    probes: Seq<EntryProbe>,
    place: Place,
    scan_mode: bool,
)
    ensures
        ({
            let verdict = verdict_of(
                dirty_reasons(read, root, probes, place, scan_mode),
                info_reasons(read),
            );
            &&& read is Unreadable || read is Unparseable ==> verdict == Verdict::Dirty
            &&& read matches RelayRead::Value(v) ==> {
                let faults = foreign_of(root, v@, probes).len() + stray_of(place, scan_mode).len();
                &&& verdict == Verdict::Dirty <==> faults > 0
                &&& verdict == Verdict::Info <==> faults == 0 && legacy_of(v@).len() > 0
                &&& verdict == Verdict::Clean <==> faults == 0 && legacy_of(v@).len() == 0
                &&& dirty_reasons(read, root, probes, place, scan_mode) == foreign_of(
                    root,
                    v@,
                    probes,
                ) + stray_of(place, scan_mode)
                &&& info_reasons(read) == legacy_of(v@)
            }
            &&& read matches RelayRead::Unreadable(e) ==> dirty_reasons(
                read,
                root,
                probes,
                place,
                scan_mode,
            ) == seq!["unreadable: "@ + e@]
            &&& read matches RelayRead::Unparseable(e) ==> dirty_reasons(
                read,
                root,
                probes,
                place,
                scan_mode,
            ) == seq!["unparseable JSON: "@ + e@]
        }),
{
}

/// Every dirty state file is deleted, with the mirror beside it where it has one; what is
/// deleted goes in the order of the reports.
pub proof fn law_all_that_is_dirty_is_deleted(reports: Seq<Report>, r: Report)
    ensures
        targets_of(Seq::empty()) == Seq::<Seq<char>>::empty(),
        r.finding.verdict != Verdict::Dirty ==> targets_of(reports.push(r)) == targets_of(reports),
        r.finding.verdict == Verdict::Dirty && r.mirror_dir is None ==> targets_of(
            reports.push(r),
        ) == targets_of(reports) + seq![r.finding.path@],
        r.finding.verdict == Verdict::Dirty && r.mirror_dir is Some ==> targets_of(
            reports.push(r),
        ) == targets_of(reports) + seq![r.finding.path@, r.mirror_dir->0@],
{
    let all = reports.push(r);
    let t = targets_of(reports);
    assert(all.drop_last() =~= reports);
    if r.finding.verdict == Verdict::Dirty {
        match r.mirror_dir {
            Some(m) => {
                assert(targets_of(all) =~= t + seq![r.finding.path@, m@]);
            },
            None => {
                assert(targets_of(all) =~= t + seq![r.finding.path@]);
            },
        }
    }
}

/// The state file of every dirty report is among what is deleted, and so is its mirror.
pub proof fn law_dirty_files_are_among_the_targets(reports: Seq<Report>, i: int)
    requires
        0 <= i < reports.len(),
        reports[i].finding.verdict == Verdict::Dirty,
    ensures
        targets_of(reports).contains(reports[i].finding.path@),
        reports[i].mirror_dir matches Some(m) ==> targets_of(reports).contains(m@),
    decreases reports.len(),
{
    let init = reports.drop_last();
    let last = reports.last();
    let t = targets_of(init);
    let all = targets_of(reports);
    assert(init.push(last) =~= reports);
    law_all_that_is_dirty_is_deleted(init, last);
    if i < init.len() {
        law_dirty_files_are_among_the_targets(init, i);
        assert(init[i] == reports[i]);
        let k = choose|k: int| 0 <= k < t.len() && t[k] == reports[i].finding.path@;
        assert(all[k] == t[k]);
        if let Some(m) = reports[i].mirror_dir {
            let j = choose|j: int| 0 <= j < t.len() && t[j] == m@;
            assert(all[j] == t[j]);
        }
    } else {
        assert(all[t.len() as int] == reports[i].finding.path@);
        if let Some(m) = reports[i].mirror_dir {
            assert(all[t.len() as int + 1] == m@);
        }
    }
}

/// The deletions that are reported are those with an error, all of them and in order.
pub proof fn law_failed_deletions(results: Seq<(String, Option<String>)>)
    ensures
        failed_of(results) == results.filter(
            |r: (String, Option<String>)| r.1 is Some,
        ).map_values(|r: (String, Option<String>)| (r.0@, r.1->0@)),
    decreases results.len(),
{
    reveal(Seq::filter);
    let f = |r: (String, Option<String>)| r.1 is Some;
    let g = |r: (String, Option<String>)| (r.0@, r.1->0@);
    if results.len() > 0 {
        law_failed_deletions(results.drop_last());
        let a = results.drop_last().filter(f);
        assert(a.push(results.last()).map_values(g) =~= a.map_values(g).push(g(results.last())));
    } else {
        assert(failed_of(results) =~= results.filter(f).map_values(g));
    }
}

/// A report is shown with its verdict and its path, and each of its reasons on a line below; a
/// further report goes below those before it.
pub proof fn law_reports_are_shown(reports: Seq<Report>, r: Report, i: int)
    ensures
        all_lines(Seq::empty()) == Seq::<Seq<char>>::empty(),
        all_lines(reports.push(r)) == all_lines(reports) + report_lines(r),
        report_lines(r).len() == r.finding.reasons@.len() + 1,
        r.finding.verdict == Verdict::Dirty ==> report_lines(r)[0] == "[DIRTY]"@ + " "@
            + r.finding.path@,
        r.finding.verdict == Verdict::Info ==> report_lines(r)[0] == "[INFO] "@ + " "@
            + r.finding.path@,
        r.finding.verdict == Verdict::Clean ==> report_lines(r)[0] == "[CLEAN]"@ + " "@
            + r.finding.path@,
        0 <= i < r.finding.reasons@.len() ==> report_lines(r)[1 + i] == "  - "@
            + r.finding.reasons@[i]@,
{
    assert(reports.push(r).drop_last() =~= reports);
}

/// A workspace of the registry looks wrong where its root is a directory outside of git and is
/// the home directory, or has another key than its root gives it.
pub proof fn law_registry_warnings(
    ws: Seq<WorkspaceFact>,
    home: Option<Seq<char>>,
    w: WorkspaceFact,
)
    ensures
        ({
            let at_home = home matches Some(h) && is_same_path(h, w.root_path@);
            &&& !w.is_dir ==> registry_warning(w, home) is None
            &&& w.in_git ==> registry_warning(w, home) is None
            &&& !at_home && w.derived_key@ == w.workspace_key@ ==> registry_warning(w, home) is None
            &&& w.is_dir && !w.in_git && at_home ==> registry_warning(w, home) == Some(
                "registry workspace record likely polluted by gateway cwd ($HOME); verify manually"@
                    + " (path: "@ + w.root_path@ + ")"@,
            )
            &&& w.is_dir && !w.in_git && !at_home && w.derived_key@ != w.workspace_key@
                ==> registry_warning(w, home) == Some(
                "registry workspace record likely polluted by gateway cwd (key mismatch); verify manually"@
                    + " (path: "@ + w.root_path@ + ")"@,
            )
        }),
        registry_warnings(ws, home) == ws.filter(
            |x: WorkspaceFact| registry_warning(x, home) is Some,
        ).map_values(|x: WorkspaceFact| (x.workspace_key@, registry_warning(x, home)->0)),
    decreases ws.len(),
{
    reveal(Seq::filter);
    let f = |x: WorkspaceFact| registry_warning(x, home) is Some;
    let g = |x: WorkspaceFact| (x.workspace_key@, registry_warning(x, home)->0);
    if ws.len() > 0 {
        law_registry_warnings(ws.drop_last(), home, w);
        let a = ws.drop_last().filter(f);
        assert(a.push(ws.last()).map_values(g) =~= a.map_values(g).push(g(ws.last())));
    } else {
        assert(registry_warnings(ws, home) =~= ws.filter(f).map_values(g));
    }
}

/// A run without a fix fails just where a fix would delete something.
pub proof fn law_dirty_just_where_something_is_deleted(reports: Seq<Report>)
    ensures
        any_dirty(reports) <==> targets_of(reports).len() > 0,
{
    if any_dirty(reports) {
        let i = choose|i: int|
            0 <= i < reports.len() && (#[trigger] reports[i]).finding.verdict == Verdict::Dirty;
        law_dirty_files_are_among_the_targets(reports, i);
    } else {
        law_nothing_dirty_nothing_deleted(reports);
    }
}

}
