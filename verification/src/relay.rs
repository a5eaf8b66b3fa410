//! The relay tools: what they record in the relay state and what they answer.
use vstd::prelude::*;

use crate::blocks::{sha1_12, sha1_text};
use crate::decimal::{decimal, decimal_string};
use crate::names::{
    entry_place, find_entry, is_ordered, keys, law_put_keeps_order, law_put_then_lookup, lookup, names, put,
};
use crate::order::{is_sorted, sort_strings};
use crate::state::{
    default_repo, digest_views, handoff_views, lemma_digest_names, lemma_repo_names, repo_views, Handoff,
    HandoffView, RelayState, RelayView, RepoState, RepoView, SnapshotView, SpecSync, SpecSyncView,
};
use crate::text::{
    clone_strings, contains, ends_with, has_text, is_ascii_text, is_blank, is_space, is_whitespace, keep_nonempty,
    law_strip_all_marks, law_trimmed, lines, lower, lowered, or_else, same, split, starts_with, str_contains,
    str_ends_with, str_lines, str_split, str_starts_with, str_strip_all, str_to_lowercase, str_trim,
    str_trim_start, strip_all, texts, to_chars, trim, trim_start, trimmed_nonempty, views,
};

verus! {

/// Why a relay tool refuses. The texts are fixed: callers compare them.
#[derive(Debug, Clone, PartialEq, Eq)]
pub enum Error {
    NoRoot,
    RootExists(String),
    RepoNotRegistered(String),
    NoActiveBaton,
    RepoUnknown(String),
    FileNotFound(String),
    Io(String),
    Json(String),
    Toon(String),
}

/// The text of an error.
pub open spec fn error_text(e: Error) -> Seq<char> {
    match e {
        Error::NoRoot => "No relay.json found. Run relayInit first."@,
        Error::RootExists(p) => "relay.json already exists at "@ + p@
            + ". Edit it or run relaySave."@,
        Error::RepoNotRegistered(r) => "repo \""@ + r@
            + "\" not registered. Run relaySave in that repo first."@,
        Error::NoActiveBaton =>
            "No active baton set and no repo given. Run relaySwitch <repo> first."@,
        Error::RepoUnknown(r) => "repo \""@ + r@ + "\" not registered."@,
        Error::FileNotFound(f) => "File not found: "@ + f@,
        Error::Io(e) => "io: "@ + e@,
        Error::Json(e) => "json: "@ + e@,
        Error::Toon(e) => "toon: "@ + e@,
    }
}

fn wrap(head: &str, middle: &str, tail: &str) -> (r: String)
    ensures
        r@ == head@ + middle@ + tail@,
{
    let mut m = head.to_owned();
    m.append(middle);
    m.append(tail);
    m
}

fn prefixed(head: &str, rest: &str) -> (r: String)
    ensures
        r@ == head@ + rest@,
{
    let mut m = head.to_owned();
    m.append(rest);
    m
}

impl Error {
    /// The text of the error.
    pub fn message(&self) -> (r: String)
        ensures
            r@ == error_text(*self),
    {
        match self {
            Error::NoRoot => "No relay.json found. Run relayInit first.".to_owned(),
            Error::RootExists(p) => wrap(
                "relay.json already exists at ",
                p.as_str(),
                ". Edit it or run relaySave.",
            ),
            Error::RepoNotRegistered(r) => wrap(
                "repo \"",
                r.as_str(),
                "\" not registered. Run relaySave in that repo first.",
            ),
            Error::NoActiveBaton =>
                "No active baton set and no repo given. Run relaySwitch <repo> first.".to_owned(),
            Error::RepoUnknown(r) => wrap("repo \"", r.as_str(), "\" not registered."),
            Error::FileNotFound(f) => prefixed("File not found: ", f.as_str()),
            Error::Io(e) => prefixed("io: ", e.as_str()),
            Error::Json(e) => prefixed("json: ", e.as_str()),
            Error::Toon(e) => prefixed("toon: ", e.as_str()),
        }
    }
}

// ---- repositories of a state ----

fn copy_handoffs(v: &Vec<Handoff>) -> (r: Vec<Handoff>)
    ensures
        handoff_views(r@) == handoff_views(v@),
{
    let mut r: Vec<Handoff> = Vec::new();
    let mut i: usize = 0;
    assert(handoff_views(r@) =~= handoff_views(v@).take(0));
    while i < v.len()
        invariant
            i <= v.len(),
            handoff_views(r@) == handoff_views(v@).take(i as int),
        decreases v.len() - i,
    {
        let ghost before = r@;
        let h = Handoff {
            source: v[i].source.clone(),
            captured_at: v[i].captured_at.clone(),
            raw: v[i].raw.clone(),
        };
        r.push(h);
        proof {
            assert(h@ == v@[i as int]@);
            assert(handoff_views(r@) =~= handoff_views(before).push(h@));
            assert(handoff_views(v@).take(i + 1) =~= handoff_views(v@).take(i as int).push(
                v@[i as int]@,
            ));
        }
        i += 1;
    }
    assert(handoff_views(v@).take(i as int) =~= handoff_views(v@));
    r
}

fn copy_repo(r: &RepoState) -> (c: RepoState)
    ensures
        c@ == r@,
{
    RepoState {
        name: r.name.clone(),
        path: r.path.clone(),
        role: r.role.clone(),
        active_phase: r.active_phase.clone(),
        volatile_state: r.volatile_state.clone(),
        confidence_score: r.confidence_score,
        debt_tag: clone_strings(&r.debt_tag),
        next_session_starter: r.next_session_starter.clone(),
        handoffs: copy_handoffs(&r.handoffs),
        last_updated: r.last_updated.clone(),
    }
}

/// The repository under a name, or the default one.
pub open spec fn repo_or_default(s: RelayView, name: Seq<char>) -> RepoView {
    match lookup(s.repos, name) {
        Some(r) => r,
        None => default_repo(name),
    }
}

/// The repository under a name.
pub fn get_repo<'a>(state: &'a RelayState, name: &str) -> (r: Option<&'a RepoState>)
    ensures
        match r {
            Some(x) => lookup(state@.repos, name@) == Some(x@),
            None => lookup(state@.repos, name@) is None,
        },
{
    proof {
        lemma_repo_names(state.repos@);
    }
    match find_entry(&state.repos, name) {
        Some(i) => Some(&state.repos[i].1),
        None => None,
    }
}

/// The repository under a name, or the default one.
pub fn repo_for(state: &RelayState, name: &str) -> (r: RepoState)
    ensures
        r@ == repo_or_default(state@, name@),
{
    match get_repo(state, name) {
        Some(r) => copy_repo(r),
        None => RepoState::for_repo(name),
    }
}

/// Records a repository under a name.
pub fn put_repo(state: &mut RelayState, name: &str, repo: RepoState)
    ensures
        final(state)@ == (RelayView {
            repos: put(old(state)@.repos, name@, repo@),
            ..old(state)@
        }),
{
    let ghost before = state.repos@;
    proof {
        lemma_repo_names(before);
    }
    match find_entry(&state.repos, name) {
        Some(i) => {
            state.repos.set(i, (name.to_owned(), repo));
            assert(repo_views(state.repos@) =~= repo_views(before).update(i as int, (name@, repo@)));
        },
        None => {
            let p: usize = entry_place(&state.repos, name);
            state.repos.insert(p, (name.to_owned(), repo));
            assert(repo_views(state.repos@) =~= repo_views(before).insert(p as int, (name@, repo@)));
        },
    }
}

// ---- save ----

/// What a session hands over with a save. The confidence is already rounded.
#[derive(Debug, Clone, PartialEq, Eq)]
pub struct SaveArgs<'a> {
    pub repo: Option<&'a str>,
    pub role: Option<&'a str>,
    pub active_phase: Option<&'a str>,
    pub volatile_state: Option<&'a str>,
    pub confidence: Option<i64>,
    pub next_session_starter: Option<&'a str>,
    pub debt_tag: Option<&'a str>,
    pub kind: Option<&'a str>,
}

impl<'a> SaveArgs<'a> {
    /// A save that hands over nothing.
    pub fn none() -> (r: SaveArgs<'a>)
        ensures
            r.repo is None && r.role is None && r.active_phase is None && r.volatile_state is None
                && r.confidence is None && r.next_session_starter is None && r.debt_tag is None
                && r.kind is None,
    {
        SaveArgs {
            repo: None,
            role: None,
            active_phase: None,
            volatile_state: None,
            confidence: None,
            next_session_starter: None,
            debt_tag: None,
            kind: None,
        }
    }
}

/// The new value where one is given, else the old one.
pub open spec fn given(new: Option<&str>, old: Seq<char>) -> Seq<char> {
    match new {
        Some(v) => v@,
        None => old,
    }
}

/// A confidence within 1 and 5.
pub open spec fn clamp_confidence(v: int) -> nat {
    if v < 1 {
        1
    } else if v > 5 {
        5
    } else {
        v as nat
    }
}

/// A repository after a save.
pub open spec fn saved_repo(r: RepoView, name: Seq<char>, a: SaveArgs, now: Seq<char>) -> RepoView {
    RepoView {
        name,
        role: given(a.role, r.role),
        active_phase: given(a.active_phase, r.active_phase),
        volatile_state: given(a.volatile_state, r.volatile_state),
        next_session_starter: given(a.next_session_starter, r.next_session_starter),
        debt_tag: match a.debt_tag {
            Some(d) => trimmed_nonempty(split(d@, ',')),
            None => r.debt_tag,
        },
        confidence_score: match a.confidence {
            Some(c) => clamp_confidence(c as int),
            None => r.confidence_score,
        },
        last_updated: now,
        ..r
    }
}

/// A state after a save: the repository is updated or registered, and takes the
/// baton where nobody has it.
pub open spec fn saved(s: RelayView, name: Seq<char>, a: SaveArgs, now: Seq<char>) -> RelayView {
    RelayView {
        repos: put(s.repos, name, saved_repo(repo_or_default(s, name), name, a, now)),
        active_baton: or_else(s.active_baton, name),
        ..s
    }
}

fn take_given(new: Option<&str>, old: String) -> (r: String)
    ensures
        r@ == given(new, old@),
{
    match new {
        Some(v) => v.to_owned(),
        None => old,
    }
}

/// Records a save in a state.
pub fn save_repo(state: &mut RelayState, name: &str, args: &SaveArgs<'_>, now: &str)
    ensures
        final(state)@ == saved(old(state)@, name@, *args, now@),
{
    let r = repo_for(state, name);
    let debt_tag = match args.debt_tag {
        Some(d) => {
            let pieces = str_split(d, ',');
            keep_nonempty(&pieces)
        },
        None => r.debt_tag,
    };
    let confidence_score: u8 = match args.confidence {
        Some(c) => if c < 1 {
            1
        } else if c > 5 {
            5
        } else {
            c as u8
        },
        None => r.confidence_score,
    };
    let repo = RepoState {
        name: name.to_owned(),
        path: r.path,
        role: take_given(args.role, r.role),
        active_phase: take_given(args.active_phase, r.active_phase),
        volatile_state: take_given(args.volatile_state, r.volatile_state),
        confidence_score,
        debt_tag,
        next_session_starter: take_given(args.next_session_starter, r.next_session_starter),
        handoffs: r.handoffs,
        last_updated: now.to_owned(),
    };
    put_repo(state, name, repo);
    if state.active_baton.as_str().is_empty() {
        state.active_baton = name.to_owned();
    }
}

/// A confidence that a save sets lies within 1 and 5.
pub proof fn law_saved_confidence_is_in_range(
    r: RepoView,
    name: Seq<char>,
    a: SaveArgs,
    now: Seq<char>,
)
    requires
        a.confidence is Some || 1 <= r.confidence_score <= 5,
    ensures
        1 <= saved_repo(r, name, a, now).confidence_score <= 5,
{
}

/// A save takes the baton only where nobody has it.
pub proof fn law_save_leaves_a_held_baton(
    s: RelayView,
    name: Seq<char>,
    a: SaveArgs,
    now: Seq<char>,
)
    ensures
        s.active_baton.len() > 0 ==> saved(s, name, a, now).active_baton == s.active_baton,
        s.active_baton.len() == 0 ==> saved(s, name, a, now).active_baton == name,
{
}

/// A save changes no other repository.
pub proof fn law_save_leaves_other_repos(
    s: RelayView,
    name: Seq<char>,
    a: SaveArgs,
    now: Seq<char>,
    other: Seq<char>,
)
    requires
        other != name,
    ensures
        lookup(saved(s, name, a, now).repos, other) == lookup(s.repos, other),
        lookup(saved(s, name, a, now).repos, name) == Some(
            saved_repo(repo_or_default(s, name), name, a, now),
        ),
{
    crate::names::law_put_then_lookup(
        s.repos,
        name,
        saved_repo(repo_or_default(s, name), name, a, now),
        other,
    );
}

// ---- add ----

/// `threads` with those of `more` that are not there yet, in order.
pub open spec fn with_threads(threads: Seq<Seq<char>>, more: Seq<Seq<char>>) -> Seq<Seq<char>>
    decreases more.len(),
{
    if more.len() == 0 {
        threads
    } else {
        let t = with_threads(threads, more.drop_last());
        if t.contains(more.last()) {
            t
        } else {
            t.push(more.last())
        }
    }
}

/// The lines of a document that become threads: trimmed, and not empty.
pub open spec fn thread_lines(raw: Seq<char>) -> Seq<Seq<char>> {
    trimmed_nonempty(lines(raw))
}

/// A state after a document was added to a repository.
pub open spec fn added(
    s: RelayView,
    name: Seq<char>,
    source: Seq<char>,
    raw: Seq<char>,
    now: Seq<char>,
) -> RelayView {
    let r = repo_or_default(s, name);
    RelayView {
        repos: put(
            s.repos,
            name,
            RepoView {
                name,
                handoffs: r.handoffs.push(HandoffView { source, captured_at: now, raw }),
                last_updated: now,
                ..r
            },
        ),
        state_snapshot: SnapshotView {
            open_threads: with_threads(s.state_snapshot.open_threads, thread_lines(raw)),
            ..s.state_snapshot
        },
        ..s
    }
}

/// Records a document in a state; the result is the number of its threads.
pub fn add_handoff(state: &mut RelayState, name: &str, source: &str, raw: &str, now: &str) -> (n:
    usize)
    ensures
        final(state)@ == added(old(state)@, name@, source@, raw@, now@),
        n == thread_lines(raw@).len(),
{
    let ghost s0 = state@;
    let mut repo = repo_for(state, name);
    let ghost r0 = repo@;
    let ghost h0 = repo.handoffs@;
    let h = Handoff { source: source.to_owned(), captured_at: now.to_owned(), raw: raw.to_owned() };
    repo.name = name.to_owned();
    repo.handoffs.push(h);
    repo.last_updated = now.to_owned();
    assert(handoff_views(repo.handoffs@) =~= handoff_views(h0).push(h@));
    put_repo(state, name, repo);
    let ls = str_lines(raw);
    let more = keep_nonempty(&ls);
    let ghost m = texts(more@);
    let ghost t0 = texts(state.state_snapshot.open_threads@);
    let ghost s1 = state@;
    let mut i: usize = 0;
    assert(m.take(0).len() == 0);
    while i < more.len()
        invariant
            i <= more.len(),
            m == texts(more@),
            texts(state.state_snapshot.open_threads@) == with_threads(t0, m.take(i as int)),
            state@ == (RelayView {
                state_snapshot: SnapshotView {
                    open_threads: with_threads(t0, m.take(i as int)),
                    ..s1.state_snapshot
                },
                ..s1
            }),
        decreases more.len() - i,
    {
        let ghost before = state.state_snapshot.open_threads@;
        proof {
            assert(m.take(i + 1).drop_last() =~= m.take(i as int));
            assert(m.take(i + 1).last() == more@[i as int]@);
        }
        if !has_text(&state.state_snapshot.open_threads, more[i].as_str()) {
            state.state_snapshot.open_threads.push(more[i].clone());
            assert(texts(state.state_snapshot.open_threads@) =~= texts(before).push(
                more@[i as int]@,
            ));
        }
        i += 1;
    }
    assert(m.take(i as int) =~= m);
    assert(m.len() == more@.len());
    more.len()
}

/// What is among the threads after more were added.
pub proof fn lemma_threads_contain(threads: Seq<Seq<char>>, more: Seq<Seq<char>>, x: Seq<char>)
    ensures
        with_threads(threads, more).contains(x) <==> threads.contains(x) || more.contains(x),
    decreases more.len(),
{
    if more.len() > 0 {
        let m = more.drop_last();
        let t = with_threads(threads, m);
        let r = with_threads(threads, more);
        lemma_threads_contain(threads, m, x);
        if t.contains(x) {
            let k = choose|k: int| 0 <= k < t.len() && t[k] == x;
            assert(r[k] == x);
        }
        if more.contains(x) && !m.contains(x) {
            let k = choose|k: int| 0 <= k < more.len() && more[k] == x;
            if k < m.len() {
                assert(m[k] == x);
            }
            if !t.contains(x) {
                assert(r[t.len() as int] == x);
            }
        }
        if m.contains(x) {
            let k = choose|k: int| 0 <= k < m.len() && m[k] == x;
            assert(more[k] == x);
        }
        if r.contains(x) && !t.contains(x) {
            let k = choose|k: int| 0 <= k < r.len() && r[k] == x;
            if k < t.len() {
                assert(t[k] == x);
            }
            assert(more[more.len() - 1] == x);
        }
    }
}

proof fn lemma_threads_known(threads: Seq<Seq<char>>, more: Seq<Seq<char>>)
    requires
        forall|i: int| 0 <= i < more.len() ==> threads.contains(#[trigger] more[i]),
    ensures
        with_threads(threads, more) == threads,
    decreases more.len(),
{
    if more.len() > 0 {
        let m = more.drop_last();
        assert forall|i: int| 0 <= i < m.len() implies threads.contains(#[trigger] m[i]) by {
            assert(m[i] == more[i]);
        }
        lemma_threads_known(threads, m);
        assert(threads.contains(more[more.len() - 1]));
    }
}

/// Adding the same document again opens no thread a second time.
pub proof fn law_adding_again_opens_no_thread(threads: Seq<Seq<char>>, raw: Seq<char>)
    ensures
        with_threads(with_threads(threads, thread_lines(raw)), thread_lines(raw)) == with_threads(
            threads,
            thread_lines(raw),
        ),
{
    let more = thread_lines(raw);
    let t = with_threads(threads, more);
    assert forall|i: int| 0 <= i < more.len() implies t.contains(#[trigger] more[i]) by {
        lemma_threads_contain(threads, more, more[i]);
    }
    lemma_threads_known(t, more);
}

/// No thread is open twice, as long as none was.
pub proof fn law_threads_stay_distinct(threads: Seq<Seq<char>>, more: Seq<Seq<char>>)
    requires
        threads.no_duplicates(),
    ensures
        with_threads(threads, more).no_duplicates(),
    decreases more.len(),
{
    if more.len() > 0 {
        law_threads_stay_distinct(threads, more.drop_last());
    }
}

/// The answer to an add.
pub open spec fn add_answer(source: Seq<char>, name: Seq<char>, parsed: nat, total: nat) -> Seq<
    char,
> {
    "Added handoff \""@ + source + "\" to \""@ + name + "\".\nParsed "@ + decimal(parsed)
        + " line(s) into open_threads.\nTotal open threads: "@ + decimal(total)
}

/// The answer to an add.
pub fn add_report(source: &str, name: &str, parsed: usize, total: usize) -> (r: String)
    ensures
        r@ == add_answer(source@, name@, parsed as nat, total as nat),
{
    let mut out = "Added handoff \"".to_owned();
    out.append(source);
    out.append("\" to \"");
    out.append(name);
    out.append("\".\nParsed ");
    out.append(decimal_string(parsed as u64).as_str());
    out.append(" line(s) into open_threads.\nTotal open threads: ");
    out.append(decimal_string(total as u64).as_str());
    out
}

// ---- specs ----

/// A spec: the name of its file without the ending, and its text.
#[derive(Debug, Clone, PartialEq, Eq)]
pub struct SpecFile {
    pub name: String,
    pub content: String,
}

/// A file as it is found in the directory of specs.
pub struct FoundFile {
    pub name: String,
    pub is_file: bool,
}

/// The name of a spec's file without the ending; nothing for any other file.
pub open spec fn spec_stem(f: FoundFile) -> Option<Seq<char>> {
    if f.is_file && ends_with(f.name@, ".md"@) && f.name@.len() > 3 {
        Some(f.name@.take(f.name@.len() - 3))
    } else {
        None
    }
}

/// The names of the specs among some files, as they are found.
pub open spec fn spec_stems(found: Seq<FoundFile>) -> Seq<Seq<char>>
    decreases found.len(),
{
    if found.len() == 0 {
        Seq::empty()
    } else {
        let r = spec_stems(found.drop_last());
        match spec_stem(found.last()) {
            Some(t) => r.push(t),
            None => r,
        }
    }
}

/// The names of the specs among some files, in ascending order.
pub fn list_specs(found: &[FoundFile]) -> (r: Vec<String>)
    ensures
        is_sorted(texts(r@), false),
        texts(r@).to_multiset() =~= spec_stems(found@).to_multiset(),
{
    let mut out: Vec<String> = Vec::new();
    let mut i: usize = 0;
    assert(found@.take(0).len() == 0);
    assert(texts(out@) =~= spec_stems(found@.take(0)));
    while i < found.len()
        invariant
            i <= found.len(),
            texts(out@) == spec_stems(found@.take(i as int)),
        decreases found.len() - i,
    {
        let ghost before = out@;
        proof {
            assert(found@.take(i + 1).drop_last() =~= found@.take(i as int));
            assert(found@.take(i + 1).last() == found@[i as int]);
        }
        let name = found[i].name.as_str();
        let n: usize = name.unicode_len();
        if found[i].is_file && str_ends_with(name, ".md") && n > 3 {
            let stem = name.substring_char(0, n - 3).to_owned();
            assert(name@.subrange(0, n - 3) =~= name@.take(n - 3));
            out.push(stem);
            assert(texts(out@) =~= texts(before).push(stem@));
        }
        i += 1;
    }
    assert(found@.take(i as int) =~= found@);
    sort_strings(out, false)
}

/// How a spec stands against the digest it had.
pub open spec fn spec_status(prev: Seq<(Seq<char>, Seq<char>)>, f: SpecFile) -> Seq<char> {
    match lookup(prev, f.name@) {
        None => "added"@,
        Some(old) => if old == sha1_text(f.content@).take(12) {
            "unchanged"@
        } else {
            "modified"@
        },
    }
}

/// Each spec with its status, in order.
pub open spec fn spec_statuses(
    prev: Seq<(Seq<char>, Seq<char>)>,
    specs: Seq<SpecFile>,
) -> Seq<(Seq<char>, Seq<char>)> {
    specs.map_values(|f: SpecFile| (f.name@, spec_status(prev, f)))
}

/// The digests of some specs.
pub open spec fn spec_digests(specs: Seq<SpecFile>) -> Seq<(Seq<char>, Seq<char>)>
    decreases specs.len(),
{
    if specs.len() == 0 {
        Seq::empty()
    } else {
        put(
            spec_digests(specs.drop_last()),
            specs.last().name@,
            sha1_text(specs.last().content@).take(12),
        )
    }
}

/// What has changed: `name (status)` for each spec that is not unchanged.
pub open spec fn drift_entries(diffs: Seq<(Seq<char>, Seq<char>)>) -> Seq<Seq<char>>
    decreases diffs.len(),
{
    if diffs.len() == 0 {
        Seq::empty()
    } else {
        let r = drift_entries(diffs.drop_last());
        if diffs.last().1 == "unchanged"@ {
            r
        } else {
            r.push(diffs.last().0 + " ("@ + diffs.last().1 + ")"@)
        }
    }
}

/// The snapshot of the specs after they were compared: new digests and time, and
/// the new drift, except that an old drift stays where nothing has changed.
pub open spec fn synced(s: SpecSyncView, specs: Seq<SpecFile>, now: Seq<char>) -> SpecSyncView {
    let drift = drift_entries(spec_statuses(s.specs, specs));
    SpecSyncView {
        last_sync: now,
        drift: if drift.len() == 0 {
            s.drift
        } else {
            drift
        },
        specs: spec_digests(specs),
    }
}

fn status_of(prev: &Vec<(String, String)>, name: &str, hash: &str) -> (r: String)
    ensures
        r@ == (match lookup(digest_views(prev@), name@) {
            None => "added"@,
            Some(old) => if old == hash@ {
                "unchanged"@
            } else {
                "modified"@
            },
        }),
{
    proof {
        lemma_digest_names(prev@);
    }
    match find_entry(prev, name) {
        None => "added".to_owned(),
        Some(i) => if same(prev[i].1.as_str(), hash) {
            "unchanged".to_owned()
        } else {
            "modified".to_owned()
        },
    }
}

fn put_digest(m: &mut Vec<(String, String)>, name: &str, hash: String)
    ensures
        digest_views(final(m)@) == put(digest_views(old(m)@), name@, hash@),
{
    let ghost before = m@;
    proof {
        lemma_digest_names(before);
    }
    match find_entry(m, name) {
        Some(i) => {
            m.set(i, (name.to_owned(), hash));
            assert(digest_views(m@) =~= digest_views(before).update(i as int, (name@, hash@)));
        },
        None => {
            let p: usize = entry_place(m, name);
            m.insert(p, (name.to_owned(), hash));
            assert(digest_views(m@) =~= digest_views(before).insert(p as int, (name@, hash@)));
        },
    }
}

/// Compares the specs with their snapshot in a state, renews it, and gives the
/// status of each.
pub fn diff_specs(sync: &mut SpecSync, specs: &[SpecFile], now: &str) -> (diffs: Vec<
    (String, String),
>)
    ensures
        final(sync)@ == synced(old(sync)@, specs@, now@),
        digest_views(diffs@) == spec_statuses(old(sync)@.specs, specs@),
{
    let ghost prev = sync@.specs;
    let mut next: Vec<(String, String)> = Vec::new();
    let mut diffs: Vec<(String, String)> = Vec::new();
    let mut drift: Vec<String> = Vec::new();
    let mut i: usize = 0;
    proof {
        assert(specs@.take(0).len() == 0);
        assert(digest_views(next@) =~= spec_digests(specs@.take(0)));
        assert(digest_views(diffs@) =~= spec_statuses(prev, specs@.take(0)));
        assert(texts(drift@) =~= drift_entries(digest_views(diffs@)));
    }
    while i < specs.len()
        invariant
            i <= specs.len(),
            prev == sync@.specs,
            sync@ == old(sync)@,
            digest_views(next@) == spec_digests(specs@.take(i as int)),
            digest_views(diffs@) == spec_statuses(prev, specs@.take(i as int)),
            texts(drift@) == drift_entries(digest_views(diffs@)),
        decreases specs.len() - i,
    {
        let f = &specs[i];
        let ghost diffs0 = diffs@;
        let ghost drift0 = drift@;
        proof {
            assert(specs@.take(i + 1).drop_last() =~= specs@.take(i as int));
            assert(specs@.take(i + 1).last() == specs@[i as int]);
            assert(specs@.take(i + 1) =~= specs@.take(i as int).push(specs@[i as int]));
        }
        let hash = sha1_12(f.content.as_str());
        let status = status_of(&sync.specs, f.name.as_str(), hash.as_str());
        put_digest(&mut next, f.name.as_str(), hash);
        if !same(status.as_str(), "unchanged") {
            let mut entry = f.name.clone();
            entry.append(" (");
            entry.append(status.as_str());
            entry.append(")");
            drift.push(entry);
            assert(texts(drift@) =~= texts(drift0).push(entry@));
        }
        let ghost st = status@;
        diffs.push((f.name.clone(), status));
        proof {
            let d = digest_views(diffs@);
            assert(d =~= digest_views(diffs0).push((f.name@, st)));
            assert(d.drop_last() =~= digest_views(diffs0));
            assert(spec_statuses(prev, specs@.take(i + 1)) =~= spec_statuses(
                prev,
                specs@.take(i as int),
            ).push((f.name@, spec_status(prev, *f))));
        }
        i += 1;
    }
    assert(specs@.take(i as int) =~= specs@);
    sync.specs = next;
    sync.last_sync = now.to_owned();
    assert(texts(drift@).len() == drift@.len());
    if drift.len() > 0 {
        sync.drift = drift;
    }
    diffs
}

/// The digests of some specs are in ascending order of the names, each name once.
pub proof fn law_digests_are_in_order(specs: Seq<SpecFile>)
    ensures
        is_ordered(keys(spec_digests(specs))),
    decreases specs.len(),
{
    if specs.len() > 0 {
        law_digests_are_in_order(specs.drop_last());
        law_put_keeps_order(
            spec_digests(specs.drop_last()),
            specs.last().name@,
            sha1_text(specs.last().content@).take(12),
        );
    }
}

/// Comparing again what has been compared finds every spec unchanged, and leaves the
/// drift that was found before.
pub proof fn law_comparing_again_finds_no_change(
    s: SpecSyncView,
    specs: Seq<SpecFile>,
    now: Seq<char>,
    later: Seq<char>,
)
    requires
        forall|i: int, j: int|
            0 <= i < j < specs.len() ==> (#[trigger] specs[i]).name@ != (#[trigger] specs[j]).name@,
    ensures
        forall|i: int|
            0 <= i < specs.len() ==> (#[trigger] spec_statuses(
                synced(s, specs, now).specs,
                specs,
            )[i]).1 == "unchanged"@,
        synced(synced(s, specs, now), specs, later) == (SpecSyncView {
            last_sync: later,
            ..synced(s, specs, now)
        }),
{
    let prev = spec_digests(specs);
    let st = spec_statuses(prev, specs);
    assert forall|i: int| 0 <= i < specs.len() implies (#[trigger] st[i]).1 == "unchanged"@ by {
        lemma_digest_of(specs, i);
    }
    lemma_no_drift(st);
}

proof fn lemma_digest_of(specs: Seq<SpecFile>, i: int)
    requires
        0 <= i < specs.len(),
        forall|i: int, j: int|
            0 <= i < j < specs.len() ==> (#[trigger] specs[i]).name@ != (#[trigger] specs[j]).name@,
    ensures
        lookup(spec_digests(specs), specs[i].name@) == Some(
            sha1_text(specs[i].content@).take(12),
        ),
    decreases specs.len(),
{
    let init = specs.drop_last();
    let last = specs.last();
    law_put_then_lookup(
        spec_digests(init),
        last.name@,
        sha1_text(last.content@).take(12),
        specs[i].name@,
    );
    if i < init.len() {
        assert forall|a: int, b: int| 0 <= a < b < init.len() implies (#[trigger] init[a]).name@ != (
        #[trigger] init[b]).name@ by {
            assert(init[a] == specs[a] && init[b] == specs[b]);
        }
        lemma_digest_of(init, i);
        assert(init[i] == specs[i]);
        assert(specs[i].name@ != specs[specs.len() - 1].name@);
    }
}

proof fn lemma_no_drift(st: Seq<(Seq<char>, Seq<char>)>)
    requires
        forall|i: int| 0 <= i < st.len() ==> (#[trigger] st[i]).1 == "unchanged"@,
    ensures
        drift_entries(st).len() == 0,
    decreases st.len(),
{
    if st.len() > 0 {
        let init = st.drop_last();
        assert forall|i: int| 0 <= i < init.len() implies (#[trigger] init[i]).1 == "unchanged"@ by {
            assert(init[i] == st[i]);
        }
        lemma_no_drift(init);
        assert(st[st.len() - 1].1 == "unchanged"@);
    }
}

/// Whether some line is a top-level title: a `#` and then white space.
pub open spec fn has_title(ls: Seq<Seq<char>>) -> bool {
    exists|i: int|
        0 <= i < ls.len() && (#[trigger] ls[i]).len() > 1 && ls[i][0] == '#' && is_space(ls[i][1])
}

/// Whether a line is the heading of removed requirements: two marks at its start and then
/// the words, in any case.
pub open spec fn is_removed_heading(line: Seq<char>) -> bool {
    starts_with(line, "##"@) && starts_with(
        lowered(trim_start(line.skip(2))),
        "removed requirements"@,
    )
}

/// Whether a heading of removed requirements is followed by a line that is not blank.
pub open spec fn has_removed_content(ls: Seq<Seq<char>>) -> bool {
    exists|i: int, j: int|
        0 <= i < j < ls.len() && is_removed_heading(#[trigger] ls[i]) && trim(
            #[trigger] ls[j],
        ).len() > 0
}

/// The issues of a spec, given its lower-cased text and whether it has removed
/// requirements.
pub open spec fn issues_given(
    name: Seq<char>,
    content: Seq<char>,
    low: Seq<char>,
    removed: bool,
) -> Seq<Seq<char>> {
    let a = if has_title(lines(content)) {
        Seq::empty()
    } else {
        seq![name + ": missing top-level title"@]
    };
    let b = if contains(low, "conflict:"@) {
        a.push(name + ": contains CONFLICT marker"@)
    } else {
        a
    };
    let c = if contains(low, "broken:"@) {
        b.push(name + ": contains BROKEN marker"@)
    } else {
        b
    };
    if removed {
        c.push(name + ": has REMOVED requirements (reconcile drift)"@)
    } else {
        c
    }
}

/// The issues of a spec.
pub open spec fn spec_issues(f: SpecFile) -> Seq<Seq<char>> {
    issues_given(
        f.name@,
        f.content@,
        lowered(f.content@),
        has_removed_content(lines(f.content@)),
    )
}

/// The issues of some specs, spec after spec.
pub open spec fn all_issues(specs: Seq<SpecFile>) -> Seq<Seq<char>>
    decreases specs.len(),
{
    if specs.len() == 0 {
        Seq::empty()
    } else {
        all_issues(specs.drop_last()) + spec_issues(specs.last())
    }
}

fn titled(ls: &Vec<&str>) -> (r: bool)
    ensures
        r == has_title(views(ls@)),
{
    let ghost all = views(ls@);
    let mut i: usize = 0;
    while i < ls.len()
        invariant
            i <= ls.len(),
            all == views(ls@),
            forall|j: int|
                0 <= j < i ==> !((#[trigger] all[j]).len() > 1 && all[j][0] == '#' && is_space(
                    all[j][1],
                )),
        decreases ls.len() - i,
    {
        let cs = to_chars(ls[i]);
        assert(all[i as int] == cs@);
        if cs.len() > 1 && cs[0] == '#' && is_whitespace(cs[1]) {
            return true;
        }
        i += 1;
    }
    false
}

fn removed_heading(line: &str) -> (r: bool)
    ensures
        r == is_removed_heading(line@),
{
    if !str_starts_with(line, "##") {
        return false;
    }
    let n: usize = line.unicode_len();
    proof {
        reveal_strlit("##");
        assert(line@.take(2).len() == 2);
        assert(line@.subrange(2, n as int) =~= line@.skip(2));
    }
    let words = str_to_lowercase(str_trim_start(line.substring_char(2, n)));
    str_starts_with(words.as_str(), "removed requirements")
}

fn removed_content(ls: &Vec<&str>) -> (r: bool)
    ensures
        r == has_removed_content(views(ls@)),
{
    let ghost all = views(ls@);
    let mut seen: bool = false;
    let mut i: usize = 0;
    while i < ls.len()
        invariant
            i <= ls.len(),
            all == views(ls@),
            seen <==> exists|a: int| 0 <= a < i && is_removed_heading(#[trigger] all[a]),
            forall|a: int, b: int|
                0 <= a < b < i && is_removed_heading(#[trigger] all[a]) ==> trim(
                    #[trigger] all[b],
                ).len() == 0,
        decreases ls.len() - i,
    {
        assert(all[i as int] == ls@[i as int]@);
        if seen && !str_trim(ls[i]).is_empty() {
            let ghost a = choose|a: int| 0 <= a < i && is_removed_heading(#[trigger] all[a]);
            assert(is_removed_heading(all[a]) && trim(all[i as int]).len() > 0);
            return true;
        }
        if removed_heading(ls[i]) {
            assert(is_removed_heading(all[i as int]));
            seen = true;
        }
        i += 1;
    }
    false
}

/// The issues of a spec, given its lower-cased text and whether it has removed
/// requirements.
pub fn issues_of(name: &str, content: &str, low: &str, removed: bool) -> (issues: Vec<String>)
    ensures
        texts(issues@) == issues_given(name@, content@, low@, removed),
{
    let mut issues: Vec<String> = Vec::new();
    let ls = str_lines(content);
    let ghost v0 = issues@;
    if !titled(&ls) {
        issues.push(prefixed(name, ": missing top-level title"));
        assert(texts(issues@) =~= seq![name@ + ": missing top-level title"@]);
    } else {
        assert(texts(issues@) =~= Seq::<Seq<char>>::empty());
    }
    let ghost v1 = issues@;
    if str_contains(low, "conflict:") {
        issues.push(prefixed(name, ": contains CONFLICT marker"));
        assert(texts(issues@) =~= texts(v1).push(name@ + ": contains CONFLICT marker"@));
    }
    let ghost v2 = issues@;
    if str_contains(low, "broken:") {
        issues.push(prefixed(name, ": contains BROKEN marker"));
        assert(texts(issues@) =~= texts(v2).push(name@ + ": contains BROKEN marker"@));
    }
    let ghost v3 = issues@;
    if removed {
        issues.push(prefixed(name, ": has REMOVED requirements (reconcile drift)"));
        assert(texts(issues@) =~= texts(v3).push(
            name@ + ": has REMOVED requirements (reconcile drift)"@,
        ));
    }
    issues
}

/// Whether all specs are consistent, and the issues of those that are not.
pub fn consistency_check(specs: &[SpecFile]) -> (r: (bool, Vec<String>))
    ensures
        texts(r.1@) == all_issues(specs@),
        r.0 == (all_issues(specs@).len() == 0),
{
    let mut issues: Vec<String> = Vec::new();
    let mut i: usize = 0;
    assert(specs@.take(0).len() == 0);
    assert(texts(issues@) =~= all_issues(specs@.take(0)));
    while i < specs.len()
        invariant
            i <= specs.len(),
            texts(issues@) == all_issues(specs@.take(i as int)),
        decreases specs.len() - i,
    {
        let f = &specs[i];
        let ghost before = issues@;
        proof {
            assert(specs@.take(i + 1).drop_last() =~= specs@.take(i as int));
            assert(specs@.take(i + 1).last() == specs@[i as int]);
        }
        let low = str_to_lowercase(f.content.as_str());
        let ls = str_lines(f.content.as_str());
        let removed: bool = removed_content(&ls);
        let mut more = issues_of(f.name.as_str(), f.content.as_str(), low.as_str(), removed);
        let ghost m = more@;
        issues.append(&mut more);
        assert(texts(issues@) =~= texts(before) + texts(m));
        i += 1;
    }
    assert(specs@.take(i as int) =~= specs@);
    assert(texts(issues@).len() == issues@.len());
    (issues.len() == 0, issues)
}

/// The first heading, else the first line, else nothing.
pub open spec fn intent_line(ls: Seq<Seq<char>>) -> Seq<char> {
    match first_heading(ls) {
        Some(l) => l,
        None => if ls.len() > 0 {
            ls[0]
        } else {
            Seq::empty()
        },
    }
}

/// Whether a line starts as a heading of one of the first three levels.
pub open spec fn is_heading(line: Seq<char>) -> bool {
    starts_with(line, "#"@) && !starts_with(line, "####"@)
}

/// The first line that is a heading.
pub open spec fn first_heading(ls: Seq<Seq<char>>) -> Option<Seq<char>>
    decreases ls.len(),
{
    if ls.len() == 0 {
        None
    } else if is_heading(ls[0]) {
        Some(ls[0])
    } else {
        first_heading(ls.drop_first())
    }
}

/// The intent of a spec: its first heading without the marks, or its first line,
/// cut to 120 characters.
pub open spec fn intent_of(content: Seq<char>) -> Seq<char> {
    let t = trim(strip_all(intent_line(lines(content)), "#"@));
    if t.len() > 120 {
        t.take(117) + "..."@
    } else {
        t
    }
}

/// The intent of a spec.
pub fn extract_intent(content: &str) -> (r: String)
    ensures
        r@ == intent_of(content@),
{
    let ls = str_lines(content);
    let ghost all = lines(content@);
    let mut line: &str = "";
    proof {
        reveal_strlit("");
        reveal_strlit("#");
        assert(""@ =~= Seq::<char>::empty());
    }
    if ls.len() > 0 {
        line = ls[0];
        assert(all[0] == ls@[0]@);
    }
    let ghost fallback = line@;
    let mut i: usize = 0;
    assert(all.skip(0) =~= all);
    let mut found: bool = false;
    while i < ls.len() && !found
        invariant
            i <= ls.len(),
            views(ls@) == all,
            !found ==> first_heading(all.skip(i as int)) == first_heading(all) && line@ == fallback,
            found ==> first_heading(all) == Some(line@),
        decreases ls.len() - i,
    {
        assert(all.skip(i as int)[0] == ls@[i as int]@);
        assert(all.skip(i as int).drop_first() =~= all.skip(i + 1));
        if str_starts_with(ls[i], "#") && !str_starts_with(ls[i], "####") {
            line = ls[i];
            found = true;
        }
        i += 1;
    }
    assert(!found ==> all.skip(i as int).len() == 0);
    assert(line@ == intent_line(all));
    let t = str_trim(str_strip_all(line, "#"));
    let n: usize = t.unicode_len();
    if n > 120 {
        assert(t@.subrange(0, 117) =~= t@.take(117));
        let mut cut = t.substring_char(0, 117).to_owned();
        cut.append("...");
        cut
    } else {
        t.to_owned()
    }
}

/// The intent of a spec has at most 120 characters.
pub proof fn law_intent_is_short(content: Seq<char>)
    ensures
        intent_of(content).len() <= 120,
{
    reveal_strlit("...");
}

// ---- laws ----

/// What a save hands over is what is found afterwards under the name: each text that is
/// given replaces the one before, and one that is not given stays as it was, or empty for
/// a repository that was not known.
pub proof fn law_saved_texts_are_found_again(
    s: RelayView,
    name: Seq<char>,
    a: SaveArgs,
    now: Seq<char>,
)
    ensures
        lookup(saved(s, name, a, now).repos, name) is Some,
        ({
            let r = lookup(saved(s, name, a, now).repos, name)->0;
            let was = lookup(s.repos, name);
            &&& r.name == name
            &&& r.last_updated == now
            &&& r.role == (match (a.role, was) {
                (Some(v), _) => v@,
                (None, Some(w)) => w.role,
                (None, None) => Seq::empty(),
            })
            &&& r.active_phase == (match (a.active_phase, was) {
                (Some(v), _) => v@,
                (None, Some(w)) => w.active_phase,
                (None, None) => Seq::empty(),
            })
            &&& r.volatile_state == (match (a.volatile_state, was) {
                (Some(v), _) => v@,
                (None, Some(w)) => w.volatile_state,
                (None, None) => Seq::empty(),
            })
            &&& r.next_session_starter == (match (a.next_session_starter, was) {
                (Some(v), _) => v@,
                (None, Some(w)) => w.next_session_starter,
                (None, None) => Seq::empty(),
            })
            &&& r.path == (match was {
                Some(w) => w.path,
                None => name,
            })
            &&& r.handoffs == (match was {
                Some(w) => w.handoffs,
                None => Seq::empty(),
            })
        }),
{
    law_put_then_lookup(s.repos, name, saved_repo(repo_or_default(s, name), name, a, now), name);
}

/// A save records the confidence it is given, brought into the range from 1 to 5, and the
/// tags between the commas, trimmed and without the empty ones; what is not given stays.
pub proof fn law_saved_confidence_and_tags_are_found_again(
    s: RelayView,
    name: Seq<char>,
    a: SaveArgs,
    now: Seq<char>,
)
    ensures
        lookup(saved(s, name, a, now).repos, name) is Some,
        ({
            let r = lookup(saved(s, name, a, now).repos, name)->0;
            let was = lookup(s.repos, name);
            &&& a.confidence matches Some(c) ==> {
                &&& 1 <= c <= 5 ==> r.confidence_score == c
                &&& c < 1 ==> r.confidence_score == 1
                &&& c > 5 ==> r.confidence_score == 5
            }
            &&& a.confidence is None && was is Some ==> r.confidence_score
                == was->0.confidence_score
            &&& a.confidence is None && was is None ==> r.confidence_score == 3
            &&& a.debt_tag matches Some(d) ==> r.debt_tag == split(d@, ',').map_values(
                |t: Seq<char>| trim(t),
            ).filter(|t: Seq<char>| t.len() > 0)
            &&& a.debt_tag is None && was is Some ==> r.debt_tag == was->0.debt_tag
            &&& a.debt_tag is None && was is None ==> r.debt_tag == Seq::<Seq<char>>::empty()
        }),
{
    law_put_then_lookup(s.repos, name, saved_repo(repo_or_default(s, name), name, a, now), name);
    if let Some(d) = a.debt_tag {
        crate::text::law_trimmed_pieces(split(d@, ','));
    }
}

/// A save touches nothing of a state but its repositories and, where nobody holds it, the
/// baton.
pub proof fn law_save_leaves_the_rest(s: RelayView, name: Seq<char>, a: SaveArgs, now: Seq<char>)
    ensures
        ({
            let t = saved(s, name, a, now);
            &&& t.schema_version == s.schema_version
            &&& t.project_context == s.project_context
            &&& t.state_snapshot == s.state_snapshot
            &&& t.spec_sync == s.spec_sync
            &&& t.updated_at == s.updated_at
        }),
{
}

/// The last of two saves decides each text that it gives, and the first one those that
/// the last does not give.
pub proof fn law_later_saves_decide(
    s: RelayView,
    name: Seq<char>,
    a: SaveArgs,
    b: SaveArgs,
    now: Seq<char>,
    later: Seq<char>,
)
    ensures
        ({
            let one = saved(s, name, a, now);
            let r = lookup(one.repos, name)->0;
            let t = lookup(saved(one, name, b, later).repos, name)->0;
            &&& b.role is None ==> t.role == r.role
            &&& b.active_phase is None ==> t.active_phase == r.active_phase
            &&& b.volatile_state is None ==> t.volatile_state == r.volatile_state
            &&& b.next_session_starter is None ==> t.next_session_starter
                == r.next_session_starter
            &&& b.debt_tag is None ==> t.debt_tag == r.debt_tag
            &&& b.confidence is None ==> t.confidence_score == r.confidence_score
            &&& b.role is Some ==> t.role == b.role->0@
            &&& b.active_phase is Some ==> t.active_phase == b.active_phase->0@
            &&& b.volatile_state is Some ==> t.volatile_state == b.volatile_state->0@
            &&& b.next_session_starter is Some ==> t.next_session_starter
                == b.next_session_starter->0@
            &&& t.last_updated == later
        }),
{
    let one = saved(s, name, a, now);
    law_saved_texts_are_found_again(s, name, a, now);
    law_saved_texts_are_found_again(one, name, b, later);
    law_saved_confidence_and_tags_are_found_again(one, name, b, later);
}

/// A document that is added is the last of those found under the name afterwards, with its
/// source, its text and the time; those before it and all else about the repository stay.
pub proof fn law_added_documents_are_found_again(
    s: RelayView,
    name: Seq<char>,
    source: Seq<char>,
    raw: Seq<char>,
    now: Seq<char>,
    other: Seq<char>,
)
    ensures
        lookup(added(s, name, source, raw, now).repos, name) is Some,
        ({
            let t = added(s, name, source, raw, now);
            let r = lookup(t.repos, name)->0;
            let was = lookup(s.repos, name);
            let before = match was {
                Some(w) => w.handoffs,
                None => Seq::empty(),
            };
            &&& r.handoffs.len() == before.len() + 1
            &&& r.handoffs.drop_last() == before
            &&& r.handoffs.last().source == source
            &&& r.handoffs.last().raw == raw
            &&& r.handoffs.last().captured_at == now
            &&& r.name == name
            &&& r.last_updated == now
            &&& was matches Some(w) ==> {
                &&& r.path == w.path
                &&& r.role == w.role
                &&& r.active_phase == w.active_phase
                &&& r.volatile_state == w.volatile_state
                &&& r.next_session_starter == w.next_session_starter
                &&& r.confidence_score == w.confidence_score
                &&& r.debt_tag == w.debt_tag
            }
            &&& was is None ==> r.path == name
            &&& other != name ==> lookup(t.repos, other) == lookup(s.repos, other)
            &&& t.active_baton == s.active_baton
            &&& t.schema_version == s.schema_version
            &&& t.project_context == s.project_context
            &&& t.spec_sync == s.spec_sync
            &&& t.updated_at == s.updated_at
            &&& t.state_snapshot.last_session == s.state_snapshot.last_session
            &&& t.state_snapshot.blockers == s.state_snapshot.blockers
        }),
{
    let r = repo_or_default(s, name);
    let v = RepoView {
        name,
        handoffs: r.handoffs.push(HandoffView { source, captured_at: now, raw }),
        last_updated: now,
        ..r
    };
    law_put_then_lookup(s.repos, name, v, name);
    law_put_then_lookup(s.repos, name, v, other);
    assert(v.handoffs.drop_last() =~= r.handoffs);
}

/// The open threads after a document was added: those that were open, in their order,
/// and then, each once, the lines of the document, trimmed; a blank line is none, and one
/// that was open before is not repeated.
pub proof fn law_added_lines_become_threads(
    s: RelayView,
    name: Seq<char>,
    source: Seq<char>,
    raw: Seq<char>,
    now: Seq<char>,
)
    ensures
        ({
            let old_threads = s.state_snapshot.open_threads;
            let threads = added(s, name, source, raw, now).state_snapshot.open_threads;
            let ls = lines(raw);
            &&& old_threads.is_prefix_of(threads)
            &&& forall|i: int|
                0 <= i < ls.len() && trim(#[trigger] ls[i]).len() > 0 ==> threads.contains(
                    trim(ls[i]),
                )
            &&& forall|k: int|
                old_threads.len() <= k < threads.len() ==> {
                    &&& (#[trigger] threads[k]).len() > 0
                    &&& exists|i: int| 0 <= i < ls.len() && trim(#[trigger] ls[i]) == threads[k]
                    &&& forall|j: int| 0 <= j < k ==> #[trigger] threads[j] != threads[k]
                }
        }),
{
    let f = |t: Seq<char>| trim(t);
    let g = |t: Seq<char>| t.len() > 0;
    let ls = lines(raw);
    let more = thread_lines(raw);
    let old_threads = s.state_snapshot.open_threads;
    let threads = with_threads(old_threads, more);
    crate::text::law_trimmed_pieces(ls);
    let mapped = ls.map_values(f);
    crate::text::lemma_filter(mapped, g);
    lemma_threads_follow(old_threads, more);
    assert forall|i: int| 0 <= i < ls.len() && trim(#[trigger] ls[i]).len() > 0 implies threads.contains(
        trim(ls[i]),
    ) by {
        assert(mapped[i] == trim(ls[i]));
        assert(g(mapped[i]));
        assert(more.contains(mapped[i]));
        lemma_threads_contain(old_threads, more, mapped[i]);
    }
    assert forall|k: int| old_threads.len() <= k < threads.len() implies {
        &&& (#[trigger] threads[k]).len() > 0
        &&& exists|i: int| 0 <= i < ls.len() && trim(#[trigger] ls[i]) == threads[k]
    } by {
        let m = choose|m: int| 0 <= m < more.len() && more[m] == threads[k];
        assert(g(more[m]));
        crate::text::lemma_filter_keeps(mapped, g, m);
        let i = choose|i: int| 0 <= i < mapped.len() && #[trigger] mapped[i] == more[m];
        assert(trim(ls[i]) == mapped[i]);
    }
}

/// New threads follow the old ones, each once.
pub proof fn lemma_threads_follow(threads: Seq<Seq<char>>, more: Seq<Seq<char>>)
    ensures
        ({
            let r = with_threads(threads, more);
            &&& threads.is_prefix_of(r)
            &&& forall|k: int|
                threads.len() <= k < r.len() ==> {
                    &&& more.contains(#[trigger] r[k])
                    &&& forall|j: int| 0 <= j < k ==> #[trigger] r[j] != r[k]
                }
        }),
    decreases more.len(),
{
    let r = with_threads(threads, more);
    if more.len() > 0 {
        let m = more.drop_last();
        let p = with_threads(threads, m);
        lemma_threads_follow(threads, m);
        assert forall|i: int| 0 <= i < threads.len() implies threads[i] == r[i] by {
            assert(p.subrange(0, threads.len() as int)[i] == p[i]);
        }
        assert forall|k: int| threads.len() <= k < r.len() implies {
            &&& more.contains(#[trigger] r[k])
            &&& forall|j: int| 0 <= j < k ==> #[trigger] r[j] != r[k]
        } by {
            if k < p.len() {
                assert(r[k] == p[k]);
                let q = choose|q: int| 0 <= q < m.len() && m[q] == p[k];
                assert(more[q] == r[k]);
                assert forall|j: int| 0 <= j < k implies #[trigger] r[j] != r[k] by {
                    assert(r[j] == p[j]);
                }
            } else {
                assert(more[more.len() - 1] == r[k]);
                assert forall|j: int| 0 <= j < k implies #[trigger] r[j] != r[k] by {
                    assert(r[j] == p[j]);
                    assert(p.contains(p[j]));
                }
            }
        }
    }
    assert(threads =~= r.subrange(0, threads.len() as int));
}

/// A spec is new where no digest has its name, unchanged where the digest under its name is
/// that of its text, and modified otherwise. Each spec has its status, under its name.
pub proof fn law_spec_status(prev: Seq<(Seq<char>, Seq<char>)>, specs: Seq<SpecFile>, i: int)
    requires
        0 <= i < specs.len(),
    ensures
        spec_statuses(prev, specs).len() == specs.len(),
        spec_statuses(prev, specs)[i].0 == specs[i].name@,
        (forall|k: int| 0 <= k < prev.len() ==> (#[trigger] prev[k]).0 != specs[i].name@)
            ==> spec_statuses(prev, specs)[i].1 == "added"@,
        forall|k: int|
            0 <= k < prev.len() && (#[trigger] prev[k]).0 == specs[i].name@ && (forall|j: int|
                0 <= j < k ==> (#[trigger] prev[j]).0 != specs[i].name@) ==> spec_statuses(
                prev,
                specs,
            )[i].1 == (if prev[k].1 == sha1_text(specs[i].content@).take(12) {
                "unchanged"@
            } else {
                "modified"@
            }),
{
    let name = specs[i].name@;
    let ks = keys(prev);
    crate::names::lemma_key_pos(ks, name);
    assert forall|k: int| 0 <= k < prev.len() implies #[trigger] ks[k] == prev[k].0 by {}
    assert forall|k: int|
        0 <= k < prev.len() && (#[trigger] prev[k]).0 == name && (forall|j: int|
            0 <= j < k ==> (#[trigger] prev[j]).0 != name) implies spec_statuses(prev, specs)[i].1
        == (if prev[k].1 == sha1_text(specs[i].content@).take(12) {
        "unchanged"@
    } else {
        "modified"@
    }) by {
        assert(ks[k] == name);
        let p = crate::names::key_pos(ks, name)->0;
        assert(ks[p as int] == name);
        assert(prev[p as int].0 == name);
        assert(p == k);
    }
    if forall|k: int| 0 <= k < prev.len() ==> (#[trigger] prev[k]).0 != name {
        if let Some(p) = crate::names::key_pos(ks, name) {
            assert(ks[p as int] == prev[p as int].0);
        }
    }
}

/// After a comparison the digest of every spec is that of its text, none is left of a spec
/// that is gone, and the time is that of the comparison.
pub proof fn law_digests_are_renewed(
    s: SpecSyncView,
    specs: Seq<SpecFile>,
    now: Seq<char>,
    name: Seq<char>,
)
    requires
        forall|i: int, j: int|
            0 <= i < j < specs.len() ==> (#[trigger] specs[i]).name@ != (#[trigger] specs[j]).name@,
    ensures
        synced(s, specs, now).last_sync == now,
        forall|i: int|
            0 <= i < specs.len() && (#[trigger] specs[i]).name@ == name ==> lookup(
                synced(s, specs, now).specs,
                name,
            ) == Some(sha1_text(specs[i].content@).take(12)),
        (forall|i: int| 0 <= i < specs.len() ==> (#[trigger] specs[i]).name@ != name) ==> lookup(
            synced(s, specs, now).specs,
            name,
        ) is None,
{
    assert forall|i: int| 0 <= i < specs.len() && (#[trigger] specs[i]).name@ == name implies lookup(
        synced(s, specs, now).specs,
        name,
    ) == Some(sha1_text(specs[i].content@).take(12)) by {
        lemma_digest_of(specs, i);
    }
    if forall|i: int| 0 <= i < specs.len() ==> (#[trigger] specs[i]).name@ != name {
        lemma_no_digest(specs, name);
    }
}

proof fn lemma_no_digest(specs: Seq<SpecFile>, name: Seq<char>)
    requires
        forall|i: int| 0 <= i < specs.len() ==> (#[trigger] specs[i]).name@ != name,
    ensures
        lookup(spec_digests(specs), name) is None,
    decreases specs.len(),
{
    if specs.len() > 0 {
        let init = specs.drop_last();
        assert forall|i: int| 0 <= i < init.len() implies (#[trigger] init[i]).name@ != name by {
            assert(init[i] == specs[i]);
        }
        lemma_no_digest(init, name);
        assert(specs[specs.len() - 1].name@ != name);
        law_put_then_lookup(
            spec_digests(init),
            specs.last().name@,
            sha1_text(specs.last().content@).take(12),
            name,
        );
    } else {
        assert(keys(spec_digests(specs)) =~= Seq::<Seq<char>>::empty());
    }
}

/// The drift after a comparison names every spec that is not unchanged, in order, with its
/// status; where all are unchanged, the drift that was found before stays.
pub proof fn law_drift_names_what_changed(s: SpecSyncView, specs: Seq<SpecFile>, now: Seq<char>)
    ensures
        ({
            let changed = spec_statuses(s.specs, specs).filter(
                |d: (Seq<char>, Seq<char>)| d.1 != "unchanged"@,
            );
            &&& changed.len() == 0 ==> synced(s, specs, now).drift == s.drift
            &&& changed.len() > 0 ==> synced(s, specs, now).drift == changed.map_values(
                |d: (Seq<char>, Seq<char>)| d.0 + " ("@ + d.1 + ")"@,
            )
        }),
{
    lemma_drift_entries(spec_statuses(s.specs, specs));
}

proof fn lemma_drift_entries(st: Seq<(Seq<char>, Seq<char>)>)
    ensures
        drift_entries(st) == st.filter(
            |d: (Seq<char>, Seq<char>)| d.1 != "unchanged"@,
        ).map_values(|d: (Seq<char>, Seq<char>)| d.0 + " ("@ + d.1 + ")"@),
        drift_entries(st).len() == st.filter(
            |d: (Seq<char>, Seq<char>)| d.1 != "unchanged"@,
        ).len(),
    decreases st.len(),
{
    reveal(Seq::filter);
    let f = |d: (Seq<char>, Seq<char>)| d.1 != "unchanged"@;
    let g = |d: (Seq<char>, Seq<char>)| d.0 + " ("@ + d.1 + ")"@;
    if st.len() > 0 {
        let init = st.drop_last();
        lemma_drift_entries(init);
        let a = init.filter(f);
        assert(a.push(st.last()).map_values(g) =~= a.map_values(g).push(g(st.last())));
    } else {
        assert(drift_entries(st) =~= st.filter(f).map_values(g));
    }
}

/// A spec has an issue for each of four faults, in this order and no other: no line is a
/// top-level title; the text, in lower case, holds the mark of a conflict; it holds that of
/// something broken; something follows a heading of removed requirements.
pub proof fn law_issues_of_a_spec(f: SpecFile)
    ensures
        ({
            let ls = lines(f.content@);
            let titled = exists|i: int|
                0 <= i < ls.len() && (#[trigger] ls[i]).len() > 1 && ls[i][0] == '#' && is_space(
                    ls[i][1],
                );
            let conflict = contains(lowered(f.content@), "conflict:"@);
            let broken = contains(lowered(f.content@), "broken:"@);
            let removed = exists|i: int, j: int|
                0 <= i < j < ls.len() && is_removed_heading(#[trigger] ls[i]) && !is_blank(
                    #[trigger] ls[j],
                );
            let none = Seq::<Seq<char>>::empty();
            spec_issues(f) == (if titled {
                none
            } else {
                seq![f.name@ + ": missing top-level title"@]
            }) + (if conflict {
                seq![f.name@ + ": contains CONFLICT marker"@]
            } else {
                none
            }) + (if broken {
                seq![f.name@ + ": contains BROKEN marker"@]
            } else {
                none
            }) + (if removed {
                seq![f.name@ + ": has REMOVED requirements (reconcile drift)"@]
            } else {
                none
            })
        }),
{
    let ls = lines(f.content@);
    assert forall|j: int| 0 <= j < ls.len() implies (trim(#[trigger] ls[j]).len() > 0 <==> !is_blank(
        ls[j],
    )) by {
        law_trimmed(ls[j]);
    }
    let removed = exists|i: int, j: int|
        0 <= i < j < ls.len() && is_removed_heading(#[trigger] ls[i]) && !is_blank(
            #[trigger] ls[j],
        );
    if has_removed_content(ls) {
        let (i, j) = choose|i: int, j: int|
            0 <= i < j < ls.len() && is_removed_heading(#[trigger] ls[i]) && trim(
                #[trigger] ls[j],
            ).len() > 0;
        assert(is_removed_heading(ls[i]) && !is_blank(ls[j]));
    }
    if removed {
        let (i, j) = choose|i: int, j: int|
            0 <= i < j < ls.len() && is_removed_heading(#[trigger] ls[i]) && !is_blank(
                #[trigger] ls[j],
            );
        assert(is_removed_heading(ls[i]) && trim(ls[j]).len() > 0);
    }
    let none = Seq::<Seq<char>>::empty();
    let a = if has_title(ls) {
        none
    } else {
        seq![f.name@ + ": missing top-level title"@]
    };
    let b = if contains(lowered(f.content@), "conflict:"@) {
        seq![f.name@ + ": contains CONFLICT marker"@]
    } else {
        none
    };
    let c = if contains(lowered(f.content@), "broken:"@) {
        seq![f.name@ + ": contains BROKEN marker"@]
    } else {
        none
    };
    let d = if removed {
        seq![f.name@ + ": has REMOVED requirements (reconcile drift)"@]
    } else {
        none
    };
    assert(spec_issues(f) =~= a + b + c + d);
}

/// The heading of removed requirements has two marks at the start of its line, white space
/// or none behind them, and the words in any case; further marks make it another heading.
pub proof fn law_removed_headings(gap: Seq<char>, words: Seq<char>)
    requires
        is_blank(gap),
        words.len() > 0,
        !is_space(words[0]),
        is_ascii_text(words),
    ensures
        is_removed_heading("##"@ + gap + words) <==> starts_with(
            lower(words),
            "removed requirements"@,
        ),
        forall|line: Seq<char>|
            !starts_with(line, "##"@) ==> !#[trigger] is_removed_heading(line),
{
    let line = "##"@ + gap + words;
    reveal_strlit("##");
    assert(line.take(2) =~= "##"@);
    assert(line.skip(2) =~= gap + words);
    crate::text::lemma_trim_start_of(gap, words);
}

/// The issues of several specs are those of each, spec after spec.
pub proof fn law_issues_spec_after_spec(specs: Seq<SpecFile>, f: SpecFile)
    ensures
        all_issues(Seq::empty()) == Seq::<Seq<char>>::empty(),
        all_issues(specs.push(f)) == all_issues(specs) + spec_issues(f),
{
    assert(specs.push(f).drop_last() =~= specs);
}

/// The intent of a spec is its first heading of one of the three upper levels, or its first
/// line where it has no such heading, without the marks and without white space around it;
/// of one that is too long the first 117 characters, and three dots.
pub proof fn law_intent_is_the_first_heading(
    content: Seq<char>,
    i: int,
    marks: Seq<char>,
    rest: Seq<char>,
)
    requires
        0 <= i < lines(content).len(),
        lines(content)[i] == marks + rest,
        forall|j: int| 0 <= j < marks.len() ==> #[trigger] marks[j] == '#',
        rest.len() > 0 ==> rest[0] != '#',
        // The first heading, or the first line where there is none.
        (1 <= marks.len() <= 3 && forall|j: int|
            0 <= j < i ==> ((#[trigger] lines(content)[j]).len() == 0 || lines(content)[j][0] != '#'
                || starts_with(lines(content)[j], "####"@))) || (i == 0 && forall|j: int|
            0 <= j < lines(content).len() ==> ((#[trigger] lines(content)[j]).len() == 0
                || lines(content)[j][0] != '#' || starts_with(lines(content)[j], "####"@))),
    ensures
        trim(rest).len() <= 120 ==> intent_of(content) == trim(rest),
        trim(rest).len() > 120 ==> intent_of(content) == trim(rest).take(117) + "..."@,
{
    let ls = lines(content);
    let line = ls[i];
    reveal_strlit("#");
    reveal_strlit("####");
    assert("#"@ =~= seq!['#']);
    assert forall|j: int| 0 <= j < ls.len() implies (is_heading(#[trigger] ls[j]) <==> ls[j].len()
        > 0 && ls[j][0] == '#' && !starts_with(ls[j], "####"@)) by {
        lemma_starts_with_mark(ls[j]);
    }
    if 1 <= marks.len() <= 3 {
        assert(line[0] == marks[0]);
        if starts_with(line, "####"@) {
            assert(line.take(4)[marks.len() as int] == '#');
            assert(line[marks.len() as int] == rest[0]);
        }
        assert(is_heading(ls[i]));
    }
    lemma_first_heading(ls, i);
    assert(intent_line(ls) == line);
    law_strip_all_marks(line, '#');
    let t = strip_all(line, "#"@);
    let k = line.len() - t.len();
    if k < marks.len() {
        assert(t[0] == line[k]);
        assert(line[k] == marks[k]);
    }
    if k > marks.len() {
        assert(line[marks.len() as int] == rest[0]);
    }
    assert(t =~= rest);
}

proof fn lemma_starts_with_mark(s: Seq<char>)
    ensures
        starts_with(s, seq!['#']) <==> s.len() > 0 && s[0] == '#',
{
    if s.len() > 0 {
        assert(s.take(1) =~= seq![s[0]]);
        if s.take(1) == seq!['#'] {
            assert(s.take(1)[0] == '#');
        }
    }
}

proof fn lemma_first_heading(ls: Seq<Seq<char>>, i: int)
    requires
        0 <= i < ls.len(),
    ensures
        is_heading(ls[i]) && (forall|j: int| 0 <= j < i ==> !is_heading(#[trigger] ls[j]))
            ==> first_heading(ls) == Some(ls[i]),
        (forall|j: int| 0 <= j < ls.len() ==> !is_heading(#[trigger] ls[j])) ==> first_heading(ls)
            is None,
    decreases ls.len(),
{
    let t = ls.drop_first();
    assert forall|j: int| 0 <= j < t.len() implies #[trigger] t[j] == ls[j + 1] by {}
    if t.len() > 0 {
        lemma_first_heading(
            t,
            if i > 0 {
                i - 1
            } else {
                0
            },
        );
    }
    if forall|j: int| 0 <= j < ls.len() ==> !is_heading(#[trigger] ls[j]) {
        assert(!is_heading(ls[0]));
        if t.len() > 0 {
            assert forall|j: int| 0 <= j < t.len() implies !is_heading(#[trigger] t[j]) by {
                assert(!is_heading(ls[j + 1]));
            }
        }
    }
    if is_heading(ls[i]) && (forall|j: int| 0 <= j < i ==> !is_heading(#[trigger] ls[j])) {
        if i > 0 {
            assert(!is_heading(ls[0]));
            assert(t[i - 1] == ls[i]);
            assert forall|j: int| 0 <= j < i - 1 implies !is_heading(#[trigger] t[j]) by {
                assert(!is_heading(ls[j + 1]));
            }
        }
    }
}

/// The names of the specs are those of the files that end in `.md`, without the ending; no
/// directory is one, nor a file that has nothing in front of the ending.
pub proof fn law_spec_names(f: FoundFile, stem: Seq<char>)
    ensures
        spec_stem(f) == Some(stem) <==> f.is_file && stem.len() > 0 && f.name@ == stem + ".md"@,
{
    let name = f.name@;
    reveal_strlit(".md");
    if spec_stem(f) == Some(stem) {
        assert(name =~= stem + ".md"@) by {
            assert(name.skip(name.len() - 3) == ".md"@);
            assert(name =~= name.take(name.len() - 3) + name.skip(name.len() - 3));
        }
    }
    if name == stem + ".md"@ {
        assert(name.skip(name.len() - 3) =~= ".md"@);
        assert(name.take(name.len() - 3) =~= stem);
    }
}

/// Every file that is a spec is listed, and nothing else.
pub proof fn law_all_specs_are_listed(found: Seq<FoundFile>, stem: Seq<char>)
    ensures
        spec_stems(found).contains(stem) <==> exists|i: int|
            0 <= i < found.len() && (#[trigger] found[i]).is_file && stem.len() > 0
                && found[i].name@ == stem + ".md"@,
        spec_stems(found).len() == found.filter(|f: FoundFile| spec_stem(f) is Some).len(),
    decreases found.len(),
{
    reveal(Seq::filter);
    let all = spec_stems(found);
    if found.len() > 0 {
        let init = found.drop_last();
        let r = spec_stems(init);
        let last = found.last();
        law_all_specs_are_listed(init, stem);
        law_spec_names(last, stem);
        assert forall|i: int| 0 <= i < init.len() implies #[trigger] init[i] == found[i] by {}
        assert(found[found.len() - 1] == last);
        if r.contains(stem) {
            let k = choose|k: int| 0 <= k < r.len() && r[k] == stem;
            assert(all[k] == stem);
            let i = choose|i: int|
                0 <= i < init.len() && (#[trigger] init[i]).is_file && stem.len() > 0
                    && init[i].name@ == stem + ".md"@;
            assert(found[i] == init[i]);
        }
        if spec_stem(last) == Some(stem) {
            assert(all[r.len() as int] == stem);
        }
        if all.contains(stem) && !r.contains(stem) {
            let k = choose|k: int| 0 <= k < all.len() && all[k] == stem;
            if k < r.len() {
                assert(r[k] == stem);
            }
        }
        if exists|i: int|
            0 <= i < found.len() && (#[trigger] found[i]).is_file && stem.len() > 0
                && found[i].name@ == stem + ".md"@ {
            let i = choose|i: int|
                0 <= i < found.len() && (#[trigger] found[i]).is_file && stem.len() > 0
                    && found[i].name@ == stem + ".md"@;
            if i < init.len() {
                assert(init[i] == found[i]);
            }
        }
    }
}

/// The texts of the errors, which callers compare.
pub proof fn law_error_texts(p: String)
    ensures
        error_text(Error::NoRoot) == "No relay.json found. Run relayInit first."@,
        error_text(Error::RootExists(p)) == "relay.json already exists at "@ + p@
            + ". Edit it or run relaySave."@,
        error_text(Error::RepoNotRegistered(p)) == "repo \""@ + p@
            + "\" not registered. Run relaySave in that repo first."@,
        error_text(Error::NoActiveBaton)
            == "No active baton set and no repo given. Run relaySwitch <repo> first."@,
        error_text(Error::RepoUnknown(p)) == "repo \""@ + p@ + "\" not registered."@,
        error_text(Error::FileNotFound(p)) == "File not found: "@ + p@,
        error_text(Error::Io(p)) == "io: "@ + p@,
        error_text(Error::Json(p)) == "json: "@ + p@,
        error_text(Error::Toon(p)) == "toon: "@ + p@,
{
}

/// The answer to an add names the document and the repository, counts the lines that became
/// threads, and all that are open.
pub proof fn law_add_answer(source: Seq<char>, name: Seq<char>, parsed: nat, total: nat)
    ensures
        add_answer(source, name, parsed, total) == "Added handoff \""@ + source + "\" to \""@ + name
            + "\".\nParsed "@ + decimal(parsed)
            + " line(s) into open_threads.\nTotal open threads: "@ + decimal(total),
{
}

/// The lines of a document that become threads are all its lines, trimmed, but for the blank ones;
/// a line that is repeated counts each time.
pub proof fn law_thread_lines(raw: Seq<char>)
    ensures
        thread_lines(raw) == lines(raw).map_values(|t: Seq<char>| trim(t)).filter(
            |t: Seq<char>| t.len() > 0,
        ),
{
    crate::text::law_trimmed_pieces(lines(raw));
}

}
