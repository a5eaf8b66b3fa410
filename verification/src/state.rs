//! The relay state, `relay.json`: the repositories of a workspace, what each left
//! for the next session, and the specs as they were last seen.
use vstd::prelude::*;

use crate::clock::{is_millis_timestamp, now_iso};
use crate::names::{keys, names};
use crate::text::texts;

verus! {

/// Version of the state's schema.
pub const SCHEMA_VERSION: &'static str = "1.0.0";

/// Content of the ignore file inside the state directory.
pub const RELAY_DIR_GITIGNORE: &'static str = "*\n!.gitignore\n";

/// The relay state.
#[derive(Debug, Clone, PartialEq, Eq)]
pub struct RelayState {
    pub schema_version: String,
    pub project_context: String,
    pub active_baton: String,
    pub repos: Vec<(String, RepoState)>,
    pub state_snapshot: StateSnapshot,
    pub spec_sync: SpecSync,
    pub updated_at: String,
}

/// What one repository hands over.
#[derive(Debug, Clone, PartialEq, Eq)]
pub struct RepoState {
    pub name: String,
    pub path: String,
    pub role: String,
    pub active_phase: String,
    pub volatile_state: String,
    pub confidence_score: u8,
    pub debt_tag: Vec<String>,
    pub next_session_starter: String,
    pub handoffs: Vec<Handoff>,
    pub last_updated: String,
}

/// One document handed over.
#[derive(Debug, Clone, PartialEq, Eq)]
pub struct Handoff {
    pub source: String,
    pub captured_at: String,
    pub raw: String,
}

/// What is open across the repositories.
#[derive(Debug, Clone, PartialEq, Eq)]
pub struct StateSnapshot {
    pub last_session: String,
    pub open_threads: Vec<String>,
    pub blockers: Vec<String>,
}

/// The specs as they were last seen: the digest of each, and what had changed.
#[derive(Debug, Clone, PartialEq, Eq)]
pub struct SpecSync {
    pub last_sync: String,
    pub drift: Vec<String>,
    pub specs: Vec<(String, String)>,
}

/// Model of [`Handoff`].
#[verifier::ext_equal]
pub struct HandoffView {
    pub source: Seq<char>,
    pub captured_at: Seq<char>,
    pub raw: Seq<char>,
}

/// Model of [`RepoState`].
#[verifier::ext_equal]
pub struct RepoView {
    pub name: Seq<char>,
    pub path: Seq<char>,
    pub role: Seq<char>,
    pub active_phase: Seq<char>,
    pub volatile_state: Seq<char>,
    pub confidence_score: nat,
    pub debt_tag: Seq<Seq<char>>,
    pub next_session_starter: Seq<char>,
    pub handoffs: Seq<HandoffView>,
    pub last_updated: Seq<char>,
}

/// Model of [`StateSnapshot`].
#[verifier::ext_equal]
pub struct SnapshotView {
    pub last_session: Seq<char>,
    pub open_threads: Seq<Seq<char>>,
    pub blockers: Seq<Seq<char>>,
}

/// Model of [`SpecSync`].
#[verifier::ext_equal]
pub struct SpecSyncView {
    pub last_sync: Seq<char>,
    pub drift: Seq<Seq<char>>,
    pub specs: Seq<(Seq<char>, Seq<char>)>,
}

/// Model of [`RelayState`].
#[verifier::ext_equal]
pub struct RelayView {
    pub schema_version: Seq<char>,
    pub project_context: Seq<char>,
    pub active_baton: Seq<char>,
    pub repos: Seq<(Seq<char>, RepoView)>,
    pub state_snapshot: SnapshotView,
    pub spec_sync: SpecSyncView,
    pub updated_at: Seq<char>,
}

impl View for Handoff {
    type V = HandoffView;

    open spec fn view(&self) -> HandoffView {
        HandoffView { source: self.source@, captured_at: self.captured_at@, raw: self.raw@ }
    }
}

/// The models of some handoffs, in order.
pub open spec fn handoff_views(v: Seq<Handoff>) -> Seq<HandoffView> {
    v.map_values(|h: Handoff| h@)
}

impl View for RepoState {
    type V = RepoView;

    open spec fn view(&self) -> RepoView {
        RepoView {
            name: self.name@,
            path: self.path@,
            role: self.role@,
            active_phase: self.active_phase@,
            volatile_state: self.volatile_state@,
            confidence_score: self.confidence_score as nat,
            debt_tag: texts(self.debt_tag@),
            next_session_starter: self.next_session_starter@,
            handoffs: handoff_views(self.handoffs@),
            last_updated: self.last_updated@,
        }
    }
}

impl View for StateSnapshot {
    type V = SnapshotView;

    open spec fn view(&self) -> SnapshotView {
        SnapshotView {
            last_session: self.last_session@,
            open_threads: texts(self.open_threads@),
            blockers: texts(self.blockers@),
        }
    }
}

/// The models of some digests, in order.
pub open spec fn digest_views(v: Seq<(String, String)>) -> Seq<(Seq<char>, Seq<char>)> {
    v.map_values(|e: (String, String)| (e.0@, e.1@))
}

impl View for SpecSync {
    type V = SpecSyncView;

    open spec fn view(&self) -> SpecSyncView {
        SpecSyncView {
            last_sync: self.last_sync@,
            drift: texts(self.drift@),
            specs: digest_views(self.specs@),
        }
    }
}

/// The models of some repositories, in order.
pub open spec fn repo_views(v: Seq<(String, RepoState)>) -> Seq<(Seq<char>, RepoView)> {
    v.map_values(|e: (String, RepoState)| (e.0@, e.1@))
}

impl View for RelayState {
    type V = RelayView;

    open spec fn view(&self) -> RelayView {
        RelayView {
            schema_version: self.schema_version@,
            project_context: self.project_context@,
            active_baton: self.active_baton@,
            repos: repo_views(self.repos@),
            state_snapshot: self.state_snapshot@,
            spec_sync: self.spec_sync@,
            updated_at: self.updated_at@,
        }
    }
}

/// The names of repositories are those of their models.
pub proof fn lemma_repo_names(v: Seq<(String, RepoState)>)
    ensures
        keys(repo_views(v)) == names(v),
{
    assert(keys(repo_views(v)) =~= names(v));
}

/// The names of digests are those of their models.
pub proof fn lemma_digest_names(v: Seq<(String, String)>)
    ensures
        keys(digest_views(v)) == names(v),
{
    assert(keys(digest_views(v)) =~= names(v));
}

/// The confidence of a repository that never stated one.
pub fn default_confidence() -> (r: u8)
    ensures
        r == 3,
{
    3
}

/// A repository of which only the place is known.
pub open spec fn default_repo(path: Seq<char>) -> RepoView {
    RepoView {
        name: Seq::empty(),
        path,
        role: Seq::empty(),
        active_phase: Seq::empty(),
        volatile_state: Seq::empty(),
        confidence_score: 3,
        debt_tag: Seq::empty(),
        next_session_starter: Seq::empty(),
        handoffs: Seq::empty(),
        last_updated: Seq::empty(),
    }
}

impl RepoState {
    /// The default state of a repository, with its name as its path.
    pub fn for_repo(name: &str) -> (r: RepoState)
        ensures
            r@ == default_repo(name@),
    {
        let r = RepoState {
            name: String::new(),
            path: name.to_owned(),
            role: String::new(),
            active_phase: String::new(),
            volatile_state: String::new(),
            confidence_score: default_confidence(),
            debt_tag: Vec::new(),
            next_session_starter: String::new(),
            handoffs: Vec::new(),
            last_updated: String::new(),
        };
        assert(r@ =~= default_repo(name@)) by {
            assert(texts(r.debt_tag@) =~= Seq::<Seq<char>>::empty());
            assert(handoff_views(r.handoffs@) =~= Seq::<HandoffView>::empty());
        }
        r
    }
}

/// A state in which nothing has been recorded yet.
pub open spec fn fresh_state(now: Seq<char>) -> RelayView {
    RelayView {
        schema_version: SCHEMA_VERSION@,
        project_context: Seq::empty(),
        active_baton: Seq::empty(),
        repos: Seq::empty(),
        state_snapshot: SnapshotView {
            last_session: Seq::empty(),
            open_threads: Seq::empty(),
            blockers: Seq::empty(),
        },
        spec_sync: SpecSyncView {
            last_sync: Seq::empty(),
            drift: Seq::empty(),
            specs: Seq::empty(),
        },
        updated_at: now,
    }
}

impl RelayState {
    /// A new state at a given time.
    pub fn fresh_at(now: &str) -> (r: RelayState)
        ensures
            r@ == fresh_state(now@),
    {
        let r = RelayState {
            schema_version: SCHEMA_VERSION.to_owned(),
            project_context: String::new(),
            active_baton: String::new(),
            repos: Vec::new(),
            state_snapshot: StateSnapshot {
                last_session: String::new(),
                open_threads: Vec::new(),
                blockers: Vec::new(),
            },
            spec_sync: SpecSync { last_sync: String::new(), drift: Vec::new(), specs: Vec::new() },
            updated_at: now.to_owned(),
        };
        proof {
            assert(repo_views(r.repos@) =~= Seq::<(Seq<char>, RepoView)>::empty());
            assert(texts(r.state_snapshot.open_threads@) =~= Seq::<Seq<char>>::empty());
            assert(texts(r.state_snapshot.blockers@) =~= Seq::<Seq<char>>::empty());
            assert(texts(r.spec_sync.drift@) =~= Seq::<Seq<char>>::empty());
            assert(digest_views(r.spec_sync.specs@) =~= Seq::<(Seq<char>, Seq<char>)>::empty());
        }
        r
    }

    /// A new state, now.
    pub fn fresh() -> (r: RelayState)
        ensures
            exists|now: Seq<char>| is_millis_timestamp(now) && r@ == #[trigger] fresh_state(now),
    {
        let now = now_iso();
        RelayState::fresh_at(now.as_str())
    }
}

/// Stamps a state with the time of its writing; the caller then writes it out.
pub fn persist(state: &mut RelayState, now: &str)
    ensures
        final(state)@ == (RelayView { updated_at: now@, ..old(state)@ }),
{
    state.updated_at = now.to_owned();
}

/// What a new state and a repository that was never saved hold: nothing but the time, the path
/// and a middling confidence.
pub proof fn law_new_states_are_empty(now: Seq<char>, path: Seq<char>)
    ensures
        ({
            let s = fresh_state(now);
            &&& s.updated_at == now
            &&& s.repos.len() == 0
            &&& s.active_baton.len() == 0
            &&& s.project_context.len() == 0
            &&& s.state_snapshot.last_session.len() == 0
            &&& s.state_snapshot.open_threads.len() == 0
            &&& s.state_snapshot.blockers.len() == 0
            &&& s.spec_sync.last_sync.len() == 0
            &&& s.spec_sync.drift.len() == 0
            &&& s.spec_sync.specs.len() == 0
        }),
        ({
            let r = default_repo(path);
            &&& r.path == path
            &&& r.confidence_score == 3
            &&& r.name.len() == 0
            &&& r.role.len() == 0
            &&& r.active_phase.len() == 0
            &&& r.volatile_state.len() == 0
            &&& r.next_session_starter.len() == 0
            &&& r.last_updated.len() == 0
            &&& r.debt_tag.len() == 0
            &&& r.handoffs.len() == 0
        }),
{
}

}
