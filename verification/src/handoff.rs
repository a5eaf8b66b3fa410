//! Snapshots of a closed session, as they are kept in a registry and in the memory
//! of a plugin.
use vstd::prelude::*;

use crate::decimal::{signed, signed_string};
use crate::state::{RelayState, RepoState, RepoView};
use crate::text::{clone_strings, or_else, texts};

verus! {

/// The plugin's id in the memory.
pub const PLUGIN_ID: &'static str = "handoff";

/// The kind of a snapshot's record.
pub const RECORD_KIND_SNAPSHOT: &'static str = "snapshot";

/// What a memory is asked for to find the surroundings of a snapshot again.
#[derive(Debug, Clone, PartialEq, Eq)]
pub struct MemoryQueryCriteria {
    pub target_symbols: Vec<String>,
    pub domain_categories: Vec<String>,
    pub search_terms: Vec<String>,
}

/// What a snapshot hands over.
#[derive(Debug, Clone, PartialEq, Eq)]
pub struct HandoffPayload {
    pub task_goal: String,
    pub pinned_node_ids: Vec<String>,
    pub focused_subgraph_toon: String,
    pub reconstructable_query_metadata: MemoryQueryCriteria,
}

/// A snapshot. The registry sets the end of its life where it is 0.
#[derive(Debug, Clone, PartialEq, Eq)]
pub struct HandoffSnapshot {
    pub snapshot_id: String,
    pub session_id: String,
    pub workspace_key: String,
    pub created_at: i64,
    pub expires_at: i64,
    pub payload: HandoffPayload,
}

/// Model of [`HandoffPayload`].
#[verifier::ext_equal]
pub struct PayloadView {
    pub task_goal: Seq<char>,
    pub pinned_node_ids: Seq<Seq<char>>,
    pub focused_subgraph_toon: Seq<char>,
    pub target_symbols: Seq<Seq<char>>,
    pub domain_categories: Seq<Seq<char>>,
    pub search_terms: Seq<Seq<char>>,
}

impl View for HandoffPayload {
    type V = PayloadView;

    open spec fn view(&self) -> PayloadView {
        PayloadView {
            task_goal: self.task_goal@,
            pinned_node_ids: texts(self.pinned_node_ids@),
            focused_subgraph_toon: self.focused_subgraph_toon@,
            target_symbols: texts(self.reconstructable_query_metadata.target_symbols@),
            domain_categories: texts(self.reconstructable_query_metadata.domain_categories@),
            search_terms: texts(self.reconstructable_query_metadata.search_terms@),
        }
    }
}

/// A snapshot of the given parts.
pub fn build_snapshot(
    snapshot_id: &str,
    session_id: &str,
    workspace_key: &str,
    task_goal: &str,
    pinned_node_ids: Vec<String>,
    focused_subgraph_toon: &str,
    query_metadata: MemoryQueryCriteria,
    created_at: i64,
) -> (r: HandoffSnapshot)
    ensures
        r.snapshot_id@ == snapshot_id@,
        r.session_id@ == session_id@,
        r.workspace_key@ == workspace_key@,
        r.created_at == created_at,
        r.expires_at == 0,
        r.payload.task_goal@ == task_goal@,
        r.payload.pinned_node_ids == pinned_node_ids,
        r.payload.focused_subgraph_toon@ == focused_subgraph_toon@,
        r.payload.reconstructable_query_metadata == query_metadata,
{
    HandoffSnapshot {
        snapshot_id: snapshot_id.to_owned(),
        session_id: session_id.to_owned(),
        workspace_key: workspace_key.to_owned(),
        created_at,
        expires_at: 0,
        payload: HandoffPayload {
            task_goal: task_goal.to_owned(),
            pinned_node_ids,
            focused_subgraph_toon: focused_subgraph_toon.to_owned(),
            reconstructable_query_metadata: query_metadata,
        },
    }
}

/// A record of a plugin's memory.
#[derive(Debug, Clone, PartialEq, Eq)]
pub struct MemoryEnvelope {
    pub workspace_key: String,
    pub plugin_id: String,
    pub record_id: String,
    pub record_kind: String,
    pub created_at: i64,
    pub references: Vec<String>,
    pub payload: HandoffPayload,
}

/// The record of a snapshot: it names no place of any store, only what to ask for.
pub fn envelope_for(snapshot: &HandoffSnapshot) -> (r: MemoryEnvelope)
    ensures
        r.workspace_key@ == snapshot.workspace_key@,
        r.plugin_id@ == PLUGIN_ID@,
        r.record_id@ == snapshot.snapshot_id@,
        r.record_kind@ == RECORD_KIND_SNAPSHOT@,
        r.created_at == snapshot.created_at,
        r.references@.len() == 0,
        r.payload@ == snapshot.payload@,
{
    let p = &snapshot.payload;
    let q = &p.reconstructable_query_metadata;
    MemoryEnvelope {
        workspace_key: snapshot.workspace_key.clone(),
        plugin_id: PLUGIN_ID.to_owned(),
        record_id: snapshot.snapshot_id.clone(),
        record_kind: RECORD_KIND_SNAPSHOT.to_owned(),
        created_at: snapshot.created_at,
        references: Vec::new(),
        payload: HandoffPayload {
            task_goal: p.task_goal.clone(),
            pinned_node_ids: clone_strings(&p.pinned_node_ids),
            focused_subgraph_toon: p.focused_subgraph_toon.clone(),
            reconstructable_query_metadata: MemoryQueryCriteria {
                target_symbols: clone_strings(&q.target_symbols),
                domain_categories: clone_strings(&q.domain_categories),
                search_terms: clone_strings(&q.search_terms),
            },
        },
    }
}

/// The goal of a repository: what the next session starts with, else where it
/// stands, else nothing.
pub open spec fn goal_of(r: RepoView) -> Seq<char> {
    or_else(r.next_session_starter, or_else(r.volatile_state, "(none)"@))
}

/// The snapshot that a close leaves.
pub fn close_snapshot(workspace_key: &str, state: &RelayState, repo: &RepoState, created_at: i64)
    -> (r: HandoffSnapshot)
    ensures
        r.snapshot_id@ == "snap-"@ + signed(created_at as int),
        r.session_id@ == state@.state_snapshot.last_session,
        r.workspace_key@ == workspace_key@,
        r.created_at == created_at,
        r.expires_at == 0,
        r.payload@ == (PayloadView {
            task_goal: goal_of(repo@),
            pinned_node_ids: Seq::empty(),
            focused_subgraph_toon: Seq::empty(),
            target_symbols: Seq::empty(),
            domain_categories: Seq::empty(),
            search_terms: Seq::empty(),
        }),
{
    let goal = if !repo.next_session_starter.as_str().is_empty() {
        repo.next_session_starter.as_str()
    } else if !repo.volatile_state.as_str().is_empty() {
        repo.volatile_state.as_str()
    } else {
        "(none)"
    };
    let mut id = "snap-".to_owned();
    id.append(signed_string(created_at).as_str());
    let r = build_snapshot(
        id.as_str(),
        state.state_snapshot.last_session.as_str(),
        workspace_key,
        goal,
        Vec::new(),
        "",
        MemoryQueryCriteria {
            target_symbols: Vec::new(),
            domain_categories: Vec::new(),
            search_terms: Vec::new(),
        },
        created_at,
    );
    proof {
        reveal_strlit("");
        let none = Seq::<Seq<char>>::empty();
        assert(texts(r.payload.pinned_node_ids@) =~= none);
        assert(texts(r.payload.reconstructable_query_metadata.target_symbols@) =~= none);
        assert(texts(r.payload.reconstructable_query_metadata.domain_categories@) =~= none);
        assert(texts(r.payload.reconstructable_query_metadata.search_terms@) =~= none);
        assert(""@ =~= Seq::<char>::empty());
    }
    r
}

/// The note of a close whose snapshot could not be kept.
pub fn snapshot_note(error: &str) -> (r: String)
    ensures
        r@ == "Snapshot: skipped — "@ + error@,
{
    let mut out = "Snapshot: skipped — ".to_owned();
    out.append(error);
    out
}

/// The goal of a repository is what its next session starts with; where that is unknown,
/// where it stands; where that is unknown too, a word for none.
pub proof fn law_goal(r: RepoView)
    ensures
        r.next_session_starter.len() > 0 ==> goal_of(r) == r.next_session_starter,
        r.next_session_starter.len() == 0 && r.volatile_state.len() > 0 ==> goal_of(r)
            == r.volatile_state,
        r.next_session_starter.len() == 0 && r.volatile_state.len() == 0 ==> goal_of(r)
            == "(none)"@,
{
}

}
