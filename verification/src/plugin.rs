//! The relay plugin: the state of a bound workspace, the relay tools on it, and its
//! packets.
//!
//! A tool that writes works in steps. It takes the state as it lies on disk and gives
//! the one to write; the caller writes it, hands it to [`RelayPlugin::commit`], and
//! asks for the answer.
use vstd::prelude::*;

use crate::graph::{ids, GraphUpdateEvent, WorkspaceContext};
use crate::json::{
    fields, get, items, json_rendered, lemma_array_model, no_fields, object, string, string_array,
    with_field, Json, JsonView,
};
use crate::names::{is_ordered, keys, law_put_keeps_order, lookup, put};
use crate::packet::{
    emit_error_packet, emit_packet, error_packet_text, is_major_mismatch, major_mismatch, meta_of, packet_text,
    parse_meta, MetaView,
};
use crate::paths::{basename, last_name};
use crate::relay::{
    add_answer, add_handoff, add_report, added, all_issues, consistency_check, diff_specs, get_repo,
    law_digests_are_in_order, put_repo, repo_for, repo_or_default, save_repo, saved, saved_repo, spec_statuses, synced, thread_lines, with_threads, Error,
    SaveArgs, SpecFile,
};
use crate::render::{
    init_report, render_next_step, render_resume, save_report, status_lines, status_report,
    switch_report, template_for, template_vars, RepoFacts, Templates, NEXT_STEP_TEMPLATE,
};
use crate::state::{
    digest_views, fresh_state, handoff_views, persist, repo_views, Handoff, HandoffView, RelayState, RelayView,
    RepoState, RepoView, SnapshotView, SpecSync, SpecSyncView, StateSnapshot,
};
use crate::template::filled;
use crate::text::{
    bytes_text, has_text, join, lines, opt_text, opt_view, same, text_from_bytes, texts,
};

verus! {

/// The plugin's id.
pub const PLUGIN_ID: &'static str = "graphify-plugin-handoff";

// ---- the state as JSON ----

/// An array of texts.
pub open spec fn strings_model(v: Seq<Seq<char>>) -> JsonView {
    JsonView::Array(v.map_values(|t: Seq<char>| JsonView::Str(t)))
}

/// A document handed over, as JSON.
pub open spec fn handoff_model(h: HandoffView) -> JsonView {
    JsonView::Object(
        seq![
            ("source"@, JsonView::Str(h.source)),
            ("captured_at"@, JsonView::Str(h.captured_at)),
            ("raw"@, JsonView::Str(h.raw)),
        ],
    )
}

/// A repository, as JSON.
pub open spec fn repo_model(r: RepoView) -> JsonView {
    JsonView::Object(
        seq![
            ("name"@, JsonView::Str(r.name)),
            ("path"@, JsonView::Str(r.path)),
            ("role"@, JsonView::Str(r.role)),
            ("active_phase"@, JsonView::Str(r.active_phase)),
            ("volatile_state"@, JsonView::Str(r.volatile_state)),
            ("confidence_score"@, JsonView::UInt(r.confidence_score as u64)),
            ("debt_tag"@, strings_model(r.debt_tag)),
            ("next_session_starter"@, JsonView::Str(r.next_session_starter)),
            ("handoffs"@, JsonView::Array(r.handoffs.map_values(|h: HandoffView| handoff_model(h)))),
            ("last_updated"@, JsonView::Str(r.last_updated)),
        ],
    )
}

/// A snapshot of what is open, as JSON.
pub open spec fn snapshot_model(s: SnapshotView) -> JsonView {
    JsonView::Object(
        seq![
            ("last_session"@, JsonView::Str(s.last_session)),
            ("open_threads"@, strings_model(s.open_threads)),
            ("blockers"@, strings_model(s.blockers)),
        ],
    )
}

/// The specs as they were last seen, as JSON.
pub open spec fn sync_model(s: SpecSyncView) -> JsonView {
    JsonView::Object(
        seq![
            ("last_sync"@, JsonView::Str(s.last_sync)),
            ("drift"@, strings_model(s.drift)),
            (
                "specs"@,
                JsonView::Object(
                    s.specs.map_values(|e: (Seq<char>, Seq<char>)| (e.0, JsonView::Str(e.1))),
                ),
            ),
        ],
    )
}

/// A relay state, as JSON.
pub open spec fn relay_model(s: RelayView) -> JsonView {
    JsonView::Object(
        seq![
            ("schema_version"@, JsonView::Str(s.schema_version)),
            ("project_context"@, JsonView::Str(s.project_context)),
            ("active_baton"@, JsonView::Str(s.active_baton)),
            (
                "repos"@,
                JsonView::Object(
                    s.repos.map_values(|e: (Seq<char>, RepoView)| (e.0, repo_model(e.1))),
                ),
            ),
            ("state_snapshot"@, snapshot_model(s.state_snapshot)),
            ("spec_sync"@, sync_model(s.spec_sync)),
            ("updated_at"@, JsonView::Str(s.updated_at)),
        ],
    )
}

fn strings_json(v: &Vec<String>) -> (r: Json)
    ensures
        r@ == strings_model(texts(v@)),
{
    let r = string_array(v);
    assert(v@.map_values(|s: String| JsonView::Str(s@)) =~= texts(v@).map_values(
        |t: Seq<char>| JsonView::Str(t),
    ));
    r
}

fn handoff_json(h: &Handoff) -> (r: Json)
    ensures
        r@ == handoff_model(h@),
{
    let fs = with_field(no_fields(), "source", string(h.source.as_str()));
    let fs = with_field(fs, "captured_at", string(h.captured_at.as_str()));
    let fs = with_field(fs, "raw", string(h.raw.as_str()));
    let r = object(fs);
    assert(r@->Object_0 =~= handoff_model(h@)->Object_0);
    r
}

fn handoffs_json(v: &Vec<Handoff>) -> (r: Json)
    ensures
        r@ == JsonView::Array(
            handoff_views(v@).map_values(|h: HandoffView| handoff_model(h)),
        ),
{
    broadcast use lemma_array_model;

    let ghost f = |h: HandoffView| handoff_model(h);
    let ghost all = handoff_views(v@).map_values(f);
    let mut out: Vec<Json> = Vec::new();
    let mut i: usize = 0;
    assert(items(out@) =~= all.take(0));
    while i < v.len()
        invariant
            i <= v.len(),
            f == (|h: HandoffView| handoff_model(h)),
            all == handoff_views(v@).map_values(f),
            items(out@) == all.take(i as int),
        decreases v.len() - i,
    {
        let ghost before = out@;
        let j = handoff_json(&v[i]);
        out.push(j);
        proof {
            assert(j@ == all[i as int]);
            assert(items(out@) =~= items(before).push(j@));
            assert(all.take(i + 1) =~= all.take(i as int).push(all[i as int]));
        }
        i += 1;
    }
    assert(all.take(i as int) =~= all);
    Json::Array(out)
}

fn repo_json(r: &RepoState) -> (j: Json)
    ensures
        j@ == repo_model(r@),
{
    let fs = with_field(no_fields(), "name", string(r.name.as_str()));
    let fs = with_field(fs, "path", string(r.path.as_str()));
    let fs = with_field(fs, "role", string(r.role.as_str()));
    let fs = with_field(fs, "active_phase", string(r.active_phase.as_str()));
    let fs = with_field(fs, "volatile_state", string(r.volatile_state.as_str()));
    let fs = with_field(fs, "confidence_score", Json::UInt(r.confidence_score as u64));
    let fs = with_field(fs, "debt_tag", strings_json(&r.debt_tag));
    let fs = with_field(fs, "next_session_starter", string(r.next_session_starter.as_str()));
    let fs = with_field(fs, "handoffs", handoffs_json(&r.handoffs));
    let fs = with_field(fs, "last_updated", string(r.last_updated.as_str()));
    let j = object(fs);
    assert(j@->Object_0 =~= repo_model(r@)->Object_0);
    j
}

fn repos_json(v: &Vec<(String, RepoState)>) -> (j: Json)
    ensures
        j@ == JsonView::Object(
            repo_views(v@).map_values(|e: (Seq<char>, RepoView)| (e.0, repo_model(e.1))),
        ),
{
    let ghost f = |e: (Seq<char>, RepoView)| (e.0, repo_model(e.1));
    let ghost all = repo_views(v@).map_values(f);
    let mut out = no_fields();
    let mut i: usize = 0;
    assert(fields(out@) =~= all.take(0));
    while i < v.len()
        invariant
            i <= v.len(),
            f == (|e: (Seq<char>, RepoView)| (e.0, repo_model(e.1))),
            all == repo_views(v@).map_values(f),
            fields(out@) == all.take(i as int),
        decreases v.len() - i,
    {
        let j = repo_json(&v[i].1);
        out = with_field(out, v[i].0.as_str(), j);
        proof {
            assert(all[i as int] == (v@[i as int].0@, j@));
            assert(all.take(i + 1) =~= all.take(i as int).push(all[i as int]));
        }
        i += 1;
    }
    assert(all.take(i as int) =~= all);
    object(out)
}

fn digests_json(v: &Vec<(String, String)>) -> (j: Json)
    ensures
        j@ == JsonView::Object(
            digest_views(v@).map_values(|e: (Seq<char>, Seq<char>)| (e.0, JsonView::Str(e.1))),
        ),
{
    let ghost f = |e: (Seq<char>, Seq<char>)| (e.0, JsonView::Str(e.1));
    let ghost all = digest_views(v@).map_values(f);
    let mut out = no_fields();
    let mut i: usize = 0;
    assert(fields(out@) =~= all.take(0));
    while i < v.len()
        invariant
            i <= v.len(),
            f == (|e: (Seq<char>, Seq<char>)| (e.0, JsonView::Str(e.1))),
            all == digest_views(v@).map_values(f),
            fields(out@) == all.take(i as int),
        decreases v.len() - i,
    {
        out = with_field(out, v[i].0.as_str(), string(v[i].1.as_str()));
        proof {
            assert(all[i as int] == (v@[i as int].0@, JsonView::Str(v@[i as int].1@)));
            assert(all.take(i + 1) =~= all.take(i as int).push(all[i as int]));
        }
        i += 1;
    }
    assert(all.take(i as int) =~= all);
    object(out)
}

fn snapshot_json(s: &StateSnapshot) -> (j: Json)
    ensures
        j@ == snapshot_model(s@),
{
    let fs = with_field(no_fields(), "last_session", string(s.last_session.as_str()));
    let fs = with_field(fs, "open_threads", strings_json(&s.open_threads));
    let fs = with_field(fs, "blockers", strings_json(&s.blockers));
    let j = object(fs);
    assert(j@->Object_0 =~= snapshot_model(s@)->Object_0);
    j
}

fn sync_json(s: &SpecSync) -> (j: Json)
    ensures
        j@ == sync_model(s@),
{
    let fs = with_field(no_fields(), "last_sync", string(s.last_sync.as_str()));
    let fs = with_field(fs, "drift", strings_json(&s.drift));
    let fs = with_field(fs, "specs", digests_json(&s.specs));
    let j = object(fs);
    assert(j@->Object_0 =~= sync_model(s@)->Object_0);
    j
}

/// A relay state, as JSON.
pub fn relay_json(s: &RelayState) -> (j: Json)
    ensures
        j@ == relay_model(s@),
{
    let fs = with_field(no_fields(), "schema_version", string(s.schema_version.as_str()));
    let fs = with_field(fs, "project_context", string(s.project_context.as_str()));
    let fs = with_field(fs, "active_baton", string(s.active_baton.as_str()));
    let fs = with_field(fs, "repos", repos_json(&s.repos));
    let fs = with_field(fs, "state_snapshot", snapshot_json(&s.state_snapshot));
    let fs = with_field(fs, "spec_sync", sync_json(&s.spec_sync));
    let fs = with_field(fs, "updated_at", string(s.updated_at.as_str()));
    let j = object(fs);
    assert(j@->Object_0 =~= relay_model(s@)->Object_0);
    j
}

// ---- the plugin ----

/// A packet that comes in: its bytes, and what a reader of graphs made of it, either
/// the relay state it carries, if any, or why it could not be read.
pub struct IncomingPacket {
    pub bytes: Vec<u8>,
    pub carried: Result<Option<RelayState>, String>,
}

/// Why the metadata of a packet is refused, if it is.
pub open spec fn refusal_of(m: MetaView, bound: Seq<char>) -> Option<Seq<char>> {
    match m.format_version {
        None => Some("missing format_version in toon metadata"@),
        Some(fv) => if is_major_mismatch(fv) {
            Some("unsupported format_version: "@ + fv)
        } else {
            match m.workspace_key {
                Some(k) => if bound.len() > 0 && k != bound {
                    Some("workspace_key mismatch: "@ + k)
                } else {
                    None
                },
                None => None,
            }
        },
    }
}

/// Why a packet is refused, if it is, given its text and what it carries.
pub open spec fn packet_refusal(
    text: Seq<char>,
    carried: Result<Option<RelayState>, String>,
    bound: Seq<char>,
) -> Option<Seq<char>> {
    match refusal_of(meta_of(lines(text)), bound) {
        Some(why) => Some(why),
        None => match carried {
            Err(e) => Some("malformed toon: "@ + e@),
            Ok(_) => None,
        },
    }
}

/// What a plugin reports in a packet.
pub open spec fn report_of(state: Option<RelayState>, key: Seq<char>, active: Seq<Seq<char>>) -> Seq<
    char,
> {
    match state {
        None => error_packet_text("No relay.json found. Run relayInit first."@),
        Some(s) => packet_text(
            key,
            json_rendered(
                JsonView::Object(
                    seq![("handoff"@, relay_model(s@)), ("active_nodes"@, strings_model(active))],
                ),
            ),
        ),
    }
}

/// The state that a tool works on: the one on disk, or a new one.
pub open spec fn disk_or_fresh(disk: Option<RelayState>, now: Seq<char>) -> RelayView {
    match disk {
        Some(s) => s@,
        None => fresh_state(now),
    }
}

/// A state, stamped with the time of its writing.
pub open spec fn stamped(s: RelayView, now: Seq<char>) -> RelayView {
    RelayView { updated_at: now, ..s }
}

/// The state that a save writes, given the one on disk.
pub open spec fn written_by_save(
    disk: Option<RelayState>,
    name: Seq<char>,
    args: SaveArgs,
    now: Seq<char>,
) -> RelayView {
    stamped(saved(disk_or_fresh(disk, now), name, args, now), now)
}

/// The state that a close writes, given the one on disk.
pub open spec fn written_by_close(
    disk: Option<RelayState>,
    name: Seq<char>,
    next: Option<Seq<char>>,
    specs: Seq<SpecFile>,
    now: Seq<char>,
) -> RelayView {
    stamped(closed(disk_or_fresh(disk, now), name, next, specs, now), now)
}

/// The state that a switch writes, given the one on disk.
pub open spec fn written_by_switch(
    disk: Option<RelayState>,
    repo: Seq<char>,
    now: Seq<char>,
) -> RelayView {
    stamped(RelayView { active_baton: repo, ..disk_or_fresh(disk, now) }, now)
}

/// The state that an add writes, given the one on disk.
pub open spec fn written_by_add(
    disk: Option<RelayState>,
    name: Seq<char>,
    source: Seq<char>,
    raw: Seq<char>,
    now: Seq<char>,
) -> RelayView {
    stamped(added(disk_or_fresh(disk, now), name, source, raw, now), now)
}

/// The state after a packet that was accepted: the one it carries, where it carries one and
/// there is a root.
pub open spec fn state_after(
    state: Option<RelayState>,
    has_root: bool,
    carried: Result<Option<RelayState>, String>,
) -> Option<RelayState> {
    match carried {
        Ok(Some(s)) => if has_root {
            Some(s)
        } else {
            state
        },
        _ => state,
    }
}

/// The nodes that a session has touched after an update: an update of another workspace, or
/// while the plugin is unbound, adds none.
pub open spec fn touched_after(
    active: Seq<Seq<char>>,
    bound: Option<Seq<char>>,
    key: Seq<char>,
    named: Seq<Seq<char>>,
) -> Seq<Seq<char>> {
    if bound == Some(key) {
        with_threads(active, named)
    } else {
        active
    }
}

/// A state to write, and the repository that it was changed for.
pub struct Change {
    pub repo: String,
    pub state: RelayState,
}

/// A close: the state to write, the repository, and what was found in the specs.
pub struct Closing {
    pub repo: String,
    pub state: RelayState,
    pub issues: Vec<String>,
    pub diffs: Vec<(String, String)>,
}

/// An add: the state to write, and the answer.
pub struct Adding {
    pub state: RelayState,
    pub answer: String,
}

/// A rendered file, without the line feed at its end, and an answer.
pub struct Reply {
    pub rendered: String,
    pub answer: String,
}

/// A document to add, as it was found.
pub enum DocumentRead {
    Missing,
    Unreadable(String),
    Text(String),
}

/// A state after a close: the specs were compared, and the repository, where it is
/// registered, starts its next session with what was given.
pub open spec fn closed(
    s: RelayView,
    name: Seq<char>,
    next: Option<Seq<char>>,
    specs: Seq<SpecFile>,
    now: Seq<char>,
) -> RelayView {
    let s1 = RelayView { spec_sync: synced(s.spec_sync, specs, now), ..s };
    match (next, lookup(s.repos, name)) {
        (Some(n), Some(r)) => RelayView {
            repos: put(
                s.repos,
                name,
                RepoView { next_session_starter: n, last_updated: now, ..r },
            ),
            ..s1
        },
        _ => s1,
    }
}

/// The relay plugin.
pub struct RelayPlugin {
    pub ctx: Option<WorkspaceContext>,
    pub root: Option<String>,
    pub state: Option<RelayState>,
    pub active_nodes: Vec<String>,
    pub registry_path: Option<String>,
}

impl RelayPlugin {
    /// The key of the bound workspace; empty while unbound.
    pub open spec fn key(self) -> Seq<char> {
        match self.ctx {
            Some(c) => c.workspace_key@,
            None => Seq::empty(),
        }
    }

    /// What the plugin reports in a packet.
    pub open spec fn report(self) -> Seq<char> {
        report_of(self.state, self.key(), texts(self.active_nodes@))
    }

    /// The repository that a tool means: the one it is told, else that of the bound
    /// directory.
    pub open spec fn meant(self, repo: Option<&str>) -> Seq<char> {
        match repo {
            Some(r) => r@,
            None => last_name(self.ctx->0.root_path@),
        }
    }

    /// A plugin that is not bound.
    pub fn new() -> (r: RelayPlugin)
        ensures
            r.ctx is None,
            r.root is None,
            r.state is None,
            r.active_nodes@.len() == 0,
            r.registry_path is None,
    {
        RelayPlugin {
            ctx: None,
            root: None,
            state: None,
            active_nodes: Vec::new(),
            registry_path: None,
        }
    }

    /// The plugin with another registry.
    pub fn with_registry_path(self, path: &str) -> (r: RelayPlugin)
        ensures
            opt_text(r.registry_path) == Some(path@),
            r == (RelayPlugin { registry_path: r.registry_path, ..self }),
    {
        RelayPlugin { registry_path: Some(path.to_owned()), ..self }
    }

    /// The plugin's id.
    pub fn get_id(&self) -> (r: &'static str)
        ensures
            r@ == PLUGIN_ID@,
    {
        PLUGIN_ID
    }

    /// Binds the plugin to a workspace, given its relay root, if it has one, and the
    /// state that lies there, if it can be read.
    pub fn bind(&mut self, ctx: WorkspaceContext, root: Option<String>, loaded: Option<RelayState>)
        ensures
            final(self).ctx == Some(ctx),
            final(self).root == root,
            final(self).state == (if root is Some {
                loaded
            } else {
                None
            }),
            final(self).active_nodes == old(self).active_nodes,
            final(self).registry_path == old(self).registry_path,
    {
        self.state = if root.is_some() {
            loaded
        } else {
            None
        };
        self.root = root;
        self.ctx = Some(ctx);
    }

    /// The key of the bound workspace; empty while unbound.
    pub fn get_workspace_key(&self) -> (r: &str)
        ensures
            r@ == self.key(),
    {
        match &self.ctx {
            Some(c) => c.workspace_key.as_str(),
            None => {
                proof {
                    reveal_strlit("");
                    assert(""@ =~= Seq::<char>::empty());
                }
                ""
            },
        }
    }

    /// The key of the bound workspace, if there is one.
    pub fn workspace_key(&self) -> (r: Option<&str>)
        ensures
            opt_view(r) == (if self.ctx is Some {
                Some(self.key())
            } else {
                None
            }),
    {
        match &self.ctx {
            Some(c) => Some(c.workspace_key.as_str()),
            None => None,
        }
    }

    /// The relay root, if there is one.
    pub fn root(&self) -> (r: Option<&str>)
        ensures
            opt_view(r) == opt_text(self.root),
    {
        match &self.root {
            Some(p) => Some(p.as_str()),
            None => None,
        }
    }

    /// The relay state, if there is one.
    pub fn state(&self) -> (r: Option<&RelayState>)
        ensures
            match r {
                Some(s) => self.state == Some(*s),
                None => self.state is None,
            },
    {
        match &self.state {
            Some(s) => Some(s),
            None => None,
        }
    }

    /// The nodes that the session has touched.
    pub fn active_nodes(&self) -> (r: &Vec<String>)
        ensures
            *r == self.active_nodes,
    {
        &self.active_nodes
    }

    // ---- packets ----

    /// The packet of the plugin: its state and nodes, or an error without a state.
    pub fn produce_packet(&self) -> (r: String)
        ensures
            r@ == self.report(),
    {
        match &self.state {
            None => emit_error_packet("No relay.json found. Run relayInit first."),
            Some(s) => {
                let fs = with_field(no_fields(), "handoff", relay_json(s));
                let data = object(with_field(fs, "active_nodes", strings_json(&self.active_nodes)));
                assert(data@->Object_0 =~= seq![
                    ("handoff"@, relay_model(s@)),
                    ("active_nodes"@, strings_model(texts(self.active_nodes@))),
                ]);
                emit_packet(self.get_workspace_key(), &data)
            },
        }
    }

    /// Why the metadata of a packet is refused, if it is.
    pub fn check_packet(&self, text: &str) -> (r: Option<String>)
        ensures
            opt_text(r) == refusal_of(meta_of(lines(text@)), self.key()),
    {
        let meta = parse_meta(text);
        let fv = match &meta.format_version {
            None => return Some("missing format_version in toon metadata".to_owned()),
            Some(fv) => fv,
        };
        if major_mismatch(fv.as_str()) {
            let mut m = "unsupported format_version: ".to_owned();
            m.append(fv.as_str());
            return Some(m);
        }
        if let Some(k) = &meta.workspace_key {
            let bound = self.get_workspace_key();
            if !bound.is_empty() && !same(k.as_str(), bound) {
                let mut m = "workspace_key mismatch: ".to_owned();
                m.append(k.as_str());
                return Some(m);
            }
        }
        None
    }

    /// The answer to a packet, given its text and what it carries. One that is refused is
    /// answered with an error and changes nothing; one that is accepted replaces the
    /// state, where there is a root and it carries one.
    pub fn consume_packet(
        &mut self,
        text: &str,
        carried: Result<Option<RelayState>, String>,
    ) -> (r: String)
        ensures
            final(self).ctx == old(self).ctx,
            final(self).root == old(self).root,
            final(self).active_nodes == old(self).active_nodes,
            final(self).registry_path == old(self).registry_path,
            match packet_refusal(text@, carried, old(self).key()) {
                Some(why) => *final(self) == *old(self) && r@ == error_packet_text(why),
                None => {
                    &&& final(self).state == state_after(
                        old(self).state,
                        old(self).root is Some,
                        carried,
                    )
                    &&& r@ == final(self).report()
                },
            },
    {
        if let Some(why) = self.check_packet(text) {
            return emit_error_packet(why.as_str());
        }
        match carried {
            Err(e) => {
                let mut m = "malformed toon: ".to_owned();
                m.append(e.as_str());
                return emit_error_packet(m.as_str());
            },
            Ok(Some(s)) => {
                if self.root.is_some() {
                    self.state = Some(s);
                }
            },
            Ok(None) => {},
        }
        self.produce_packet()
    }

    /// The answer to a sync: the plugin's own without a packet, else that to the packet,
    /// its bytes read as text.
    pub fn sync_toon(&mut self, incoming: Option<IncomingPacket>) -> (r: String)
        ensures
            final(self).ctx == old(self).ctx,
            final(self).root == old(self).root,
            final(self).active_nodes == old(self).active_nodes,
            final(self).registry_path == old(self).registry_path,
            match incoming {
                None => *final(self) == *old(self) && r@ == old(self).report(),
                Some(p) => match packet_refusal(bytes_text(p.bytes@), p.carried, old(self).key()) {
                    Some(why) => *final(self) == *old(self) && r@ == error_packet_text(why),
                    None => {
                        &&& final(self).state == state_after(
                            old(self).state,
                            old(self).root is Some,
                            p.carried,
                        )
                        &&& r@ == final(self).report()
                    },
                },
            },
    {
        match incoming {
            Some(p) => {
                let text = text_from_bytes(p.bytes.as_slice());
                self.consume_packet(text.as_str(), p.carried)
            },
            None => self.produce_packet(),
        }
    }

    /// Takes note of the nodes that a graph update names, each once; updates of other
    /// workspaces are ignored.
    pub fn on_graph_updated(&mut self, event: &GraphUpdateEvent)
        ensures
            final(self).ctx == old(self).ctx,
            final(self).root == old(self).root,
            final(self).state == old(self).state,
            final(self).registry_path == old(self).registry_path,
            texts(final(self).active_nodes@) == touched_after(
                texts(old(self).active_nodes@),
                match old(self).ctx {
                    Some(c) => Some(c.workspace_key@),
                    None => None,
                },
                event.workspace_key@,
                ids(event.modified_nodes@),
            ),
    {
        match &self.ctx {
            None => return,
            Some(c) => {
                if !same(c.workspace_key.as_str(), event.workspace_key.as_str()) {
                    return;
                }
            },
        }
        let ghost start = texts(self.active_nodes@);
        let ghost m = ids(event.modified_nodes@);
        let mut i: usize = 0;
        assert(m.take(0).len() == 0);
        while i < event.modified_nodes.len()
            invariant
                i <= event.modified_nodes.len(),
                m == ids(event.modified_nodes@),
                self.ctx == old(self).ctx,
                self.root == old(self).root,
                self.state == old(self).state,
                self.registry_path == old(self).registry_path,
                texts(self.active_nodes@) == with_threads(start, m.take(i as int)),
            decreases event.modified_nodes.len() - i,
        {
            let ghost before = self.active_nodes@;
            let id = &event.modified_nodes[i].0;
            proof {
                assert(m.take(i + 1).drop_last() =~= m.take(i as int));
                assert(m.take(i + 1).last() == id@);
            }
            if !has_text(&self.active_nodes, id.as_str()) {
                self.active_nodes.push(id.clone());
                assert(texts(self.active_nodes@) =~= texts(before).push(id@));
            }
            i += 1;
        }
        assert(m.take(i as int) =~= m);
    }

    // ---- tools ----

    /// Takes over a state that was written.
    pub fn commit(&mut self, state: RelayState)
        ensures
            *final(self) == (RelayPlugin { state: Some(state), ..*old(self) }),
    {
        self.state = Some(state);
    }

    fn name_meant(&self, repo: Option<&str>) -> (r: String)
        requires
            self.ctx is Some,
        ensures
            r@ == self.meant(repo),
    {
        match repo {
            Some(r) => r.to_owned(),
            None => match &self.ctx {
                Some(c) => basename(c.root_path.as_str()),
                None => String::new(),
            },
        }
    }

    /// Where a new relay root would be made: the bound directory, unless there is a
    /// root already.
    pub fn init_place(&self, existing: Option<&str>) -> (r: Result<String, Error>)
        ensures
            match (self.ctx, existing) {
                (None, _) => r == Err::<String, Error>(Error::NoRoot),
                (Some(_), Some(p)) => r matches Err(Error::RootExists(q)) && q@ == p@,
                (Some(c), None) => r matches Ok(s) && s@ == c.root_path@,
            },
    {
        match &self.ctx {
            None => Err(Error::NoRoot),
            Some(c) => match existing {
                Some(p) => Err(Error::RootExists(p.to_owned())),
                None => Ok(c.root_path.clone()),
            },
        }
    }

    /// The state of a new relay root.
    pub fn init_state(project_context: &str, now: &str) -> (r: RelayState)
        ensures
            r@ == (RelayView { project_context: project_context@, ..fresh_state(now@) }),
    {
        let mut s = RelayState::fresh_at(now);
        s.project_context = project_context.to_owned();
        persist(&mut s, now);
        s
    }

    /// Takes over a new relay root, with the state that was written there, and gives
    /// the answer.
    pub fn relay_init(
        &mut self,
        existing: Option<&str>,
        state: RelayState,
        gitignore_note: Option<&str>,
    ) -> (r: Result<String, Error>)
        ensures
            match (old(self).ctx, existing) {
                (None, _) => r == Err::<String, Error>(Error::NoRoot) && *final(self) == *old(self),
                (Some(_), Some(p)) => (r matches Err(Error::RootExists(q)) && q@ == p@)
                    && *final(self) == *old(self),
                (Some(c), None) => {
                    &&& opt_text(final(self).root) == Some(c.root_path@)
                    &&& final(self).state == Some(state)
                    &&& final(self).ctx == old(self).ctx
                    &&& final(self).active_nodes == old(self).active_nodes
                    &&& final(self).registry_path == old(self).registry_path
                    &&& r matches Ok(text)
                    &&& text@ == crate::render::init_text(c.root_path@, opt_view(gitignore_note))
                },
            },
    {
        let start = match self.init_place(existing) {
            Ok(s) => s,
            Err(e) => return Err(e),
        };
        let text = init_report(start.as_str(), gitignore_note);
        self.root = Some(start);
        self.state = Some(state);
        Ok(text)
    }

    /// The state that a save writes.
    pub fn relay_save(&self, args: &SaveArgs<'_>, disk: Option<RelayState>, now: &str) -> (r: Result<
        Change,
        Error,
    >)
        ensures
            if self.root is None || self.ctx is None {
                r == Err::<Change, Error>(Error::NoRoot)
            } else {
                r matches Ok(c) && c.repo@ == self.meant(args.repo) && c.state@ == written_by_save(
                    disk,
                    self.meant(args.repo),
                    *args,
                    now@,
                )
            },
    {
        if self.root.is_none() || self.ctx.is_none() {
            return Err(Error::NoRoot);
        }
        let repo = self.name_meant(args.repo);
        let mut state = match disk {
            Some(s) => s,
            None => RelayState::fresh_at(now),
        };
        save_repo(&mut state, repo.as_str(), args, now);
        persist(&mut state, now);
        Ok(Change { repo, state })
    }

    fn committed_repo(&self, repo: &str) -> (r: Result<(&RelayState, &RepoState), Error>)
        ensures
            match self.state {
                None => r == Err::<(&RelayState, &RepoState), Error>(Error::NoRoot),
                Some(s) => match lookup(s@.repos, repo@) {
                    Some(x) => r matches Ok(p) && *p.0 == s && p.1@ == x,
                    None => r matches Err(Error::RepoUnknown(n)) && n@ == repo@,
                },
            },
    {
        match &self.state {
            None => Err(Error::NoRoot),
            Some(s) => match get_repo(s, repo) {
                Some(x) => Ok((s, x)),
                None => Err(Error::RepoUnknown(repo.to_owned())),
            },
        }
    }

    /// The answer to a save that was taken over.
    pub fn save_reply(&self, repo: &str, kind: Option<&str>, templates: &Templates, facts: &RepoFacts)
        -> (r: Result<Reply, Error>)
        ensures
            match self.state {
                None => r == Err::<Reply, Error>(Error::NoRoot),
                Some(s) => match lookup(s@.repos, repo@) {
                    None => r matches Err(Error::RepoUnknown(n)) && n@ == repo@,
                    Some(x) => r matches Ok(p) && p.rendered@ == filled(
                        template_for(*templates, opt_view(kind)),
                        template_vars(s@, x, *facts),
                    ) && p.answer@ == "Saved state for \""@ + repo@ + "\".\nActive baton: "@
                        + s@.active_baton + "\n\n"@ + p.rendered@,
                },
            },
    {
        match self.committed_repo(repo) {
            Err(e) => Err(e),
            Ok((s, x)) => {
                let rendered = render_resume(s, x, kind, templates, facts);
                let answer = save_report(repo, s.active_baton.as_str(), rendered.as_str());
                Ok(Reply { rendered, answer })
            },
        }
    }

    /// The state that a close writes, and what it found in the specs.
    pub fn relay_close(
        &self,
        repo: Option<&str>,
        next: Option<&str>,
        specs: &[SpecFile],
        disk: Option<RelayState>,
        now: &str,
    ) -> (r: Result<Closing, Error>)
        ensures
            if self.root is None || self.ctx is None {
                r == Err::<Closing, Error>(Error::NoRoot)
            } else {
                &&& r matches Ok(c)
                &&& c.repo@ == self.meant(repo)
                &&& texts(c.issues@) == all_issues(specs@)
                &&& digest_views(c.diffs@) == spec_statuses(
                    disk_or_fresh(disk, now@).spec_sync.specs,
                    specs@,
                )
                &&& c.state@ == written_by_close(
                    disk,
                    self.meant(repo),
                    opt_view(next),
                    specs@,
                    now@,
                )
            },
    {
        if self.root.is_none() || self.ctx.is_none() {
            return Err(Error::NoRoot);
        }
        let name = self.name_meant(repo);
        let (_, issues) = consistency_check(specs);
        let mut state = match disk {
            Some(s) => s,
            None => RelayState::fresh_at(now),
        };
        let diffs = diff_specs(&mut state.spec_sync, specs, now);
        if let Some(n) = next {
            if get_repo(&state, name.as_str()).is_some() {
                let mut r = repo_for(&state, name.as_str());
                r.next_session_starter = n.to_owned();
                r.last_updated = now.to_owned();
                put_repo(&mut state, name.as_str(), r);
            }
        }
        persist(&mut state, now);
        Ok(Closing { repo: name, state, issues, diffs })
    }

    /// The next step to write after a close that was taken over.
    pub fn close_next_step(&self, repo: &str, facts: &RepoFacts) -> (r: Result<String, Error>)
        ensures
            match self.state {
                None => r == Err::<String, Error>(Error::NoRoot),
                Some(s) => match lookup(s@.repos, repo@) {
                    None => r matches Err(Error::RepoUnknown(n)) && n@ == repo@,
                    Some(x) => r matches Ok(t) && t@ == filled(
                        NEXT_STEP_TEMPLATE@,
                        template_vars(s@, x, *facts),
                    ),
                },
            },
    {
        match self.committed_repo(repo) {
            Err(e) => Err(e),
            Ok((s, x)) => Ok(render_next_step(s, x, facts)),
        }
    }

    /// The state that a switch writes.
    pub fn relay_switch(&self, repo: &str, disk: Option<RelayState>, now: &str) -> (r: Result<
        Change,
        Error,
    >)
        ensures
            if self.root is None {
                r == Err::<Change, Error>(Error::NoRoot)
            } else if self.state is None || lookup(self.state->0@.repos, repo@) is None {
                r matches Err(Error::RepoNotRegistered(n)) && n@ == repo@
            } else {
                r matches Ok(c) && c.repo@ == repo@ && c.state@ == written_by_switch(
                    disk,
                    repo@,
                    now@,
                )
            },
    {
        if self.root.is_none() {
            return Err(Error::NoRoot);
        }
        let known = match &self.state {
            Some(s) => get_repo(s, repo).is_some(),
            None => false,
        };
        if !known {
            return Err(Error::RepoNotRegistered(repo.to_owned()));
        }
        let mut state = match disk {
            Some(s) => s,
            None => RelayState::fresh_at(now),
        };
        state.active_baton = repo.to_owned();
        persist(&mut state, now);
        Ok(Change { repo: repo.to_owned(), state })
    }

    /// The answer to a switch that was taken over.
    pub fn switch_reply(
        &self,
        repo: &str,
        kind: Option<&str>,
        templates: &Templates,
        facts: &RepoFacts,
    ) -> (r: Result<Reply, Error>)
        ensures
            match self.state {
                None => r == Err::<Reply, Error>(Error::NoRoot),
                Some(s) => match lookup(s@.repos, repo@) {
                    None => r matches Err(Error::RepoUnknown(n)) && n@ == repo@,
                    Some(x) => r matches Ok(p) && p.rendered@ == filled(
                        template_for(*templates, opt_view(kind)),
                        template_vars(s@, x, *facts),
                    ) && p.answer@ == "Baton passed to \""@ + repo@ + "\".\n\n"@ + p.rendered@,
                },
            },
    {
        match self.committed_repo(repo) {
            Err(e) => Err(e),
            Ok((s, x)) => {
                let rendered = render_resume(s, x, kind, templates, facts);
                let answer = switch_report(repo, rendered.as_str());
                Ok(Reply { rendered, answer })
            },
        }
    }

    /// The name that a resume is for.
    pub open spec fn resumed(self, repo: Option<&str>) -> Seq<char> {
        match repo {
            Some(r) => r@,
            None => self.state->0@.active_baton,
        }
    }

    /// The repository that a resume is for: the one it is told, else the one with the
    /// baton.
    pub fn resume_target(&self, repo: Option<&str>) -> (r: Result<&RepoState, Error>)
        ensures
            if self.root is None || self.state is None {
                r == Err::<&RepoState, Error>(Error::NoRoot)
            } else if self.resumed(repo).len() == 0 {
                r == Err::<&RepoState, Error>(Error::NoActiveBaton)
            } else {
                match lookup(self.state->0@.repos, self.resumed(repo)) {
                    None => r matches Err(Error::RepoUnknown(n)) && n@ == self.resumed(repo),
                    Some(x) => r matches Ok(p) && p@ == x,
                }
            },
    {
        if self.root.is_none() {
            return Err(Error::NoRoot);
        }
        match &self.state {
            None => Err(Error::NoRoot),
            Some(s) => {
                let target = match repo {
                    Some(r) => r,
                    None => s.active_baton.as_str(),
                };
                if target.is_empty() {
                    return Err(Error::NoActiveBaton);
                }
                match get_repo(s, target) {
                    Some(x) => Ok(x),
                    None => Err(Error::RepoUnknown(target.to_owned())),
                }
            },
        }
    }

    /// The resume of a repository.
    pub fn relay_resume(
        &self,
        repo: Option<&str>,
        kind: Option<&str>,
        templates: &Templates,
        facts: &RepoFacts,
    ) -> (r: Result<String, Error>)
        ensures
            if self.root is None || self.state is None {
                r == Err::<String, Error>(Error::NoRoot)
            } else if self.resumed(repo).len() == 0 {
                r == Err::<String, Error>(Error::NoActiveBaton)
            } else {
                match lookup(self.state->0@.repos, self.resumed(repo)) {
                    None => r matches Err(Error::RepoUnknown(n)) && n@ == self.resumed(repo),
                    Some(x) => r matches Ok(t) && t@ == filled(
                        template_for(*templates, opt_view(kind)),
                        template_vars(self.state->0@, x, *facts),
                    ),
                }
            },
    {
        let x = match self.resume_target(repo) {
            Ok(x) => x,
            Err(e) => return Err(e),
        };
        match &self.state {
            Some(s) => Ok(render_resume(s, x, kind, templates, facts)),
            None => Err(Error::NoRoot),
        }
    }

    /// The summary of all repositories, given the names of the specs.
    pub fn relay_status(&self, specs: &Vec<String>) -> (r: Result<String, Error>)
        ensures
            if self.root is None || self.state is None {
                r == Err::<String, Error>(Error::NoRoot)
            } else {
                r matches Ok(t) && t@ == join(
                    status_lines(self.state->0@, self.root->0@, texts(specs@)),
                    "\n"@,
                )
            },
    {
        match (&self.root, &self.state) {
            (Some(root), Some(s)) => Ok(status_report(s, root.as_str(), specs)),
            _ => Err(Error::NoRoot),
        }
    }

    /// The state that an add writes, and the answer, given the document as it was found
    /// under the name `file`.
    pub fn relay_add(
        &self,
        file: &str,
        document: DocumentRead,
        repo: Option<&str>,
        disk: Option<RelayState>,
        now: &str,
    ) -> (r: Result<Adding, Error>)
        ensures
            if self.ctx is None {
                r == Err::<Adding, Error>(Error::NoRoot)
            } else {
                match document {
                    DocumentRead::Missing => r matches Err(Error::FileNotFound(f)) && f@ == file@,
                    DocumentRead::Unreadable(e) => r matches Err(Error::Io(m)) && m == e,
                    DocumentRead::Text(raw) => if self.root is None {
                        r == Err::<Adding, Error>(Error::NoRoot)
                    } else {
                        let s = written_by_add(
                            disk,
                            self.meant(repo),
                            last_name(file@),
                            raw@,
                            now@,
                        );
                        r matches Ok(a) && a.state@ == s && a.answer@ == add_answer(
                            last_name(file@),
                            self.meant(repo),
                            thread_lines(raw@).len(),
                            s.state_snapshot.open_threads.len(),
                        )
                    },
                }
            },
    {
        if self.ctx.is_none() {
            return Err(Error::NoRoot);
        }
        let raw = match document {
            DocumentRead::Missing => return Err(Error::FileNotFound(file.to_owned())),
            DocumentRead::Unreadable(e) => return Err(Error::Io(e)),
            DocumentRead::Text(raw) => raw,
        };
        if self.root.is_none() {
            return Err(Error::NoRoot);
        }
        let name = self.name_meant(repo);
        let source = basename(file);
        let mut state = match disk {
            Some(s) => s,
            None => RelayState::fresh_at(now),
        };
        let parsed: usize = add_handoff(
            &mut state,
            name.as_str(),
            source.as_str(),
            raw.as_str(),
            now,
        );
        assert(texts(state.state_snapshot.open_threads@).len()
            == state.state_snapshot.open_threads@.len());
        let total: usize = state.state_snapshot.open_threads.len();
        let answer = add_report(source.as_str(), name.as_str(), parsed, total);
        persist(&mut state, now);
        Ok(Adding { state, answer })
    }
}

// ---- laws ----

/// A packet of the plugin itself is never refused for its metadata, whatever key the
/// plugin is bound to.
pub proof fn law_own_packets_are_accepted(key: Seq<char>, data: Seq<char>)
    ensures
        refusal_of(meta_of(lines(packet_text(key, data))), key) is None,
{
    crate::packet::law_packet_roundtrip(key, data);
    crate::packet::law_own_version_is_accepted();
}

/// A packet of another workspace is refused, and so names its key.
pub proof fn law_foreign_packets_are_refused(key: Seq<char>, bound: Seq<char>, data: Seq<char>)
    requires
        bound.len() > 0,
        key != bound,
    ensures
        refusal_of(meta_of(lines(packet_text(key, data))), bound) == Some(
            "workspace_key mismatch: "@ + key,
        ),
{
    crate::packet::law_packet_roundtrip(key, data);
    crate::packet::law_own_version_is_accepted();
}

/// A close changes the baton of nobody and no other repository.
pub proof fn law_close_leaves_the_rest(
    s: RelayView,
    name: Seq<char>,
    next: Option<Seq<char>>,
    specs: Seq<SpecFile>,
    now: Seq<char>,
    other: Seq<char>,
)
    requires
        other != name,
    ensures
        closed(s, name, next, specs, now).active_baton == s.active_baton,
        closed(s, name, next, specs, now).state_snapshot == s.state_snapshot,
        lookup(closed(s, name, next, specs, now).repos, other) == lookup(s.repos, other),
{
    match (next, lookup(s.repos, name)) {
        (Some(n), Some(r)) => {
            crate::names::law_put_then_lookup(
                s.repos,
                name,
                RepoView { next_session_starter: n, last_updated: now, ..r },
                other,
            );
        },
        _ => {},
    }
}

/// Whether the repositories and the digests of a state are in ascending order, each
/// name once.
pub open spec fn is_in_order(s: RelayView) -> bool {
    is_ordered(keys(s.repos)) && is_ordered(keys(s.spec_sync.specs))
}

/// A new state is in order, and every tool leaves a state in order that was.
pub proof fn law_tools_keep_states_in_order(
    s: RelayView,
    name: Seq<char>,
    args: SaveArgs,
    source: Seq<char>,
    raw: Seq<char>,
    next: Option<Seq<char>>,
    specs: Seq<SpecFile>,
    now: Seq<char>,
)
    requires
        is_in_order(s),
    ensures
        is_in_order(fresh_state(now)),
        is_in_order(stamped(saved(s, name, args, now), now)),
        is_in_order(stamped(added(s, name, source, raw, now), now)),
        is_in_order(stamped(closed(s, name, next, specs, now), now)),
        is_in_order(stamped(RelayView { active_baton: name, ..s }, now)),
{
    let r = repo_or_default(s, name);
    law_put_keeps_order(s.repos, name, saved_repo(r, name, args, now));
    law_put_keeps_order(
        s.repos,
        name,
        RepoView {
            name,
            handoffs: r.handoffs.push(HandoffView { source, captured_at: now, raw }),
            last_updated: now,
            ..r
        },
    );
    if next is Some && lookup(s.repos, name) is Some {
        law_put_keeps_order(
            s.repos,
            name,
            RepoView { next_session_starter: next->0, last_updated: now, ..r },
        );
    }
    law_digests_are_in_order(specs);
}

/// A switch hands over the baton: a resume that names no repository is then for the
/// one it was handed to.
pub proof fn law_switch_hands_over_the_baton(
    p: RelayPlugin,
    s: RelayView,
    written: RelayState,
    repo: Seq<char>,
    now: Seq<char>,
)
    requires
        written@ == stamped(RelayView { active_baton: repo, ..s }, now),
    ensures
        (RelayPlugin { state: Some(written), ..p }).resumed(None) == repo,
        written@.repos == s.repos,
        written@.state_snapshot == s.state_snapshot,
        written@.spec_sync == s.spec_sync,
{
}

/// The nodes that a session has touched stay distinct.
pub proof fn law_active_nodes_stay_distinct(active: Seq<Seq<char>>, named: Seq<Seq<char>>)
    requires
        active.no_duplicates(),
    ensures
        with_threads(active, named).no_duplicates(),
{
    crate::relay::law_threads_stay_distinct(active, named);
}

/// Metadata is accepted just where it states a version of this contract and, while the plugin
/// is bound, names no other workspace; the reasons of a refusal come in this order.
pub proof fn law_what_metadata_is_accepted(m: MetaView, bound: Seq<char>)
    ensures
        m.format_version is None ==> refusal_of(m, bound) == Some(
            "missing format_version in toon metadata"@,
        ),
        m.format_version matches Some(fv) ==> (is_major_mismatch(fv) ==> refusal_of(m, bound)
            == Some("unsupported format_version: "@ + fv)),
        m.format_version matches Some(fv) ==> (!is_major_mismatch(fv) ==> {
            &&& m.workspace_key is None ==> refusal_of(m, bound) is None
            &&& bound.len() == 0 ==> refusal_of(m, bound) is None
            &&& m.workspace_key == Some(bound) ==> refusal_of(m, bound) is None
            &&& m.workspace_key matches Some(k) ==> (bound.len() > 0 && k != bound ==> refusal_of(
                m,
                bound,
            ) == Some("workspace_key mismatch: "@ + k))
        }),
{
}

/// A close records what the next session starts with, where that is given and the repository
/// is registered, with the time; nothing else about the repository changes, and without
/// either no repository changes. The specs are compared in any case.
pub proof fn law_close_records_the_next_start(
    s: RelayView,
    name: Seq<char>,
    next: Option<Seq<char>>,
    specs: Seq<SpecFile>,
    now: Seq<char>,
)
    ensures
        ({
            let t = closed(s, name, next, specs, now);
            let was = lookup(s.repos, name);
            &&& t.spec_sync.last_sync == now
            &&& t.spec_sync == synced(s.spec_sync, specs, now)
            &&& t.project_context == s.project_context
            &&& t.schema_version == s.schema_version
            &&& t.updated_at == s.updated_at
            &&& next is None || was is None ==> t.repos == s.repos
            &&& next is Some && was is Some ==> {
                &&& lookup(t.repos, name) matches Some(r)
                &&& r.next_session_starter == next->0
                &&& r.last_updated == now
                &&& r.name == was->0.name
                &&& r.path == was->0.path
                &&& r.role == was->0.role
                &&& r.active_phase == was->0.active_phase
                &&& r.volatile_state == was->0.volatile_state
                &&& r.confidence_score == was->0.confidence_score
                &&& r.debt_tag == was->0.debt_tag
                &&& r.handoffs == was->0.handoffs
            }
        }),
{
    if let (Some(n), Some(r)) = (next, lookup(s.repos, name)) {
        crate::names::law_put_then_lookup(
            s.repos,
            name,
            RepoView { next_session_starter: n, last_updated: now, ..r },
            name,
        );
    }
}

/// A state that is written differs from the one it was made of in the time alone; without a
/// state on disk a tool starts from one that holds nothing.
pub proof fn law_stamps_and_fresh_starts(s: RelayView, disk: RelayState, now: Seq<char>)
    ensures
        stamped(s, now).updated_at == now,
        stamped(s, now).repos == s.repos,
        stamped(s, now).active_baton == s.active_baton,
        stamped(s, now).project_context == s.project_context,
        stamped(s, now).schema_version == s.schema_version,
        stamped(s, now).state_snapshot == s.state_snapshot,
        stamped(s, now).spec_sync == s.spec_sync,
        disk_or_fresh(Some(disk), now) == disk@,
        ({
            let f = disk_or_fresh(None, now);
            &&& f.repos.len() == 0
            &&& f.active_baton.len() == 0
            &&& f.project_context.len() == 0
            &&& f.updated_at == now
            &&& f.state_snapshot.open_threads.len() == 0
            &&& f.state_snapshot.blockers.len() == 0
            &&& f.state_snapshot.last_session.len() == 0
            &&& f.spec_sync.last_sync.len() == 0
            &&& f.spec_sync.drift.len() == 0
            &&& f.spec_sync.specs.len() == 0
        }),
{
}

/// A tool works on the repository it is told, else on the one named like the directory the
/// plugin is bound to; a resume on the one it is told, else on the one with the baton.
pub proof fn law_which_repo_is_meant(p: RelayPlugin, told: &str)
    ensures
        p.meant(Some(told)) == told@,
        p.resumed(Some(told)) == told@,
        p.ctx matches Some(c) ==> p.meant(None) == last_name(c.root_path@),
        p.state matches Some(s) ==> p.resumed(None) == s@.active_baton,
        p.ctx matches Some(c) ==> p.key() == c.workspace_key@,
        p.ctx is None ==> p.key().len() == 0,
{
}

/// Whether the fields of an object have different names.
pub open spec fn are_distinct(fs: Seq<(Seq<char>, JsonView)>) -> bool {
    forall|i: int, j: int| 0 <= i < j < fs.len() ==> (#[trigger] fs[i]).0 != (#[trigger] fs[j]).0
}

proof fn lemma_get_at(fs: Seq<(Seq<char>, JsonView)>, k: int)
    requires
        0 <= k < fs.len(),
        are_distinct(fs),
    ensures
        get(JsonView::Object(fs), fs[k].0) == Some(fs[k].1),
{
    crate::json::law_fields_are_found(fs, fs[k].0, k);
}

/// A repository as JSON holds each of its parts under the part's own name.
pub proof fn law_repo_as_json(r: RepoView)
    ensures
        ({
            let j = repo_model(r);
            &&& get(j, "name"@) == Some(JsonView::Str(r.name))
            &&& get(j, "path"@) == Some(JsonView::Str(r.path))
            &&& get(j, "role"@) == Some(JsonView::Str(r.role))
            &&& get(j, "active_phase"@) == Some(JsonView::Str(r.active_phase))
            &&& get(j, "volatile_state"@) == Some(JsonView::Str(r.volatile_state))
            &&& get(j, "confidence_score"@) == Some(JsonView::UInt(r.confidence_score as u64))
            &&& get(j, "debt_tag"@) == Some(strings_model(r.debt_tag))
            &&& get(j, "next_session_starter"@) == Some(JsonView::Str(r.next_session_starter))
            &&& get(j, "last_updated"@) == Some(JsonView::Str(r.last_updated))
            &&& get(j, "handoffs"@) matches Some(JsonView::Array(hs))
            &&& hs.len() == r.handoffs.len()
            &&& forall|i: int|
                0 <= i < hs.len() ==> {
                    let h = r.handoffs[i];
                    (#[trigger] hs[i]) == JsonView::Object(
                        seq![
                            ("source"@, JsonView::Str(h.source)),
                            ("captured_at"@, JsonView::Str(h.captured_at)),
                            ("raw"@, JsonView::Str(h.raw)),
                        ],
                    )
                }
        }),
{
    reveal_strlit("name");
    reveal_strlit("path");
    reveal_strlit("role");
    reveal_strlit("active_phase");
    reveal_strlit("volatile_state");
    reveal_strlit("confidence_score");
    reveal_strlit("debt_tag");
    reveal_strlit("next_session_starter");
    reveal_strlit("handoffs");
    reveal_strlit("last_updated");
    let fs = repo_model(r)->Object_0;
    let l = fs.map_values(|f: (Seq<char>, JsonView)| f.0.len());
    assert(l[0] == 4 && l[1] == 4 && l[2] == 4 && l[3] == 12 && l[4] == 14 && l[5] == 16 && l[6]
        == 8 && l[7] == 20 && l[8] == 8 && l[9] == 12);
    assert(fs[0].0[0] == 'n' && fs[1].0[0] == 'p' && fs[2].0[0] == 'r');
    assert(fs[3].0[0] == 'a' && fs[9].0[0] == 'l' && fs[6].0[0] == 'd' && fs[8].0[0] == 'h');
    assert(are_distinct(fs)) by {
        assert forall|i: int, j: int| 0 <= i < j < fs.len() implies (#[trigger] fs[i]).0 != (
        #[trigger] fs[j]).0 by {
            assert(l[i] == fs[i].0.len() && l[j] == fs[j].0.len());
        }
    }
    lemma_get_at(fs, 0);
    lemma_get_at(fs, 1);
    lemma_get_at(fs, 2);
    lemma_get_at(fs, 3);
    lemma_get_at(fs, 4);
    lemma_get_at(fs, 5);
    lemma_get_at(fs, 6);
    lemma_get_at(fs, 7);
    lemma_get_at(fs, 8);
    lemma_get_at(fs, 9);
}

/// A state as JSON holds each of its parts under the part's own name, the repositories and
/// the digests each under theirs, in order.
pub proof fn law_state_as_json(s: RelayView)
    ensures
        ({
            let j = relay_model(s);
            &&& get(j, "schema_version"@) == Some(JsonView::Str(s.schema_version))
            &&& get(j, "project_context"@) == Some(JsonView::Str(s.project_context))
            &&& get(j, "active_baton"@) == Some(JsonView::Str(s.active_baton))
            &&& get(j, "updated_at"@) == Some(JsonView::Str(s.updated_at))
            &&& get(j, "repos"@) matches Some(JsonView::Object(rs))
            &&& rs.len() == s.repos.len()
            &&& forall|i: int|
                0 <= i < rs.len() ==> (#[trigger] rs[i]).0 == s.repos[i].0 && rs[i].1 == repo_model(
                    s.repos[i].1,
                )
            &&& get(j, "state_snapshot"@) == Some(
                JsonView::Object(
                    seq![
                        ("last_session"@, JsonView::Str(s.state_snapshot.last_session)),
                        ("open_threads"@, strings_model(s.state_snapshot.open_threads)),
                        ("blockers"@, strings_model(s.state_snapshot.blockers)),
                    ],
                ),
            )
            &&& get(j, "spec_sync"@) == Some(
                JsonView::Object(
                    seq![
                        ("last_sync"@, JsonView::Str(s.spec_sync.last_sync)),
                        ("drift"@, strings_model(s.spec_sync.drift)),
                        (
                            "specs"@,
                            JsonView::Object(
                                s.spec_sync.specs.map_values(
                                    |e: (Seq<char>, Seq<char>)| (e.0, JsonView::Str(e.1)),
                                ),
                            ),
                        ),
                    ],
                ),
            )
        }),
{
    reveal_strlit("schema_version");
    reveal_strlit("project_context");
    reveal_strlit("active_baton");
    reveal_strlit("repos");
    reveal_strlit("state_snapshot");
    reveal_strlit("spec_sync");
    reveal_strlit("updated_at");
    let fs = relay_model(s)->Object_0;
    let l = fs.map_values(|f: (Seq<char>, JsonView)| f.0.len());
    assert(l[0] == 14 && l[1] == 15 && l[2] == 12 && l[3] == 5 && l[4] == 14 && l[5] == 9 && l[6]
        == 10);
    assert(fs[0].0[1] == 'c' && fs[4].0[1] == 't');
    assert(are_distinct(fs)) by {
        assert forall|i: int, j: int| 0 <= i < j < fs.len() implies (#[trigger] fs[i]).0 != (
        #[trigger] fs[j]).0 by {
            assert(l[i] == fs[i].0.len() && l[j] == fs[j].0.len());
        }
    }
    lemma_get_at(fs, 0);
    lemma_get_at(fs, 1);
    lemma_get_at(fs, 2);
    lemma_get_at(fs, 3);
    lemma_get_at(fs, 4);
    lemma_get_at(fs, 5);
    lemma_get_at(fs, 6);
}

/// A list of texts as JSON has each of them, in order.
pub proof fn law_texts_as_json(v: Seq<Seq<char>>, i: int)
    requires
        0 <= i < v.len(),
    ensures
        strings_model(v) matches JsonView::Array(a) && a.len() == v.len() && a[i] == JsonView::Str(
            v[i],
        ),
{
}

/// The packet of a plugin with a state holds that state and the nodes that the session has
/// touched, under the key of the bound workspace; without a state it is an error.
pub proof fn law_the_report_holds_the_state(p: RelayPlugin)
    ensures
        p.state matches Some(s) ==> {
            &&& meta_of(lines(p.report())).workspace_key == Some(p.key())
            &&& meta_of(lines(p.report())).error is None
            &&& crate::packet::data_of(lines(p.report())) == Some(
                json_rendered(
                    JsonView::Object(
                        seq![
                            ("handoff"@, relay_model(s@)),
                            ("active_nodes"@, strings_model(texts(p.active_nodes@))),
                        ],
                    ),
                ),
            )
        },
        p.state is None ==> meta_of(lines(p.report())).error == Some(
            "No relay.json found. Run relayInit first."@,
        ),
{
    match p.state {
        Some(s) => {
            let data = json_rendered(
                JsonView::Object(
                    seq![
                        ("handoff"@, relay_model(s@)),
                        ("active_nodes"@, strings_model(texts(p.active_nodes@))),
                    ],
                ),
            );
            crate::packet::law_packet_roundtrip(p.key(), data);
            crate::packet::law_packet_data_roundtrip(p.key(), data);
        },
        None => {
            crate::packet::law_error_packet_roundtrip(
                "No relay.json found. Run relayInit first."@,
            );
        },
    }
}

/// The nodes that a session has touched: those before, in their order, and then every node
/// that an update names, each once.
pub proof fn law_touched_nodes_are_noted(active: Seq<Seq<char>>, named: Seq<Seq<char>>, id: Seq<char>)
    ensures
        with_threads(active, named).contains(id) <==> active.contains(id) || named.contains(id),
        active.is_prefix_of(with_threads(active, named)),
{
    crate::relay::lemma_threads_contain(active, named, id);
    crate::relay::lemma_threads_follow(active, named);
}

/// A packet is refused for its metadata first, then where what it carries is malformed; any other
/// is accepted, whether it carries a state or not.
pub proof fn law_which_packets_are_refused(
    text: Seq<char>,
    carried: Result<Option<RelayState>, String>,
    bound: Seq<char>,
)
    ensures
        refusal_of(meta_of(lines(text)), bound) matches Some(why) ==> packet_refusal(
            text,
            carried,
            bound,
        ) == Some(why),
        refusal_of(meta_of(lines(text)), bound) is None ==> {
            &&& carried matches Err(e) ==> packet_refusal(text, carried, bound) == Some(
                "malformed toon: "@ + e@,
            )
            &&& carried is Ok ==> packet_refusal(text, carried, bound) is None
        },
{
}

/// A save and an add write into the state on disk, not into one that was read before: what is found
/// there of other repositories, of the specs and of the project stays, and only the time is new.
pub proof fn law_tools_work_on_the_disk(
    disk: RelayState,
    name: Seq<char>,
    args: SaveArgs,
    source: Seq<char>,
    raw: Seq<char>,
    now: Seq<char>,
    other: Seq<char>,
)
    ensures
        ({
            let t = written_by_save(Some(disk), name, args, now);
            &&& t.updated_at == now
            &&& lookup(t.repos, name) is Some
            &&& args.active_phase matches Some(v) ==> lookup(t.repos, name)->0.active_phase == v@
            &&& args.role matches Some(v) ==> lookup(t.repos, name)->0.role == v@
            &&& args.volatile_state matches Some(v) ==> lookup(t.repos, name)->0.volatile_state
                == v@
            &&& args.next_session_starter matches Some(v) ==> lookup(
                t.repos,
                name,
            )->0.next_session_starter == v@
            &&& other != name ==> lookup(t.repos, other) == lookup(disk@.repos, other)
            &&& t.spec_sync == disk@.spec_sync
            &&& t.state_snapshot == disk@.state_snapshot
            &&& t.project_context == disk@.project_context
            &&& disk@.active_baton.len() > 0 ==> t.active_baton == disk@.active_baton
            &&& disk@.active_baton.len() == 0 ==> t.active_baton == name
        }),
        ({
            let t = written_by_add(Some(disk), name, source, raw, now);
            &&& t.updated_at == now
            &&& lookup(t.repos, name) is Some
            &&& lookup(t.repos, name)->0.handoffs.last().raw == raw
            &&& lookup(t.repos, name)->0.handoffs.last().source == source
            &&& other != name ==> lookup(t.repos, other) == lookup(disk@.repos, other)
            &&& t.spec_sync == disk@.spec_sync
            &&& t.active_baton == disk@.active_baton
            &&& t.project_context == disk@.project_context
        }),
{
    crate::relay::law_saved_texts_are_found_again(disk@, name, args, now);
    crate::relay::law_added_documents_are_found_again(disk@, name, source, raw, now, other);
    if other != name {
        crate::relay::law_save_leaves_other_repos(disk@, name, args, now, other);
    }
}

/// A switch writes the state on disk with the new baton and the time, and with nothing else changed;
/// a close writes it with the specs compared, and with the next start of the repository where one is
/// given and the repository is registered.
pub proof fn law_switch_and_close_work_on_the_disk(
    disk: RelayState,
    name: Seq<char>,
    next: Option<Seq<char>>,
    specs: Seq<SpecFile>,
    now: Seq<char>,
    other: Seq<char>,
)
    ensures
        ({
            let t = written_by_switch(Some(disk), name, now);
            &&& t.active_baton == name
            &&& t.updated_at == now
            &&& t.repos == disk@.repos
            &&& t.spec_sync == disk@.spec_sync
            &&& t.state_snapshot == disk@.state_snapshot
            &&& t.project_context == disk@.project_context
            &&& t.schema_version == disk@.schema_version
        }),
        ({
            let t = written_by_close(Some(disk), name, next, specs, now);
            &&& t.updated_at == now
            &&& t.active_baton == disk@.active_baton
            &&& t.state_snapshot == disk@.state_snapshot
            &&& t.project_context == disk@.project_context
            &&& t.spec_sync.last_sync == now
            &&& other != name ==> lookup(t.repos, other) == lookup(disk@.repos, other)
            &&& next is None ==> t.repos == disk@.repos
            &&& next is Some && lookup(disk@.repos, name) is Some ==> lookup(t.repos, name) is Some
                && lookup(t.repos, name)->0.next_session_starter == next->0
        }),
{
    law_close_records_the_next_start(disk@, name, next, specs, now);
    if other != name {
        law_close_leaves_the_rest(disk@, name, next, specs, now, other);
    }
}

/// A tool that finds no state on disk starts from nothing: a save registers the repository alone and
/// gives it the baton, a switch registers none.
pub proof fn law_tools_start_from_nothing(
    name: Seq<char>,
    args: SaveArgs,
    now: Seq<char>,
    other: Seq<char>,
)
    requires
        other != name,
    ensures
        written_by_save(None, name, args, now).active_baton == name,
        lookup(written_by_save(None, name, args, now).repos, name) is Some,
        lookup(written_by_save(None, name, args, now).repos, other) is None,
        written_by_switch(None, name, now).active_baton == name,
        written_by_switch(None, name, now).repos.len() == 0,
{
    let s = fresh_state(now);
    crate::relay::law_saved_texts_are_found_again(s, name, args, now);
    crate::relay::law_save_leaves_other_repos(s, name, args, now, other);
    assert(keys(s.repos) =~= Seq::<Seq<char>>::empty());
}

/// A packet that is accepted replaces the state just where it carries one and the plugin has a root.
pub proof fn law_accepted_packets_replace_the_state(
    state: Option<RelayState>,
    s: RelayState,
    e: String,
)
    ensures
        state_after(state, true, Ok(Some(s))) == Some(s),
        state_after(state, false, Ok(Some(s))) == state,
        state_after(state, true, Ok(None)) == state,
        state_after(state, true, Err(e)) == state,
{
}

/// An update of the bound workspace adds the nodes it names; one of another workspace adds none, nor
/// does any while the plugin is unbound.
pub proof fn law_updates_of_the_bound_workspace(
    active: Seq<Seq<char>>,
    bound: Seq<char>,
    key: Seq<char>,
    named: Seq<Seq<char>>,
    id: Seq<char>,
)
    ensures
        touched_after(active, Some(bound), bound, named).contains(id) <==> active.contains(id)
            || named.contains(id),
        key != bound ==> touched_after(active, Some(bound), key, named) == active,
        touched_after(active, None, key, named) == active,
{
    law_touched_nodes_are_noted(active, named, id);
}

}
