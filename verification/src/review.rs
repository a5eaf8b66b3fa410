//! The review plugin: reviews bound to graph nodes, kept in step with the graph,
//! and raised again when a change comes near them.
use vstd::prelude::*;

use crate::clock::is_timestamp_of;
use crate::crg::{CrgError, CrgMcpClient, RankedNode};
use crate::decimal::{decimal, decimal_string};
use crate::graph::{
    has_node, ids, node_ids, GraphOutput, GraphUpdateEvent, NodeId, WorkspaceContext,
};
use crate::guard::{are_covers, binding_views, covers_of};
use crate::impact::{
    alert_views, detect_impact, impact_alerts, is_stamped, ImpactAlert, ReviewBinding, SeedCover,
};
use crate::json::{json_rendered, no_fields, object, string, with_field, Json, JsonView};
use crate::packet::{emit_error_packet, emit_packet, error_packet_text, packet_text};
use crate::resolver::{resolve_line, resolved_id, Resolved};
use crate::seeds::{distinct, impact_seeds, snapshot_diff};
use crate::text::{
    opt_text, starts_with, str_strip_prefix, str_trim_end_char, strip_prefix, texts, trim_end_char,
};

verus! {

/// The plugin's id.
pub const PLUGIN_ID: &'static str = "graphify-plugin-review";

/// A file of reviews.
#[derive(Debug, Clone, PartialEq, Eq)]
pub struct IngestPayload {
    pub version: String,
    pub source: String,
    pub workspace_key: String,
    pub reviews: Vec<ReviewItem>,
}

/// One review of a line of code.
#[derive(Debug, Clone, PartialEq, Eq)]
pub struct ReviewItem {
    pub review_id: String,
    pub file_path: String,
    pub line_number: u32,
    pub severity: String,
    pub category: String,
    pub comment: String,
    pub created_at: String,
}

/// Model of [`ReviewItem`].
#[verifier::ext_equal]
pub struct ItemView {
    pub review_id: Seq<char>,
    pub file_path: Seq<char>,
    pub line_number: u32,
    pub severity: Seq<char>,
    pub category: Seq<char>,
    pub comment: Seq<char>,
    pub created_at: Seq<char>,
}

impl View for ReviewItem {
    type V = ItemView;

    open spec fn view(&self) -> ItemView {
        ItemView {
            review_id: self.review_id@,
            file_path: self.file_path@,
            line_number: self.line_number,
            severity: self.severity@,
            category: self.category@,
            comment: self.comment@,
            created_at: self.created_at@,
        }
    }
}

/// The models of some reviews, in order.
pub open spec fn item_views(v: Seq<ReviewItem>) -> Seq<ItemView> {
    v.map_values(|r: ReviewItem| r@)
}

/// Model of [`ReviewBinding`].
#[verifier::ext_equal]
pub struct BindingView {
    pub workspace_key: Seq<char>,
    pub id: Seq<char>,
    pub canonical_node_id: Seq<char>,
    pub file_path: Seq<char>,
    pub line_number: int,
    pub signature_hash: Seq<char>,
    pub severity: Seq<char>,
    pub category: Seq<char>,
    pub comment: Seq<char>,
    pub status: Seq<char>,
    pub created_at: Seq<char>,
    pub updated_at: Seq<char>,
    pub resolution_reason: Seq<char>,
    pub resolved_at: Seq<char>,
    pub resolved_by: Seq<char>,
}

impl View for ReviewBinding {
    type V = BindingView;

    open spec fn view(&self) -> BindingView {
        BindingView {
            workspace_key: self.workspace_key@,
            id: self.id@,
            canonical_node_id: self.canonical_node_id@,
            file_path: self.file_path@,
            line_number: self.line_number as int,
            signature_hash: self.signature_hash@,
            severity: self.severity@,
            category: self.category@,
            comment: self.comment@,
            status: self.status@,
            created_at: self.created_at@,
            updated_at: self.updated_at@,
            resolution_reason: self.resolution_reason@,
            resolved_at: self.resolved_at@,
            resolved_by: self.resolved_by@,
        }
    }
}

/// The id of the node that a review's line lies in; empty without one.
pub open spec fn canonical_id(graph: Option<GraphOutput>, item: ItemView) -> Seq<char> {
    match resolved_id(graph, item.file_path, item.line_number as int) {
        Some(id) => id,
        None => Seq::empty(),
    }
}

/// The unresolved binding of a review to the node its line lies in.
pub open spec fn binding_of(
    workspace_key: Seq<char>,
    item: ItemView,
    canonical_node_id: Seq<char>,
    now: Seq<char>,
) -> BindingView {
    BindingView {
        workspace_key,
        id: item.review_id,
        canonical_node_id,
        file_path: item.file_path,
        line_number: item.line_number as int,
        signature_hash: "v1_default"@,
        severity: item.severity,
        category: item.category,
        comment: item.comment,
        status: "unresolved"@,
        created_at: item.created_at,
        updated_at: now,
        resolution_reason: Seq::empty(),
        resolved_at: Seq::empty(),
        resolved_by: Seq::empty(),
    }
}

/// What an ingest writes, and how many of its reviews found a node or none.
pub struct Ingested {
    pub bindings: Vec<ReviewBinding>,
    pub bound: usize,
    pub orphan: usize,
}

/// How many reviews lie in no node.
pub open spec fn orphans(graph: Option<GraphOutput>, items: Seq<ItemView>) -> int
    decreases items.len(),
{
    if items.len() == 0 {
        0
    } else {
        orphans(graph, items.drop_last()) + (if canonical_id(graph, items.last()).len() == 0 {
            1int
        } else {
            0int
        })
    }
}

/// A node that the review server ranks, as far as a review is made of it. The
/// severity and the rendered risk stand for its risk score.
#[derive(Debug, Clone, PartialEq, Eq)]
pub struct CrgPriority {
    pub name: Option<String>,
    pub file_path: Option<String>,
    pub line_start: Option<u32>,
    pub kind: Option<String>,
    pub severity: String,
    pub risk: String,
}

/// A ranked node with the severity of its risk score and the text that the score is
/// shown as.
pub fn rated(node: RankedNode, severity: String, risk: String) -> (r: CrgPriority)
    ensures
        r.name == node.name,
        r.file_path == node.file_path,
        r.line_start == node.line_start,
        r.kind == node.kind,
        r.severity == severity,
        r.risk == risk,
{
    CrgPriority {
        name: node.name,
        file_path: node.file_path,
        line_start: node.line_start,
        kind: node.kind,
        severity,
        risk,
    }
}

/// A path below the workspace root, without the root; any other path as it is.
pub open spec fn relative_path(root_path: Seq<char>, path: Seq<char>) -> Seq<char> {
    match strip_prefix(path, trim_end_char(root_path, '/') + "/"@) {
        Some(rel) => rel,
        None => path,
    }
}

/// The review that a ranked node becomes; none without a file and a line.
pub open spec fn review_of(root_path: Seq<char>, p: CrgPriority, now: Seq<char>) -> Option<ItemView> {
    match (p.file_path, p.line_start) {
        (Some(file_path), Some(line)) => {
            let rel = relative_path(root_path, file_path@);
            let name = match p.name {
                Some(n) => n@,
                None => rel,
            };
            Some(
                ItemView {
                    review_id: "crg-"@ + rel + ":"@ + decimal(line as nat) + ":"@ + name,
                    file_path: rel,
                    line_number: line,
                    severity: p.severity@,
                    category: match p.kind {
                        Some(k) => k@,
                        None => "code-review"@,
                    },
                    comment: name + " (risk "@ + p.risk@ + ")"@,
                    created_at: now,
                },
            )
        },
        _ => None,
    }
}

/// The reviews that ranked nodes become, in order.
pub open spec fn reviews_of(
    root_path: Seq<char>,
    ps: Seq<CrgPriority>,
    now: Seq<char>,
) -> Seq<ItemView>
    decreases ps.len(),
{
    if ps.len() == 0 {
        Seq::empty()
    } else {
        let rest = reviews_of(root_path, ps.drop_last(), now);
        match review_of(root_path, ps.last(), now) {
            Some(r) => rest.push(r),
            None => rest,
        }
    }
}

fn review_from(root_path: &str, p: &CrgPriority, now: &str) -> (r: Option<ReviewItem>)
    ensures
        match r {
            Some(x) => review_of(root_path@, *p, now@) == Some(x@),
            None => review_of(root_path@, *p, now@) is None,
        },
{
    let (file_path, line) = match (&p.file_path, &p.line_start) {
        (Some(f), Some(l)) => (f.as_str(), *l),
        _ => return None,
    };
    let mut prefix = str_trim_end_char(root_path, '/').to_owned();
    prefix.append("/");
    let rel = match str_strip_prefix(file_path, prefix.as_str()) {
        Some(rel) => rel,
        None => file_path,
    };
    let name = match &p.name {
        Some(n) => n.as_str(),
        None => rel,
    };
    let mut review_id = "crg-".to_owned();
    review_id.append(rel);
    review_id.append(":");
    review_id.append(decimal_string(line as u64).as_str());
    review_id.append(":");
    review_id.append(name);
    let mut comment = name.to_owned();
    comment.append(" (risk ");
    comment.append(p.risk.as_str());
    comment.append(")");
    let category = match &p.kind {
        Some(k) => k.clone(),
        None => "code-review".to_owned(),
    };
    Some(
        ReviewItem {
            review_id,
            file_path: rel.to_owned(),
            line_number: line,
            severity: p.severity.clone(),
            category,
            comment,
            created_at: now.to_owned(),
        },
    )
}

/// Why a payload could not be taken in.
#[derive(Debug, Clone, PartialEq, Eq)]
pub enum IngestError {
    Io(String),
    Json(String),
    Db(String),
}

/// The text of an error.
pub open spec fn ingest_error_text(e: IngestError) -> Seq<char> {
    match e {
        IngestError::Io(e) => "io error: "@ + e@,
        IngestError::Json(e) => "json error: "@ + e@,
        IngestError::Db(e) => "db error: "@ + e@,
    }
}

impl IngestError {
    /// The text of the error.
    pub fn message(&self) -> (r: String)
        ensures
            r@ == ingest_error_text(*self),
    {
        let (head, e) = match self {
            IngestError::Io(e) => ("io error: ", e),
            IngestError::Json(e) => ("json error: ", e),
            IngestError::Db(e) => ("db error: ", e),
        };
        let mut m = head.to_owned();
        m.append(e.as_str());
        m
    }
}

/// Why a search at the review server failed.
#[derive(Debug, Clone, PartialEq, Eq)]
pub enum ReviewSearchError {
    NoRepoRoot,
    Crg(CrgError),
    Ingest(IngestError),
    Db(String),
}

impl ReviewSearchError {
    /// The text of the error.
    pub fn message(&self) -> (r: String)
        ensures
            r@ == (match self {
                ReviewSearchError::NoRepoRoot => "no repo_root: plugin not bound to a workspace"@,
                ReviewSearchError::Crg(e) => "CRG bridge error: "@ + crate::crg::error_text(*e),
                ReviewSearchError::Ingest(e) => "ingest error: "@ + ingest_error_text(*e),
                ReviewSearchError::Db(e) => "registry db error: "@ + e@,
            }),
    {
        match self {
            ReviewSearchError::NoRepoRoot =>
                "no repo_root: plugin not bound to a workspace".to_owned(),
            ReviewSearchError::Crg(e) => {
                let mut m = "CRG bridge error: ".to_owned();
                m.append(e.message().as_str());
                m
            },
            ReviewSearchError::Ingest(e) => {
                let mut m = "ingest error: ".to_owned();
                m.append(e.message().as_str());
                m
            },
            ReviewSearchError::Db(e) => {
                let mut m = "registry db error: ".to_owned();
                m.append(e.as_str());
                m
            },
        }
    }
}

/// The node ids of the bindings that were found and are bound to a node, in
/// order.
pub open spec fn bound_ids(rows: Seq<Option<ReviewBinding>>) -> Seq<Seq<char>>
    decreases rows.len(),
{
    if rows.len() == 0 {
        Seq::empty()
    } else {
        let rest = bound_ids(rows.drop_last());
        match rows.last() {
            Some(b) if b.canonical_node_id@.len() > 0 => rest.push(b.canonical_node_id@),
            _ => rest,
        }
    }
}

/// The node ids that a search has bound, given the binding of each of its reviews
/// as it was read back.
pub fn bound_node_ids(rows: &[Option<ReviewBinding>]) -> (r: Vec<String>)
    ensures
        texts(r@) == bound_ids(rows@),
{
    let mut r: Vec<String> = Vec::new();
    let mut i: usize = 0;
    assert(rows@.take(0).len() == 0);
    assert(texts(r@) =~= bound_ids(rows@.take(0)));
    while i < rows.len()
        invariant
            i <= rows.len(),
            texts(r@) == bound_ids(rows@.take(i as int)),
        decreases rows.len() - i,
    {
        let ghost before = r@;
        proof {
            assert(rows@.take(i + 1).drop_last() =~= rows@.take(i as int));
            assert(rows@.take(i + 1).last() == rows@[i as int]);
        }
        if let Some(b) = &rows[i] {
            if !b.canonical_node_id.as_str().is_empty() {
                r.push(b.canonical_node_id.clone());
                assert(texts(r@) =~= texts(before).push(b.canonical_node_id@));
            }
        }
        i += 1;
    }
    assert(rows@.take(i as int) =~= rows@);
    r
}

/// Whether a binding is to a node that is not in the graph any more.
pub open spec fn is_gone(b: ReviewBinding, live: Seq<Seq<char>>) -> bool {
    b.canonical_node_id@.len() > 0 && !live.contains(b.canonical_node_id@)
}

/// The ids of the bindings whose node is not in the graph any more, in order. A
/// binding to no node is left to its readers.
pub open spec fn gone(bindings: Seq<ReviewBinding>, live: Seq<Seq<char>>) -> Seq<Seq<char>>
    decreases bindings.len(),
{
    if bindings.len() == 0 {
        Seq::empty()
    } else {
        let rest = gone(bindings.drop_last(), live);
        if is_gone(bindings.last(), live) {
            rest.push(bindings.last().id@)
        } else {
            rest
        }
    }
}

/// Who resolves a binding whose node is gone.
pub const RESOLVED_BY_GONE: &'static str = "auto:node_gone";

/// Why a binding whose node is gone is resolved.
pub const GONE_REASON: &'static str =
    "canonical node no longer present in graph (renamed, moved, or removed)";

/// The ids of the unresolved bindings to resolve because their node is gone.
pub fn gone_bindings(bindings: &[ReviewBinding], graph: &GraphOutput) -> (r: Vec<String>)
    ensures
        texts(r@) == gone(bindings@, node_ids(graph.nodes@)),
{
    let mut r: Vec<String> = Vec::new();
    let mut i: usize = 0;
    assert(bindings@.take(0).len() == 0);
    assert(texts(r@) =~= gone(bindings@.take(0), node_ids(graph.nodes@)));
    while i < bindings.len()
        invariant
            i <= bindings.len(),
            texts(r@) == gone(bindings@.take(i as int), node_ids(graph.nodes@)),
        decreases bindings.len() - i,
    {
        let ghost before = r@;
        proof {
            assert(bindings@.take(i + 1).drop_last() =~= bindings@.take(i as int));
            assert(bindings@.take(i + 1).last() == bindings@[i as int]);
        }
        let node = bindings[i].canonical_node_id.as_str();
        if !node.is_empty() && !has_node(&graph.nodes, node) {
            r.push(bindings[i].id.clone());
            assert(texts(r@) =~= texts(before).push(bindings@[i as int].id@));
        }
        i += 1;
    }
    assert(bindings@.take(i as int) =~= bindings@);
    r
}

/// A binding whose node is still in the graph is left alone, and so is one to no
/// node; one whose node is gone is resolved.
pub proof fn law_only_gone_bindings_resolve(
    bindings: Seq<ReviewBinding>,
    live: Seq<Seq<char>>,
    i: int,
)
    requires
        0 <= i < bindings.len(),
        forall|a: int, b: int|
            0 <= a < b < bindings.len() ==> (#[trigger] bindings[a]).id@ != (
            #[trigger] bindings[b]).id@,
    ensures
        gone(bindings, live).contains(bindings[i].id@) <==> is_gone(bindings[i], live),
    decreases bindings.len(),
{
    let init = bindings.drop_last();
    let rest = gone(init, live);
    let all = gone(bindings, live);
    if i < init.len() {
        assert forall|a: int, b: int| 0 <= a < b < init.len() implies (#[trigger] init[a]).id@ != (
        #[trigger] init[b]).id@ by {
            assert(init[a] == bindings[a] && init[b] == bindings[b]);
        }
        law_only_gone_bindings_resolve(init, live, i);
        assert(init[i] == bindings[i]);
        assert(bindings[i].id@ != bindings[bindings.len() - 1].id@);
        if rest.contains(bindings[i].id@) {
            let k = choose|k: int| 0 <= k < rest.len() && rest[k] == bindings[i].id@;
            assert(all[k] == bindings[i].id@);
        }
        if all.contains(bindings[i].id@) {
            let k = choose|k: int| 0 <= k < all.len() && all[k] == bindings[i].id@;
            assert(k < rest.len());
            assert(rest[k] == bindings[i].id@);
        }
    } else {
        lemma_gone_from(init, live);
        if all.contains(bindings[i].id@) && !is_gone(bindings[i], live) {
            let k = choose|k: int| 0 <= k < rest.len() && rest[k] == bindings[i].id@;
            let j = choose|j: int| 0 <= j < init.len() && (#[trigger] init[j]).id@ == rest[k];
            assert(init[j] == bindings[j]);
        }
        if is_gone(bindings[i], live) {
            assert(all[rest.len() as int] == bindings[i].id@);
        }
    }
}

proof fn lemma_gone_from(bindings: Seq<ReviewBinding>, live: Seq<Seq<char>>)
    ensures
        forall|k: int|
            0 <= k < gone(bindings, live).len() ==> exists|j: int|
                0 <= j < bindings.len() && (#[trigger] bindings[j]).id@ == #[trigger] gone(
                    bindings,
                    live,
                )[k],
    decreases bindings.len(),
{
    if bindings.len() > 0 {
        let init = bindings.drop_last();
        lemma_gone_from(init, live);
        let all = gone(bindings, live);
        let rest = gone(init, live);
        assert forall|k: int| 0 <= k < all.len() implies exists|j: int|
            0 <= j < bindings.len() && (#[trigger] bindings[j]).id@ == #[trigger] all[k] by {
            if k < rest.len() {
                assert(all[k] == rest[k]);
                let j = choose|j: int| 0 <= j < init.len() && (#[trigger] init[j]).id@ == rest[k];
                assert(bindings[j] == init[j]);
            } else {
                assert(bindings[bindings.len() - 1].id@ == all[k]);
            }
        }
    }
}

/// The changed nodes of an update: those it names, or else the difference to the
/// snapshot before.
pub open spec fn changed_ids(
    named: Seq<Seq<char>>,
    prev: Seq<Seq<char>>,
    cur: Seq<Seq<char>>,
) -> Seq<Seq<char>> {
    if named.len() > 0 {
        named
    } else {
        snapshot_diff(prev, cur)
    }
}

/// What a graph update asks for.
pub struct Updated {
    pub gone: Vec<String>,
    pub alerts: Vec<ImpactAlert>,
}

/// The summary that the plugin reports in a packet.
pub open spec fn review_summary(
    workspace_key: Seq<char>,
    bound: u64,
    unresolved: u64,
) -> JsonView {
    JsonView::Object(
        seq![
            (
                "review"@,
                JsonView::Object(
                    seq![
                        ("workspace_key"@, JsonView::Str(workspace_key)),
                        ("bound"@, JsonView::UInt(bound)),
                        ("unresolved"@, JsonView::UInt(unresolved)),
                        ("plugin"@, JsonView::Str(PLUGIN_ID@)),
                    ],
                ),
            ),
        ],
    )
}

/// What a sync brings: nothing, or a packet, read as a graph where it could be.
pub enum Incoming {
    Nothing,
    Graph(GraphOutput),
    Malformed,
}

/// The review plugin.
pub struct ReviewPlugin {
    pub workspace_key: String,
    pub root_path: String,
    pub registry_path: Option<String>,
    pub graph: Option<GraphOutput>,
    pub crg_client: CrgMcpClient,
    pub prev_node_ids: Vec<String>,
}

impl ReviewPlugin {
    /// An unbound plugin for the review server at a URL.
    pub fn new(crg_url: &str) -> (r: ReviewPlugin)
        ensures
            r.workspace_key@ == ""@,
            r.root_path@ == ""@,
            r.registry_path is None,
            r.graph is None,
            r.crg_client.base_url@ == crg_url@,
            r.crg_client.session_id is None,
            r.prev_node_ids@.len() == 0,
    {
        ReviewPlugin {
            workspace_key: "".to_owned(),
            root_path: "".to_owned(),
            registry_path: None,
            graph: None,
            crg_client: CrgMcpClient::new(crg_url),
            prev_node_ids: Vec::new(),
        }
    }

    /// The plugin with another registry.
    pub fn with_registry_path(self, path: &str) -> (r: ReviewPlugin)
        ensures
            opt_text(r.registry_path) == Some(path@),
            r == (ReviewPlugin { registry_path: r.registry_path, ..self }),
    {
        ReviewPlugin { registry_path: Some(path.to_owned()), ..self }
    }

    /// The plugin with another review server, of which no session is open.
    pub fn with_crg_url(self, url: &str) -> (r: ReviewPlugin)
        ensures
            r.crg_client.base_url@ == url@,
            r.crg_client.session_id is None,
            r == (ReviewPlugin { crg_client: r.crg_client, ..self }),
    {
        ReviewPlugin { crg_client: CrgMcpClient::new(url), ..self }
    }

    /// The graph that is held, if any.
    pub fn graph(&self) -> (r: Option<&GraphOutput>)
        ensures
            match r {
                Some(g) => self.graph == Some(*g),
                None => self.graph is None,
            },
    {
        match &self.graph {
            Some(g) => Some(g),
            None => None,
        }
    }

    /// The plugin's id.
    pub fn get_id(&self) -> (r: &'static str)
        ensures
            r@ == PLUGIN_ID@,
    {
        PLUGIN_ID
    }

    /// Binds the plugin to a workspace.
    pub fn bind(&mut self, ctx: WorkspaceContext)
        ensures
            final(self).workspace_key == ctx.workspace_key,
            final(self).root_path == ctx.root_path,
            final(self).registry_path == old(self).registry_path,
            final(self).graph == old(self).graph,
            final(self).crg_client == old(self).crg_client,
            final(self).prev_node_ids == old(self).prev_node_ids,
    {
        self.workspace_key = ctx.workspace_key;
        self.root_path = ctx.root_path;
    }

    /// The key of the bound workspace; empty while unbound.
    pub fn get_workspace_key(&self) -> (r: &str)
        ensures
            r@ == self.workspace_key@,
    {
        self.workspace_key.as_str()
    }

    /// The summary that the plugin reports, given how many bindings there are and
    /// how many of them are unresolved.
    pub fn summary_json(&self, bound: u64, unresolved: u64) -> (r: Json)
        ensures
            r@ == review_summary(self.workspace_key@, bound, unresolved),
    {
        let fs = with_field(no_fields(), "workspace_key", string(self.workspace_key.as_str()));
        let fs = with_field(fs, "bound", Json::UInt(bound));
        let fs = with_field(fs, "unresolved", Json::UInt(unresolved));
        let inner = object(with_field(fs, "plugin", string(PLUGIN_ID)));
        assert(inner@->Object_0 =~= seq![
            ("workspace_key"@, JsonView::Str(self.workspace_key@)),
            ("bound"@, JsonView::UInt(bound)),
            ("unresolved"@, JsonView::UInt(unresolved)),
            ("plugin"@, JsonView::Str(PLUGIN_ID@)),
        ]);
        let r = object(with_field(no_fields(), "review", inner));
        assert(r@->Object_0 =~= seq![("review"@, inner@)]);
        r
    }

    /// The answer to a sync. A graph that comes in replaces the one held; a packet
    /// that could not be read leaves it and is answered with an error.
    pub fn sync_toon(&mut self, incoming: Incoming, bound: u64, unresolved: u64) -> (r: String)
        ensures
            final(self).workspace_key == old(self).workspace_key,
            final(self).root_path == old(self).root_path,
            final(self).registry_path == old(self).registry_path,
            final(self).crg_client == old(self).crg_client,
            final(self).prev_node_ids == old(self).prev_node_ids,
            match incoming {
                Incoming::Graph(g) => final(self).graph == Some(g),
                _ => final(self).graph == old(self).graph,
            },
            r@ == (match incoming {
                Incoming::Malformed => error_packet_text("Cannot parse .toon into GraphOutput."@),
                _ => packet_text(
                    old(self).workspace_key@,
                    json_rendered(review_summary(old(self).workspace_key@, bound, unresolved)),
                ),
            }),
    {
        match incoming {
            Incoming::Malformed => {
                return emit_error_packet("Cannot parse .toon into GraphOutput.");
            },
            Incoming::Graph(g) => {
                self.graph = Some(g);
            },
            Incoming::Nothing => {},
        }
        let summary = self.summary_json(bound, unresolved);
        emit_packet(self.workspace_key.as_str(), &summary)
    }

    /// The node that a line lies in, in the graph that is held.
    pub fn resolve(&self, file_path: &str, line: u32) -> (r: Option<Resolved>)
        ensures
            match r {
                Some(x) => resolved_id(self.graph, file_path@, line as int) == Some(x.node_id.0@),
                None => resolved_id(self.graph, file_path@, line as int) is None,
            },
    {
        match &self.graph {
            Some(g) => resolve_line(g, file_path, line),
            None => None,
        }
    }

    /// The bindings of a payload, each to the node that the review's line lies in.
    /// They belong to the bound workspace, whatever the payload names.
    pub fn review_ingest(&self, payload: &IngestPayload, now: &str) -> (r: Ingested)
        ensures
            r.bindings@.len() == payload.reviews@.len(),
            forall|i: int|
                0 <= i < r.bindings@.len() ==> (#[trigger] r.bindings@[i])@ == binding_of(
                    self.workspace_key@,
                    payload.reviews@[i]@,
                    canonical_id(self.graph, payload.reviews@[i]@),
                    now@,
                ),
            r.orphan == orphans(self.graph, item_views(payload.reviews@)),
            r.bound + r.orphan == payload.reviews@.len(),
    {
        let mut bindings: Vec<ReviewBinding> = Vec::new();
        let mut bound: usize = 0;
        let mut orphan: usize = 0;
        let mut i: usize = 0;
        let ghost items = item_views(payload.reviews@);
        assert(items.take(0).len() == 0);
        while i < payload.reviews.len()
            invariant
                i <= payload.reviews.len(),
                items == item_views(payload.reviews@),
                bindings@.len() == i,
                forall|j: int|
                    0 <= j < i ==> (#[trigger] bindings@[j])@ == binding_of(
                        self.workspace_key@,
                        payload.reviews@[j]@,
                        canonical_id(self.graph, payload.reviews@[j]@),
                        now@,
                    ),
                orphan == orphans(self.graph, items.take(i as int)),
                bound + orphan == i,
            decreases payload.reviews.len() - i,
        {
            let review = &payload.reviews[i];
            proof {
                assert(items.take(i + 1).drop_last() =~= items.take(i as int));
                assert(items.take(i + 1).last() == review@);
            }
            let canonical = match self.resolve(review.file_path.as_str(), review.line_number) {
                Some(x) => x.node_id.0,
                None => String::new(),
            };
            assert(canonical@ == canonical_id(self.graph, review@));
            if canonical.as_str().is_empty() {
                orphan += 1;
            } else {
                bound += 1;
            }
            let binding = ReviewBinding {
                workspace_key: self.workspace_key.clone(),
                id: review.review_id.clone(),
                canonical_node_id: canonical,
                file_path: review.file_path.clone(),
                line_number: review.line_number as i64,
                signature_hash: "v1_default".to_owned(),
                severity: review.severity.clone(),
                category: review.category.clone(),
                comment: review.comment.clone(),
                status: "unresolved".to_owned(),
                created_at: review.created_at.clone(),
                updated_at: now.to_owned(),
                resolution_reason: String::new(),
                resolved_at: String::new(),
                resolved_by: String::new(),
            };
            assert(binding@ == binding_of(
                self.workspace_key@,
                review@,
                canonical_id(self.graph, review@),
                now@,
            ));
            bindings.push(binding);
            i += 1;
        }
        assert(items.take(i as int) =~= items);
        Ingested { bindings, bound, orphan }
    }

    /// The payload that ranked nodes become; an error while no workspace is bound.
    pub fn review_search_crg(
        &self,
        priorities: &[CrgPriority],
        now: &str,
    ) -> (r: Result<IngestPayload, ReviewSearchError>)
        ensures
            match r {
                Ok(p) => self.root_path@.len() > 0 && p.version@ == "1.0"@ && p.source@
                    == "code-review-graph"@ && p.workspace_key@ == self.workspace_key@ && item_views(
                    p.reviews@,
                ) == reviews_of(self.root_path@, priorities@, now@),
                Err(e) => self.root_path@.len() == 0 && e == ReviewSearchError::NoRepoRoot,
            },
    {
        if self.root_path.as_str().is_empty() {
            return Err(ReviewSearchError::NoRepoRoot);
        }
        let mut reviews: Vec<ReviewItem> = Vec::new();
        let mut i: usize = 0;
        assert(priorities@.take(0).len() == 0);
        assert(item_views(reviews@) =~= reviews_of(self.root_path@, priorities@.take(0), now@));
        while i < priorities.len()
            invariant
                i <= priorities.len(),
                item_views(reviews@) == reviews_of(self.root_path@, priorities@.take(i as int), now@),
            decreases priorities.len() - i,
        {
            let ghost before = reviews@;
            proof {
                assert(priorities@.take(i + 1).drop_last() =~= priorities@.take(i as int));
                assert(priorities@.take(i + 1).last() == priorities@[i as int]);
            }
            if let Some(r) = review_from(self.root_path.as_str(), &priorities[i], now) {
                reviews.push(r);
                assert(item_views(reviews@) =~= item_views(before).push(r@));
            }
            i += 1;
        }
        assert(priorities@.take(i as int) =~= priorities@);
        Ok(
            IngestPayload {
                version: "1.0".to_owned(),
                source: "code-review-graph".to_owned(),
                workspace_key: self.workspace_key.clone(),
                reviews,
            },
        )
    }

    /// What a graph update asks for, given the unresolved bindings that are kept: the
    /// ids of those to resolve because their node is gone, and an alert for each node
    /// near a change that has an open critical or high review. Nothing while no graph
    /// is held.
    pub fn on_graph_updated(&mut self, event: &GraphUpdateEvent, unresolved: &[ReviewBinding]) -> (r:
        Updated)
        ensures
            final(self).workspace_key == old(self).workspace_key,
            final(self).root_path == old(self).root_path,
            final(self).registry_path == old(self).registry_path,
            final(self).graph == old(self).graph,
            final(self).crg_client == old(self).crg_client,
            match old(self).graph {
                None => r.gone@.len() == 0 && r.alerts@.len() == 0 && final(self).prev_node_ids
                    == old(self).prev_node_ids,
                Some(g) => {
                    &&& texts(r.gone@) == gone(unresolved@, node_ids(g.nodes@))
                    &&& texts(final(self).prev_node_ids@) == distinct(node_ids(g.nodes@))
                    &&& exists|covers: Seq<SeedCover>|
                        {
                            &&& #[trigger] are_covers(
                                covers,
                                g,
                                changed_ids(
                                    ids(event.modified_nodes@),
                                    texts(old(self).prev_node_ids@),
                                    node_ids(g.nodes@),
                                ),
                                binding_views(unresolved@),
                            )
                            &&& alert_views(r.alerts@) == impact_alerts(
                                old(self).workspace_key@,
                                covers,
                            )
                        }
                },
            },
            r.alerts@.len() > 0 ==> exists|now: Seq<char>, secs: int|
                #![trigger is_timestamp_of(now, secs)]
                is_timestamp_of(now, secs) && forall|i: int|
                    0 <= i < r.alerts@.len() ==> is_stamped(#[trigger] r.alerts@[i], now),
    {
        let seeds = self.changed_nodes(event);
        match &self.graph {
            None => Updated { gone: Vec::new(), alerts: Vec::new() },
            Some(g) => {
                let gone = gone_bindings(unresolved, g);
                let covers = covers_of(g, &seeds, unresolved);
                assert(ids(event.modified_nodes@).len() == event.modified_nodes@.len());
                assert(ids(seeds@) == changed_ids(
                    ids(event.modified_nodes@),
                    texts(old(self).prev_node_ids@),
                    node_ids(g.nodes@),
                ));
                let alerts = detect_impact(&covers, self.workspace_key.as_str());
                Updated { gone, alerts }
            },
        }
    }

    /// The changed nodes of an update; none while no graph is held.
    pub fn changed_nodes(&mut self, event: &GraphUpdateEvent) -> (seeds: Vec<NodeId>)
        ensures
            final(self).workspace_key == old(self).workspace_key,
            final(self).root_path == old(self).root_path,
            final(self).registry_path == old(self).registry_path,
            final(self).graph == old(self).graph,
            final(self).crg_client == old(self).crg_client,
            match old(self).graph {
                None => seeds@.len() == 0 && final(self).prev_node_ids == old(self).prev_node_ids,
                Some(g) => ids(seeds@) == changed_ids(
                    ids(event.modified_nodes@),
                    texts(old(self).prev_node_ids@),
                    node_ids(g.nodes@),
                ) && texts(final(self).prev_node_ids@) == distinct(node_ids(g.nodes@)),
            },
    {
        match &self.graph {
            None => Vec::new(),
            Some(g) => {
                let mut prev: Vec<String> = Vec::new();
                std::mem::swap(&mut prev, &mut self.prev_node_ids);
                let seeds = impact_seeds(&mut prev, &g.nodes, event);
                self.prev_node_ids = prev;
                seeds
            },
        }
    }
}

/// The bindings to resolve are all those to a node that is not in the graph any more, in order,
/// and no other: one to no node stays, and so does one whose node is there.
pub proof fn law_gone_bindings(bindings: Seq<ReviewBinding>, live: Seq<Seq<char>>)
    ensures
        gone(bindings, live) == bindings.filter(
            |b: ReviewBinding|
                b.canonical_node_id@.len() > 0 && !live.contains(b.canonical_node_id@),
        ).map_values(|b: ReviewBinding| b.id@),
    decreases bindings.len(),
{
    reveal(Seq::filter);
    let f = |b: ReviewBinding|
        b.canonical_node_id@.len() > 0 && !live.contains(b.canonical_node_id@);
    let g = |b: ReviewBinding| b.id@;
    if bindings.len() > 0 {
        law_gone_bindings(bindings.drop_last(), live);
        let a = bindings.drop_last().filter(f);
        assert(a.push(bindings.last()).map_values(g) =~= a.map_values(g).push(g(bindings.last())));
    } else {
        assert(gone(bindings, live) =~= bindings.filter(f).map_values(g));
    }
}

/// The nodes that a search has bound are those of the bindings that were found and have one, in
/// order.
pub proof fn law_bound_nodes(rows: Seq<Option<ReviewBinding>>)
    ensures
        bound_ids(rows) == rows.filter(
            |r: Option<ReviewBinding>| r is Some && r->0.canonical_node_id@.len() > 0,
        ).map_values(|r: Option<ReviewBinding>| r->0.canonical_node_id@),
    decreases rows.len(),
{
    reveal(Seq::filter);
    let f = |r: Option<ReviewBinding>| r is Some && r->0.canonical_node_id@.len() > 0;
    let g = |r: Option<ReviewBinding>| r->0.canonical_node_id@;
    if rows.len() > 0 {
        law_bound_nodes(rows.drop_last());
        let a = rows.drop_last().filter(f);
        assert(a.push(rows.last()).map_values(g) =~= a.map_values(g).push(g(rows.last())));
    } else {
        assert(bound_ids(rows) =~= rows.filter(f).map_values(g));
    }
}

/// A review is bound open: with its id, its place, its severity, its category, its comment and
/// its time, to the node it lies in, in the bound workspace, and with nothing about its
/// resolution.
pub proof fn law_bindings_are_open(
    workspace_key: Seq<char>,
    item: ItemView,
    node: Seq<char>,
    now: Seq<char>,
)
    ensures
        ({
            let b = binding_of(workspace_key, item, node, now);
            &&& b.workspace_key == workspace_key
            &&& b.id == item.review_id
            &&& b.canonical_node_id == node
            &&& b.file_path == item.file_path
            &&& b.line_number == item.line_number
            &&& b.severity == item.severity
            &&& b.category == item.category
            &&& b.comment == item.comment
            &&& b.created_at == item.created_at
            &&& b.updated_at == now
            &&& b.status == "unresolved"@
            &&& b.resolution_reason.len() == 0
            &&& b.resolved_at.len() == 0
            &&& b.resolved_by.len() == 0
        }),
{
}

/// A review is an orphan just where its line lies in no node; the orphans are counted one by
/// one.
pub proof fn law_orphans(graph: Option<GraphOutput>, items: Seq<ItemView>, item: ItemView)
    ensures
        resolved_id(graph, item.file_path, item.line_number as int) is None ==> canonical_id(
            graph,
            item,
        ).len() == 0,
        resolved_id(graph, item.file_path, item.line_number as int) matches Some(id)
            ==> canonical_id(graph, item) == id,
        orphans(graph, Seq::empty()) == 0,
        canonical_id(graph, item).len() == 0 ==> orphans(graph, items.push(item)) == orphans(
            graph,
            items,
        ) + 1,
        canonical_id(graph, item).len() > 0 ==> orphans(graph, items.push(item)) == orphans(
            graph,
            items,
        ),
{
    assert(items.push(item).drop_last() =~= items);
}

/// A path below the root is taken from the root on, whether the root ends in a slash or not; any
/// other path stays as it is.
pub proof fn law_relative_paths(root: Seq<char>, rel: Seq<char>, path: Seq<char>)
    requires
        root.len() > 0,
        root.last() != '/',
    ensures
        relative_path(root, root + seq!['/'] + rel) == rel,
        relative_path(root + seq!['/'], root + seq!['/'] + rel) == rel,
        (forall|r: Seq<char>| path != #[trigger] (root + seq!['/'] + r)) ==> relative_path(
            root,
            path,
        ) == path,
{
    crate::opendoc::law_base_urls(root);
    reveal_strlit("/");
    assert("/"@ =~= seq!['/']);
    let p = root + seq!['/'];
    let whole = root + seq!['/'] + rel;
    assert(whole.take(p.len() as int) =~= p);
    assert(whole.skip(p.len() as int) =~= rel);
    if starts_with(path, p) {
        let r = path.skip(p.len() as int);
        assert(path =~= p + r);
        assert(path == root + seq!['/'] + r);
    }
}

/// A ranked node becomes a review just where it has a file and a line: at that line of the file,
/// with the severity of its risk, its kind as the category, and a name that its id and its
/// comment carry, which is the path where it has none. Its id is fixed by path, line and name.
pub proof fn law_reviews_of_ranked_nodes(root_path: Seq<char>, p: CrgPriority, now: Seq<char>)
    ensures
        p.file_path is None || p.line_start is None ==> review_of(root_path, p, now) is None,
        p.file_path is Some && p.line_start is Some ==> {
            let rel = relative_path(root_path, p.file_path->0@);
            let name = if p.name is Some {
                p.name->0@
            } else {
                rel
            };
            &&& review_of(root_path, p, now) matches Some(r)
            &&& r.file_path == rel
            &&& r.line_number == p.line_start->0
            &&& r.severity == p.severity@
            &&& r.created_at == now
            &&& p.kind matches Some(k) ==> r.category == k@
            &&& p.kind is None ==> r.category == "code-review"@
            &&& r.comment == name + " (risk "@ + p.risk@ + ")"@
            &&& r.review_id == "crg-"@ + rel + ":"@ + decimal(p.line_start->0 as nat) + ":"@ + name
        },
{
}

/// Every ranked node that becomes a review is among the reviews, in order, and nothing else is.
pub proof fn law_all_ranked_nodes_are_reviewed(
    root_path: Seq<char>,
    ps: Seq<CrgPriority>,
    now: Seq<char>,
)
    ensures
        reviews_of(root_path, ps, now) == ps.filter(
            |p: CrgPriority| p.file_path is Some && p.line_start is Some,
        ).map_values(|p: CrgPriority| review_of(root_path, p, now)->0),
    decreases ps.len(),
{
    reveal(Seq::filter);
    let f = |p: CrgPriority| p.file_path is Some && p.line_start is Some;
    let g = |p: CrgPriority| review_of(root_path, p, now)->0;
    if ps.len() > 0 {
        law_all_ranked_nodes_are_reviewed(root_path, ps.drop_last(), now);
        let a = ps.drop_last().filter(f);
        assert(a.push(ps.last()).map_values(g) =~= a.map_values(g).push(g(ps.last())));
        law_reviews_of_ranked_nodes(root_path, ps.last(), now);
    } else {
        assert(reviews_of(root_path, ps, now) =~= ps.filter(f).map_values(g));
    }
}

/// The changed nodes of an update are those it names, and only where it names none those in
/// which the graph differs from the snapshot before.
pub proof fn law_changed_nodes(
    named: Seq<Seq<char>>,
    prev: Seq<Seq<char>>,
    cur: Seq<Seq<char>>,
    x: Seq<char>,
)
    ensures
        named.len() > 0 ==> changed_ids(named, prev, cur) == named,
        named.len() == 0 && prev.len() == 0 ==> changed_ids(named, prev, cur).len() == 0,
        named.len() == 0 && prev.len() > 0 ==> (changed_ids(named, prev, cur).contains(x)
            <==> prev.contains(x) != cur.contains(x)),
{
    if prev.len() > 0 {
        crate::seeds::law_what_has_changed(prev, cur, x);
    }
}

/// The summary of a sync names the workspace and counts the bound
/// reviews and those that are open.
pub proof fn law_reported_summary(workspace_key: Seq<char>, bound: u64, unresolved: u64)
    ensures
        review_summary(workspace_key, bound, unresolved) == JsonView::Object(
            seq![
                (
                    "review"@,
                    JsonView::Object(
                        seq![
                            ("workspace_key"@, JsonView::Str(workspace_key)),
                            ("bound"@, JsonView::UInt(bound)),
                            ("unresolved"@, JsonView::UInt(unresolved)),
                            ("plugin"@, JsonView::Str("graphify-plugin-review"@)),
                        ],
                    ),
                ),
            ],
        ),
{
}

/// The texts of the errors of an ingest.
pub proof fn law_ingest_error_texts(e: String)
    ensures
        ingest_error_text(IngestError::Io(e)) == "io error: "@ + e@,
        ingest_error_text(IngestError::Json(e)) == "json error: "@ + e@,
        ingest_error_text(IngestError::Db(e)) == "db error: "@ + e@,
{
}

}
