//! The Argus plugin: the history of a test orchestrator as a graph, and retest
//! signals when a change touches a phase.
use vstd::prelude::*;

use crate::clock::is_timestamp_of;
use crate::decimal::{signed, signed_string};
use crate::graph::{ids, node_ids, GraphOutput, GraphUpdateEvent, NodeId, WorkspaceContext};
use crate::json::{json_rendered, no_fields, object, string, with_field, Json, JsonView};
use crate::packet::{emit_error_packet, emit_packet, error_packet_text, packet_text};
use crate::retest::{contents, detect_retests, is_stamped, retest_signals, RetestSignal};
use crate::review::changed_ids;
use crate::seeds::{distinct, impact_seeds};
use crate::text::{opt_text, texts};

verus! {

/// The plugin's id.
pub const PLUGIN_ID: &'static str = "graphify-plugin-argus";

/// Why the orchestrator's graph could not be had.
#[derive(Debug, Clone, PartialEq, Eq)]
pub enum ArgusError {
    Spawn { bin: String, source: String },
    Exit { code: i32, stderr: String },
    Io(String),
    Parse(String),
}

/// The text of an error.
pub open spec fn error_text(e: ArgusError) -> Seq<char> {
    match e {
        ArgusError::Spawn { bin, source } => "spawn `"@ + bin@ + "` failed: "@ + source@,
        ArgusError::Exit { code, stderr } => "`argus graph` exited with code "@ + signed(code as int)
            + ": "@ + stderr@,
        ArgusError::Io(e) => "io error: "@ + e@,
        ArgusError::Parse(e) => "cannot parse argus graph JSON: "@ + e@,
    }
}

impl ArgusError {
    /// The text of the error.
    pub fn message(&self) -> (r: String)
        ensures
            r@ == error_text(*self),
    {
        match self {
            ArgusError::Spawn { bin, source } => {
                let mut m = "spawn `".to_owned();
                m.append(bin.as_str());
                m.append("` failed: ");
                m.append(source.as_str());
                m
            },
            ArgusError::Exit { code, stderr } => {
                let mut m = "`argus graph` exited with code ".to_owned();
                m.append(signed_string(*code as i64).as_str());
                m.append(": ");
                m.append(stderr.as_str());
                m
            },
            ArgusError::Io(e) => {
                let mut m = "io error: ".to_owned();
                m.append(e.as_str());
                m
            },
            ArgusError::Parse(e) => {
                let mut m = "cannot parse argus graph JSON: ".to_owned();
                m.append(e.as_str());
                m
            },
        }
    }
}

/// The summary that the plugin reports in a packet.
pub open spec fn argus_summary(workspace_key: Seq<char>, graph: Option<GraphOutput>) -> JsonView {
    let (nodes, edges) = match graph {
        Some(g) => (g.nodes@.len(), g.edges@.len()),
        None => (0, 0),
    };
    JsonView::Object(
        seq![
            (
                "argus"@,
                JsonView::Object(
                    seq![
                        ("workspace_key"@, JsonView::Str(workspace_key)),
                        ("nodes"@, JsonView::UInt(nodes as u64)),
                        ("edges"@, JsonView::UInt(edges as u64)),
                        ("plugin"@, JsonView::Str(PLUGIN_ID@)),
                    ],
                ),
            ),
        ],
    )
}

/// What a sync brings: a packet that was read as a graph or could not be, or,
/// without a packet, the orchestrator's own graph or why it could not be had.
pub enum Incoming {
    Packet(GraphOutput),
    Malformed,
    Exported(GraphOutput),
    Failed(ArgusError),
}

/// The graph that a sync brings.
pub open spec fn brought(incoming: Incoming) -> Option<GraphOutput> {
    match incoming {
        Incoming::Packet(g) => Some(g),
        Incoming::Exported(g) => Some(g),
        _ => None,
    }
}

/// The Argus plugin.
pub struct ArgusPlugin {
    pub workspace_key: String,
    pub root_path: String,
    pub argus_bin: String,
    pub state_dir: Option<String>,
    pub graph: Option<GraphOutput>,
    pub prev_node_ids: Vec<String>,
}

impl ArgusPlugin {
    /// An unbound plugin for the orchestrator that is found by its usual name.
    pub fn new() -> (r: ArgusPlugin)
        ensures
            r.workspace_key@ == ""@,
            r.root_path@ == ""@,
            r.argus_bin@ == "argus"@,
            r.state_dir is None,
            r.graph is None,
            r.prev_node_ids@.len() == 0,
    {
        ArgusPlugin {
            workspace_key: "".to_owned(),
            root_path: "".to_owned(),
            argus_bin: "argus".to_owned(),
            state_dir: None,
            graph: None,
            prev_node_ids: Vec::new(),
        }
    }

    /// The plugin with another orchestrator.
    pub fn with_argus_bin(self, bin: &str) -> (r: ArgusPlugin)
        ensures
            r.argus_bin@ == bin@,
            r == (ArgusPlugin { argus_bin: r.argus_bin, ..self }),
    {
        ArgusPlugin { argus_bin: bin.to_owned(), ..self }
    }

    /// The plugin with another directory for the orchestrator's state.
    pub fn with_state_dir(self, dir: &str) -> (r: ArgusPlugin)
        ensures
            opt_text(r.state_dir) == Some(dir@),
            r == (ArgusPlugin { state_dir: r.state_dir, ..self }),
    {
        ArgusPlugin { state_dir: Some(dir.to_owned()), ..self }
    }

    /// The graph that is held, if any.
    pub fn graph(&self) -> (r: Option<&GraphOutput>)
        ensures
            match r {
                Some(g) => self.graph == Some(*g),
                None => self.graph is None,
            },
    {
        match &self.graph {
            Some(g) => Some(g),
            None => None,
        }
    }

    /// The plugin's id.
    pub fn get_id(&self) -> (r: &'static str)
        ensures
            r@ == PLUGIN_ID@,
    {
        PLUGIN_ID
    }

    /// Binds the plugin to a workspace.
    pub fn bind(&mut self, ctx: WorkspaceContext)
        ensures
            final(self).workspace_key == ctx.workspace_key,
            final(self).root_path == ctx.root_path,
            final(self).argus_bin == old(self).argus_bin,
            final(self).state_dir == old(self).state_dir,
            final(self).graph == old(self).graph,
            final(self).prev_node_ids == old(self).prev_node_ids,
    {
        self.workspace_key = ctx.workspace_key;
        self.root_path = ctx.root_path;
    }

    /// The key of the bound workspace; empty while unbound.
    pub fn get_workspace_key(&self) -> (r: &str)
        ensures
            r@ == self.workspace_key@,
    {
        self.workspace_key.as_str()
    }

    /// The summary that the plugin reports.
    pub fn summary_json(&self) -> (r: Json)
        ensures
            r@ == argus_summary(self.workspace_key@, self.graph),
    {
        let (nodes, edges): (usize, usize) = match &self.graph {
            Some(g) => (g.nodes.len(), g.edges.len()),
            None => (0, 0),
        };
        let fs = with_field(no_fields(), "workspace_key", string(self.workspace_key.as_str()));
        let fs = with_field(fs, "nodes", Json::UInt(nodes as u64));
        let fs = with_field(fs, "edges", Json::UInt(edges as u64));
        let inner = object(with_field(fs, "plugin", string(PLUGIN_ID)));
        assert(inner@->Object_0 =~= seq![
            ("workspace_key"@, JsonView::Str(self.workspace_key@)),
            ("nodes"@, JsonView::UInt(nodes as u64)),
            ("edges"@, JsonView::UInt(edges as u64)),
            ("plugin"@, JsonView::Str(PLUGIN_ID@)),
        ]);
        let r = object(with_field(no_fields(), "argus", inner));
        assert(r@->Object_0 =~= seq![("argus"@, inner@)]);
        r
    }

    /// The answer to a sync. A graph that comes in replaces the one held and is
    /// answered with a summary; anything else leaves it and is answered with an
    /// error.
    pub fn sync_toon(&mut self, incoming: Incoming) -> (r: String)
        ensures
            final(self).workspace_key == old(self).workspace_key,
            final(self).root_path == old(self).root_path,
            final(self).argus_bin == old(self).argus_bin,
            final(self).state_dir == old(self).state_dir,
            final(self).prev_node_ids == old(self).prev_node_ids,
            brought(incoming) matches Some(g) ==> final(self).graph == Some(g),
            brought(incoming) is None ==> final(self).graph == old(self).graph,
            r@ == (match incoming {
                Incoming::Malformed => error_packet_text("Cannot parse .toon into GraphOutput."@),
                Incoming::Failed(e) => error_packet_text("argus graph failed: "@ + error_text(e)),
                _ => packet_text(
                    old(self).workspace_key@,
                    json_rendered(argus_summary(old(self).workspace_key@, brought(incoming))),
                ),
            }),
    {
        match incoming {
            Incoming::Malformed => {
                return emit_error_packet("Cannot parse .toon into GraphOutput.");
            },
            Incoming::Failed(e) => {
                let mut m = "argus graph failed: ".to_owned();
                m.append(e.message().as_str());
                return emit_error_packet(m.as_str());
            },
            Incoming::Packet(g) => {
                self.graph = Some(g);
            },
            Incoming::Exported(g) => {
                self.graph = Some(g);
            },
        }
        let summary = self.summary_json();
        emit_packet(self.workspace_key.as_str(), &summary)
    }

    /// The signals that a graph update asks for; none while no graph is held.
    pub fn on_graph_updated(&mut self, event: &GraphUpdateEvent) -> (r: Vec<RetestSignal>)
        ensures
            final(self).workspace_key == old(self).workspace_key,
            final(self).root_path == old(self).root_path,
            final(self).argus_bin == old(self).argus_bin,
            final(self).state_dir == old(self).state_dir,
            final(self).graph == old(self).graph,
            match old(self).graph {
                None => r@.len() == 0 && final(self).prev_node_ids == old(self).prev_node_ids,
                Some(g) => exists|seeds: Seq<NodeId>|
                    {
                        &&& contents(r@) == #[trigger] retest_signals(
                            g.nodes@,
                            seeds,
                            old(self).workspace_key@,
                        )
                        &&& ids(seeds) == changed_ids(
                            ids(event.modified_nodes@),
                            texts(old(self).prev_node_ids@),
                            node_ids(g.nodes@),
                        )
                        &&& texts(final(self).prev_node_ids@) == distinct(node_ids(g.nodes@))
                    },
            },
            r@.len() > 0 ==> exists|now: Seq<char>, secs: int|
                #![trigger is_timestamp_of(now, secs)]
                is_timestamp_of(now, secs) && forall|i: int|
                    0 <= i < r@.len() ==> is_stamped(#[trigger] r@[i], now),
    {
        match &self.graph {
            None => Vec::new(),
            Some(g) => {
                let mut prev: Vec<String> = Vec::new();
                std::mem::swap(&mut prev, &mut self.prev_node_ids);
                let seeds = impact_seeds(&mut prev, &g.nodes, event);
                self.prev_node_ids = prev;
                detect_retests(g, &seeds, self.workspace_key.as_str())
            },
        }
    }
}

/// A graph is brought by a packet that could be read and by the orchestrator, and the summary
/// counts its nodes and its edges; nothing else brings one.
pub proof fn law_what_a_sync_brings(workspace_key: Seq<char>, g: GraphOutput, e: ArgusError)
    ensures
        brought(Incoming::Packet(g)) == Some(g),
        brought(Incoming::Exported(g)) == Some(g),
        brought(Incoming::Malformed) is None,
        brought(Incoming::Failed(e)) is None,
        argus_summary(workspace_key, Some(g)) == JsonView::Object(
            seq![
                (
                    "argus"@,
                    JsonView::Object(
                        seq![
                            ("workspace_key"@, JsonView::Str(workspace_key)),
                            ("nodes"@, JsonView::UInt(g.nodes@.len() as u64)),
                            ("edges"@, JsonView::UInt(g.edges@.len() as u64)),
                            ("plugin"@, JsonView::Str(PLUGIN_ID@)),
                        ],
                    ),
                ),
            ],
        ),
{
}

/// The texts of the errors.
pub proof fn law_error_texts(bin: String, e: String, code: i32)
    ensures
        error_text(ArgusError::Spawn { bin, source: e }) == "spawn `"@ + bin@ + "` failed: "@ + e@,
        error_text(ArgusError::Exit { code, stderr: e }) == "`argus graph` exited with code "@
            + signed(code as int) + ": "@ + e@,
        error_text(ArgusError::Io(e)) == "io error: "@ + e@,
        error_text(ArgusError::Parse(e)) == "cannot parse argus graph JSON: "@ + e@,
{
}

}
