//! The part of a Graphify graph that the plugins read, and the events that a
//! host hands them.
use vstd::prelude::*;

use crate::text::same;

verus! {

/// Identifier of a graph node.
#[derive(Debug, Clone, PartialEq, Eq)]
pub struct NodeId(pub String);

/// A graph node.
#[derive(Debug, Clone, PartialEq, Eq)]
pub struct Node {
    pub id: NodeId,
    pub label: String,
    pub kind: String,
    pub source_file: String,
    pub start_line: usize,
    pub end_line: usize,
}

/// A directed relation between two nodes.
#[derive(Debug, Clone, PartialEq, Eq)]
pub struct Edge {
    pub source: NodeId,
    pub target: NodeId,
    pub relation: String,
}

/// A graph as a host hands it over.
#[derive(Debug, Clone, PartialEq, Eq)]
pub struct GraphOutput {
    pub nodes: Vec<Node>,
    pub edges: Vec<Edge>,
}

/// The workspace that a plugin is bound to.
#[derive(Debug, Clone, PartialEq, Eq)]
pub struct WorkspaceContext {
    pub workspace_key: String,
    pub workspace_name: String,
    pub root_path: String,
}

/// A graph update, with the nodes the host knows to have changed.
#[derive(Debug, Clone, PartialEq, Eq)]
pub struct GraphUpdateEvent {
    pub workspace_key: String,
    pub modified_nodes: Vec<NodeId>,
}

/// The texts of some node ids.
pub open spec fn ids(v: Seq<NodeId>) -> Seq<Seq<char>> {
    v.map_values(|n: NodeId| n.0@)
}

/// The ids of some nodes, in order.
pub open spec fn node_ids(v: Seq<Node>) -> Seq<Seq<char>> {
    v.map_values(|n: Node| n.id.0@)
}

/// Whether `id` is among some node ids.
pub fn has_id(v: &[NodeId], id: &str) -> (r: bool)
    ensures
        r == ids(v@).contains(id@),
{
    let mut i: usize = 0;
    while i < v.len()
        invariant
            i <= v.len(),
            forall|j: int| 0 <= j < i ==> ids(v@)[j] != id@,
        decreases v.len() - i,
    {
        if same(v[i].0.as_str(), id) {
            assert(ids(v@)[i as int] == id@);
            return true;
        }
        i += 1;
    }
    false
}

/// Whether some node has the id `id`.
pub fn has_node(v: &[Node], id: &str) -> (r: bool)
    ensures
        r == node_ids(v@).contains(id@),
{
    let mut i: usize = 0;
    while i < v.len()
        invariant
            i <= v.len(),
            forall|j: int| 0 <= j < i ==> node_ids(v@)[j] != id@,
        decreases v.len() - i,
    {
        if same(v[i].id.0.as_str(), id) {
            assert(node_ids(v@)[i as int] == id@);
            return true;
        }
        i += 1;
    }
    false
}

/// A lower-case hexadecimal digit.
pub open spec fn is_hex_digit(c: char) -> bool {
    '0' <= c <= '9' || 'a' <= c <= 'f'
}

/// The hyphenated text of a version 4 UUID.
pub open spec fn is_uuid_v4(s: Seq<char>) -> bool {
    &&& s.len() == 36
    &&& s[8] == '-' && s[13] == '-' && s[18] == '-' && s[23] == '-'
    &&& s[14] == '4'
    &&& s[19] == '8' || s[19] == '9' || s[19] == 'a' || s[19] == 'b'
    &&& forall|i: int|
        0 <= i < 36 && i != 8 && i != 13 && i != 18 && i != 23 ==> is_hex_digit(#[trigger] s[i])
}

/// A fresh event id by `uuid::Uuid::new_v4`. Claimed of every outcome: it is the
/// lower-case hyphenated text of a version 4 UUID.
#[verifier::external_body]
pub(crate) fn new_event_id() -> (r: String)
    ensures
        is_uuid_v4(r@),
{
    uuid::Uuid::new_v4().to_string()
}

}
