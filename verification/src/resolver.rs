//! From a line of a file to the graph node that it lies in.
use vstd::prelude::*;

use crate::graph::{GraphOutput, Node, NodeId};
use crate::text::{same, starts_with, str_strip_prefix, strip_prefix};

verus! {

/// The node that a line lies in.
#[derive(Debug, Clone, PartialEq, Eq)]
pub struct Resolved {
    pub node_id: NodeId,
}

/// A path without a leading `./`, which a graph may put before relative paths.
pub open spec fn plain_path(path: Seq<char>) -> Seq<char> {
    match strip_prefix(path, "./"@) {
        Some(rest) => rest,
        None => path,
    }
}

fn str_plain_path<'a>(path: &'a str) -> (r: &'a str)
    ensures
        r@ == plain_path(path@),
{
    match str_strip_prefix(path, "./") {
        Some(rest) => rest,
        None => path,
    }
}

/// Whether a node spans a line of a file.
pub open spec fn spans(n: Node, file: Seq<char>, line: int) -> bool {
    plain_path(n.source_file@) == plain_path(file) && n.start_line <= line <= n.end_line
}

/// How many lines a node goes on after its first.
pub open spec fn extent(n: Node) -> int {
    n.end_line - n.start_line
}

/// The place of the innermost node that spans a line: of the shortest ones the
/// first.
pub open spec fn innermost(nodes: Seq<Node>, file: Seq<char>, line: int) -> Option<int>
    decreases nodes.len(),
{
    if nodes.len() == 0 {
        None
    } else {
        let rest = innermost(nodes.drop_last(), file, line);
        if !spans(nodes.last(), file, line) {
            rest
        } else {
            match rest {
                Some(j) if extent(nodes[j]) <= extent(nodes.last()) => rest,
                _ => Some(nodes.len() - 1),
            }
        }
    }
}

/// The id of the node that a line lies in, while a graph is held and one does.
pub open spec fn resolved_id(
    graph: Option<GraphOutput>,
    file: Seq<char>,
    line: int,
) -> Option<Seq<char>> {
    match graph {
        Some(g) => match innermost(g.nodes@, file, line) {
            Some(i) => Some(g.nodes@[i].id.0@),
            None => None,
        },
        None => None,
    }
}

/// A line lies in a node just where some node spans it, and then in one that spans
/// it, none of the others being shorter.
pub proof fn law_resolves_to_the_innermost(nodes: Seq<Node>, file: Seq<char>, line: int)
    ensures
        match innermost(nodes, file, line) {
            Some(i) => 0 <= i < nodes.len() && spans(nodes[i], file, line) && forall|j: int|
                0 <= j < nodes.len() && #[trigger] spans(nodes[j], file, line) ==> extent(nodes[i])
                    <= extent(nodes[j]) && (j < i ==> extent(nodes[i]) < extent(nodes[j])),
            None => forall|j: int|
                0 <= j < nodes.len() ==> !#[trigger] spans(nodes[j], file, line),
        },
    decreases nodes.len(),
{
    if nodes.len() > 0 {
        let init = nodes.drop_last();
        law_resolves_to_the_innermost(init, file, line);
        assert forall|j: int| 0 <= j < init.len() implies init[j] == nodes[j] by {}
        assert forall|j: int| 0 <= j < nodes.len() && #[trigger] spans(nodes[j], file, line) implies (
        j == nodes.len() - 1 || spans(init[j], file, line)) by {}
    }
}

/// Lines that are added or removed elsewhere leave a binding: where every node keeps
/// its place among the nodes, and spans a line just where it spanned another with the
/// same extent, both lie in the same node.
pub proof fn law_moved_lines_keep_their_node(
    before: Seq<Node>,
    after: Seq<Node>,
    file: Seq<char>,
    line: int,
    moved: int,
)
    requires
        before.len() == after.len(),
        forall|i: int|
            0 <= i < before.len() ==> spans(#[trigger] before[i], file, line) == spans(
                after[i],
                file,
                moved,
            ),
        forall|i: int|
            0 <= i < before.len() ==> extent(#[trigger] before[i]) == extent(after[i]),
    ensures
        innermost(before, file, line) == innermost(after, file, moved),
    decreases before.len(),
{
    if before.len() > 0 {
        let b = before.drop_last();
        let a = after.drop_last();
        assert forall|i: int| 0 <= i < b.len() implies spans(#[trigger] b[i], file, line) == spans(
            a[i],
            file,
            moved,
        ) && extent(b[i]) == extent(a[i]) by {
            assert(b[i] == before[i] && a[i] == after[i]);
        }
        law_moved_lines_keep_their_node(b, a, file, line, moved);
        law_resolves_to_the_innermost(b, file, line);
        assert(before.last() == before[before.len() - 1]);
        assert(after.last() == after[after.len() - 1]);
        if let Some(j) = innermost(b, file, line) {
            assert(extent(before[j]) == extent(after[j]));
        }
    }
}

/// The innermost node that spans a line of a file.
pub fn resolve_line(graph: &GraphOutput, file_path: &str, line: u32) -> (r: Option<Resolved>)
    ensures
        match r {
            Some(x) => resolved_id(Some(*graph), file_path@, line as int) == Some(x.node_id.0@),
            None => resolved_id(Some(*graph), file_path@, line as int) is None,
        },
{
    let file = str_plain_path(file_path);
    let nodes = &graph.nodes;
    let mut best: Option<usize> = None;
    let mut i: usize = 0;
    assert(nodes@.take(0).len() == 0);
    while i < nodes.len()
        invariant
            i <= nodes.len(),
            file@ == plain_path(file_path@),
            best is Some ==> best->0 < i,
            match best {
                Some(b) => innermost(nodes@.take(i as int), file_path@, line as int) == Some(b as int)
                    && spans(nodes@[b as int], file_path@, line as int),
                None => innermost(nodes@.take(i as int), file_path@, line as int) is None,
            },
        decreases nodes.len() - i,
    {
        let n = &nodes[i];
        proof {
            assert(nodes@.take(i + 1).drop_last() =~= nodes@.take(i as int));
            assert(nodes@.take(i + 1).last() == nodes@[i as int]);
            if best is Some {
                assert(nodes@.take(i + 1)[best->0 as int] == nodes@[best->0 as int]);
            }
        }
        if same(str_plain_path(n.source_file.as_str()), file) && n.start_line <= line as usize
            && line as usize <= n.end_line {
            let shorter = match best {
                Some(b) => n.end_line - n.start_line < nodes[b].end_line - nodes[b].start_line,
                None => true,
            };
            if shorter {
                best = Some(i);
            }
        }
        i += 1;
    }
    assert(nodes@.take(i as int) =~= nodes@);
    match best {
        Some(b) => Some(Resolved { node_id: NodeId(nodes[b].id.0.clone()) }),
        None => None,
    }
}

/// A line lies in a node of its file whose first and last lines are around it, whether the paths
/// have a leading `./` or not.
pub proof fn law_what_a_node_spans(n: Node, file: Seq<char>, line: int)
    requires
        !starts_with(file, seq!['.', '/']),
    ensures
        spans(n, file, line) <==> (n.source_file@ == file || n.source_file@ == seq!['.', '/']
            + file) && n.start_line <= line && line <= n.end_line,
        spans(n, seq!['.', '/'] + file, line) == spans(n, file, line),
{
    reveal_strlit("./");
    assert("./"@ =~= seq!['.', '/']);
    let p = seq!['.', '/'];
    let f = p + file;
    assert(f.take(2) =~= p);
    assert(f.skip(2) =~= file);
    let s = n.source_file@;
    if starts_with(s, p) {
        assert(s =~= p + s.skip(2));
    }
    if s == f {
        assert(starts_with(s, p));
    }
}

/// The node that a line lies in is one of the graph that spans it, shorter than every other that
/// does, or the first of the shortest; without a graph, or a node that spans the line, there is
/// none.
pub proof fn law_the_node_of_a_line(g: GraphOutput, file: Seq<char>, line: int, j: int)
    requires
        0 <= j < g.nodes@.len(),
        spans(g.nodes@[j], file, line),
    ensures
        resolved_id(None, file, line) is None,
        exists|i: int|
            {
                &&& 0 <= i < g.nodes@.len()
                &&& resolved_id(Some(g), file, line) == Some((#[trigger] g.nodes@[i]).id.0@)
                &&& spans(g.nodes@[i], file, line)
                &&& g.nodes@[i].end_line - g.nodes@[i].start_line <= g.nodes@[j].end_line
                    - g.nodes@[j].start_line
                &&& j < i ==> g.nodes@[i].end_line - g.nodes@[i].start_line < g.nodes@[j].end_line
                    - g.nodes@[j].start_line
            },
{
    law_resolves_to_the_innermost(g.nodes@, file, line);
    match innermost(g.nodes@, file, line) {
        Some(i) => {
            assert(extent(g.nodes@[i]) <= extent(g.nodes@[j]));
            assert(resolved_id(Some(g), file, line) == Some(g.nodes@[i].id.0@));
        },
        None => {},
    }
}

/// A line that no node spans lies in none.
pub proof fn law_no_node_no_binding(g: GraphOutput, file: Seq<char>, line: int)
    requires
        forall|i: int| 0 <= i < g.nodes@.len() ==> !spans(#[trigger] g.nodes@[i], file, line),
    ensures
        resolved_id(Some(g), file, line) is None,
{
    law_resolves_to_the_innermost(g.nodes@, file, line);
}

}
