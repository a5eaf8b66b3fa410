//! The nodes near a node: those that edges reach from it in a number of steps,
//! whichever way the edges point.
use vstd::prelude::*;

use crate::graph::{has_id, has_node, ids, node_ids, Edge, GraphOutput, NodeId};
use crate::text::same;

verus! {

/// How many steps away a change is felt.
pub const IMPACT_DEPTH: usize = 2;

/// Whether an edge joins two nodes, in either direction.
pub open spec fn joins(e: Edge, a: Seq<char>, b: Seq<char>) -> bool {
    (e.source.0@ == a && e.target.0@ == b) || (e.source.0@ == b && e.target.0@ == a)
}

/// Whether some edge joins two nodes.
pub open spec fn are_joined(edges: Seq<Edge>, a: Seq<char>, b: Seq<char>) -> bool {
    exists|i: int| 0 <= i < edges.len() && joins(#[trigger] edges[i], a, b)
}

/// Whether some edge joins a node to one of some others.
pub open spec fn is_next_to(edges: Seq<Edge>, near: Seq<Seq<char>>, id: Seq<char>) -> bool {
    exists|i: int| 0 <= i < near.len() && are_joined(edges, #[trigger] near[i], id)
}

/// Whether a node of the graph can be reached from another in a number of steps.
pub open spec fn is_within(g: GraphOutput, from: Seq<char>, steps: nat, id: Seq<char>) -> bool
    decreases steps,
{
    if steps == 0 {
        id == from
    } else {
        is_within(g, from, (steps - 1) as nat, id) || (node_ids(g.nodes@).contains(id)
            && exists|m: Seq<char>|
            is_within(g, from, (steps - 1) as nat, m) && #[trigger] are_joined(g.edges@, m, id))
    }
}

/// `near`, and those of the first `k` nodes that are next to it.
pub open spec fn grown(g: GraphOutput, near: Seq<Seq<char>>, k: int) -> Seq<Seq<char>>
    decreases k,
{
    if k <= 0 {
        near
    } else {
        let r = grown(g, near, k - 1);
        let id = g.nodes@[k - 1].id.0@;
        if r.contains(id) || !is_next_to(g.edges@, near, id) {
            r
        } else {
            r.push(id)
        }
    }
}

/// The nodes within a number of steps of a node, the nearer ones first, and those
/// that are as near as each other in the order of the graph.
pub open spec fn nearby(g: GraphOutput, from: Seq<char>, steps: nat) -> Seq<Seq<char>>
    decreases steps,
{
    if steps == 0 {
        seq![from]
    } else {
        grown(g, nearby(g, from, (steps - 1) as nat), g.nodes@.len() as int)
    }
}

proof fn lemma_grown(g: GraphOutput, near: Seq<Seq<char>>, k: int)
    requires
        0 <= k <= g.nodes@.len(),
        near.no_duplicates(),
    ensures
        grown(g, near, k).no_duplicates(),
        forall|id: Seq<char>| #[trigger]
            grown(g, near, k).contains(id) <==> near.contains(id) || (is_next_to(
                g.edges@,
                near,
                id,
            ) && node_ids(g.nodes@).take(k).contains(id)),
    decreases k,
{
    let all = node_ids(g.nodes@);
    if k > 0 {
        lemma_grown(g, near, k - 1);
        let r = grown(g, near, k - 1);
        let rk = grown(g, near, k);
        let id = g.nodes@[k - 1].id.0@;
        assert(all.take(k) =~= all.take(k - 1).push(id));
        assert forall|x: Seq<char>| all.take(k).contains(x) <==> all.take(k - 1).contains(x) || x
            == id by {
            lemma_push_contains(all.take(k - 1), id, x);
        }
        if rk != r {
            assert(rk == r.push(id));
            assert forall|x: Seq<char>| rk.contains(x) <==> r.contains(x) || x == id by {
                lemma_push_contains(r, id, x);
            }
        }
    } else {
        assert(all.take(0).len() == 0);
    }
}

proof fn lemma_push_contains(s: Seq<Seq<char>>, last: Seq<char>, x: Seq<char>)
    ensures
        s.push(last).contains(x) <==> s.contains(x) || x == last,
{
    let t = s.push(last);
    if s.contains(x) {
        let i = choose|i: int| 0 <= i < s.len() && s[i] == x;
        assert(t[i] == x);
    }
    if x == last {
        assert(t[s.len() as int] == x);
    }
    if t.contains(x) {
        let i = choose|i: int| 0 <= i < t.len() && t[i] == x;
        if i < s.len() {
            assert(s[i] == x);
        }
    }
}

/// The nodes nearby are just those within the steps, each once.
pub proof fn law_nearby_is_what_is_within(g: GraphOutput, from: Seq<char>, steps: nat)
    ensures
        nearby(g, from, steps).no_duplicates(),
        forall|id: Seq<char>| #[trigger]
            nearby(g, from, steps).contains(id) <==> is_within(g, from, steps, id),
    decreases steps,
{
    if steps == 0 {
        assert forall|id: Seq<char>| #[trigger] nearby(g, from, 0).contains(id) <==> id == from by {
            assert(nearby(g, from, 0)[0] == from);
        }
    } else {
        let s = (steps - 1) as nat;
        let near = nearby(g, from, s);
        let all = node_ids(g.nodes@);
        law_nearby_is_what_is_within(g, from, s);
        lemma_grown(g, near, g.nodes@.len() as int);
        assert(all.take(g.nodes@.len() as int) =~= all);
        assert forall|id: Seq<char>| #[trigger] nearby(g, from, steps).contains(id) <==> is_within(
            g,
            from,
            steps,
            id,
        ) by {
            if is_next_to(g.edges@, near, id) {
                let i = choose|i: int|
                    0 <= i < near.len() && are_joined(g.edges@, #[trigger] near[i], id);
                assert(near.contains(near[i]));
                assert(is_within(g, from, s, near[i]));
            }
            if exists|m: Seq<char>|
                is_within(g, from, s, m) && #[trigger] are_joined(g.edges@, m, id) {
                let m = choose|m: Seq<char>|
                    is_within(g, from, s, m) && #[trigger] are_joined(g.edges@, m, id);
                assert(near.contains(m));
                let i = choose|i: int| 0 <= i < near.len() && near[i] == m;
                assert(are_joined(g.edges@, near[i], id));
            }
        }
    }
}

/// Nearness goes both ways along an edge: of two joined nodes of a graph each is
/// within a step of the other.
pub proof fn law_callers_and_callees_are_near(g: GraphOutput, a: Seq<char>, b: Seq<char>)
    requires
        are_joined(g.edges@, a, b),
        node_ids(g.nodes@).contains(a),
        node_ids(g.nodes@).contains(b),
    ensures
        is_within(g, a, 1, b),
        is_within(g, b, 1, a),
{
    let i = choose|i: int| 0 <= i < g.edges@.len() && joins(#[trigger] g.edges@[i], a, b);
    assert(joins(g.edges@[i], b, a));
    assert(are_joined(g.edges@, b, a));
    assert(is_within(g, a, 0, a));
    assert(is_within(g, b, 0, b));
    reveal_with_fuel(is_within, 2);
}

/// Two steps reach a node itself, the nodes of the graph that some edge joins to it,
/// whichever way the edge points, and those that some edge joins to one of these.
pub proof fn law_two_steps(g: GraphOutput, from: Seq<char>, id: Seq<char>)
    ensures
        is_within(g, from, 2, id) <==> {
            ||| id == from
            ||| node_ids(g.nodes@).contains(id) && exists|e: int|
                0 <= e < g.edges@.len() && ((#[trigger] g.edges@[e]).source.0@ == from
                    && g.edges@[e].target.0@ == id || g.edges@[e].source.0@ == id
                    && g.edges@[e].target.0@ == from)
            ||| node_ids(g.nodes@).contains(id) && exists|m: Seq<char>, e: int, f: int|
                #![trigger node_ids(g.nodes@).contains(m), g.edges@[e], g.edges@[f]]
                {
                    &&& node_ids(g.nodes@).contains(m)
                    &&& 0 <= e < g.edges@.len()
                    &&& 0 <= f < g.edges@.len()
                    &&& (g.edges@[e].source.0@ == from && g.edges@[e].target.0@ == m
                        || g.edges@[e].source.0@ == m && g.edges@[e].target.0@ == from)
                    &&& (g.edges@[f].source.0@ == m && g.edges@[f].target.0@ == id
                        || g.edges@[f].source.0@ == id && g.edges@[f].target.0@ == m)
                }
        },
{
    reveal_with_fuel(is_within, 3);
    let es = g.edges@;
    let known = node_ids(g.nodes@);
    if is_within(g, from, 2, id) && id != from {
        assert(known.contains(id));
        if is_within(g, from, 1, id) {
            let m = choose|m: Seq<char>|
                is_within(g, from, 0, m) && #[trigger] are_joined(es, m, id);
            let e = choose|e: int| 0 <= e < es.len() && joins(#[trigger] es[e], m, id);
            assert(joins(es[e], from, id));
        } else {
            let m = choose|m: Seq<char>|
                is_within(g, from, 1, m) && #[trigger] are_joined(es, m, id);
            let f = choose|f: int| 0 <= f < es.len() && joins(#[trigger] es[f], m, id);
            if m == from {
                assert(joins(es[f], from, id));
            } else {
                assert(known.contains(m));
                let z = choose|z: Seq<char>|
                    is_within(g, from, 0, z) && #[trigger] are_joined(es, z, m);
                let e = choose|e: int| 0 <= e < es.len() && joins(#[trigger] es[e], z, m);
                assert(joins(es[e], from, m));
            }
        }
    }
    assert(is_within(g, from, 0, from));
    if known.contains(id) && exists|e: int|
        0 <= e < es.len() && ((#[trigger] es[e]).source.0@ == from && es[e].target.0@ == id
            || es[e].source.0@ == id && es[e].target.0@ == from) {
        let e = choose|e: int|
            0 <= e < es.len() && ((#[trigger] es[e]).source.0@ == from && es[e].target.0@ == id
                || es[e].source.0@ == id && es[e].target.0@ == from);
        assert(joins(es[e], from, id));
        assert(are_joined(es, from, id));
        assert(is_within(g, from, 1, id));
    }
    if known.contains(id) && exists|m: Seq<char>, e: int, f: int|
        #![trigger known.contains(m), es[e], es[f]]
        known.contains(m) && 0 <= e < es.len() && 0 <= f < es.len() && (es[e].source.0@ == from
            && es[e].target.0@ == m || es[e].source.0@ == m && es[e].target.0@ == from) && (
        es[f].source.0@ == m && es[f].target.0@ == id || es[f].source.0@ == id && es[f].target.0@
            == m) {
        let (m, e, f) = choose|m: Seq<char>, e: int, f: int|
            #![trigger known.contains(m), es[e], es[f]]
            known.contains(m) && 0 <= e < es.len() && 0 <= f < es.len() && (es[e].source.0@ == from
                && es[e].target.0@ == m || es[e].source.0@ == m && es[e].target.0@ == from) && (
            es[f].source.0@ == m && es[f].target.0@ == id || es[f].source.0@ == id
                && es[f].target.0@ == m);
        assert(joins(es[e], from, m));
        assert(are_joined(es, from, m));
        assert(is_within(g, from, 1, m));
        assert(joins(es[f], m, id));
        assert(are_joined(es, m, id));
    }
}

/// The nodes nearby start with the node itself, and those in fewer steps come before those
/// in more.
pub proof fn law_nearer_nodes_come_first(g: GraphOutput, from: Seq<char>, steps: nat)
    ensures
        nearby(g, from, 0) == seq![from],
        nearby(g, from, steps).is_prefix_of(nearby(g, from, steps + 1)),
{
    let near = nearby(g, from, steps);
    lemma_grown_keeps(g, near, g.nodes@.len() as int);
}

proof fn lemma_grown_keeps(g: GraphOutput, near: Seq<Seq<char>>, k: int)
    ensures
        near.is_prefix_of(grown(g, near, k)),
    decreases k,
{
    let r = grown(g, near, k);
    if k > 0 {
        lemma_grown_keeps(g, near, k - 1);
        let p = grown(g, near, k - 1);
        assert forall|i: int| 0 <= i < near.len() implies near[i] == r[i] by {
            assert(p.subrange(0, near.len() as int)[i] == p[i]);
        }
    }
    assert(near =~= r.subrange(0, near.len() as int));
}

fn joined_to(edges: &[Edge], near: &[NodeId], count: usize, id: &str) -> (r: bool)
    requires
        count <= near@.len(),
    ensures
        r == is_next_to(edges@, ids(near@).take(count as int), id@),
{
    let ghost ns = ids(near@).take(count as int);
    let mut i: usize = 0;
    while i < count
        invariant
            i <= count <= near@.len(),
            ns.len() == count,
            ns == ids(near@).take(count as int),
            forall|j: int| 0 <= j < i ==> !are_joined(edges@, #[trigger] ns[j], id@),
        decreases count - i,
    {
        let n = near[i].0.as_str();
        assert(ns[i as int] == n@);
        let mut e: usize = 0;
        while e < edges.len()
            invariant
                e <= edges.len(),
                i < count,
                ns == ids(near@).take(count as int),
                ns.len() == count,
                ns[i as int] == n@,
                forall|j: int| 0 <= j < e ==> !joins(#[trigger] edges@[j], n@, id@),
            decreases edges.len() - e,
        {
            let source = edges[e].source.0.as_str();
            let target = edges[e].target.0.as_str();
            if (same(source, n) && same(target, id)) || (same(source, id) && same(target, n)) {
                assert(joins(edges@[e as int], n@, id@));
                assert(are_joined(edges@, ns[i as int], id@));
                return true;
            }
            e += 1;
        }
        i += 1;
    }
    false
}

/// The nodes within a number of steps of a node; nothing where the node is not in the
/// graph.
pub fn radius(graph: &GraphOutput, from: &NodeId, steps: usize) -> (r: Option<Vec<NodeId>>)
    ensures
        match r {
            Some(v) => node_ids(graph.nodes@).contains(from.0@) && ids(v@) == nearby(
                *graph,
                from.0@,
                steps as nat,
            ),
            None => !node_ids(graph.nodes@).contains(from.0@),
        },
{
    if !has_node(&graph.nodes, from.0.as_str()) {
        return None;
    }
    let mut near: Vec<NodeId> = Vec::new();
    near.push(NodeId(from.0.clone()));
    assert(ids(near@) =~= seq![from.0@]);
    let mut step: usize = 0;
    while step < steps
        invariant
            step <= steps,
            ids(near@) == nearby(*graph, from.0@, step as nat),
        decreases steps - step,
    {
        let count: usize = near.len();
        let ghost start = ids(near@);
        let mut k: usize = 0;
        assert(start.take(count as int) =~= start);
        while k < graph.nodes.len()
            invariant
                k <= graph.nodes.len(),
                count <= near@.len(),
                ids(near@).take(count as int) == start,
                ids(near@) == grown(*graph, start, k as int),
            decreases graph.nodes.len() - k,
        {
            let id = &graph.nodes[k].id.0;
            let ghost before = near@;
            if !has_id(&near, id.as_str()) && joined_to(&graph.edges, &near, count, id.as_str()) {
                near.push(NodeId(id.clone()));
                assert(ids(near@) =~= ids(before).push(id@));
                assert(ids(near@).take(count as int) =~= ids(before).take(count as int));
            }
            k += 1;
        }
        step += 1;
    }
    Some(near)
}

/// One step more adds the nodes that some edge joins to those there are and that are not among
/// them, each once, in the order of the graph.
pub proof fn law_a_step_adds_the_neighbours(g: GraphOutput, from: Seq<char>, steps: nat)
    ensures
        nearby(g, from, steps + 1) == nearby(g, from, steps) + crate::seeds::distinct(
            node_ids(g.nodes@).filter(
                |id: Seq<char>|
                    is_next_to(g.edges@, nearby(g, from, steps), id) && !nearby(
                        g,
                        from,
                        steps,
                    ).contains(id),
            ),
        ),
{
    let near = nearby(g, from, steps);
    let all = node_ids(g.nodes@);
    lemma_grown_adds(g, near, g.nodes@.len() as int);
    assert(all.take(g.nodes@.len() as int) =~= all);
}

proof fn lemma_grown_adds(g: GraphOutput, near: Seq<Seq<char>>, k: int)
    requires
        0 <= k <= g.nodes@.len(),
    ensures
        grown(g, near, k) == near + crate::seeds::distinct(
            node_ids(g.nodes@).take(k).filter(
                |id: Seq<char>| is_next_to(g.edges@, near, id) && !near.contains(id),
            ),
        ),
    decreases k,
{
    reveal(Seq::filter);
    let f = |id: Seq<char>| is_next_to(g.edges@, near, id) && !near.contains(id);
    let all = node_ids(g.nodes@);
    let r = grown(g, near, k);
    if k > 0 {
        lemma_grown_adds(g, near, k - 1);
        let id = g.nodes@[k - 1].id.0@;
        let t = all.take(k);
        assert(t.drop_last() =~= all.take(k - 1));
        assert(t.last() == id);
        let p = grown(g, near, k - 1);
        let kept = all.take(k - 1).filter(f);
        let d = crate::seeds::distinct(kept);
        crate::seeds::law_distinct(kept);
        crate::seeds::lemma_distinct_contains(kept, id);
        assert(p.contains(id) <==> near.contains(id) || d.contains(id)) by {
            if p.contains(id) {
                let i = choose|i: int| 0 <= i < p.len() && p[i] == id;
                if i < near.len() {
                    assert(near[i] == id);
                } else {
                    assert(d[i - near.len()] == id);
                }
            }
            if near.contains(id) {
                let i = choose|i: int| 0 <= i < near.len() && near[i] == id;
                assert(p[i] == id);
            }
            if d.contains(id) {
                let i = choose|i: int| 0 <= i < d.len() && d[i] == id;
                assert(p[near.len() + i] == id);
            }
        }
        if f(id) {
            assert(t.filter(f) == kept.push(id));
            if kept.contains(id) {
                assert(crate::seeds::distinct(kept.push(id)) == d);
            } else {
                assert(crate::seeds::distinct(kept.push(id)) == d.push(id));
                assert((near + d).push(id) =~= near + d.push(id));
            }
        } else {
            assert(t.filter(f) == kept);
        }
    } else {
        assert(all.take(0) =~= Seq::<Seq<char>>::empty());
        assert(all.take(0).filter(f) =~= Seq::<Seq<char>>::empty());
        assert(near + Seq::<Seq<char>>::empty() =~= near);
        assert(crate::seeds::distinct(all.take(0).filter(f)) =~= Seq::<Seq<char>>::empty());
    }
}

}
