//! The guard around open reviews: which of them lie near a change.
use vstd::prelude::*;

use crate::graph::{ids, node_ids, GraphOutput, NodeId};
use crate::impact::{
    asks_alert, has_alert, impact_alerts, is_alert_at, is_impacted, is_serious, law_alerted_nodes,
    law_an_alert_names_every_serious_review, raises, rank_of, serious, Covered,
    ReviewBinding, SeedCover,
};
use crate::radius::{is_within, law_nearby_is_what_is_within, nearby, radius, IMPACT_DEPTH};
use crate::review::BindingView;
use crate::text::same;

verus! {

/// The models of some bindings, in order.
pub open spec fn binding_views(v: Seq<ReviewBinding>) -> Seq<BindingView> {
    v.map_values(|b: ReviewBinding| b@)
}

/// The bindings to a node, in order.
pub open spec fn at_node(v: Seq<BindingView>, id: Seq<char>) -> Seq<BindingView>
    decreases v.len(),
{
    if v.len() == 0 {
        Seq::empty()
    } else if v.last().canonical_node_id == id {
        at_node(v.drop_last(), id).push(v.last())
    } else {
        at_node(v.drop_last(), id)
    }
}

/// The ids of the nodes in a radius.
pub open spec fn covered_ids(v: Seq<Covered>) -> Seq<Seq<char>> {
    v.map_values(|c: Covered| c.id.0@)
}

/// Whether a cover is that of a changed node: the nodes near it in the graph, each
/// with the unresolved reviews that are bound to it.
pub open spec fn is_cover(
    c: SeedCover,
    g: GraphOutput,
    seed: Seq<char>,
    unresolved: Seq<BindingView>,
) -> bool {
    &&& c.seed.0@ == seed
    &&& match c.cover {
        None => !node_ids(g.nodes@).contains(seed),
        Some(v) => {
            &&& node_ids(g.nodes@).contains(seed)
            &&& covered_ids(v@) == nearby(g, seed, IMPACT_DEPTH as nat)
            &&& forall|i: int|
                0 <= i < v@.len() ==> {
                    &&& (#[trigger] v@[i]).unresolved is Some
                    &&& binding_views(v@[i].unresolved->0@) == at_node(unresolved, v@[i].id.0@)
                }
        },
    }
}

/// Whether some covers are those of some changed nodes, one for each.
pub open spec fn are_covers(
    covers: Seq<SeedCover>,
    g: GraphOutput,
    seeds: Seq<Seq<char>>,
    unresolved: Seq<BindingView>,
) -> bool {
    &&& covers.len() == seeds.len()
    &&& forall|i: int|
        0 <= i < covers.len() ==> is_cover(#[trigger] covers[i], g, seeds[i], unresolved)
}

fn copy_binding(b: &ReviewBinding) -> (r: ReviewBinding)
    ensures
        r@ == b@,
{
    ReviewBinding {
        workspace_key: b.workspace_key.clone(),
        id: b.id.clone(),
        canonical_node_id: b.canonical_node_id.clone(),
        file_path: b.file_path.clone(),
        line_number: b.line_number,
        signature_hash: b.signature_hash.clone(),
        severity: b.severity.clone(),
        category: b.category.clone(),
        comment: b.comment.clone(),
        status: b.status.clone(),
        created_at: b.created_at.clone(),
        updated_at: b.updated_at.clone(),
        resolution_reason: b.resolution_reason.clone(),
        resolved_at: b.resolved_at.clone(),
        resolved_by: b.resolved_by.clone(),
    }
}

fn bound_to(unresolved: &[ReviewBinding], id: &str) -> (r: Vec<ReviewBinding>)
    ensures
        binding_views(r@) == at_node(binding_views(unresolved@), id@),
{
    let ghost all = binding_views(unresolved@);
    let mut r: Vec<ReviewBinding> = Vec::new();
    let mut i: usize = 0;
    assert(all.take(0).len() == 0);
    assert(binding_views(r@) =~= at_node(all.take(0), id@));
    while i < unresolved.len()
        invariant
            i <= unresolved.len(),
            all == binding_views(unresolved@),
            binding_views(r@) == at_node(all.take(i as int), id@),
        decreases unresolved.len() - i,
    {
        let ghost before = r@;
        proof {
            assert(all.take(i + 1).drop_last() =~= all.take(i as int));
            assert(all.take(i + 1).last() == unresolved@[i as int]@);
        }
        if same(unresolved[i].canonical_node_id.as_str(), id) {
            let b = copy_binding(&unresolved[i]);
            r.push(b);
            assert(binding_views(r@) =~= binding_views(before).push(b@));
        }
        i += 1;
    }
    assert(all.take(i as int) =~= all);
    r
}

fn cover_of(graph: &GraphOutput, seed: &NodeId, unresolved: &[ReviewBinding]) -> (r: SeedCover)
    ensures
        is_cover(r, *graph, seed.0@, binding_views(unresolved@)),
{
    let near = match radius(graph, seed, IMPACT_DEPTH) {
        None => return SeedCover { seed: NodeId(seed.0.clone()), cover: None },
        Some(near) => near,
    };
    let mut cover: Vec<Covered> = Vec::new();
    let mut i: usize = 0;
    while i < near.len()
        invariant
            i <= near.len(),
            cover@.len() == i,
            forall|j: int|
                0 <= j < i ==> {
                    &&& (#[trigger] cover@[j]).id.0@ == near@[j].0@
                    &&& cover@[j].unresolved is Some
                    &&& binding_views(cover@[j].unresolved->0@) == at_node(
                        binding_views(unresolved@),
                        cover@[j].id.0@,
                    )
                },
        decreases near.len() - i,
    {
        let rows = bound_to(unresolved, near[i].0.as_str());
        cover.push(Covered { id: NodeId(near[i].0.clone()), unresolved: Some(rows) });
        i += 1;
    }
    assert(covered_ids(cover@) =~= ids(near@));
    SeedCover { seed: NodeId(seed.0.clone()), cover: Some(cover) }
}

/// The cover of each changed node.
pub fn covers_of(graph: &GraphOutput, seeds: &[NodeId], unresolved: &[ReviewBinding]) -> (r: Vec<
    SeedCover,
>)
    ensures
        are_covers(r@, *graph, ids(seeds@), binding_views(unresolved@)),
{
    let mut r: Vec<SeedCover> = Vec::new();
    let mut i: usize = 0;
    while i < seeds.len()
        invariant
            i <= seeds.len(),
            r@.len() == i,
            forall|j: int|
                0 <= j < i ==> is_cover(
                    #[trigger] r@[j],
                    *graph,
                    ids(seeds@)[j],
                    binding_views(unresolved@),
                ),
        decreases seeds.len() - i,
    {
        r.push(cover_of(graph, &seeds[i], unresolved));
        i += 1;
    }
    r
}

proof fn lemma_at_node(v: Seq<BindingView>, i: int)
    requires
        0 <= i < v.len(),
    ensures
        exists|k: int|
            0 <= k < at_node(v, v[i].canonical_node_id).len() && #[trigger] at_node(
                v,
                v[i].canonical_node_id,
            )[k] == v[i],
    decreases v.len(),
{
    let id = v[i].canonical_node_id;
    let init = v.drop_last();
    if i < init.len() {
        lemma_at_node(init, i);
        assert(init[i] == v[i]);
        let k = choose|k: int|
            0 <= k < at_node(init, id).len() && #[trigger] at_node(init, id)[k] == v[i];
        assert(at_node(v, id)[k] == v[i]);
    } else {
        assert(at_node(v, id)[at_node(init, id).len() as int] == v[i]);
    }
}

proof fn lemma_some_serious(rows: Seq<ReviewBinding>, k: int)
    requires
        0 <= k < rows.len(),
        is_serious(rows[k]),
    ensures
        serious(rows).len() > 0,
    decreases rows.len(),
{
    if k < rows.len() - 1 {
        assert(rows.drop_last()[k] == rows[k]);
        lemma_some_serious(rows.drop_last(), k);
    }
}

/// A change within two steps of a node raises every open critical or high review that
/// is bound to it: the node has an alert.
pub proof fn law_change_near_an_open_review_is_raised(
    workspace_key: Seq<char>,
    g: GraphOutput,
    seeds: Seq<Seq<char>>,
    unresolved: Seq<BindingView>,
    covers: Seq<SeedCover>,
    s: int,
    b: int,
)
    requires
        are_covers(covers, g, seeds, unresolved),
        0 <= s < seeds.len(),
        0 <= b < unresolved.len(),
        node_ids(g.nodes@).contains(seeds[s]),
        is_within(g, seeds[s], 2, unresolved[b].canonical_node_id),
        rank_of(unresolved[b].severity) >= 3,
    ensures
        has_alert(impact_alerts(workspace_key, covers), unresolved[b].canonical_node_id),
{
    let id = unresolved[b].canonical_node_id;
    assert(is_cover(covers[s], g, seeds[s], unresolved));
    let cover = covers[s].cover->0@;
    law_nearby_is_what_is_within(g, seeds[s], 2);
    let near = nearby(g, seeds[s], 2);
    assert(near.contains(id));
    let k = choose|k: int| 0 <= k < near.len() && near[k] == id;
    assert(covered_ids(cover)[k] == cover[k].id.0@);
    let rows = cover[k].unresolved->0@;
    lemma_at_node(unresolved, b);
    let j = choose|j: int|
        0 <= j < at_node(unresolved, id).len() && #[trigger] at_node(unresolved, id)[j]
            == unresolved[b];
    assert(binding_views(rows)[j] == rows[j]@);
    lemma_some_serious(rows, j);
    assert(asks_alert(covers[s].cover->0@[k], id));
    assert(is_impacted(covers, covers.len() as int, id));
    law_alerted_nodes(workspace_key, covers, id);
}

/// Whether a review is bound to a node and one that an alert is raised for.
pub open spec fn raises_at(b: BindingView, node: Seq<char>) -> bool {
    b.canonical_node_id == node && (b.severity == "critical"@ || b.severity == "high"@)
}

proof fn lemma_raised_at_node(rows: Seq<ReviewBinding>, v: Seq<BindingView>, node: Seq<char>)
    requires
        binding_views(rows) == at_node(v, node),
    ensures
        rows.filter(|b: ReviewBinding| raises(b)).map_values(|b: ReviewBinding| b.id@)
            == v.filter(|b: BindingView| raises_at(b, node)).map_values(|b: BindingView| b.id),
        rows.filter(|b: ReviewBinding| raises(b)).map_values(|b: ReviewBinding| b.severity@)
            == v.filter(|b: BindingView| raises_at(b, node)).map_values(
            |b: BindingView| b.severity,
        ),
    decreases v.len(),
{
    reveal(Seq::filter);
    let f = |b: ReviewBinding| raises(b);
    let g = |b: BindingView| raises_at(b, node);
    let id = |b: ReviewBinding| b.id@;
    let vid = |b: BindingView| b.id;
    let sev = |b: ReviewBinding| b.severity@;
    let vsev = |b: BindingView| b.severity;
    assert(binding_views(rows).len() == rows.len());
    if v.len() == 0 {
        assert(rows.filter(f).map_values(id) =~= v.filter(g).map_values(vid));
        assert(rows.filter(f).map_values(sev) =~= v.filter(g).map_values(vsev));
    } else {
        let init = v.drop_last();
        let last = v.last();
        if last.canonical_node_id == node {
            let r0 = rows.drop_last();
            assert(binding_views(rows).last() == rows.last()@);
            assert(at_node(v, node).drop_last() =~= at_node(init, node));
            assert(binding_views(r0) =~= binding_views(rows).drop_last());
            lemma_raised_at_node(r0, init, node);
            let a = r0.filter(f);
            let b = init.filter(g);
            assert(a.push(rows.last()).map_values(id) =~= a.map_values(id).push(rows.last().id@));
            assert(b.push(last).map_values(vid) =~= b.map_values(vid).push(last.id));
            assert(a.push(rows.last()).map_values(sev) =~= a.map_values(sev).push(
                rows.last().severity@,
            ));
            assert(b.push(last).map_values(vsev) =~= b.map_values(vsev).push(last.severity));
        } else {
            lemma_raised_at_node(rows, init, node);
        }
    }
}

proof fn lemma_at_node_is(v: Seq<BindingView>, node: Seq<char>)
    ensures
        at_node(v, node) == v.filter(|b: BindingView| b.canonical_node_id == node),
    decreases v.len(),
{
    reveal(Seq::filter);
    let f = |b: BindingView| b.canonical_node_id == node;
    if v.len() > 0 {
        lemma_at_node_is(v.drop_last(), node);
    } else {
        assert(at_node(v, node) =~= v.filter(f));
    }
}

/// The cover of a changed node lists with each node near it all the open reviews that are
/// bound to that node, in order, and none that is bound to another.
pub proof fn law_covers_list_the_open_reviews(
    c: SeedCover,
    g: GraphOutput,
    seed: Seq<char>,
    unresolved: Seq<BindingView>,
    k: int,
)
    requires
        is_cover(c, g, seed, unresolved),
        c.cover is Some,
        0 <= k < c.cover->0@.len(),
    ensures
        c.cover->0@[k].unresolved is Some,
        binding_views(c.cover->0@[k].unresolved->0@) == unresolved.filter(
            |b: BindingView| b.canonical_node_id == c.cover->0@[k].id.0@,
        ),
        is_within(g, seed, 2, c.cover->0@[k].id.0@),
{
    let node = c.cover->0@[k].id.0@;
    lemma_at_node_is(unresolved, node);
    law_nearby_is_what_is_within(g, seed, 2);
    assert(covered_ids(c.cover->0@)[k] == node);
    assert(nearby(g, seed, 2).contains(node));
}

/// An alert on a node names all the open critical and high reviews that are bound to the
/// node, in order, with their severities, and no other; the change it is about is one that
/// was made within two steps of the node.
pub proof fn law_an_alert_names_all_open_reviews_of_its_node(
    workspace_key: Seq<char>,
    g: GraphOutput,
    seeds: Seq<Seq<char>>,
    unresolved: Seq<BindingView>,
    covers: Seq<SeedCover>,
    a: int,
)
    requires
        are_covers(covers, g, seeds, unresolved),
        0 <= a < impact_alerts(workspace_key, covers).len(),
    ensures
        ({
            let x = impact_alerts(workspace_key, covers)[a];
            let raised = unresolved.filter(|b: BindingView| raises_at(b, x.impacted_node));
            &&& raised.len() > 0
            &&& x.review_ids == raised.map_values(|b: BindingView| b.id)
            &&& x.severities == raised.map_values(|b: BindingView| b.severity)
            &&& seeds.contains(x.modified_node)
            &&& node_ids(g.nodes@).contains(x.modified_node)
            &&& is_within(g, x.modified_node, 2, x.impacted_node)
        }),
{
    let x = impact_alerts(workspace_key, covers)[a];
    law_an_alert_names_every_serious_review(workspace_key, covers, a);
    let (i, k) = choose|i: int, k: int| is_alert_at(x, workspace_key, covers, i, k);
    assert(is_cover(covers[i], g, seeds[i], unresolved));
    let c = covers[i].cover->0@[k];
    let rows = c.unresolved->0@;
    law_covers_list_the_open_reviews(covers[i], g, seeds[i], unresolved, k);
    lemma_raised_at_node(rows, unresolved, x.impacted_node);
    assert(x.review_ids.len() == rows.filter(|b: ReviewBinding| raises(b)).len());
    assert(seeds[i] == x.modified_node);
}

/// An open critical or high review within two steps of a change is named in an alert on
/// its node, which has as many ids as the node has such reviews.
pub proof fn law_every_open_review_near_a_change_is_named(
    workspace_key: Seq<char>,
    g: GraphOutput,
    seeds: Seq<Seq<char>>,
    unresolved: Seq<BindingView>,
    covers: Seq<SeedCover>,
    s: int,
    b: int,
)
    requires
        are_covers(covers, g, seeds, unresolved),
        0 <= s < seeds.len(),
        0 <= b < unresolved.len(),
        node_ids(g.nodes@).contains(seeds[s]),
        is_within(g, seeds[s], 2, unresolved[b].canonical_node_id),
        unresolved[b].severity == "critical"@ || unresolved[b].severity == "high"@,
    ensures
        exists|a: int|
            {
                &&& 0 <= a < impact_alerts(workspace_key, covers).len()
                &&& (#[trigger] impact_alerts(workspace_key, covers)[a]).impacted_node
                    == unresolved[b].canonical_node_id
                &&& impact_alerts(workspace_key, covers)[a].review_ids.contains(unresolved[b].id)
                &&& impact_alerts(workspace_key, covers)[a].review_ids.len() == unresolved.filter(
                    |v: BindingView| raises_at(v, unresolved[b].canonical_node_id),
                ).len()
            },
{
    let node = unresolved[b].canonical_node_id;
    reveal_strlit("critical");
    reveal_strlit("high");
    law_change_near_an_open_review_is_raised(
        workspace_key,
        g,
        seeds,
        unresolved,
        covers,
        s,
        b,
    );
    let all = impact_alerts(workspace_key, covers);
    let a = choose|a: int| 0 <= a < all.len() && (#[trigger] all[a]).impacted_node == node;
    law_an_alert_names_all_open_reviews_of_its_node(
        workspace_key,
        g,
        seeds,
        unresolved,
        covers,
        a,
    );
    let f = |v: BindingView| raises_at(v, node);
    let rs = unresolved.filter(f);
    crate::text::lemma_filter(unresolved, f);
    assert(f(unresolved[b]));
    assert(rs.contains(unresolved[b]));
    let m = choose|m: int| 0 <= m < rs.len() && rs[m] == unresolved[b];
    assert(all[a].review_ids[m] == unresolved[b].id);
    assert(all[a].review_ids.len() == rs.len());
}

}
