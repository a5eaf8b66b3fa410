//! The nodes that count as changed when a host reports a graph update.
use vstd::prelude::*;

use crate::graph::{ids, node_ids, GraphUpdateEvent, Node, NodeId};
use crate::review::changed_ids;
use crate::text::{has_text, texts};

verus! {

/// A sequence without its repetitions; what stays keeps its order.
pub open spec fn distinct(s: Seq<Seq<char>>) -> Seq<Seq<char>>
    decreases s.len(),
{
    if s.len() == 0 {
        Seq::empty()
    } else {
        let r = distinct(s.drop_last());
        if r.contains(s.last()) {
            r
        } else {
            r.push(s.last())
        }
    }
}

/// What is in `a` and not in `b`, in the order of `a`.
pub open spec fn minus(a: Seq<Seq<char>>, b: Seq<Seq<char>>) -> Seq<Seq<char>>
    decreases a.len(),
{
    if a.len() == 0 {
        Seq::empty()
    } else {
        let r = minus(a.drop_last(), b);
        if b.contains(a.last()) {
            r
        } else {
            r.push(a.last())
        }
    }
}

/// The nodes that changed between two snapshots: those that are gone, then those
/// that are new. An empty first snapshot is a baseline, after which nothing has
/// changed.
pub open spec fn snapshot_diff(prev: Seq<Seq<char>>, cur: Seq<Seq<char>>) -> Seq<Seq<char>> {
    if prev.len() == 0 {
        Seq::empty()
    } else {
        minus(prev, cur) + minus(distinct(cur), prev)
    }
}

/// The distinct ids of some nodes.
fn distinct_ids(nodes: &Vec<Node>) -> (r: Vec<String>)
    ensures
        texts(r@) == distinct(node_ids(nodes@)),
{
    let ghost all = node_ids(nodes@);
    let mut r: Vec<String> = Vec::new();
    let mut i: usize = 0;
    assert(all.take(0).len() == 0);
    assert(texts(r@) =~= distinct(all.take(0)));
    while i < nodes.len()
        invariant
            i <= nodes.len(),
            all == node_ids(nodes@),
            texts(r@) == distinct(all.take(i as int)),
        decreases nodes.len() - i,
    {
        let ghost before = r@;
        proof {
            assert(all.take(i + 1).drop_last() =~= all.take(i as int));
            assert(all.take(i + 1).last() == nodes@[i as int].id.0@);
        }
        if !has_text(&r, nodes[i].id.0.as_str()) {
            r.push(nodes[i].id.0.clone());
            assert(texts(r@) =~= texts(before).push(nodes@[i as int].id.0@));
        }
        i += 1;
    }
    assert(all.take(i as int) =~= all);
    r
}

/// Appends the ids of `a` that are not in `b`.
fn push_missing(out: &mut Vec<NodeId>, a: &Vec<String>, b: &Vec<String>)
    ensures
        ids(final(out)@) == ids(old(out)@) + minus(texts(a@), texts(b@)),
{
    let ghost start = ids(out@);
    let ghost ta = texts(a@);
    let ghost tb = texts(b@);
    let mut i: usize = 0;
    assert(ta.take(0).len() == 0);
    assert(ids(out@) =~= start + minus(ta.take(0), tb));
    while i < a.len()
        invariant
            i <= a.len(),
            ta == texts(a@),
            tb == texts(b@),
            ids(out@) == start + minus(ta.take(i as int), tb),
        decreases a.len() - i,
    {
        let ghost before = out@;
        proof {
            assert(ta.take(i + 1).drop_last() =~= ta.take(i as int));
            assert(ta.take(i + 1).last() == a@[i as int]@);
        }
        if !has_text(b, a[i].as_str()) {
            out.push(NodeId(a[i].clone()));
            proof {
                assert(ids(out@) =~= ids(before).push(a@[i as int]@));
                assert(start + minus(ta.take(i as int), tb).push(a@[i as int]@) =~= (start + minus(
                    ta.take(i as int),
                    tb,
                )).push(a@[i as int]@));
            }
        }
        i += 1;
    }
    assert(ta.take(i as int) =~= ta);
}

/// Membership does not change when repetitions go.
pub proof fn lemma_distinct_contains(s: Seq<Seq<char>>, x: Seq<char>)
    ensures
        distinct(s).contains(x) <==> s.contains(x),
    decreases s.len(),
{
    if s.len() > 0 {
        let p = s.drop_last();
        let r = distinct(p);
        lemma_distinct_contains(p, x);
        if s.contains(x) {
            let i = choose|i: int| 0 <= i < s.len() && s[i] == x;
            if i < s.len() - 1 {
                assert(p[i] == x);
                let k = choose|k: int| 0 <= k < r.len() && r[k] == x;
                assert(distinct(s)[k] == x);
            } else if !r.contains(x) {
                assert(distinct(s)[r.len() as int] == x);
            }
        }
        if distinct(s).contains(x) {
            let k = choose|k: int| 0 <= k < distinct(s).len() && distinct(s)[k] == x;
            if k < r.len() {
                assert(r[k] == x);
                let i = choose|i: int| 0 <= i < p.len() && p[i] == x;
                assert(s[i] == x);
            } else {
                assert(s[s.len() - 1] == x);
            }
        }
    }
}

/// Only membership in the second argument matters.
pub proof fn lemma_minus_by_members(a: Seq<Seq<char>>, b: Seq<Seq<char>>, c: Seq<Seq<char>>)
    requires
        forall|x: Seq<char>| #[trigger] b.contains(x) <==> c.contains(x),
    ensures
        minus(a, b) == minus(a, c),
    decreases a.len(),
{
    if a.len() > 0 {
        lemma_minus_by_members(a.drop_last(), b, c);
    }
}

/// The changed nodes of an update. Those that the host names are taken as they
/// are; where it names none, they are found by comparing the graph with the last
/// snapshot. Either way the graph's nodes then are the snapshot.
pub fn impact_seeds(
    prev: &mut Vec<String>,
    nodes: &Vec<Node>,
    event: &GraphUpdateEvent,
) -> (seeds: Vec<NodeId>)
    ensures
        ids(seeds@) == changed_ids(
            ids(event.modified_nodes@),
            texts(old(prev)@),
            node_ids(nodes@),
        ),
        texts(final(prev)@) == distinct(node_ids(nodes@)),
{
    let mut seeds: Vec<NodeId> = Vec::new();
    let cur = distinct_ids(nodes);
    if event.modified_nodes.len() > 0 {
        let mut i: usize = 0;
        assert(ids(seeds@) =~= ids(event.modified_nodes@).take(0));
        while i < event.modified_nodes.len()
            invariant
                i <= event.modified_nodes.len(),
                ids(seeds@) == ids(event.modified_nodes@).take(i as int),
            decreases event.modified_nodes.len() - i,
        {
            let ghost before = seeds@;
            seeds.push(NodeId(event.modified_nodes[i].0.clone()));
            proof {
                assert(ids(seeds@) =~= ids(before).push(event.modified_nodes@[i as int].0@));
                assert(ids(event.modified_nodes@).take(i + 1) =~= ids(event.modified_nodes@).take(
                    i as int,
                ).push(event.modified_nodes@[i as int].0@));
            }
            i += 1;
        }
        assert(ids(event.modified_nodes@).take(i as int) =~= ids(event.modified_nodes@));
        *prev = cur;
        return seeds;
    }
    if prev.len() > 0 {
        push_missing(&mut seeds, prev, &cur);
        push_missing(&mut seeds, &cur, prev);
        proof {
            let all = node_ids(nodes@);
            assert forall|x: Seq<char>| #[trigger] texts(cur@).contains(x) <==> all.contains(x) by {
                lemma_distinct_contains(all, x);
            }
            lemma_minus_by_members(texts(prev@), texts(cur@), all);
            assert(ids(Seq::<NodeId>::empty()) + minus(texts(prev@), all) =~= minus(
                texts(prev@),
                all,
            ));
        }
    } else {
        assert(ids(seeds@) =~= Seq::<Seq<char>>::empty());
    }
    *prev = cur;
    seeds
}

proof fn lemma_minus_all(a: Seq<Seq<char>>, b: Seq<Seq<char>>)
    requires
        forall|x: Seq<char>| a.contains(x) ==> b.contains(x),
    ensures
        minus(a, b).len() == 0,
    decreases a.len(),
{
    if a.len() > 0 {
        assert forall|x: Seq<char>| a.drop_last().contains(x) implies b.contains(x) by {
            let i = choose|i: int| 0 <= i < a.drop_last().len() && a.drop_last()[i] == x;
            assert(a[i] == x);
        }
        lemma_minus_all(a.drop_last(), b);
        assert(a[a.len() - 1] == a.last());
        assert(a.contains(a.last()));
    }
}

/// The first snapshot is a baseline: whatever the graph holds, nothing has
/// changed yet.
pub proof fn law_first_snapshot_is_baseline(cur: Seq<Seq<char>>)
    ensures
        snapshot_diff(Seq::empty(), cur).len() == 0,
{
}

/// The same graph seen again has not changed.
pub proof fn law_same_graph_has_no_changes(cur: Seq<Seq<char>>)
    ensures
        snapshot_diff(distinct(cur), cur).len() == 0,
{
    assert forall|x: Seq<char>| distinct(cur).contains(x) <==> cur.contains(x) by {
        lemma_distinct_contains(cur, x);
    }
    lemma_minus_all(distinct(cur), cur);
    lemma_minus_all(distinct(cur), distinct(cur));
}

/// What has changed between two snapshots, of which the first is not empty: the nodes that are
/// in one of them and not in the other, those that are gone first, each part in the order of
/// its snapshot and each node once.
pub proof fn law_what_has_changed(prev: Seq<Seq<char>>, cur: Seq<Seq<char>>, x: Seq<char>)
    requires
        prev.len() > 0,
    ensures
        snapshot_diff(prev, cur).contains(x) <==> prev.contains(x) != cur.contains(x),
        snapshot_diff(prev, cur) == prev.filter(|p: Seq<char>| !cur.contains(p)) + distinct(
            cur,
        ).filter(|c: Seq<char>| !prev.contains(c)),
        prev.no_duplicates() ==> snapshot_diff(prev, cur).no_duplicates(),
{
    let f = |p: Seq<char>| !cur.contains(p);
    let g = |c: Seq<char>| !prev.contains(c);
    lemma_minus(prev, cur);
    lemma_minus(distinct(cur), prev);
    let a = prev.filter(f);
    let b = distinct(cur).filter(g);
    let all = snapshot_diff(prev, cur);
    assert(all == a + b);
    crate::text::lemma_filter(prev, f);
    crate::text::lemma_filter(distinct(cur), g);
    law_distinct(cur);
    lemma_distinct_contains(cur, x);
    if all.contains(x) {
        let k = choose|k: int| 0 <= k < all.len() && all[k] == x;
        if k < a.len() {
            crate::text::lemma_filter_keeps(prev, f, k);
            assert(f(a[k]));
        } else {
            crate::text::lemma_filter_keeps(distinct(cur), g, k - a.len());
            assert(b[k - a.len()] == x);
            assert(g(b[k - a.len()]));
            let i = choose|i: int| 0 <= i < distinct(cur).len() && #[trigger] distinct(cur)[i] == x;
            assert(distinct(cur).contains(x));
        }
    }
    if prev.contains(x) && !cur.contains(x) {
        let i = choose|i: int| 0 <= i < prev.len() && prev[i] == x;
        assert(f(prev[i]));
        let k = choose|k: int| 0 <= k < a.len() && a[k] == x;
        assert(all[k] == x);
    }
    if cur.contains(x) && !prev.contains(x) {
        let d = distinct(cur);
        let i = choose|i: int| 0 <= i < d.len() && d[i] == x;
        assert(g(d[i]));
        let k = choose|k: int| 0 <= k < b.len() && b[k] == x;
        assert(all[a.len() + k] == x);
    }
    if prev.no_duplicates() {
        lemma_filter_no_duplicates(prev, f);
        lemma_filter_no_duplicates(distinct(cur), g);
        assert forall|i: int, j: int| 0 <= i < j < all.len() implies all[i] != all[j] by {
            if j < a.len() {
                assert(a[i] != a[j]);
            } else if i >= a.len() {
                assert(b[i - a.len()] != b[j - a.len()]);
            } else {
                crate::text::lemma_filter_keeps(prev, f, i);
                assert(g(b[j - a.len()]));
                assert(prev.contains(a[i]));
            }
        }
    }
}

proof fn lemma_filter_no_duplicates(s: Seq<Seq<char>>, f: spec_fn(Seq<char>) -> bool)
    requires
        s.no_duplicates(),
    ensures
        s.filter(f).no_duplicates(),
    decreases s.len(),
{
    reveal(Seq::filter);
    if s.len() > 0 {
        let init = s.drop_last();
        lemma_filter_no_duplicates(init, f);
        let r = init.filter(f);
        let all = s.filter(f);
        assert forall|i: int, j: int| 0 <= i < j < all.len() implies all[i] != all[j] by {
            if j < r.len() {
                assert(r[i] != r[j]);
            } else {
                crate::text::lemma_filter_keeps(init, f, i);
                let k = choose|k: int| 0 <= k < init.len() && #[trigger] init[k] == r[i];
                assert(s[k] != s[s.len() - 1]);
            }
        }
    }
}

proof fn lemma_minus(a: Seq<Seq<char>>, b: Seq<Seq<char>>)
    ensures
        minus(a, b) == a.filter(|x: Seq<char>| !b.contains(x)),
    decreases a.len(),
{
    reveal(Seq::filter);
    if a.len() > 0 {
        lemma_minus(a.drop_last(), b);
    } else {
        assert(minus(a, b) =~= a.filter(|x: Seq<char>| !b.contains(x)));
    }
}

/// Without its repetitions a sequence has the same members, each once, in the order in which
/// they come first.
pub proof fn law_distinct(s: Seq<Seq<char>>)
    ensures
        distinct(s).no_duplicates(),
        s.no_duplicates() ==> distinct(s) == s,
        forall|x: Seq<char>|
            #![trigger distinct(s.push(x))]
            s.contains(x) ==> distinct(s.push(x)) == distinct(s),
        forall|x: Seq<char>|
            #![trigger distinct(s.push(x))]
            !s.contains(x) ==> distinct(s.push(x)) == distinct(s).push(x),
    decreases s.len(),
{
    assert forall|x: Seq<char>| s.contains(x) implies #[trigger] distinct(s.push(x)) == distinct(
        s,
    ) by {
        assert(s.push(x).drop_last() =~= s);
        lemma_distinct_contains(s, x);
    }
    assert forall|x: Seq<char>| !s.contains(x) implies #[trigger] distinct(s.push(x)) == distinct(
        s,
    ).push(x) by {
        assert(s.push(x).drop_last() =~= s);
        lemma_distinct_contains(s, x);
    }
    if s.len() > 0 {
        let p = s.drop_last();
        law_distinct(p);
        lemma_distinct_contains(p, s.last());
        assert(p.push(s.last()) =~= s);
        let r = distinct(p);
        let all = distinct(s);
        assert forall|i: int, j: int| 0 <= i < j < all.len() implies all[i] != all[j] by {
            if j < r.len() {
                assert(r[i] != r[j]);
            } else {
                assert(r.contains(r[i]));
            }
        }
        if s.no_duplicates() {
            assert(p.no_duplicates()) by {
                assert forall|i: int, j: int| 0 <= i < j < p.len() implies p[i] != p[j] by {
                    assert(s[i] != s[j]);
                }
            }
            if p.contains(s.last()) {
                let i = choose|i: int| 0 <= i < p.len() && p[i] == s.last();
                assert(s[i] != s[s.len() - 1]);
            }
        }
    } else {
        assert(distinct(s) =~= s);
    }
}

}
