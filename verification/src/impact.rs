//! Impact alerts: a change whose radius in the graph covers a node with an
//! unresolved serious review.
use vstd::prelude::*;

use crate::clock::{is_timestamp_of, now_rfc3339};
use crate::decimal::{decimal, decimal_string};
use crate::graph::{is_uuid_v4, new_event_id, NodeId};
use crate::text::{same, texts};

verus! {

/// A review bound to a node of the graph.
#[derive(Debug, Clone, PartialEq, Eq)]
pub struct ReviewBinding {
    pub workspace_key: String,
    pub id: String,
    pub canonical_node_id: String,
    pub file_path: String,
    pub line_number: i64,
    pub signature_hash: String,
    pub severity: String,
    pub category: String,
    pub comment: String,
    pub status: String,
    pub created_at: String,
    pub updated_at: String,
    pub resolution_reason: String,
    pub resolved_at: String,
    pub resolved_by: String,
}

/// A changed node whose radius reaches a node with unresolved serious reviews.
#[derive(Debug, Clone, PartialEq, Eq)]
pub struct ImpactAlert {
    pub workspace_key: String,
    pub modified_node: NodeId,
    pub impacted_node: NodeId,
    pub review_ids: Vec<String>,
    pub severities: Vec<String>,
    pub max_severity: String,
    pub alert_message: String,
    pub event_id: String,
    pub generated_at: String,
}

/// What an alert says, without its id and its time.
#[verifier::ext_equal]
pub struct AlertView {
    pub workspace_key: Seq<char>,
    pub modified_node: Seq<char>,
    pub impacted_node: Seq<char>,
    pub review_ids: Seq<Seq<char>>,
    pub severities: Seq<Seq<char>>,
    pub max_severity: Seq<char>,
    pub alert_message: Seq<char>,
}

impl View for ImpactAlert {
    type V = AlertView;

    open spec fn view(&self) -> AlertView {
        AlertView {
            workspace_key: self.workspace_key@,
            modified_node: self.modified_node.0@,
            impacted_node: self.impacted_node.0@,
            review_ids: texts(self.review_ids@),
            severities: texts(self.severities@),
            max_severity: self.max_severity@,
            alert_message: self.alert_message@,
        }
    }
}

/// What each alert says, in order.
pub open spec fn alert_views(v: Seq<ImpactAlert>) -> Seq<AlertView> {
    v.map_values(|a: ImpactAlert| a@)
}

/// The rank of a severity; a word that is none ranks lowest.
pub open spec fn rank_of(severity: Seq<char>) -> u8 {
    if severity == "critical"@ {
        4
    } else if severity == "high"@ {
        3
    } else if severity == "medium"@ {
        2
    } else if severity == "low"@ {
        1
    } else {
        0
    }
}

/// The rank of a severity.
pub fn severity_rank(severity: &str) -> (r: u8)
    ensures
        r == rank_of(severity@),
{
    if same(severity, "critical") {
        4
    } else if same(severity, "high") {
        3
    } else if same(severity, "medium") {
        2
    } else if same(severity, "low") {
        1
    } else {
        0
    }
}

/// The four severities are ranked in their order, above every other word.
pub proof fn law_severities_are_ordered(other: Seq<char>)
    requires
        other != "critical"@,
        other != "high"@,
        other != "medium"@,
        other != "low"@,
    ensures
        rank_of("critical"@) > rank_of("high"@) > rank_of("medium"@) > rank_of("low"@) > rank_of(
            other,
        ),
        rank_of(other) == 0,
{
    reveal_strlit("critical");
    reveal_strlit("high");
    reveal_strlit("medium");
    reveal_strlit("low");
    assert("critical"@.len() == 8 && "high"@.len() == 4 && "medium"@.len() == 6 && "low"@.len()
        == 3);
}

/// A node in the radius of a change, with its unresolved reviews where they could
/// be looked up.
pub struct Covered {
    pub id: NodeId,
    pub unresolved: Option<Vec<ReviewBinding>>,
}

/// A changed node, with its radius where the node is in the graph.
pub struct SeedCover {
    pub seed: NodeId,
    pub cover: Option<Vec<Covered>>,
}

/// A review that is critical or high.
pub open spec fn is_serious(b: ReviewBinding) -> bool {
    rank_of(b.severity@) >= 3
}

/// The serious ones among some reviews, in order.
pub open spec fn serious(rows: Seq<ReviewBinding>) -> Seq<ReviewBinding>
    decreases rows.len(),
{
    if rows.len() == 0 {
        Seq::empty()
    } else if is_serious(rows.last()) {
        serious(rows.drop_last()).push(rows.last())
    } else {
        serious(rows.drop_last())
    }
}

/// The ids of some reviews.
pub open spec fn review_ids_of(rows: Seq<ReviewBinding>) -> Seq<Seq<char>> {
    rows.map_values(|b: ReviewBinding| b.id@)
}

/// The severities of some reviews.
pub open spec fn severities_of(rows: Seq<ReviewBinding>) -> Seq<Seq<char>> {
    rows.map_values(|b: ReviewBinding| b.severity@)
}

/// The highest of the severities of serious reviews; nothing without one.
pub open spec fn highest(severities: Seq<Seq<char>>) -> Seq<char> {
    if severities.contains("critical"@) {
        "critical"@
    } else if severities.contains("high"@) {
        "high"@
    } else {
        Seq::empty()
    }
}

/// The text of an alert.
pub open spec fn alert_text(seed: Seq<char>, node: Seq<char>, count: nat) -> Seq<char> {
    "modified node "@ + seed + " impacts "@ + node + ": "@ + decimal(count)
        + " unresolved review(s) in BFS radius"@
}

/// The alert that a covered node asks for: one with a serious unresolved review.
pub open spec fn alert_of(
    workspace_key: Seq<char>,
    seed: Seq<char>,
    c: Covered,
) -> Option<AlertView> {
    match c.unresolved {
        None => None,
        Some(rows) => {
            let rs = serious(rows@);
            if rs.len() == 0 {
                None
            } else {
                Some(
                    AlertView {
                        workspace_key,
                        modified_node: seed,
                        impacted_node: c.id.0@,
                        review_ids: review_ids_of(rs),
                        severities: severities_of(rs),
                        max_severity: highest(severities_of(rs)),
                        alert_message: alert_text(seed, c.id.0@, rs.len()),
                    },
                )
            }
        },
    }
}

/// Whether a node already has its alert.
pub open spec fn has_alert(out: Seq<AlertView>, node: Seq<char>) -> bool {
    exists|i: int| 0 <= i < out.len() && (#[trigger] out[i]).impacted_node == node
}

/// `out` with one more alert, unless its node has one.
pub open spec fn add_alert(out: Seq<AlertView>, alert: Option<AlertView>) -> Seq<AlertView> {
    match alert {
        Some(a) => if has_alert(out, a.impacted_node) {
            out
        } else {
            out.push(a)
        },
        None => out,
    }
}

/// `out` with the alerts of the first `k` nodes of a radius.
pub open spec fn alerts_in(
    out: Seq<AlertView>,
    workspace_key: Seq<char>,
    seed: Seq<char>,
    cover: Seq<Covered>,
    k: int,
) -> Seq<AlertView>
    decreases k,
{
    if k <= 0 {
        out
    } else {
        add_alert(
            alerts_in(out, workspace_key, seed, cover, k - 1),
            alert_of(workspace_key, seed, cover[k - 1]),
        )
    }
}

/// The alerts of the first `n` changed nodes, one per impacted node.
pub open spec fn alerts_upto(
    workspace_key: Seq<char>,
    covers: Seq<SeedCover>,
    n: int,
) -> Seq<AlertView>
    decreases n,
{
    if n <= 0 {
        Seq::empty()
    } else {
        let out = alerts_upto(workspace_key, covers, n - 1);
        match covers[n - 1].cover {
            Some(cover) => alerts_in(
                out,
                workspace_key,
                covers[n - 1].seed.0@,
                cover@,
                cover@.len() as int,
            ),
            None => out,
        }
    }
}

/// The alerts of some changed nodes.
pub open spec fn impact_alerts(workspace_key: Seq<char>, covers: Seq<SeedCover>) -> Seq<AlertView> {
    alerts_upto(workspace_key, covers, covers.len() as int)
}

fn has_alert_for(out: &Vec<ImpactAlert>, node: &str) -> (r: bool)
    ensures
        r == has_alert(alert_views(out@), node@),
{
    let mut i: usize = 0;
    while i < out.len()
        invariant
            i <= out.len(),
            forall|j: int| 0 <= j < i ==> alert_views(out@)[j].impacted_node != node@,
        decreases out.len() - i,
    {
        if same(out[i].impacted_node.0.as_str(), node) {
            assert(alert_views(out@)[i as int].impacted_node == node@);
            return true;
        }
        i += 1;
    }
    false
}

/// The serious reviews of a node: their ids, their severities, the highest one.
fn serious_reviews(rows: &Vec<ReviewBinding>) -> (r: (Vec<String>, Vec<String>, String))
    ensures
        texts(r.0@) == review_ids_of(serious(rows@)),
        texts(r.1@) == severities_of(serious(rows@)),
        r.2@ == highest(severities_of(serious(rows@))),
{
    let mut ids: Vec<String> = Vec::new();
    let mut severities: Vec<String> = Vec::new();
    let mut max_rank: u8 = 0;
    let mut max_severity = String::new();
    let mut i: usize = 0;
    proof {
        assert(rows@.take(0).len() == 0);
        assert(texts(ids@) =~= review_ids_of(serious(rows@.take(0))));
        assert(texts(severities@) =~= severities_of(serious(rows@.take(0))));
        assert(max_severity@ =~= Seq::<char>::empty());
    }
    while i < rows.len()
        invariant
            i <= rows.len(),
            texts(ids@) == review_ids_of(serious(rows@.take(i as int))),
            texts(severities@) == severities_of(serious(rows@.take(i as int))),
            max_severity@ == highest(texts(severities@)),
            max_rank == (if texts(severities@).contains("critical"@) {
                4u8
            } else if texts(severities@).contains("high"@) {
                3u8
            } else {
                0u8
            }),
        decreases rows.len() - i,
    {
        let b = &rows[i];
        let ghost ids0 = ids@;
        let ghost sev0 = severities@;
        let ghost rs = serious(rows@.take(i as int));
        proof {
            assert(rows@.take(i + 1).drop_last() =~= rows@.take(i as int));
            assert(rows@.take(i + 1).last() == rows@[i as int]);
        }
        let rank: u8 = severity_rank(b.severity.as_str());
        if rank >= 3 {
            ids.push(b.id.clone());
            severities.push(b.severity.clone());
            proof {
                assert(texts(ids@) =~= texts(ids0).push(b.id@));
                assert(texts(severities@) =~= texts(sev0).push(b.severity@));
                assert(review_ids_of(rs.push(*b)) =~= review_ids_of(rs).push(b.id@));
                assert(severities_of(rs.push(*b)) =~= severities_of(rs).push(b.severity@));
                let s0 = texts(sev0);
                let s1 = texts(severities@);
                assert forall|w: Seq<char>| s1.contains(w) <==> s0.contains(w) || w == b.severity@ by {
                    if s0.contains(w) {
                        let k = choose|k: int| 0 <= k < s0.len() && s0[k] == w;
                        assert(s1[k] == w);
                    }
                    if w == b.severity@ {
                        assert(s1[s1.len() - 1] == w);
                    }
                    if s1.contains(w) {
                        let k = choose|k: int| 0 <= k < s1.len() && s1[k] == w;
                        if k < s0.len() {
                            assert(s0[k] == w);
                        }
                    }
                }
            }
            if rank > max_rank {
                max_rank = rank;
                max_severity = b.severity.clone();
            }
        }
        i += 1;
    }
    assert(rows@.take(i as int) =~= rows@);
    (ids, severities, max_severity)
}

/// An alert is complete: it has its own event and the time `now`.
pub open spec fn is_stamped(a: ImpactAlert, now: Seq<char>) -> bool {
    is_uuid_v4(a.event_id@) && a.generated_at@ == now
}

/// The alerts of some changed nodes, given the radius of each and the unresolved
/// reviews of the nodes in it.
pub fn detect_impact(covers: &[SeedCover], workspace_key: &str) -> (alerts: Vec<ImpactAlert>)
    ensures
        alert_views(alerts@) == impact_alerts(workspace_key@, covers@),
        exists|now: Seq<char>, secs: int|
            #![trigger is_timestamp_of(now, secs)]
            is_timestamp_of(now, secs) && forall|i: int|
                0 <= i < alerts@.len() ==> is_stamped(#[trigger] alerts@[i], now),
{
    let now = now_rfc3339();
    let ghost ws = workspace_key@;
    let mut alerts: Vec<ImpactAlert> = Vec::new();
    let mut n: usize = 0;
    assert(alert_views(alerts@) =~= alerts_upto(ws, covers@, 0));
    while n < covers.len()
        invariant
            n <= covers.len(),
            ws == workspace_key@,
            alert_views(alerts@) == alerts_upto(ws, covers@, n as int),
            forall|j: int| 0 <= j < alerts@.len() ==> is_stamped(#[trigger] alerts@[j], now@),
        decreases covers.len() - n,
    {
        if let Some(cover) = &covers[n].cover {
            let seed = &covers[n].seed;
            let ghost start = alert_views(alerts@);
            let mut k: usize = 0;
            while k < cover.len()
                invariant
                    k <= cover.len(),
                    ws == workspace_key@,
                    alert_views(alerts@) == alerts_in(start, ws, seed.0@, cover@, k as int),
                    forall|j: int|
                        0 <= j < alerts@.len() ==> is_stamped(#[trigger] alerts@[j], now@),
                decreases cover.len() - k,
            {
                let node = &cover[k];
                let ghost before = alerts@;
                if let Some(rows) = &node.unresolved {
                    let (ids, severities, max_severity) = serious_reviews(rows);
                    assert(texts(ids@).len() == serious(rows@).len());
                    if ids.len() > 0 && !has_alert_for(&alerts, node.id.0.as_str()) {
                        let mut message = "modified node ".to_owned();
                        message.append(seed.0.as_str());
                        message.append(" impacts ");
                        message.append(node.id.0.as_str());
                        message.append(": ");
                        message.append(decimal_string(ids.len() as u64).as_str());
                        message.append(" unresolved review(s) in BFS radius");
                        let alert = ImpactAlert {
                            workspace_key: workspace_key.to_owned(),
                            modified_node: NodeId(seed.0.clone()),
                            impacted_node: NodeId(node.id.0.clone()),
                            review_ids: ids,
                            severities,
                            max_severity,
                            alert_message: message,
                            event_id: new_event_id(),
                            generated_at: now.clone(),
                        };
                        alerts.push(alert);
                        assert(alert_views(alerts@) =~= alert_views(before).push(alert@));
                    }
                }
                k += 1;
            }
        }
        n += 1;
    }
    alerts
}

proof fn lemma_add_alert(out: Seq<AlertView>, alert: Option<AlertView>)
    requires
        forall|a: int, b: int|
            0 <= a < b < out.len() ==> (#[trigger] out[a]).impacted_node != (
            #[trigger] out[b]).impacted_node,
    ensures
        ({
            let r = add_alert(out, alert);
            &&& forall|a: int, b: int|
                0 <= a < b < r.len() ==> (#[trigger] r[a]).impacted_node != (
                #[trigger] r[b]).impacted_node
            &&& forall|n: Seq<char>| #[trigger]
                has_alert(r, n) <==> has_alert(out, n) || (alert matches Some(x) && x.impacted_node
                    == n)
        }),
{
    let r = add_alert(out, alert);
    assert forall|n: Seq<char>| #[trigger] has_alert(r, n) <==> has_alert(out, n) || (
    alert matches Some(x) && x.impacted_node == n) by {
        if has_alert(out, n) {
            let i = choose|i: int| 0 <= i < out.len() && (#[trigger] out[i]).impacted_node == n;
            assert(r[i] == out[i]);
        }
        if let Some(x) = alert {
            if x.impacted_node == n && !has_alert(out, n) {
                assert(r.last() == x);
            }
        }
        if has_alert(r, n) {
            let i = choose|i: int| 0 <= i < r.len() && (#[trigger] r[i]).impacted_node == n;
            if i < out.len() {
                assert(out[i] == r[i]);
            }
        }
    }
}

/// Some changed node up to `n` covers `node` with a serious unresolved review.
pub open spec fn is_impacted(covers: Seq<SeedCover>, n: int, node: Seq<char>) -> bool {
    exists|i: int, k: int|
        #![trigger covers[i].cover->0@[k]]
        0 <= i < n && covers[i].cover is Some && 0 <= k < covers[i].cover->0@.len() && asks_alert(
            covers[i].cover->0@[k],
            node,
        )
}

/// A covered node that asks for an alert on `node`.
pub open spec fn asks_alert(c: Covered, node: Seq<char>) -> bool {
    c.id.0@ == node && c.unresolved is Some && serious(c.unresolved->0@).len() > 0
}

proof fn lemma_alerts_in(
    out: Seq<AlertView>,
    ws: Seq<char>,
    seed: Seq<char>,
    cover: Seq<Covered>,
    k: int,
)
    requires
        0 <= k <= cover.len(),
        forall|a: int, b: int|
            0 <= a < b < out.len() ==> (#[trigger] out[a]).impacted_node != (
            #[trigger] out[b]).impacted_node,
    ensures
        ({
            let r = alerts_in(out, ws, seed, cover, k);
            &&& forall|a: int, b: int|
                0 <= a < b < r.len() ==> (#[trigger] r[a]).impacted_node != (
                #[trigger] r[b]).impacted_node
            &&& forall|n: Seq<char>| #[trigger]
                has_alert(r, n) <==> has_alert(out, n) || exists|j: int|
                    0 <= j < k && asks_alert(#[trigger] cover[j], n)
        }),
    decreases k,
{
    if k > 0 {
        lemma_alerts_in(out, ws, seed, cover, k - 1);
        let p = alerts_in(out, ws, seed, cover, k - 1);
        lemma_add_alert(p, alert_of(ws, seed, cover[k - 1]));
        let r = alerts_in(out, ws, seed, cover, k);
        assert forall|n: Seq<char>| #[trigger] has_alert(r, n) <==> has_alert(out, n) || exists|
            j: int,
        | 0 <= j < k && asks_alert(#[trigger] cover[j], n) by {
            assert(has_alert(p, n) <==> has_alert(out, n) || exists|j: int|
                0 <= j < k - 1 && asks_alert(#[trigger] cover[j], n));
            assert((alert_of(ws, seed, cover[k - 1]) matches Some(x) && x.impacted_node == n)
                <==> asks_alert(cover[k - 1], n));
        }
    }
}

proof fn lemma_alerts(ws: Seq<char>, covers: Seq<SeedCover>, n: int)
    requires
        0 <= n <= covers.len(),
    ensures
        ({
            let r = alerts_upto(ws, covers, n);
            &&& forall|a: int, b: int|
                0 <= a < b < r.len() ==> (#[trigger] r[a]).impacted_node != (
                #[trigger] r[b]).impacted_node
            &&& forall|node: Seq<char>| #[trigger]
                has_alert(r, node) <==> is_impacted(covers, n, node)
        }),
    decreases n,
{
    if n > 0 {
        lemma_alerts(ws, covers, n - 1);
        let p = alerts_upto(ws, covers, n - 1);
        let r = alerts_upto(ws, covers, n);
        if let Some(cover) = covers[n - 1].cover {
            lemma_alerts_in(p, ws, covers[n - 1].seed.0@, cover@, cover@.len() as int);
        }
        assert forall|node: Seq<char>| #[trigger]
            has_alert(r, node) <==> is_impacted(covers, n, node) by {
            assert(has_alert(p, node) <==> is_impacted(covers, n - 1, node));
            if is_impacted(covers, n, node) {
                let (i, k) = choose|i: int, k: int|
                    #![trigger covers[i].cover->0@[k]]
                    0 <= i < n && covers[i].cover is Some && 0 <= k < covers[i].cover->0@.len()
                        && asks_alert(covers[i].cover->0@[k], node);
                if i < n - 1 {
                    assert(asks_alert(covers[i].cover->0@[k], node));
                    assert(is_impacted(covers, n - 1, node));
                } else {
                    assert(asks_alert(covers[n - 1].cover->0@[k], node));
                }
            }
            if has_alert(r, node) && !has_alert(p, node) {
                let cover = covers[n - 1].cover->0;
                let j = choose|j: int|
                    0 <= j < cover@.len() && asks_alert(#[trigger] cover@[j], node);
                assert(asks_alert(covers[n - 1].cover->0@[j], node));
            }
        }
    }
}

/// However many changes cover a node, it has one alert at most.
pub proof fn law_one_alert_per_node(workspace_key: Seq<char>, covers: Seq<SeedCover>)
    ensures
        ({
            let r = impact_alerts(workspace_key, covers);
            forall|a: int, b: int|
                0 <= a < b < r.len() ==> (#[trigger] r[a]).impacted_node != (
                #[trigger] r[b]).impacted_node
        }),
{
    lemma_alerts(workspace_key, covers, covers.len() as int);
}

/// A node has an alert exactly when some change covers it and it has a critical
/// or high review that is unresolved.
pub proof fn law_alerted_nodes(workspace_key: Seq<char>, covers: Seq<SeedCover>, node: Seq<char>)
    ensures
        has_alert(impact_alerts(workspace_key, covers), node) <==> is_impacted(
            covers,
            covers.len() as int,
            node,
        ),
{
    lemma_alerts(workspace_key, covers, covers.len() as int);
}

/// Without a changed node there is no alert.
pub proof fn law_no_seed_no_alert(workspace_key: Seq<char>)
    ensures
        impact_alerts(workspace_key, Seq::empty()).len() == 0,
{
}

/// Whether a review is one that an alert is raised for.
pub open spec fn raises(b: ReviewBinding) -> bool {
    b.severity@ == "critical"@ || b.severity@ == "high"@
}

proof fn lemma_serious_are_kept(rows: Seq<ReviewBinding>)
    ensures
        serious(rows) == rows.filter(|b: ReviewBinding| raises(b)),
    decreases rows.len(),
{
    reveal(Seq::filter);
    if rows.len() > 0 {
        lemma_serious_are_kept(rows.drop_last());
        let s = rows.last().severity@;
        reveal_strlit("critical");
        reveal_strlit("high");
        reveal_strlit("medium");
        reveal_strlit("low");
        assert("critical"@.len() == 8 && "high"@.len() == 4 && "medium"@.len() == 6 && "low"@.len()
            == 3);
        assert(is_serious(rows.last()) <==> s == "critical"@ || s == "high"@);
    } else {
        assert(serious(rows) =~= rows.filter(|b: ReviewBinding| raises(b)));
    }
}

/// Whether an alert on a node is that of its reviews: it names every critical and every
/// high one, and no other, with its severity, each as often and in the order it is listed.
pub open spec fn names_reviews(x: AlertView, rows: Seq<ReviewBinding>) -> bool {
    let raised = rows.filter(|b: ReviewBinding| raises(b));
    &&& raised.len() > 0
    &&& x.review_ids == raised.map_values(|b: ReviewBinding| b.id@)
    &&& x.severities == raised.map_values(|b: ReviewBinding| b.severity@)
    &&& x.max_severity == (if exists|j: int|
        0 <= j < rows.len() && (#[trigger] rows[j]).severity@ == "critical"@ {
        "critical"@
    } else {
        "high"@
    })
    &&& x.alert_message == "modified node "@ + x.modified_node + " impacts "@ + x.impacted_node
        + ": "@ + decimal(raised.len()) + " unresolved review(s) in BFS radius"@
}

/// Whether a changed node covers a node with reviews that raise an alert: the `k`-th node
/// that the `i`-th change covers.
pub open spec fn covers_raised(covers: Seq<SeedCover>, i: int, k: int, node: Seq<char>) -> bool {
    &&& 0 <= i < covers.len()
    &&& covers[i].cover is Some
    &&& 0 <= k < covers[i].cover->0@.len()
    &&& covers[i].cover->0@[k].id.0@ == node
    &&& covers[i].cover->0@[k].unresolved is Some
    &&& exists|j: int|
        0 <= j < covers[i].cover->0@[k].unresolved->0@.len() && raises(
            #[trigger] covers[i].cover->0@[k].unresolved->0@[j],
        )
}

/// Whether an alert is that of the `k`-th node that the `i`-th change covers.
pub open spec fn is_alert_at(
    x: AlertView,
    workspace_key: Seq<char>,
    covers: Seq<SeedCover>,
    i: int,
    k: int,
) -> bool {
    &&& covers_raised(covers, i, k, x.impacted_node)
    &&& names_reviews(x, covers[i].cover->0@[k].unresolved->0@)
    &&& x.modified_node == covers[i].seed.0@
    &&& x.workspace_key == workspace_key
}

proof fn lemma_raised(rows: Seq<ReviewBinding>)
    ensures
        serious(rows).len() > 0 <==> exists|j: int|
            0 <= j < rows.len() && raises(#[trigger] rows[j]),
        severities_of(serious(rows)).contains("critical"@) <==> exists|j: int|
            0 <= j < rows.len() && (#[trigger] rows[j]).severity@ == "critical"@,
        serious(rows).len() > 0 && !severities_of(serious(rows)).contains("critical"@)
            ==> severities_of(serious(rows)).contains("high"@),
{
    let f = |b: ReviewBinding| raises(b);
    lemma_serious_are_kept(rows);
    crate::text::lemma_filter(rows, f);
    let rs = rows.filter(f);
    let sv = severities_of(rs);
    assert forall|j: int| 0 <= j < rs.len() implies exists|i: int|
        0 <= i < rows.len() && #[trigger] rows[i] == #[trigger] rs[j] by {
        crate::text::lemma_filter_keeps(rows, f, j);
    }
    if rs.len() > 0 {
        assert(f(rs[0]));
        let i = choose|i: int| 0 <= i < rows.len() && #[trigger] rows[i] == rs[0];
        assert(raises(rows[i]));
        assert(sv[0] == rs[0].severity@);
    }
    if exists|j: int| 0 <= j < rows.len() && raises(#[trigger] rows[j]) {
        let j = choose|j: int| 0 <= j < rows.len() && raises(#[trigger] rows[j]);
        assert(f(rows[j]));
        assert(rs.contains(rows[j]));
    }
    if exists|j: int| 0 <= j < rows.len() && (#[trigger] rows[j]).severity@ == "critical"@ {
        let j = choose|j: int| 0 <= j < rows.len() && (#[trigger] rows[j]).severity@
            == "critical"@;
        assert(f(rows[j]));
        assert(rs.contains(rows[j]));
        let k = choose|k: int| 0 <= k < rs.len() && rs[k] == rows[j];
        assert(sv[k] == "critical"@);
    }
    if sv.contains("critical"@) {
        let k = choose|k: int| 0 <= k < sv.len() && sv[k] == "critical"@;
        let i = choose|i: int| 0 <= i < rows.len() && #[trigger] rows[i] == rs[k];
        assert(rows[i].severity@ == "critical"@);
    }
}

proof fn lemma_alert_at(
    workspace_key: Seq<char>,
    covers: Seq<SeedCover>,
    i: int,
    k: int,
)
    requires
        0 <= i < covers.len(),
        covers[i].cover is Some,
        0 <= k < covers[i].cover->0@.len(),
    ensures
        match alert_of(workspace_key, covers[i].seed.0@, covers[i].cover->0@[k]) {
            Some(x) => is_alert_at(x, workspace_key, covers, i, k) && x.impacted_node
                == covers[i].cover->0@[k].id.0@,
            None => forall|node: Seq<char>| !#[trigger] covers_raised(covers, i, k, node),
        },
        forall|node: Seq<char>| #[trigger]
            covers_raised(covers, i, k, node) <==> asks_alert(covers[i].cover->0@[k], node),
{
    let c = covers[i].cover->0@[k];
    if let Some(rows) = c.unresolved {
        lemma_raised(rows@);
        lemma_serious_are_kept(rows@);
        assert forall|node: Seq<char>| #[trigger]
            covers_raised(covers, i, k, node) <==> asks_alert(c, node) by {
            if asks_alert(c, node) {
                let j = choose|j: int| 0 <= j < rows@.len() && raises(#[trigger] rows@[j]);
                assert(raises(covers[i].cover->0@[k].unresolved->0@[j]));
            }
        }
        if serious(rows@).len() > 0 {
            assert(covers_raised(covers, i, k, c.id.0@) <==> asks_alert(c, c.id.0@));
        }
    }
}

/// Whether an alert is that of the first place at which its node is covered, up to the
/// `k`-th node of the `n`-th change.
pub open spec fn is_first_alert(
    x: AlertView,
    workspace_key: Seq<char>,
    covers: Seq<SeedCover>,
    n: int,
    m: int,
) -> bool {
    exists|i: int, k: int|
        #![trigger is_alert_at(x, workspace_key, covers, i, k)]
        {
            &&& i < n || (i == n && k < m)
            &&& is_alert_at(x, workspace_key, covers, i, k)
            &&& forall|p: int, q: int|
                (p < i || (p == i && q < k)) ==> !#[trigger] covers_raised(
                    covers,
                    p,
                    q,
                    x.impacted_node,
                )
        }
}

proof fn lemma_first_alerts_in(ws: Seq<char>, covers: Seq<SeedCover>, n: int, m: int)
    requires
        0 <= n < covers.len(),
        covers[n].cover is Some,
        0 <= m <= covers[n].cover->0@.len(),
        forall|a: int|
            0 <= a < alerts_upto(ws, covers, n).len() ==> is_first_alert(
                #[trigger] alerts_upto(ws, covers, n)[a],
                ws,
                covers,
                n,
                0,
            ),
    ensures
        ({
            let r = alerts_in(
                alerts_upto(ws, covers, n),
                ws,
                covers[n].seed.0@,
                covers[n].cover->0@,
                m,
            );
            forall|a: int|
                0 <= a < r.len() ==> is_first_alert(#[trigger] r[a], ws, covers, n, m)
        }),
    decreases m,
{
    let out = alerts_upto(ws, covers, n);
    let cover = covers[n].cover->0@;
    let seed = covers[n].seed.0@;
    let r = alerts_in(out, ws, seed, cover, m);
    if m > 0 {
        let p = alerts_in(out, ws, seed, cover, m - 1);
        lemma_first_alerts_in(ws, covers, n, m - 1);
        lemma_alerts(ws, covers, n);
        lemma_alerts_in(out, ws, seed, cover, m - 1);
        lemma_alert_at(ws, covers, n, m - 1);
        assert forall|a: int| 0 <= a < r.len() implies is_first_alert(
            #[trigger] r[a],
            ws,
            covers,
            n,
            m,
        ) by {
            let x = r[a];
            if a < p.len() {
                assert(x == p[a]);
                let (i, k) = choose|i: int, k: int|
                    #![trigger is_alert_at(x, ws, covers, i, k)]
                    {
                        &&& i < n || (i == n && k < m - 1)
                        &&& is_alert_at(x, ws, covers, i, k)
                        &&& forall|p: int, q: int|
                            (p < i || (p == i && q < k)) ==> !#[trigger] covers_raised(
                                covers,
                                p,
                                q,
                                x.impacted_node,
                            )
                    };
                assert(is_alert_at(x, ws, covers, i, k));
            } else {
                assert(Some(x) == alert_of(ws, seed, cover[m - 1]));
                assert(!has_alert(p, x.impacted_node));
                assert(is_alert_at(x, ws, covers, n, m - 1));
                assert forall|i: int, q: int| (i < n || (i == n && q < m - 1)) implies !#[trigger] covers_raised(
                    covers,
                    i,
                    q,
                    x.impacted_node,
                ) by {
                    if covers_raised(covers, i, q, x.impacted_node) {
                        lemma_alert_at(ws, covers, i, q);
                        assert(asks_alert(covers[i].cover->0@[q], x.impacted_node));
                        if i < n {
                            assert(is_impacted(covers, n, x.impacted_node));
                            assert(has_alert(out, x.impacted_node));
                        } else {
                            assert(asks_alert(cover[q], x.impacted_node));
                        }
                        assert(has_alert(p, x.impacted_node));
                    }
                }
            }
        }
    } else {
        assert(r == out);
    }
}

proof fn lemma_first_alerts(ws: Seq<char>, covers: Seq<SeedCover>, n: int)
    requires
        0 <= n <= covers.len(),
    ensures
        forall|a: int|
            0 <= a < alerts_upto(ws, covers, n).len() ==> is_first_alert(
                #[trigger] alerts_upto(ws, covers, n)[a],
                ws,
                covers,
                n,
                0,
            ),
    decreases n,
{
    if n > 0 {
        lemma_first_alerts(ws, covers, n - 1);
        let r = alerts_upto(ws, covers, n);
        let m = if covers[n - 1].cover is Some {
            covers[n - 1].cover->0@.len() as int
        } else {
            0
        };
        if covers[n - 1].cover is Some {
            lemma_first_alerts_in(ws, covers, n - 1, m);
        }
        assert forall|a: int| 0 <= a < r.len() implies is_first_alert(
            #[trigger] r[a],
            ws,
            covers,
            n,
            0,
        ) by {
            let x = r[a];
            assert(is_first_alert(x, ws, covers, n - 1, m));
            let (i, k) = choose|i: int, k: int|
                #![trigger is_alert_at(x, ws, covers, i, k)]
                {
                    &&& i < n - 1 || (i == n - 1 && k < m)
                    &&& is_alert_at(x, ws, covers, i, k)
                    &&& forall|p: int, q: int|
                        (p < i || (p == i && q < k)) ==> !#[trigger] covers_raised(
                            covers,
                            p,
                            q,
                            x.impacted_node,
                        )
                };
            assert(is_alert_at(x, ws, covers, i, k));
        }
    }
}

/// Every alert is that of the first change that covers its node: it is about that change
/// and its workspace, and names every critical and every high review that is unresolved
/// there, however many share a severity, and no other.
pub proof fn law_an_alert_names_every_serious_review(
    workspace_key: Seq<char>,
    covers: Seq<SeedCover>,
    a: int,
)
    requires
        0 <= a < impact_alerts(workspace_key, covers).len(),
    ensures
        is_first_alert(
            impact_alerts(workspace_key, covers)[a],
            workspace_key,
            covers,
            covers.len() as int,
            0,
        ),
{
    lemma_first_alerts(workspace_key, covers, covers.len() as int);
}

/// A node that some change covers, with a critical or high review that is unresolved, has
/// an alert, and that alert has the id of every such review of the node, as many ids as
/// there are such reviews.
pub proof fn law_every_serious_review_is_in_an_alert(
    workspace_key: Seq<char>,
    covers: Seq<SeedCover>,
    i: int,
    k: int,
)
    requires
        0 <= i < covers.len(),
        covers[i].cover is Some,
        0 <= k < covers[i].cover->0@.len(),
        covers[i].cover->0@[k].unresolved is Some,
        exists|j: int|
            0 <= j < covers[i].cover->0@[k].unresolved->0@.len() && raises(
                #[trigger] covers[i].cover->0@[k].unresolved->0@[j],
            ),
        // Wherever the node is covered, it has the same reviews.
        forall|p: int, q: int|
            #![trigger covers[p].cover->0@[q]]
            0 <= p < covers.len() && covers[p].cover is Some && 0 <= q < covers[p].cover->0@.len()
                && covers[p].cover->0@[q].id.0@ == covers[i].cover->0@[k].id.0@
                ==> covers[p].cover->0@[q].unresolved == covers[i].cover->0@[k].unresolved,
    ensures
        ({
            let c = covers[i].cover->0@[k];
            let rows = c.unresolved->0@;
            exists|a: int|
                {
                    &&& 0 <= a < impact_alerts(workspace_key, covers).len()
                    &&& (#[trigger] impact_alerts(workspace_key, covers)[a]).impacted_node
                        == c.id.0@
                    &&& forall|j: int|
                        0 <= j < rows.len() && ((#[trigger] rows[j]).severity@ == "critical"@
                            || rows[j].severity@ == "high"@) ==> impact_alerts(
                            workspace_key,
                            covers,
                        )[a].review_ids.contains(rows[j].id@)
                    &&& impact_alerts(workspace_key, covers)[a].review_ids.len() == rows.filter(
                        |b: ReviewBinding| raises(b),
                    ).len()
                }
        }),
{
    let c = covers[i].cover->0@[k];
    let rows = c.unresolved->0@;
    let all = impact_alerts(workspace_key, covers);
    lemma_alert_at(workspace_key, covers, i, k);
    assert(covers_raised(covers, i, k, c.id.0@));
    assert(is_impacted(covers, covers.len() as int, c.id.0@));
    law_alerted_nodes(workspace_key, covers, c.id.0@);
    let a = choose|a: int| 0 <= a < all.len() && (#[trigger] all[a]).impacted_node == c.id.0@;
    law_an_alert_names_every_serious_review(workspace_key, covers, a);
    let x = all[a];
    let (p, q) = choose|p: int, q: int| is_alert_at(x, workspace_key, covers, p, q);
    assert(covers[p].cover->0@[q].unresolved == c.unresolved);
    let f = |b: ReviewBinding| raises(b);
    let rs = rows.filter(f);
    crate::text::lemma_filter(rows, f);
    assert forall|j: int| 0 <= j < rows.len() && ((#[trigger] rows[j]).severity@ == "critical"@
        || rows[j].severity@ == "high"@) implies x.review_ids.contains(rows[j].id@) by {
        assert(f(rows[j]));
        assert(rs.contains(rows[j]));
        let m = choose|m: int| 0 <= m < rs.len() && rs[m] == rows[j];
        assert(x.review_ids[m] == rows[j].id@);
    }
    assert(all[a].review_ids.len() == rs.len());
}

/// Reviews of other severities neither raise an alert nor show in one: without them the
/// alerts are the same.
pub proof fn law_other_reviews_raise_nothing(
    workspace_key: Seq<char>,
    seed: NodeId,
    id: NodeId,
    rows: Vec<ReviewBinding>,
    fewer: Vec<ReviewBinding>,
)
    requires
        fewer@ == rows@.filter(|b: ReviewBinding| raises(b)),
    ensures
        alert_of(workspace_key, seed.0@, Covered { id, unresolved: Some(rows) }) == alert_of(
            workspace_key,
            seed.0@,
            Covered { id, unresolved: Some(fewer) },
        ),
{
    let f = |b: ReviewBinding| raises(b);
    lemma_serious_are_kept(rows@);
    lemma_serious_are_kept(fewer@);
    crate::text::lemma_filter(rows@, f);
    lemma_filter_all(fewer@);
}

proof fn lemma_filter_all(rows: Seq<ReviewBinding>)
    requires
        forall|i: int| 0 <= i < rows.len() ==> raises(#[trigger] rows[i]),
    ensures
        rows.filter(|b: ReviewBinding| raises(b)) == rows,
    decreases rows.len(),
{
    reveal(Seq::filter);
    if rows.len() > 0 {
        let init = rows.drop_last();
        assert forall|i: int| 0 <= i < init.len() implies raises(#[trigger] init[i]) by {
            assert(init[i] == rows[i]);
        }
        lemma_filter_all(init);
        assert(raises(rows[rows.len() - 1]));
        assert(init.push(rows.last()) =~= rows);
    } else {
        assert(rows.filter(|b: ReviewBinding| raises(b)) =~= rows);
    }
}

/// A further change adds its alerts behind those there are, and changes none of them.
pub proof fn law_further_changes_keep_the_alerts(
    workspace_key: Seq<char>,
    covers: Seq<SeedCover>,
    more: SeedCover,
)
    ensures
        impact_alerts(workspace_key, covers).is_prefix_of(
            impact_alerts(workspace_key, covers.push(more)),
        ),
{
    let n = covers.len() as int;
    let all = covers.push(more);
    lemma_same_covers(workspace_key, covers, all, n);
    let out = alerts_upto(workspace_key, all, n);
    if let Some(cover) = more.cover {
        lemma_alerts_grow(out, workspace_key, more.seed.0@, cover@, cover@.len() as int);
    }
}

proof fn lemma_same_covers(ws: Seq<char>, a: Seq<SeedCover>, b: Seq<SeedCover>, n: int)
    requires
        0 <= n <= a.len() <= b.len(),
        forall|i: int| 0 <= i < n ==> #[trigger] a[i] == b[i],
    ensures
        alerts_upto(ws, a, n) == alerts_upto(ws, b, n),
    decreases n,
{
    if n > 0 {
        lemma_same_covers(ws, a, b, n - 1);
        assert(a[n - 1] == b[n - 1]);
    }
}

proof fn lemma_alerts_grow(
    out: Seq<AlertView>,
    ws: Seq<char>,
    seed: Seq<char>,
    cover: Seq<Covered>,
    k: int,
)
    ensures
        out.is_prefix_of(alerts_in(out, ws, seed, cover, k)),
    decreases k,
{
    let r = alerts_in(out, ws, seed, cover, k);
    if k > 0 {
        lemma_alerts_grow(out, ws, seed, cover, k - 1);
        let p = alerts_in(out, ws, seed, cover, k - 1);
        assert(out =~= r.subrange(0, out.len() as int)) by {
            assert(out =~= p.subrange(0, out.len() as int));
            assert forall|i: int| 0 <= i < out.len() implies out[i] == r[i] by {
                assert(p.subrange(0, out.len() as int)[i] == p[i]);
            }
        }
    } else {
        assert(out =~= r.subrange(0, out.len() as int));
    }
}

}
