//! Retest signals: a change that touches a phase of a test plan asks for that
//! phase to be run again.
use vstd::prelude::*;

use crate::clock::{is_timestamp_of, now_rfc3339};
use crate::graph::{
    has_id, ids, is_uuid_v4, new_event_id, GraphOutput, Node, NodeId,
};
use crate::text::{
    char_pos, lemma_char_pos, lemma_char_pos_is, same, split_once, str_split_once, str_strip_prefix, strip_prefix,
    texts,
};

verus! {

/// The request to run one phase again.
#[derive(Debug, Clone, PartialEq, Eq)]
pub struct RetestSignal {
    pub kind: &'static str,
    pub workspace_key: String,
    pub phase: String,
    pub reason: String,
    pub nodes: Vec<String>,
    pub event_id: String,
    pub generated_at: String,
}

/// What a signal says, without its id and its time.
#[verifier::ext_equal]
pub struct SignalView {
    pub workspace_key: Seq<char>,
    pub phase: Seq<char>,
    pub reason: Seq<char>,
    pub nodes: Seq<Seq<char>>,
}

impl View for RetestSignal {
    type V = SignalView;

    open spec fn view(&self) -> SignalView {
        SignalView {
            workspace_key: self.workspace_key@,
            phase: self.phase@,
            reason: self.reason@,
            nodes: texts(self.nodes@),
        }
    }
}

/// What each signal says, in order.
pub open spec fn contents(v: Seq<RetestSignal>) -> Seq<SignalView> {
    v.map_values(|s: RetestSignal| s@)
}

/// The phase in a worker's id `worker:<phase>/<worker>`; it may not be empty.
pub open spec fn worker_id_phase(id: Seq<char>) -> Option<Seq<char>> {
    match strip_prefix(id, "worker:"@) {
        None => None,
        Some(rest) => match split_once(rest, '/') {
            Some((phase, _)) => if phase.len() > 0 {
                Some(phase)
            } else {
                None
            },
            None => None,
        },
    }
}

/// The phase in a worker's id.
pub fn phase_of_worker(node_id: &str) -> (r: Option<String>)
    ensures
        crate::text::opt_text(r) == worker_id_phase(node_id@),
{
    let rest = match str_strip_prefix(node_id, "worker:") {
        None => return None,
        Some(rest) => rest,
    };
    match str_split_once(rest, '/') {
        None => None,
        Some((phase, _)) => if phase.is_empty() {
            None
        } else {
            Some(phase.to_owned())
        },
    }
}

/// Whether `file` is the source file of a seed node.
pub open spec fn is_seed_file(nodes: Seq<Node>, seeds: Seq<NodeId>, file: Seq<char>) -> bool {
    exists|i: int|
        0 <= i < nodes.len() && ids(seeds).contains(#[trigger] nodes[i].id.0@)
            && nodes[i].source_file@ == file
}

/// A change touches a worker: the worker, its source file, or another node of
/// that file is a seed.
pub open spec fn is_touched(nodes: Seq<Node>, seeds: Seq<NodeId>, n: Node) -> bool {
    ||| ids(seeds).contains(n.id.0@)
    ||| n.source_file@.len() > 0 && (ids(seeds).contains(n.source_file@) || is_seed_file(
        nodes,
        seeds,
        n.source_file@,
    ))
}

/// The signal that a touched worker node asks for.
pub open spec fn worker_signal(
    nodes: Seq<Node>,
    seeds: Seq<NodeId>,
    workspace_key: Seq<char>,
    n: Node,
) -> Option<SignalView> {
    if n.kind@ == "worker"@ && is_touched(nodes, seeds, n) {
        match worker_id_phase(n.id.0@) {
            Some(phase) => Some(
                SignalView {
                    workspace_key,
                    phase,
                    reason: "change touches worker "@ + n.id.0@ + " (phase spec "@ + n.source_file@
                        + ")"@,
                    nodes: seq![n.id.0@, "phase:"@ + phase],
                },
            ),
            None => None,
        }
    } else {
        None
    }
}

/// The signal that a phase node among the seeds asks for.
pub open spec fn phase_signal(
    seeds: Seq<NodeId>,
    workspace_key: Seq<char>,
    n: Node,
) -> Option<SignalView> {
    if n.kind@ == "phase"@ && ids(seeds).contains(n.id.0@) {
        match strip_prefix(n.id.0@, "phase:"@) {
            Some(phase) => Some(
                SignalView {
                    workspace_key,
                    phase,
                    reason: "phase node "@ + n.id.0@ + " changed"@,
                    nodes: seq![n.id.0@],
                },
            ),
            None => None,
        }
    } else {
        None
    }
}

/// Whether a phase already has its signal.
pub open spec fn has_phase(out: Seq<SignalView>, phase: Seq<char>) -> bool {
    exists|i: int| 0 <= i < out.len() && (#[trigger] out[i]).phase == phase
}

/// `out` with one more signal, unless its phase has one.
pub open spec fn add_once(out: Seq<SignalView>, signal: Option<SignalView>) -> Seq<SignalView> {
    match signal {
        Some(s) => if has_phase(out, s.phase) {
            out
        } else {
            out.push(s)
        },
        None => out,
    }
}

/// The signals of the worker nodes among the first `k`.
pub open spec fn worker_signals(
    nodes: Seq<Node>,
    seeds: Seq<NodeId>,
    workspace_key: Seq<char>,
    k: int,
) -> Seq<SignalView>
    decreases k,
{
    if k <= 0 {
        Seq::empty()
    } else {
        add_once(
            worker_signals(nodes, seeds, workspace_key, k - 1),
            worker_signal(nodes, seeds, workspace_key, nodes[k - 1]),
        )
    }
}

/// The signals of all worker nodes and of the phase nodes among the first `k`.
pub open spec fn signals_upto(
    nodes: Seq<Node>,
    seeds: Seq<NodeId>,
    workspace_key: Seq<char>,
    k: int,
) -> Seq<SignalView>
    decreases k,
{
    if k <= 0 {
        worker_signals(nodes, seeds, workspace_key, nodes.len() as int)
    } else {
        add_once(
            signals_upto(nodes, seeds, workspace_key, k - 1),
            phase_signal(seeds, workspace_key, nodes[k - 1]),
        )
    }
}

/// The signals that a change of the seeds asks for: first those of worker
/// nodes, then those of phase nodes, in node order, one per phase.
pub open spec fn retest_signals(
    nodes: Seq<Node>,
    seeds: Seq<NodeId>,
    workspace_key: Seq<char>,
) -> Seq<SignalView> {
    signals_upto(nodes, seeds, workspace_key, nodes.len() as int)
}

fn has_phase_signal(out: &Vec<RetestSignal>, phase: &str) -> (r: bool)
    ensures
        r == has_phase(contents(out@), phase@),
{
    let mut i: usize = 0;
    while i < out.len()
        invariant
            i <= out.len(),
            forall|j: int| 0 <= j < i ==> contents(out@)[j].phase != phase@,
        decreases out.len() - i,
    {
        if same(out[i].phase.as_str(), phase) {
            assert(contents(out@)[i as int].phase == phase@);
            return true;
        }
        i += 1;
    }
    false
}

fn touches_file(nodes: &Vec<Node>, seeds: &[NodeId], file: &str) -> (r: bool)
    ensures
        r == is_seed_file(nodes@, seeds@, file@),
{
    let mut i: usize = 0;
    while i < nodes.len()
        invariant
            i <= nodes.len(),
            forall|j: int|
                0 <= j < i ==> !(ids(seeds@).contains(#[trigger] nodes@[j].id.0@)
                    && nodes@[j].source_file@ == file@),
        decreases nodes.len() - i,
    {
        if has_id(seeds, nodes[i].id.0.as_str()) && same(nodes[i].source_file.as_str(), file) {
            return true;
        }
        i += 1;
    }
    false
}

fn touched(nodes: &Vec<Node>, seeds: &[NodeId], n: &Node) -> (r: bool)
    ensures
        r == is_touched(nodes@, seeds@, *n),
{
    if has_id(seeds, n.id.0.as_str()) {
        return true;
    }
    !n.source_file.as_str().is_empty() && (has_id(seeds, n.source_file.as_str()) || touches_file(
        nodes,
        seeds,
        n.source_file.as_str(),
    ))
}

/// A signal is complete: it names its kind, its own event and the time `now`.
pub open spec fn is_stamped(s: RetestSignal, now: Seq<char>) -> bool {
    s.kind@ == "RetestSignal"@ && is_uuid_v4(s.event_id@) && s.generated_at@ == now
}

fn stamp(
    workspace_key: &str,
    phase: String,
    reason: String,
    nodes: Vec<String>,
    now: &str,
) -> (s: RetestSignal)
    ensures
        s@ == (SignalView {
            workspace_key: workspace_key@,
            phase: phase@,
            reason: reason@,
            nodes: texts(nodes@),
        }),
        is_stamped(s, now@),
{
    RetestSignal {
        kind: "RetestSignal",
        workspace_key: workspace_key.to_owned(),
        phase,
        reason,
        nodes,
        event_id: new_event_id(),
        generated_at: now.to_owned(),
    }
}

/// The phases that a change of the seeds touches, each with one signal.
pub fn detect_retests(graph: &GraphOutput, seeds: &[NodeId], workspace_key: &str) -> (r: Vec<
    RetestSignal,
>)
    ensures
        contents(r@) == retest_signals(graph.nodes@, seeds@, workspace_key@),
        exists|now: Seq<char>, secs: int|
            #![trigger is_timestamp_of(now, secs)]
            is_timestamp_of(now, secs) && forall|i: int|
                0 <= i < r@.len() ==> is_stamped(#[trigger] r@[i], now),
{
    let now = now_rfc3339();
    let ghost nodes = graph.nodes@;
    let ghost sd = seeds@;
    let ghost ws = workspace_key@;
    let mut out: Vec<RetestSignal> = Vec::new();
    let mut i: usize = 0;
    assert(contents(out@) =~= worker_signals(nodes, sd, ws, 0));
    while i < graph.nodes.len()
        invariant
            i <= graph.nodes.len(),
            nodes == graph.nodes@,
            sd == seeds@,
            ws == workspace_key@,
            contents(out@) == worker_signals(nodes, sd, ws, i as int),
            forall|j: int| 0 <= j < out@.len() ==> is_stamped(#[trigger] out@[j], now@),
        decreases graph.nodes.len() - i,
    {
        let n = &graph.nodes[i];
        let ghost before = out@;
        if same(n.kind.as_str(), "worker") && touched(&graph.nodes, seeds, n) {
            if let Some(phase) = phase_of_worker(n.id.0.as_str()) {
                if !has_phase_signal(&out, phase.as_str()) {
                    let mut reason = "change touches worker ".to_owned();
                    reason.append(n.id.0.as_str());
                    reason.append(" (phase spec ");
                    reason.append(n.source_file.as_str());
                    reason.append(")");
                    let mut related: Vec<String> = Vec::new();
                    related.push(n.id.0.clone());
                    let mut phase_id = "phase:".to_owned();
                    phase_id.append(phase.as_str());
                    related.push(phase_id);
                    assert(texts(related@) =~= seq![n.id.0@, "phase:"@ + phase@]);
                    let signal = stamp(workspace_key, phase, reason, related, now.as_str());
                    out.push(signal);
                    assert(contents(out@) =~= contents(before).push(signal@));
                }
            }
        }
        i += 1;
    }
    let mut k: usize = 0;
    while k < graph.nodes.len()
        invariant
            k <= graph.nodes.len(),
            nodes == graph.nodes@,
            sd == seeds@,
            ws == workspace_key@,
            contents(out@) == signals_upto(nodes, sd, ws, k as int),
            forall|j: int| 0 <= j < out@.len() ==> is_stamped(#[trigger] out@[j], now@),
        decreases graph.nodes.len() - k,
    {
        let n = &graph.nodes[k];
        let ghost before = out@;
        if same(n.kind.as_str(), "phase") && has_id(seeds, n.id.0.as_str()) {
            if let Some(phase) = str_strip_prefix(n.id.0.as_str(), "phase:") {
                if !has_phase_signal(&out, phase) {
                    let mut reason = "phase node ".to_owned();
                    reason.append(n.id.0.as_str());
                    reason.append(" changed");
                    let mut related: Vec<String> = Vec::new();
                    related.push(n.id.0.clone());
                    assert(texts(related@) =~= seq![n.id.0@]);
                    let signal = stamp(
                        workspace_key,
                        phase.to_owned(),
                        reason,
                        related,
                        now.as_str(),
                    );
                    out.push(signal);
                    assert(contents(out@) =~= contents(before).push(signal@));
                }
            }
        }
        k += 1;
    }
    out
}

/// The phases that a change of the seeds touches, for callers outside the plugin.
pub fn retests_for_seeds(graph: &GraphOutput, seeds: &[NodeId], workspace_key: &str) -> (r: Vec<
    RetestSignal,
>)
    ensures
        contents(r@) == retest_signals(graph.nodes@, seeds@, workspace_key@),
        exists|now: Seq<char>, secs: int|
            #![trigger is_timestamp_of(now, secs)]
            is_timestamp_of(now, secs) && forall|i: int|
                0 <= i < r@.len() ==> is_stamped(#[trigger] r@[i], now),
{
    detect_retests(graph, seeds, workspace_key)
}

/// Some node asks for a signal of `phase`.
pub open spec fn asks_for(
    nodes: Seq<Node>,
    seeds: Seq<NodeId>,
    workspace_key: Seq<char>,
    n: Node,
    phase: Seq<char>,
) -> bool {
    ||| worker_signal(nodes, seeds, workspace_key, n) matches Some(s) && s.phase == phase
    ||| phase_signal(seeds, workspace_key, n) matches Some(s) && s.phase == phase
}

proof fn lemma_worker_signals(nodes: Seq<Node>, seeds: Seq<NodeId>, ws: Seq<char>, k: int)
    requires
        0 <= k <= nodes.len(),
    ensures
        ({
            let out = worker_signals(nodes, seeds, ws, k);
            &&& forall|a: int, b: int| 0 <= a < b < out.len() ==> out[a].phase != out[b].phase
            &&& forall|p: Seq<char>| #[trigger]
                has_phase(out, p) ==> exists|i: int|
                    0 <= i < nodes.len() && asks_for(nodes, seeds, ws, #[trigger] nodes[i], p)
            &&& forall|i: int, p: Seq<char>|
                #![trigger nodes[i], has_phase(out, p)]
                0 <= i < k && (worker_signal(nodes, seeds, ws, nodes[i]) matches Some(s) && s.phase
                    == p) ==> has_phase(out, p)
        }),
    decreases k,
{
    if k > 0 {
        lemma_worker_signals(nodes, seeds, ws, k - 1);
        lemma_add_once(
            worker_signals(nodes, seeds, ws, k - 1),
            worker_signal(nodes, seeds, ws, nodes[k - 1]),
        );
    }
}

proof fn lemma_add_once(out: Seq<SignalView>, signal: Option<SignalView>)
    ensures
        forall|p: Seq<char>| #[trigger]
            has_phase(add_once(out, signal), p) <==> has_phase(out, p) || (signal matches Some(s)
                && s.phase == p),
{
    let r = add_once(out, signal);
    assert forall|p: Seq<char>| #[trigger] has_phase(r, p) <==> has_phase(out, p) || (signal matches Some(
        s,
    ) && s.phase == p) by {
        if has_phase(out, p) {
            let i = choose|i: int| 0 <= i < out.len() && (#[trigger] out[i]).phase == p;
            assert(r[i] == out[i]);
        }
        if let Some(s) = signal {
            if s.phase == p && !has_phase(out, p) {
                assert(r.last() == s);
            }
        }
        if has_phase(r, p) {
            let i = choose|i: int| 0 <= i < r.len() && (#[trigger] r[i]).phase == p;
            if i < out.len() {
                assert(out[i] == r[i]);
            }
        }
    }
}

proof fn lemma_signals_upto(nodes: Seq<Node>, seeds: Seq<NodeId>, ws: Seq<char>, k: int)
    requires
        0 <= k <= nodes.len(),
    ensures
        ({
            let out = signals_upto(nodes, seeds, ws, k);
            &&& forall|a: int, b: int| 0 <= a < b < out.len() ==> out[a].phase != out[b].phase
            &&& forall|p: Seq<char>| #[trigger]
                has_phase(out, p) ==> exists|i: int|
                    0 <= i < nodes.len() && asks_for(nodes, seeds, ws, #[trigger] nodes[i], p)
            &&& forall|i: int, p: Seq<char>|
                #![trigger nodes[i], has_phase(out, p)]
                0 <= i < nodes.len() && (worker_signal(nodes, seeds, ws, nodes[i]) matches Some(s)
                    && s.phase == p) ==> has_phase(out, p)
            &&& forall|i: int, p: Seq<char>|
                #![trigger nodes[i], has_phase(out, p)]
                0 <= i < k && (phase_signal(seeds, ws, nodes[i]) matches Some(s) && s.phase == p)
                    ==> has_phase(out, p)
        }),
    decreases k,
{
    if k <= 0 {
        lemma_worker_signals(nodes, seeds, ws, nodes.len() as int);
    } else {
        lemma_signals_upto(nodes, seeds, ws, k - 1);
        lemma_add_once(
            signals_upto(nodes, seeds, ws, k - 1),
            phase_signal(seeds, ws, nodes[k - 1]),
        );
    }
}

/// No phase is signalled twice.
pub proof fn law_one_signal_per_phase(
    nodes: Seq<Node>,
    seeds: Seq<NodeId>,
    workspace_key: Seq<char>,
)
    ensures
        ({
            let out = retest_signals(nodes, seeds, workspace_key);
            forall|a: int, b: int| 0 <= a < b < out.len() ==> out[a].phase != out[b].phase
        }),
{
    lemma_signals_upto(nodes, seeds, workspace_key, nodes.len() as int);
}

/// A phase is signalled exactly when some node asks for it.
pub proof fn law_signalled_phases(
    nodes: Seq<Node>,
    seeds: Seq<NodeId>,
    workspace_key: Seq<char>,
    phase: Seq<char>,
)
    ensures
        has_phase(retest_signals(nodes, seeds, workspace_key), phase) <==> exists|i: int|
            0 <= i < nodes.len() && asks_for(
                nodes,
                seeds,
                workspace_key,
                #[trigger] nodes[i],
                phase,
            ),
{
    lemma_signals_upto(nodes, seeds, workspace_key, nodes.len() as int);
}

/// Without seeds there is no signal.
pub proof fn law_no_seed_no_signal(nodes: Seq<Node>, workspace_key: Seq<char>)
    ensures
        retest_signals(nodes, Seq::empty(), workspace_key).len() == 0,
{
    let seeds = Seq::<NodeId>::empty();
    let out = retest_signals(nodes, seeds, workspace_key);
    lemma_signals_upto(nodes, seeds, workspace_key, nodes.len() as int);
    if out.len() > 0 {
        assert(has_phase(out, out[0].phase));
    }
}

/// Whether a node is a worker of a phase: its id is `worker:<phase>/<worker>`.
pub open spec fn is_worker_of(n: Node, phase: Seq<char>) -> bool {
    &&& n.kind@ == "worker"@
    &&& phase.len() > 0
    &&& !phase.contains('/')
    &&& exists|w: Seq<char>| n.id.0@ == #[trigger] (("worker:"@ + phase + "/"@) + w)
}

/// Whether a node is that of a phase.
pub open spec fn is_node_of(n: Node, phase: Seq<char>) -> bool {
    n.kind@ == "phase"@ && n.id.0@ == "phase:"@ + phase
}

/// Whether a text is the id of a seed.
pub open spec fn is_seed(seeds: Seq<NodeId>, id: Seq<char>) -> bool {
    exists|j: int| 0 <= j < seeds.len() && (#[trigger] seeds[j]).0@ == id
}

/// Whether a change reaches a worker: by its id, by the name of its source file, or by a
/// node that has the same source file.
pub open spec fn is_reached(nodes: Seq<Node>, seeds: Seq<NodeId>, n: Node) -> bool {
    ||| is_seed(seeds, n.id.0@)
    ||| n.source_file@.len() > 0 && is_seed(seeds, n.source_file@)
    ||| n.source_file@.len() > 0 && exists|m: int|
        0 <= m < nodes.len() && (#[trigger] nodes[m]).source_file@ == n.source_file@ && is_seed(
            seeds,
            nodes[m].id.0@,
        )
}

proof fn lemma_is_seed(seeds: Seq<NodeId>, id: Seq<char>)
    ensures
        ids(seeds).contains(id) <==> is_seed(seeds, id),
{
    let v = ids(seeds);
    if v.contains(id) {
        let j = choose|j: int| 0 <= j < v.len() && v[j] == id;
        assert(seeds[j].0@ == id);
    }
    if is_seed(seeds, id) {
        let j = choose|j: int| 0 <= j < seeds.len() && (#[trigger] seeds[j]).0@ == id;
        assert(v[j] == id);
    }
}

proof fn lemma_touched_is_reached(nodes: Seq<Node>, seeds: Seq<NodeId>, n: Node)
    ensures
        is_touched(nodes, seeds, n) <==> is_reached(nodes, seeds, n),
{
    lemma_is_seed(seeds, n.id.0@);
    lemma_is_seed(seeds, n.source_file@);
    if is_seed_file(nodes, seeds, n.source_file@) {
        let i = choose|i: int|
            0 <= i < nodes.len() && ids(seeds).contains(#[trigger] nodes[i].id.0@)
                && nodes[i].source_file@ == n.source_file@;
        lemma_is_seed(seeds, nodes[i].id.0@);
        assert(nodes[i].source_file@ == n.source_file@);
    }
    if exists|m: int|
        0 <= m < nodes.len() && (#[trigger] nodes[m]).source_file@ == n.source_file@ && is_seed(
            seeds,
            nodes[m].id.0@,
        ) {
        let m = choose|m: int|
            0 <= m < nodes.len() && (#[trigger] nodes[m]).source_file@ == n.source_file@
                && is_seed(seeds, nodes[m].id.0@);
        lemma_is_seed(seeds, nodes[m].id.0@);
        assert(ids(seeds).contains(nodes[m].id.0@));
    }
}

/// A worker's id has the phase between `worker:` and the first slash, and no other text
/// has one.
pub proof fn law_worker_ids(id: Seq<char>, phase: Seq<char>)
    ensures
        worker_id_phase(id) == Some(phase) <==> phase.len() > 0 && !phase.contains('/') && exists|
            w: Seq<char>,
        |
            id == #[trigger] (("worker:"@ + phase + "/"@) + w),
{
    let head = "worker:"@;
    let mid = "/"@;
    reveal_strlit("/");
    assert(mid.len() == 1 && mid[0] == '/');
    if worker_id_phase(id) == Some(phase) {
        let rest = id.skip(head.len() as int);
        lemma_char_pos(rest, '/');
        let p = char_pos(rest, '/');
        assert(phase == rest.take(p as int));
        let w = rest.skip(p as int + 1);
        assert(id =~= id.take(head.len() as int) + rest);
        assert(id =~= (head + phase + mid) + w);
        if phase.contains('/') {
            let j = choose|j: int| 0 <= j < phase.len() && phase[j] == '/';
            assert(rest[j] == '/');
        }
    }
    if phase.len() > 0 && !phase.contains('/') && exists|w: Seq<char>|
        id == #[trigger] ((head + phase + mid) + w) {
        let w = choose|w: Seq<char>| id == #[trigger] ((head + phase + mid) + w);
        assert(id.take(head.len() as int) =~= head);
        let rest = id.skip(head.len() as int);
        assert(rest =~= phase + mid + w);
        assert forall|j: int| 0 <= j < phase.len() implies rest[j] != '/' by {
            assert(rest[j] == phase[j]);
            assert(phase.contains(phase[j]));
        }
        assert(rest[phase.len() as int] == mid[0]);
        lemma_char_pos_is(rest, '/', phase.len());
        assert(rest.take(phase.len() as int) =~= phase);
    }
}

/// The signal of a worker that a change reaches.
pub open spec fn is_worker_signal(s: SignalView, workspace_key: Seq<char>, n: Node) -> bool {
    &&& is_worker_of(n, s.phase)
    &&& s.workspace_key == workspace_key
    &&& s.reason == "change touches worker "@ + n.id.0@ + " (phase spec "@ + n.source_file@ + ")"@
    &&& s.nodes == seq![n.id.0@, "phase:"@ + s.phase]
}

/// The signal of a phase node that changed.
pub open spec fn is_phase_signal(s: SignalView, workspace_key: Seq<char>, n: Node) -> bool {
    &&& is_node_of(n, s.phase)
    &&& s.workspace_key == workspace_key
    &&& s.reason == "phase node "@ + n.id.0@ + " changed"@
    &&& s.nodes == seq![n.id.0@]
}

proof fn lemma_worker_signal(nodes: Seq<Node>, seeds: Seq<NodeId>, ws: Seq<char>, n: Node)
    ensures
        match worker_signal(nodes, seeds, ws, n) {
            Some(s) => is_reached(nodes, seeds, n) && is_worker_signal(s, ws, n) && forall|
                p: Seq<char>,
            | #[trigger]
                is_worker_of(n, p) ==> p == s.phase,
            None => !is_reached(nodes, seeds, n) || forall|p: Seq<char>|
                !#[trigger] is_worker_of(n, p),
        },
{
    lemma_touched_is_reached(nodes, seeds, n);
    assert forall|p: Seq<char>| #[trigger] is_worker_of(n, p) <==> n.kind@ == "worker"@
        && worker_id_phase(n.id.0@) == Some(p) by {
        law_worker_ids(n.id.0@, p);
    }
    if let Some(s) = worker_signal(nodes, seeds, ws, n) {
        assert(is_worker_of(n, s.phase));
    }
}

proof fn lemma_phase_signal(seeds: Seq<NodeId>, ws: Seq<char>, n: Node)
    ensures
        match phase_signal(seeds, ws, n) {
            Some(s) => is_seed(seeds, n.id.0@) && is_phase_signal(s, ws, n) && forall|
                p: Seq<char>,
            | #[trigger]
                is_node_of(n, p) ==> p == s.phase,
            None => !is_seed(seeds, n.id.0@) || forall|p: Seq<char>|
                !#[trigger] is_node_of(n, p),
        },
{
    lemma_is_seed(seeds, n.id.0@);
    let head = "phase:"@;
    let id = n.id.0@;
    assert forall|p: Seq<char>| #[trigger] is_node_of(n, p) <==> n.kind@ == "phase"@
        && strip_prefix(id, head) == Some(p) by {
        if strip_prefix(id, head) == Some(p) {
            assert(id =~= head + p);
        }
        if id == head + p {
            assert(id.take(head.len() as int) =~= head);
            assert(id.skip(head.len() as int) =~= p);
        }
    }
    if let Some(s) = phase_signal(seeds, ws, n) {
        assert(is_node_of(n, s.phase));
    }
}

/// A phase is signalled just where a change reaches a worker of it, by the worker's id, by
/// the name of its source file or by another node of that file, or where the node of the
/// phase itself is a seed.
pub proof fn law_a_phase_is_signalled(
    nodes: Seq<Node>,
    seeds: Seq<NodeId>,
    workspace_key: Seq<char>,
    phase: Seq<char>,
)
    ensures
        (exists|a: int|
            0 <= a < retest_signals(nodes, seeds, workspace_key).len() && (
            #[trigger] retest_signals(nodes, seeds, workspace_key)[a]).phase == phase)
            <==> exists|i: int|
            0 <= i < nodes.len() && (is_worker_of(#[trigger] nodes[i], phase) && is_reached(
                nodes,
                seeds,
                nodes[i],
            ) || is_node_of(nodes[i], phase) && is_seed(seeds, nodes[i].id.0@)),
{
    let out = retest_signals(nodes, seeds, workspace_key);
    law_signalled_phases(nodes, seeds, workspace_key, phase);
    if has_phase(out, phase) {
        let i = choose|i: int|
            0 <= i < nodes.len() && asks_for(
                nodes,
                seeds,
                workspace_key,
                #[trigger] nodes[i],
                phase,
            );
        lemma_worker_signal(nodes, seeds, workspace_key, nodes[i]);
        lemma_phase_signal(seeds, workspace_key, nodes[i]);
        assert(is_worker_of(nodes[i], phase) || is_node_of(nodes[i], phase));
    }
    if exists|i: int|
        0 <= i < nodes.len() && (is_worker_of(#[trigger] nodes[i], phase) && is_reached(
            nodes,
            seeds,
            nodes[i],
        ) || is_node_of(nodes[i], phase) && is_seed(seeds, nodes[i].id.0@)) {
        let i = choose|i: int|
            0 <= i < nodes.len() && (is_worker_of(#[trigger] nodes[i], phase) && is_reached(
                nodes,
                seeds,
                nodes[i],
            ) || is_node_of(nodes[i], phase) && is_seed(seeds, nodes[i].id.0@));
        lemma_worker_signal(nodes, seeds, workspace_key, nodes[i]);
        lemma_phase_signal(seeds, workspace_key, nodes[i]);
        assert(asks_for(nodes, seeds, workspace_key, nodes[i], phase));
        assert(has_phase(out, phase));
    }
}

/// A changed file retests its workers: where the id of a seed is the source file of a
/// worker, or a seed is a node with that source file, the phase of the worker is
/// signalled.
pub proof fn law_a_changed_file_retests_its_workers(
    nodes: Seq<Node>,
    seeds: Seq<NodeId>,
    workspace_key: Seq<char>,
    i: int,
    phase: Seq<char>,
    worker: Seq<char>,
    j: int,
)
    requires
        0 <= i < nodes.len(),
        nodes[i].kind@ == "worker"@,
        nodes[i].id.0@ == ("worker:"@ + phase + "/"@) + worker,
        phase.len() > 0,
        !phase.contains('/'),
        nodes[i].source_file@.len() > 0,
        0 <= j < seeds.len(),
        seeds[j].0@ == nodes[i].source_file@ || exists|m: int|
            0 <= m < nodes.len() && (#[trigger] nodes[m]).id.0@ == seeds[j].0@
                && nodes[m].source_file@ == nodes[i].source_file@,
    ensures
        exists|a: int|
            0 <= a < retest_signals(nodes, seeds, workspace_key).len() && (
            #[trigger] retest_signals(nodes, seeds, workspace_key)[a]).phase == phase,
{
    assert(is_worker_of(nodes[i], phase));
    assert(is_reached(nodes, seeds, nodes[i])) by {
        if seeds[j].0@ != nodes[i].source_file@ {
            let m = choose|m: int|
                0 <= m < nodes.len() && (#[trigger] nodes[m]).id.0@ == seeds[j].0@
                    && nodes[m].source_file@ == nodes[i].source_file@;
            assert(is_seed(seeds, nodes[m].id.0@));
        }
    }
    law_a_phase_is_signalled(nodes, seeds, workspace_key, phase);
}

/// Whether signals stand for nodes: the first `w` for workers, the others for phase nodes,
/// each part in the order of the nodes, and each signal for the first node that can give
/// it, the workers before the phase nodes.
pub open spec fn stand_for(
    out: Seq<SignalView>,
    at: Seq<int>,
    w: int,
    nodes: Seq<Node>,
    seeds: Seq<NodeId>,
    workspace_key: Seq<char>,
) -> bool {
    &&& at.len() == out.len()
    &&& 0 <= w <= out.len()
    &&& forall|a: int|
        0 <= a < w ==> {
            &&& 0 <= #[trigger] at[a] < nodes.len()
            &&& is_reached(nodes, seeds, nodes[at[a]])
            &&& is_worker_signal(out[a], workspace_key, nodes[at[a]])
            &&& forall|j: int|
                0 <= j < at[a] && is_reached(nodes, seeds, #[trigger] nodes[j])
                    ==> !is_worker_of(nodes[j], out[a].phase)
        }
    &&& forall|a: int|
        w <= a < out.len() ==> {
            &&& 0 <= #[trigger] at[a] < nodes.len()
            &&& is_seed(seeds, nodes[at[a]].id.0@)
            &&& is_phase_signal(out[a], workspace_key, nodes[at[a]])
        }
    &&& forall|a: int, b: int| 0 <= a < b < w ==> #[trigger] at[a] < #[trigger] at[b]
    &&& forall|a: int, b: int| w <= a < b < out.len() ==> #[trigger] at[a] < #[trigger] at[b]
}

proof fn lemma_worker_places(nodes: Seq<Node>, seeds: Seq<NodeId>, ws: Seq<char>, k: int) -> (at:
    Seq<int>)
    requires
        0 <= k <= nodes.len(),
    ensures
        ({
            let out = worker_signals(nodes, seeds, ws, k);
            &&& stand_for(out, at, out.len() as int, nodes, seeds, ws)
            &&& forall|a: int| 0 <= a < out.len() ==> #[trigger] at[a] < k
            &&& forall|j: int, p: Seq<char>|
                #![trigger is_worker_of(nodes[j], p)]
                0 <= j < k && is_reached(nodes, seeds, nodes[j]) && is_worker_of(nodes[j], p)
                    ==> has_phase(out, p)
        }),
    decreases k,
{
    let out = worker_signals(nodes, seeds, ws, k);
    if k <= 0 {
        Seq::empty()
    } else {
        let prev = worker_signals(nodes, seeds, ws, k - 1);
        let at0 = lemma_worker_places(nodes, seeds, ws, k - 1);
        let n = nodes[k - 1];
        lemma_worker_signal(nodes, seeds, ws, n);
        lemma_add_once(prev, worker_signal(nodes, seeds, ws, n));
        let at = if out.len() > prev.len() {
            at0.push(k - 1)
        } else {
            at0
        };
        assert forall|j: int, p: Seq<char>|
            #![trigger is_worker_of(nodes[j], p)]
            0 <= j < k && is_reached(nodes, seeds, nodes[j]) && is_worker_of(
                nodes[j],
                p,
            ) implies has_phase(out, p) by {
            if j < k - 1 {
                assert(has_phase(prev, p));
            }
        }
        assert forall|a: int| 0 <= a < out.len() implies {
            &&& 0 <= #[trigger] at[a] < nodes.len()
            &&& at[a] < k
            &&& is_reached(nodes, seeds, nodes[at[a]])
            &&& is_worker_signal(out[a], ws, nodes[at[a]])
            &&& forall|j: int|
                0 <= j < at[a] && is_reached(nodes, seeds, #[trigger] nodes[j]) ==> !is_worker_of(
                    nodes[j],
                    out[a].phase,
                )
        } by {
            if a < prev.len() {
                assert(at[a] == at0[a]);
                assert(out[a] == prev[a]);
            } else {
                assert(!has_phase(prev, out[a].phase));
            }
        }
        assert forall|a: int, b: int| 0 <= a < b < out.len() implies #[trigger] at[a]
            < #[trigger] at[b] by {
            assert(at0[a] == at[a]);
            if b < prev.len() {
                assert(at0[b] == at[b]);
            }
        }
        at
    }
}

proof fn lemma_signal_places(nodes: Seq<Node>, seeds: Seq<NodeId>, ws: Seq<char>, k: int) -> (r: (
    Seq<int>,
    int,
))
    requires
        0 <= k <= nodes.len(),
    ensures
        ({
            let out = signals_upto(nodes, seeds, ws, k);
            &&& stand_for(out, r.0, r.1, nodes, seeds, ws)
            &&& forall|a: int| r.1 <= a < out.len() ==> #[trigger] r.0[a] < k
        }),
    decreases k,
{
    let out = signals_upto(nodes, seeds, ws, k);
    if k <= 0 {
        let at = lemma_worker_places(nodes, seeds, ws, nodes.len() as int);
        (at, out.len() as int)
    } else {
        let prev = signals_upto(nodes, seeds, ws, k - 1);
        let (at0, w) = lemma_signal_places(nodes, seeds, ws, k - 1);
        lemma_phase_signal(seeds, ws, nodes[k - 1]);
        let at = if out.len() > prev.len() {
            at0.push(k - 1)
        } else {
            at0
        };
        assert forall|a: int| 0 <= a < prev.len() implies #[trigger] at[a] == at0[a] && out[a]
            == prev[a] by {}
        assert forall|a: int, b: int| w <= a < b < out.len() implies #[trigger] at[a]
            < #[trigger] at[b] by {
            assert(at0[a] == at[a]);
            if b < prev.len() {
                assert(at0[b] == at[b]);
            }
        }
        (at, w)
    }
}

/// Every signal says which workspace, which phase, and why: for the first worker of the
/// phase that the change reaches, else for the node of the phase itself. The signals of
/// workers come first, then those of phases, each in the order of the nodes.
pub proof fn law_signals_stand_for_nodes(
    nodes: Seq<Node>,
    seeds: Seq<NodeId>,
    workspace_key: Seq<char>,
) -> (r: (Seq<int>, int))
    ensures
        stand_for(
            retest_signals(nodes, seeds, workspace_key),
            r.0,
            r.1,
            nodes,
            seeds,
            workspace_key,
        ),
        forall|j: int, a: int|
            #![trigger nodes[j], retest_signals(nodes, seeds, workspace_key)[a]]
            0 <= j < nodes.len() && r.1 <= a < retest_signals(nodes, seeds, workspace_key).len()
                && is_reached(nodes, seeds, nodes[j]) ==> !is_worker_of(
                nodes[j],
                retest_signals(nodes, seeds, workspace_key)[a].phase,
            ),
{
    let (at, w) = lemma_signal_places(nodes, seeds, workspace_key, nodes.len() as int);
    let out = retest_signals(nodes, seeds, workspace_key);
    let workers = worker_signals(nodes, seeds, workspace_key, nodes.len() as int);
    lemma_workers_first(nodes, seeds, workspace_key, nodes.len() as int);
    law_one_signal_per_phase(nodes, seeds, workspace_key);
    let ignored = lemma_worker_places(nodes, seeds, workspace_key, nodes.len() as int);
    assert forall|j: int, a: int|
        #![trigger nodes[j], out[a]]
        0 <= j < nodes.len() && w <= a < out.len() && is_reached(
            nodes,
            seeds,
            nodes[j],
        ) implies !is_worker_of(nodes[j], out[a].phase) by {
        if is_worker_of(nodes[j], out[a].phase) {
            assert(has_phase(workers, out[a].phase));
            let b = choose|b: int|
                0 <= b < workers.len() && (#[trigger] workers[b]).phase == out[a].phase;
            assert(out[b] == workers[b]);
            assert(b == a);
            assert(is_worker_signal(workers[b], workspace_key, nodes[ignored[b]]));
            assert(is_phase_signal(out[a], workspace_key, nodes[at[a]]));
            reveal_strlit("change touches worker ");
            reveal_strlit("phase node ");
            let x = out[a].reason;
            assert(x[0] == 'c');
            assert(x[0] == 'p');
        }
    }
    (at, w)
}

proof fn lemma_workers_first(nodes: Seq<Node>, seeds: Seq<NodeId>, ws: Seq<char>, k: int)
    ensures
        ({
            let workers = worker_signals(nodes, seeds, ws, nodes.len() as int);
            let out = signals_upto(nodes, seeds, ws, k);
            workers.len() <= out.len() && forall|b: int|
                0 <= b < workers.len() ==> out[b] == #[trigger] workers[b]
        }),
    decreases k,
{
    if k > 0 {
        lemma_workers_first(nodes, seeds, ws, k - 1);
    }
}

}
