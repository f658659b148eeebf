use vstd::prelude::*;

pub mod consistent_broadcast;
pub mod dag_utils;

use crate::bullshark::consistent_broadcast::{BCBMessage, BCBOutput, ByzantineConsistentBroadcast};
use crate::bullshark::dag_utils::{
    copy_vertex, elapsed, own_latencies, same_vertex, RoundBasedDAG, Vertex, VertexId, VertexMessage,
    VertexType, VertexView,
};
use crate::client::{create_cmd_for_key, CmdId, Command, Pid};
use crate::cmd_map::CmdMap;

verus! {

/// A client command submitted to every process.
pub enum BullsharkMessage {
    Submit(Command),
}

/// Whether `message` submits a command.
pub fn is_command_submission(message: &BullsharkMessage) -> (b: bool)
    ensures
        b == (message is Submit),
{
    match message {
        BullsharkMessage::Submit(_) => true,
    }
}

/// What a Bullshark process asks of its environment.
pub enum BullsharkAction {
    /// Send the message to every process.
    Broadcast(BCBMessage),
    /// Send the message to one process.
    Send(Pid, BCBMessage),
    /// Arm the round timer and hand its identity to `round_timer_armed`.
    StartRoundTimer,
    /// Record the latency of an ordered vertex.
    RecordLatency(usize),
    /// Send the submitted command to every process.
    BroadcastSubmit(Command),
    /// Arm the submit timer after the delay and hand its identity to
    /// `submit_timer_armed`.
    StartSubmitTimer(usize),
}

/// The delay of the round timer.
pub const ROUND_TIMEOUT: usize = 10_000;

/// The shape of a vertex among `proc_num` processes: its source has a slot, and its
/// strong edges go to slots of the round before.
pub open spec fn vertex_ok(v: VertexView, proc_num: nat) -> bool {
    &&& v.source <= proc_num
    &&& forall|e: VertexId| #[trigger] v.edges.contains(e) ==> e.0 + 1 == v.round && e.1 <= proc_num
}

/// The number of the first `n` slots of `round` that hold a vertex.
pub open spec fn held_count(d: RoundBasedDAG, round: usize, n: nat) -> nat
    decreases n,
{
    if n == 0 {
        0
    } else {
        held_count(d, round, (n - 1) as nat) + if d.holds((round, (n - 1) as usize)) { 1nat } else { 0nat }
    }
}

/// The identities held in the first `n` slots of `round`, by slot.
pub open spec fn held_ids(d: RoundBasedDAG, round: usize, n: nat) -> Seq<VertexId>
    decreases n,
{
    if n == 0 {
        Seq::empty()
    } else {
        let rest = held_ids(d, round, (n - 1) as nat);
        if d.holds((round, (n - 1) as usize)) {
            rest.push((round, (n - 1) as usize))
        } else {
            rest
        }
    }
}

/// The votes for the vertex `anchor` among the vertices at `edges`: those held whose
/// strong edges include it.
pub open spec fn votes(d: RoundBasedDAG, edges: Seq<VertexId>, anchor: VertexId) -> nat
    decreases edges.len(),
{
    if edges.len() == 0 {
        0
    } else {
        votes(d, edges.drop_last(), anchor) + if d.holds(edges.last()) && d.vertex(edges.last()).edges.contains(anchor) {
            1nat
        } else {
            0nat
        }
    }
}

/// The votes among `edges` are the same in two DAGs that agree on the vertices at
/// `edges`.
pub proof fn lemma_votes_agree(d1: RoundBasedDAG, d2: RoundBasedDAG, edges: Seq<VertexId>, anchor: VertexId)
    requires
        forall|e: VertexId| #[trigger] edges.contains(e) ==> d1.holds(e) == d2.holds(e)
            && (d1.holds(e) ==> d1.vertex(e) == d2.vertex(e)),
    ensures
        votes(d1, edges, anchor) == votes(d2, edges, anchor),
    decreases edges.len(),
{
    if edges.len() > 0 {
        assert(edges.contains(edges.last()));
        assert forall|e: VertexId| #[trigger] edges.drop_last().contains(e) implies edges.contains(e) by {
            let k = choose|k: int| 0 <= k < edges.drop_last().len() && edges.drop_last()[k] == e;
            assert(edges[k] == e);
        }
        lemma_votes_agree(d1, d2, edges.drop_last(), anchor);
    }
}

/// The number of the first `n` slots of `round` that hold a vertex with a strong
/// edge to `anchor`.
pub open spec fn supporters(d: RoundBasedDAG, round: usize, anchor: VertexId, n: nat) -> nat
    decreases n,
{
    if n == 0 {
        0
    } else {
        supporters(d, round, anchor, (n - 1) as nat) + if d.holds((round, (n - 1) as usize))
            && d.vertex((round, (n - 1) as usize)).edges.contains(anchor) { 1nat } else { 0nat }
    }
}

/// The last round allocated in `d` (0 when none is).
pub open spec fn max_allocated(d: RoundBasedDAG) -> nat {
    if d.offset() + d.rows() == 0 { 0 } else { (d.offset() + d.rows() - 1) as nat }
}

/// Whether the vertex `v` goes into the DAG `d`: it is of a round after the first
/// kept, the round before it is allocated, and each of its strong edges leads to a
/// vertex of `d` (rounds too close to the largest integer are not taken).
pub open spec fn admissible(d: RoundBasedDAG, v: VertexView) -> bool {
    &&& v.round > d.offset()
    &&& v.round - 1 <= max_allocated(d)
    &&& v.round + 3 <= usize::MAX
    &&& forall|e: VertexId| #[trigger] v.edges.contains(e) ==> d.holds(e)
}

/// Each of the first `k` vertices of `buf` that `base` admits is held by `d`, unless
/// `d` has collected its round.
pub open spec fn admitted_below(buf: Seq<VertexView>, base: RoundBasedDAG, d: RoundBasedDAG, k: int) -> bool {
    forall|j: int| 0 <= j < k && j < buf.len() && admissible(base, #[trigger] buf[j])
        ==> d.holds((buf[j].round, buf[j].source)) || buf[j].round <= d.offset()
}

/// Each vertex of `buf` that `base` admits is held by `d`, unless `d` has collected
/// its round.
pub open spec fn admitted_all(buf: Seq<VertexView>, base: RoundBasedDAG, d: RoundBasedDAG) -> bool {
    admitted_below(buf, base, d, buf.len() as int)
}

/// Each strong edge of `v` leads to a vertex that `d` holds or to a vertex of `buf`
/// that `d` admits.
pub open spec fn edges_held_or_admitted(d: RoundBasedDAG, buf: Seq<VertexView>, v: VertexView) -> bool {
    forall|e: VertexId| #[trigger] v.edges.contains(e) ==> d.holds(e)
        || exists|j: int| 0 <= j < buf.len() && admissible(d, #[trigger] buf[j]) && (buf[j].round, buf[j].source) == e
}

/// A vertex that a DAG admits stays admitted as the DAG grows (see
/// `Bullshark::dag_kept`), unless its round gets collected.
pub proof fn lemma_admissible_kept(pre: RoundBasedDAG, post: RoundBasedDAG, v: VertexView, procs: nat)
    requires
        Bullshark::dag_kept(pre, post),
        vertex_ok(v, procs),
        admissible(pre, v),
    ensures
        admissible(post, v) || v.round <= post.offset(),
{
    if v.round > post.offset() {
        assert forall|e: VertexId| #[trigger] v.edges.contains(e) implies post.holds(e) by {
            assert(pre.holds(e));
            assert(e.0 + 1 == v.round);
        }
    }
}

/// What a DAG holds stays held as it grows (see `Bullshark::dag_kept`), unless its
/// round gets collected.
pub proof fn lemma_admitted_below_kept(buf: Seq<VertexView>, base: RoundBasedDAG, d1: RoundBasedDAG,
    d2: RoundBasedDAG, k: int)
    requires
        admitted_below(buf, base, d1, k),
        Bullshark::dag_kept(d1, d2),
    ensures
        admitted_below(buf, base, d2, k),
{
    assert forall|j: int| 0 <= j < k && j < buf.len() && admissible(base, #[trigger] buf[j])
        implies d2.holds((buf[j].round, buf[j].source)) || buf[j].round <= d2.offset() by {
        if d1.holds((buf[j].round, buf[j].source)) {
        }
    }
}

/// Whether `ids` holds `id`.
pub fn contains_vertex_id(ids: &Vec<VertexId>, id: VertexId) -> (b: bool)
    ensures
        b == ids@.contains(id),
{
    let mut i: usize = 0;
    while i < ids.len()
        invariant
            i <= ids@.len(),
            forall|j: int| 0 <= j < i ==> ids@[j] != id,
        decreases ids@.len() - i,
    {
        if ids[i].0 == id.0 && ids[i].1 == id.1 {
            assert(ids@[i as int] == id);
            return true;
        }
        i = i + 1;
    }
    false
}

/// `b` begins with `a`.
pub open spec fn extends<T>(b: Seq<T>, a: Seq<T>) -> bool {
    b.len() >= a.len() && b.subrange(0, a.len() as int) == a
}

/// A sequence beginning with one that begins with `a` begins with `a`.
pub proof fn lemma_extends_trans<T>(a: Seq<T>, b: Seq<T>, c: Seq<T>)
    requires
        extends(b, a),
        extends(c, b),
    ensures
        extends(c, a),
{
    assert(c.subrange(0, a.len() as int) =~= b.subrange(0, a.len() as int)) by {
        assert forall|k: int| 0 <= k < a.len() implies c.subrange(0, a.len() as int)[k] == b.subrange(0, a.len() as int)[k] by {
            assert(c.subrange(0, b.len() as int)[k] == b[k]);
        }
    }
}

/// `post` is `pre` once ordering from the vertex `v` (see `RoundBasedDAG::order_from`)
/// has marked what it orders, and `lats` are the latencies that this ordering reports
/// at `now` on process `pid`.
pub open spec fn ordering_step(
    pre: RoundBasedDAG,
    v: VertexView,
    post: RoundBasedDAG,
    lats: Seq<usize>,
    pid: Pid,
    now: usize,
) -> bool {
    &&& post.width() == pre.width()
    &&& post.offset() == pre.offset()
    &&& post.rows() == pre.rows()
    &&& forall|id: VertexId| #[trigger] post.holds(id) == pre.holds(id)
    &&& forall|id: VertexId| pre.holds(id) ==> #[trigger] post.vertex(id) == pre.vertex(id)
    &&& forall|id: VertexId| #[trigger] post.is_ordered(id) == (pre.is_ordered(id)
        || pre.ordering_from(v.edges).contains(id))
    &&& exists|newly: Seq<VertexId>| {
        &&& newly.no_duplicates()
        &&& newly.to_set() == pre.ordering_from(v.edges)
        &&& lats == own_latencies(newly, pid, elapsed(v.creation_time, now))
    }
}

/// Ordering from each of `anchors` in turn leads through the DAGs `dags`, from
/// `dags[0]` to the last, the ordering from `anchors[k]` reporting `lats[k]`.
pub open spec fn ordering_chain(
    anchors: Seq<VertexView>,
    dags: Seq<RoundBasedDAG>,
    lats: Seq<Seq<usize>>,
    pid: Pid,
    now: usize,
) -> bool {
    &&& dags.len() == anchors.len() + 1
    &&& lats.len() == anchors.len()
    &&& forall|k: int| #![trigger anchors[k]] 0 <= k < anchors.len() ==> ordering_step(dags[k], anchors[k], dags[k + 1], lats[k], pid, now)
}

/// The actions that record the latencies `lats`, in order.
pub open spec fn latency_actions(lats: Seq<Seq<usize>>) -> Seq<BullsharkAction>
    decreases lats.len(),
{
    if lats.len() == 0 {
        Seq::empty()
    } else {
        latency_actions(lats.drop_last()) + lats.last().map_values(|l: usize| BullsharkAction::RecordLatency(l))
    }
}

/// The identity of the leader vertex of `round` among `procs` processes.
pub open spec fn leader_id(round: int, procs: nat) -> VertexId {
    (round as usize, leader(round as nat, procs) as usize)
}

/// `from` reaches the vertex `to` in `d`: it is `to`, or a path leaves the edges of
/// `from`, follows live edges no lower than the round of `to` through vertices that
/// `d` holds (see `RoundBasedDAG::search_path`), never comes back to `from`, and ends
/// at `to`.
pub open spec fn reaches(d: RoundBasedDAG, from: VertexView, to: VertexId) -> bool {
    ||| (from.round, from.source) == to
    ||| exists|p: Seq<VertexId>| #[trigger] d.search_path(from.edges, p, to.0 as int)
        && (forall|k: int| 0 <= k < p.len() ==> p[k] != (from.round, from.source)) && p.last() == to
}

/// No leader vertex of an even round strictly between `lo` and `hi` that `d` holds is
/// reached from `from`.
pub open spec fn skips_between(d: RoundBasedDAG, from: VertexView, lo: int, hi: int, procs: nat) -> bool {
    forall|r: int| lo < r < hi && r % 2 == 0 ==> !(#[trigger] d.holds(leader_id(r, procs)) && reaches(d, from, leader_id(r, procs)))
}

/// The anchors that ordering from `anchor` orders, oldest first: leader vertices that
/// `d` holds, of even rounds after `last_ordered` and ascending, ending with `anchor`.
/// Going back from `anchor`, each anchor is the leader vertex of the latest even round
/// before the next anchor that `d` holds and that the next anchor reaches (see
/// `reaches`); no such vertex remains after `last_ordered` before the first anchor.
pub open spec fn anchor_sequence(
    d: RoundBasedDAG,
    anchors: Seq<VertexView>,
    anchor: VertexView,
    last_ordered: nat,
    procs: nat,
) -> bool {
    &&& anchors.len() >= 1
    &&& anchors.last() == anchor
    &&& forall|k: int| #![trigger anchors[k]] 0 <= k < anchors.len() ==> {
        &&& d.holds((anchors[k].round, anchors[k].source))
        &&& d.vertex((anchors[k].round, anchors[k].source)) == anchors[k]
        &&& anchors[k].source == leader(anchors[k].round as nat, procs)
        &&& anchors[k].round % 2 == 0
        &&& k + 1 < anchors.len() ==> last_ordered < anchors[k].round < anchors[k + 1].round
        &&& k + 1 < anchors.len() ==> reaches(d, anchors[k + 1], (anchors[k].round, anchors[k].source))
        &&& k + 1 < anchors.len() ==> skips_between(d, anchors[k + 1], anchors[k].round as int, anchors[k + 1].round as int, procs)
    }
    &&& skips_between(d, anchors[0], last_ordered as int, anchors[0].round as int, procs)
}

/// Two anchor sequences from the same anchor agree on their last `i + 1` anchors.
#[verifier::spinoff_prover]
#[verifier::rlimit(50)]
proof fn lemma_anchor_sequence_suffix(d: RoundBasedDAG, s1: Seq<VertexView>, s2: Seq<VertexView>,
    anchor: VertexView, last_ordered: nat, procs: nat, i: int)
    requires
        anchor_sequence(d, s1, anchor, last_ordered, procs),
        anchor_sequence(d, s2, anchor, last_ordered, procs),
        0 <= i < s1.len(),
        i < s2.len(),
    ensures
        forall|j: int| 0 <= j <= i ==> #[trigger] s1[s1.len() - 1 - j] == s2[s2.len() - 1 - j],
    decreases i,
{
    if i > 0 {
        lemma_anchor_sequence_suffix(d, s1, s2, anchor, last_ordered, procs, i - 1);
        let k1 = s1.len() - 1 - i;
        let k2 = s2.len() - 1 - i;
        let p = s1[k1];
        let q = s2[k2];
        let x = s1[k1 + 1];
        assert(s1[s1.len() - 1 - (i - 1)] == s2[s2.len() - 1 - (i - 1)]);
        assert(x == s2[k2 + 1]);
        assert(leader_id(p.round as int, procs) == (p.round, p.source));
        assert(leader_id(q.round as int, procs) == (q.round, q.source));
        if p.round < q.round {
            assert(skips_between(d, x, p.round as int, x.round as int, procs));
            assert(d.holds(leader_id(q.round as int, procs)));
            assert(false);
        }
        if q.round < p.round {
            assert(skips_between(d, x, q.round as int, x.round as int, procs));
            assert(d.holds(leader_id(p.round as int, procs)));
            assert(false);
        }
        assert(p == q);
    }
}

/// Ordering from an anchor is determined by the DAG: the anchors that lead back from
/// `anchor` to the last ordered round (see `anchor_sequence`) are the same whichever
/// way they are found.
#[verifier::spinoff_prover]
#[verifier::rlimit(50)]
pub proof fn lemma_anchor_sequence_unique(d: RoundBasedDAG, s1: Seq<VertexView>, s2: Seq<VertexView>,
    anchor: VertexView, last_ordered: nat, procs: nat)
    requires
        anchor_sequence(d, s1, anchor, last_ordered, procs),
        anchor_sequence(d, s2, anchor, last_ordered, procs),
    ensures
        s1 == s2,
{
    let n1 = s1.len() as int;
    let n2 = s2.len() as int;
    if n1 < n2 {
        lemma_anchor_sequence_suffix(d, s1, s2, anchor, last_ordered, procs, n1 - 1);
        let x = s1[0];
        assert(s1[n1 - 1 - (n1 - 1)] == s2[n2 - 1 - (n1 - 1)]);
        let q = s2[n2 - n1 - 1];
        assert(s2[n2 - n1] == x);
        assert(leader_id(q.round as int, procs) == (q.round, q.source));
        assert(d.holds(leader_id(q.round as int, procs)));
        assert(false);
    }
    if n2 < n1 {
        lemma_anchor_sequence_suffix(d, s2, s1, anchor, last_ordered, procs, n2 - 1);
        let x = s2[0];
        assert(s2[n2 - 1 - (n2 - 1)] == s1[n1 - 1 - (n2 - 1)]);
        let q = s1[n1 - n2 - 1];
        assert(s1[n1 - n2] == x);
        assert(leader_id(q.round as int, procs) == (q.round, q.source));
        assert(d.holds(leader_id(q.round as int, procs)));
        assert(false);
    }
    lemma_anchor_sequence_suffix(d, s1, s2, anchor, last_ordered, procs, n1 - 1);
    assert forall|j: int| 0 <= j < n1 implies s1[j] == s2[j] by {
        assert(s1[n1 - 1 - (n1 - 1 - j)] == s2[n2 - 1 - (n1 - 1 - j)]);
    }
    assert(s1 =~= s2);
}

/// Two DAGs of the same content have the same paths.
pub proof fn lemma_search_path_same_content(d1: RoundBasedDAG, d2: RoundBasedDAG, start: Seq<VertexId>,
    p: Seq<VertexId>, floor: int)
    requires
        d1.same_content(&d2),
    ensures
        d1.search_path(start, p, floor) == d2.search_path(start, p, floor),
{
    if d2.search_path(start, p, floor) {
        assert forall|k: int| 0 <= k < p.len() - 1 implies d1.holds(#[trigger] p[k]) && d1.vertex(p[k]).edges.contains(p[k + 1]) by {
            assert(d2.holds(p[k]));
        }
    }
    if d1.search_path(start, p, floor) {
        assert forall|k: int| 0 <= k < p.len() - 1 implies d2.holds(#[trigger] p[k]) && d2.vertex(p[k]).edges.contains(p[k + 1]) by {
            assert(d1.holds(p[k]));
        }
    }
}

/// Two DAGs of the same content reach alike.
pub proof fn lemma_reaches_same_content(d1: RoundBasedDAG, d2: RoundBasedDAG, from: VertexView, to: VertexId)
    requires
        d1.same_content(&d2),
    ensures
        reaches(d1, from, to) == reaches(d2, from, to),
{
    let fid = (from.round, from.source);
    if fid != to && reaches(d2, from, to) {
        let p = choose|p: Seq<VertexId>| #[trigger] d2.search_path(from.edges, p, to.0 as int)
            && (forall|k: int| 0 <= k < p.len() ==> p[k] != fid) && p.last() == to;
        lemma_search_path_same_content(d1, d2, from.edges, p, to.0 as int);
    }
    if fid != to && reaches(d1, from, to) {
        let p = choose|p: Seq<VertexId>| #[trigger] d1.search_path(from.edges, p, to.0 as int)
            && (forall|k: int| 0 <= k < p.len() ==> p[k] != fid) && p.last() == to;
        lemma_search_path_same_content(d1, d2, from.edges, p, to.0 as int);
    }
}

/// The anchor that a leader vertex of `round` votes on among `procs` processes: the
/// leader vertex two rounds back.
pub open spec fn voted_anchor(round: usize, procs: nat) -> VertexId {
    ((round - 2) as usize, leader((round - 2) as nat, procs) as usize)
}

/// The vertex `v` of an even round commits the anchor it votes on in `d`: `d` holds
/// that anchor and more than a third of `procs` vertices at the edges of `v` vote for
/// it.
pub open spec fn commits_anchor(d: RoundBasedDAG, v: VertexView, procs: nat) -> bool {
    &&& v.round % 2 == 0
    &&& v.round >= 2
    &&& d.holds(voted_anchor(v.round, procs))
    &&& votes(d, v.edges, voted_anchor(v.round, procs)) >= (procs - 1) / 3 + 1
}

/// `post` is `pre` with the vertex `v` added in its slot.
pub open spec fn with_vertex(pre: RoundBasedDAG, v: VertexView, post: RoundBasedDAG) -> bool {
    &&& post.offset() == pre.offset()
    &&& post.width() == pre.width()
    &&& post.rows() == if pre.offset() + pre.rows() <= v.round { (v.round + 1 - pre.offset()) as nat } else { pre.rows() }
    &&& forall|id: VertexId| #[trigger] post.holds(id) == (pre.holds(id) || id == (v.round, v.source))
    &&& post.vertex((v.round, v.source)) == v
    &&& forall|id: VertexId| pre.holds(id) && id != (v.round, v.source) ==> #[trigger] post.vertex(id) == pre.vertex(id)
    &&& forall|id: VertexId| #[trigger] post.is_ordered(id) == pre.is_ordered(id)
}

/// The DAG once the delivered vertex `v` has been tried on `pre`: `v` is added in its
/// slot when its round is kept and it is admissible; otherwise the DAG is unchanged.
pub open spec fn taken_dag(pre: RoundBasedDAG, v: VertexView, post: RoundBasedDAG) -> bool {
    if v.round > pre.offset() && admissible(pre, v) {
        with_vertex(pre, v, post)
    } else {
        post == pre
    }
}

/// `d` keeps `round`, holds a quorum of its vertices among `procs` processes, and
/// the round is not too close to the largest integer.
pub open spec fn quorum_known(d: RoundBasedDAG, round: nat, procs: nat) -> bool {
    &&& round + 4 <= usize::MAX
    &&& d.offset() <= round < d.offset() + d.rows()
    &&& held_count(d, round as usize, d.width()) >= 2 * ((procs - 1) / 3) + 1
}

/// What lets a waiting process leave `round`: in an even round, the round's anchor is
/// known; in an odd round, the previous anchor is known and a quorum of the round's
/// vertices have a strong edge to it.
pub open spec fn anchor_ready(d: RoundBasedDAG, round: nat, procs: nat) -> bool {
    if round % 4 == 0 || round % 4 == 2 {
        d.holds((round as usize, leader(round, procs) as usize))
    } else {
        let prev = ((round - 1) as usize, leader((round - 1) as nat, procs) as usize);
        &&& round >= 1
        &&& d.holds(prev)
        &&& d.offset() <= round < d.offset() + d.rows()
        &&& supporters(d, round as usize, prev, d.width()) >= 2 * ((procs - 1) / 3) + 1
    }
}

/// A process in `round` with DAG `d`, waiting for the leader or not, moves on to the
/// next round: when it no longer waits or the leader condition holds (see
/// `anchor_ready`), and the round's quorum is known (see `quorum_known`).
pub open spec fn moves_on(d: RoundBasedDAG, round: nat, waiting: bool, procs: nat) -> bool {
    (!waiting || anchor_ready(d, round, procs)) && quorum_known(d, round, procs)
}

/// Two DAGs that agree on which slots of `round` are held count the same vertices.
pub proof fn lemma_held_count_agree(d1: RoundBasedDAG, d2: RoundBasedDAG, round: usize, n: nat)
    requires
        forall|s: usize| #[trigger] d1.holds((round, s)) == d2.holds((round, s)),
    ensures
        held_count(d1, round, n) == held_count(d2, round, n),
    decreases n,
{
    if n > 0 {
        lemma_held_count_agree(d1, d2, round, (n - 1) as nat);
        assert(d1.holds((round, (n - 1) as usize)) == d2.holds((round, (n - 1) as usize)));
    }
}

/// Two DAGs that agree on the vertices of `round` count the same supporters.
pub proof fn lemma_supporters_agree(d1: RoundBasedDAG, d2: RoundBasedDAG, round: usize, anchor: VertexId, n: nat)
    requires
        forall|s: usize| #[trigger] d1.holds((round, s)) == d2.holds((round, s)),
        forall|s: usize| d1.holds((round, s)) ==> #[trigger] d1.vertex((round, s)) == d2.vertex((round, s)),
    ensures
        supporters(d1, round, anchor, n) == supporters(d2, round, anchor, n),
    decreases n,
{
    if n > 0 {
        lemma_supporters_agree(d1, d2, round, anchor, (n - 1) as nat);
        let s = (n - 1) as usize;
        assert(d1.holds((round, s)) == d2.holds((round, s)));
        if d1.holds((round, s)) {
            assert(d1.vertex((round, s)) == d2.vertex((round, s)));
        }
    }
}

/// Two DAGs that keep the same rounds around `round` and agree on the vertices of
/// `round` and of the round before decide alike whether a process moves on.
pub proof fn lemma_moves_on_agree(d1: RoundBasedDAG, d2: RoundBasedDAG, round: nat, waiting: bool, procs: nat)
    requires
        d1.width() == d2.width(),
        (d1.offset() <= round) == (d2.offset() <= round),
        (round < d1.offset() + d1.rows()) == (round < d2.offset() + d2.rows()),
        forall|id: VertexId| id.0 + 1 >= round ==> #[trigger] d1.holds(id) == d2.holds(id),
        forall|id: VertexId| id.0 + 1 >= round && d1.holds(id) ==> #[trigger] d1.vertex(id) == d2.vertex(id),
    ensures
        moves_on(d1, round, waiting, procs) == moves_on(d2, round, waiting, procs),
{
    if round <= usize::MAX {
        let r = round as usize;
        assert forall|s: usize| #[trigger] d1.holds((r, s)) == d2.holds((r, s)) by {
            assert(d1.holds((r, s)) == d2.holds((r, s)));
        }
        assert forall|s: usize| d1.holds((r, s)) implies #[trigger] d1.vertex((r, s)) == d2.vertex((r, s)) by {
            assert(d1.holds((r, s)));
        }
        lemma_held_count_agree(d1, d2, r, d1.width());
        if round >= 1 {
            let prev = ((round - 1) as usize, leader((round - 1) as nat, procs) as usize);
            assert(d1.holds(prev) == d2.holds(prev));
            lemma_supporters_agree(d1, d2, r, prev, d1.width());
        }
    }
}

/// `a` broadcasts the initiation of the consistent broadcast of the process's own
/// vertex of `round`, made at `now` by process `pid` in a DAG `d`: a strong edge to each
/// vertex of the round before, and the commands `commands`.
pub open spec fn broadcasts_own_vertex(a: BullsharkAction, d: RoundBasedDAG, round: usize, pid: Pid, now: usize,
    commands: Seq<Command>) -> bool {
    a matches BullsharkAction::Broadcast(BCBMessage::Initiate(_, m)) && !m.view().genesis && m.view().vertex == (VertexView {
        round,
        source: pid,
        creation_time: now,
        edges: held_ids(d, (round - 1) as usize, d.width()),
        commands,
    })
}

/// `post` is `pre` once it has taken the genesis vertex `v`: added when its round is
/// kept (and not too close to the largest integer) and its strong edges are all held,
/// left out otherwise.
pub open spec fn takes_genesis(pre: RoundBasedDAG, v: VertexView, post: RoundBasedDAG) -> bool {
    let added = pre.offset() <= v.round <= usize::MAX - 3 && forall|e: VertexId| #[trigger] v.edges.contains(e) ==> pre.holds(e);
    &&& added ==> with_vertex(pre, v, post)
    &&& !added ==> post == pre
}

/// The messages that the consistent broadcast asks to send for a handled message:
/// its reply to the sender, then its broadcast.
pub open spec fn bcast_actions(out: BCBOutput) -> Seq<BullsharkAction> {
    (match out.reply {
        Some((to, m)) => seq![BullsharkAction::Send(to, m)],
        None => Seq::empty(),
    }) + (match out.broadcast {
        Some(m) => seq![BullsharkAction::Broadcast(m)],
        None => Seq::empty(),
    })
}

/// A delivered vertex is refused when it has fewer strong edges than a quorum of
/// `procs` processes, or when it does not come from its source.
pub open spec fn refused(v: VertexView, from: Pid, procs: nat) -> bool {
    v.edges.len() < 2 * ((procs - 1) / 3) + 1 || from != v.source
}

/// Handling a broadcast output changes nothing but the broadcast: nothing is
/// delivered, or a refused vertex.
pub open spec fn quiet(out: BCBOutput, from: Pid, procs: nat) -> bool {
    match out.deliver {
        None => true,
        Some(m) => !m.view().genesis && refused(m.view().vertex, from, procs),
    }
}

/// Strict order of vertex identities: by round, then by source.
pub open spec fn id_lt(a: VertexId, b: VertexId) -> bool {
    a.0 < b.0 || (a.0 == b.0 && a.1 < b.1)
}

/// The leader of `round` among `proc_num` processes.
pub open spec fn leader(round: nat, proc_num: nat) -> nat {
    (round % proc_num + 1) as nat
}

/// A Bullshark process: it builds a round-based DAG of vertices reliably broadcast by
/// every process, moves to the next round once a quorum of a round is known, and
/// orders the DAG from the anchors of the leaders that enough votes commit.
pub struct Bullshark {
    submit_interval: usize,
    submit_limit: usize,
    submitted: usize,
    submit_timer: usize,
    pending_commands: CmdMap<Command>,
    rbcast: ByzantineConsistentBroadcast,
    proc_num: usize,
    dag: RoundBasedDAG,
    round: usize,
    buffer: Vec<Vertex>,
    last_ordered_round: usize,
    wait: bool,
    timer: usize,
}

impl Bullshark {
    /// The DAG.
    pub closed spec fn spec_dag(&self) -> RoundBasedDAG {
        self.dag
    }

    /// The consistent broadcast.
    pub closed spec fn broadcast(&self) -> ByzantineConsistentBroadcast {
        self.rbcast
    }

    /// Number of processes.
    pub closed spec fn procs(&self) -> nat {
        self.proc_num as nat
    }

    /// The current round.
    pub closed spec fn current_round(&self) -> nat {
        self.round as nat
    }

    /// Whether the process still waits for the leader of the round.
    pub closed spec fn waiting(&self) -> bool {
        self.wait
    }

    /// The round of the last ordered anchor.
    pub closed spec fn last_ordered(&self) -> nat {
        self.last_ordered_round as nat
    }

    /// The vertices waiting for their edges, by identity order.
    pub closed spec fn buffered(&self) -> Seq<VertexView> {
        self.buffer@.map_values(|v: Vertex| v.view())
    }

    /// The commands submitted and not yet carried by a vertex.
    pub closed spec fn pending(&self) -> Map<CmdId, Command> {
        self.pending_commands@
    }

    /// How many commands were submitted so far.
    pub closed spec fn submit_count(&self) -> nat {
        self.submitted as nat
    }

    /// How many commands the process submits in all.
    pub closed spec fn limit(&self) -> nat {
        self.submit_limit as nat
    }

    /// The delay between two submissions.
    pub closed spec fn interval(&self) -> usize {
        self.submit_interval
    }

    /// The armed submit timer.
    pub closed spec fn submit_timer_id(&self) -> usize {
        self.submit_timer
    }

    /// The armed round timer.
    pub closed spec fn round_timer_id(&self) -> usize {
        self.timer
    }

    /// The parts are well formed and agree on the number of processes, every payload
    /// held by the broadcast and every buffered vertex has the shape of a vertex, and
    /// the buffer is ordered by identity.
    pub closed spec fn wf(&self) -> bool {
        &&& self.dag.wf()
        &&& self.rbcast.wf()
        &&& self.pending_commands.wf()
        &&& self.dag.width() == self.proc_num + 1
        &&& self.rbcast.procs() == self.proc_num
        &&& forall|id: CmdId| #[trigger] self.rbcast.messages().contains_key(id)
            ==> vertex_ok(self.rbcast.messages()[id].0.vertex, self.proc_num as nat)
        &&& forall|i: int| 0 <= i < self.buffer@.len() ==> vertex_ok((#[trigger] self.buffer@[i]).view(), self.proc_num as nat)
        &&& forall|i: int, j: int| 0 <= i < j < self.buffer@.len() ==> id_lt(#[trigger] self.buffer@[i].id(), #[trigger] self.buffer@[j].id())
        &&& self.dag.offset() + self.dag.rows() + 2 <= usize::MAX
        &&& self.round + 3 <= usize::MAX
        &&& self.last_ordered_round % 2 == 0
    }

    /// A process that has not started.
    pub fn new(submit_interval: usize, submit_limit: usize) -> (b: Self)
        ensures
            b.wf(),
            b.procs() == 0,
            b.current_round() == 0,
            b.waiting(),
            b.submit_count() == 0,
            b.limit() == submit_limit,
            b.interval() == submit_interval,
            b.pending() == Map::<CmdId, Command>::empty(),
            b.buffered() == Seq::<VertexView>::empty(),
            b.spec_dag().rows() == 0,
            b.spec_dag().offset() == 0,
    {
        let b = Bullshark {
            submit_interval,
            submit_limit,
            submitted: 0,
            submit_timer: 0,
            pending_commands: CmdMap::new(),
            rbcast: ByzantineConsistentBroadcast::new(),
            proc_num: 0,
            dag: RoundBasedDAG::new(),
            round: 0,
            buffer: Vec::new(),
            last_ordered_round: 0,
            wait: true,
            timer: 0,
        };
        assert(b.buffered() =~= Seq::<VertexView>::empty());
        b
    }

    /// The number of faulty processes tolerated.
    pub fn adversary_threshold(&self) -> (f: usize)
        requires
            self.procs() >= 1,
        ensures
            f == (self.procs() - 1) / 3,
    {
        (self.proc_num - 1) / 3
    }

    /// The quorum: two faulty thirds and one more.
    pub fn quorum_size(&self) -> (q: usize)
        requires
            self.procs() >= 1,
        ensures
            q == 2 * ((self.procs() - 1) / 3) + 1,
    {
        2 * self.adversary_threshold() + 1
    }

    /// Votes that commit an anchor: one more than the faulty processes.
    pub fn direct_commit_threshold(&self) -> (q: usize)
        requires
            self.procs() >= 1,
        ensures
            q == (self.procs() - 1) / 3 + 1,
    {
        self.adversary_threshold() + 1
    }

    /// The leader of `round`.
    pub fn get_leader_id(&self, round: usize) -> (p: Pid)
        requires
            self.procs() >= 1,
        ensures
            p == leader(round as nat, self.procs()),
    {
        round % self.proc_num + 1
    }

    /// Whether a quorum of the slots of `round` hold a vertex.
    pub fn quorum_reached_for_round(&self, round: usize) -> (b: bool)
        requires
            self.wf(),
            self.procs() >= 1,
            self.spec_dag().offset() <= round < self.spec_dag().offset() + self.spec_dag().rows(),
        ensures
            b == (held_count(self.spec_dag(), round, self.spec_dag().width()) >= 2 * ((self.procs() - 1) / 3) + 1),
    {
        let row = self.dag.row(round);
        let mut count: usize = 0;
        let mut s: usize = 0;
        while s < row.len()
            invariant
                row@.len() == self.dag.width(),
                forall|t: int| 0 <= t < row@.len() ==> (#[trigger] row@[t] is Some) == self.dag.holds((round, t as usize)),
                s <= row@.len(),
                count == held_count(self.dag, round, s as nat),
                count <= s,
            decreases row@.len() - s,
        {
            if row[s].is_some() {
                count = count + 1;
            }
            s = s + 1;
        }
        count >= self.quorum_size()
    }

    /// The anchor of `round`: the vertex of its leader, if the DAG holds it.
    pub fn get_anchor(&self, round: usize) -> (a: Option<Vertex>)
        requires
            self.wf(),
            self.procs() >= 1,
        ensures
            match a {
                Some(v) => self.spec_dag().holds((round, leader(round as nat, self.procs()) as usize))
                    && v.view() == self.spec_dag().vertex((round, leader(round as nat, self.procs()) as usize))
                    && v.round == round && v.source == leader(round as nat, self.procs()),
                None => !self.spec_dag().holds((round, leader(round as nat, self.procs()) as usize)),
            },
    {
        if !self.dag.keeps_round(round) {
            return None;
        }
        let l = self.get_leader_id(round);
        let row = self.dag.row(round);
        match &row[l] {
            Some(v) => {
                proof {
                    self.dag.lemma_held((round, l));
                }
                Some(copy_vertex(v))
            },
            None => None,
        }
    }

    /// A vertex is refused when it has fewer strong edges than a quorum, or when it
    /// does not come from its source.
    pub fn bad_vertex(&self, vertex: &Vertex, from: Pid) -> (b: bool)
        requires
            self.procs() >= 1,
        ensures
            b == (vertex.strong_edges@.len() < 2 * ((self.procs() - 1) / 3) + 1 || from != vertex.source),
    {
        vertex.strong_edges.len() < self.quorum_size() || from != vertex.source
    }

    /// The process keeps track of the vertex identified by `id`: the DAG holds it, its
    /// round is collected, or a vertex of that identity waits in the buffer.
    pub open spec fn keeps_track(&self, id: VertexId) -> bool {
        ||| self.spec_dag().holds(id)
        ||| id.0 <= self.spec_dag().offset()
        ||| exists|i: int| 0 <= i < self.buffered().len() && (#[trigger] self.buffered()[i]).round == id.0
            && self.buffered()[i].source == id.1
    }

    /// `self` keeps track of every vertex that `pre` kept track of.
    pub open spec fn tracks_all_of(&self, pre: &Bullshark) -> bool {
        forall|id: VertexId| #[trigger] pre.keeps_track(id) ==> self.keeps_track(id)
    }

    /// `post` holds every vertex that `pre` holds, and keeps ordered every vertex that
    /// `pre` ordered, unless its round is collected, collects no fewer rounds, and
    /// allocates no fewer.
    pub open spec fn dag_kept(pre: RoundBasedDAG, post: RoundBasedDAG) -> bool {
        &&& post.offset() >= pre.offset()
        &&& post.offset() + post.rows() >= pre.offset() + pre.rows()
        &&& forall|id: VertexId| #[trigger] pre.holds(id) ==> post.holds(id) || id.0 < post.offset()
        &&& forall|id: VertexId| #[trigger] pre.is_ordered(id) ==> post.is_ordered(id) || id.0 < post.offset()
    }

    proof fn lemma_tracks(pre: Bullshark, post: Bullshark)
        requires
            Bullshark::dag_kept(pre.dag, post.dag),
            forall|v: Vertex| #[trigger] pre.buffer@.contains(v) ==> post.buffer@.contains(v)
                || post.dag.holds(v.id()) || v.round <= post.dag.offset(),
        ensures
            post.tracks_all_of(&pre),
    {
        assert forall|id: VertexId| #[trigger] pre.keeps_track(id) implies post.keeps_track(id) by {
            if !pre.dag.holds(id) && id.0 > pre.dag.offset() {
                let i = choose|i: int| 0 <= i < pre.buffered().len() && (#[trigger] pre.buffered()[i]).round == id.0
                    && pre.buffered()[i].source == id.1;
                let v = pre.buffer@[i];
                assert(pre.buffer@.contains(v));
                assert(v.id() == id);
                if post.buffer@.contains(v) {
                    let k = choose|k: int| 0 <= k < post.buffer@.len() && post.buffer@[k] == v;
                    assert(post.buffered()[k] == v.view());
                }
            }
        }
    }

    proof fn lemma_tracks_trans(a: Bullshark, b: Bullshark, c: Bullshark)
        requires
            b.tracks_all_of(&a),
            c.tracks_all_of(&b),
            Bullshark::dag_kept(a.dag, b.dag),
            Bullshark::dag_kept(b.dag, c.dag),
        ensures
            c.tracks_all_of(&a),
            Bullshark::dag_kept(a.dag, c.dag),
    {
        assert forall|id: VertexId| #[trigger] a.keeps_track(id) implies c.keeps_track(id) by {
            assert(b.keeps_track(id));
        }
        assert forall|id: VertexId| #[trigger] a.dag.holds(id) implies c.dag.holds(id) || id.0 <= c.dag.offset() by {
            if b.dag.holds(id) {
            }
        }
        assert forall|id: VertexId| #[trigger] a.dag.is_ordered(id) implies c.dag.is_ordered(id) || id.0 <= c.dag.offset() by {
            if b.dag.is_ordered(id) {
            }
        }
    }

    /// The order in which the pending commands are held.
    pub closed spec fn pending_order(&self) -> Seq<CmdId> {
        self.pending_commands.key_seq()
    }

    /// A vertex of `round` from process `self_pid` at `now`, with a strong edge to
    /// each vertex of the round before and carrying the pending commands, which it
    /// takes.
    fn create_vertex(&mut self, round: usize, self_pid: Pid, now: usize) -> (v: Vertex)
        requires
            old(self).wf(),
            round >= 1,
            old(self).dag.offset() <= round - 1 < old(self).dag.offset() + old(self).dag.rows(),
        ensures
            final(self).wf(),
            final(self).dag == old(self).dag,
            final(self).rbcast == old(self).rbcast,
            final(self).buffer == old(self).buffer,
            final(self).round == old(self).round,
            final(self).proc_num == old(self).proc_num,
            final(self).last_ordered_round == old(self).last_ordered_round,
            final(self).wait == old(self).wait,
            final(self).timer == old(self).timer,
            final(self).submitted == old(self).submitted,
            final(self).submit_limit == old(self).submit_limit,
            final(self).submit_timer == old(self).submit_timer,
            final(self).submit_interval == old(self).submit_interval,
            final(self).pending() == Map::<CmdId, Command>::empty(),
            v.round == round,
            v.source == self_pid,
            v.creation_time == now,
            v.strong_edges@ == held_ids(old(self).dag, (round - 1) as usize, old(self).dag.width()),
            v.commands@ == old(self).pending_order().map_values(|k: CmdId| old(self).pending()[k]),
    {
        let row = self.dag.row(round - 1);
        let mut edges: Vec<VertexId> = Vec::new();
        let mut s: usize = 0;
        while s < row.len()
            invariant
                round >= 1,
                row@.len() == self.dag.width(),
                forall|t: int| 0 <= t < row@.len() ==> (#[trigger] row@[t] is Some) == self.dag.holds(((round - 1) as usize, t as usize)),
                s <= row@.len(),
                edges@ == held_ids(self.dag, (round - 1) as usize, s as nat),
            decreases row@.len() - s,
        {
            if row[s].is_some() {
                edges.push((round - 1, s));
            }
            s = s + 1;
        }
        let commands = self.pending_commands.values();
        self.pending_commands = CmdMap::new();
        Vertex { round, source: self_pid, creation_time: now, strong_edges: edges, commands }
    }

    /// `self` and `other` agree on everything but the DAG and the last ordered round.
    closed spec fn same_but_dag(&self, other: &Bullshark) -> bool {
        &&& self.rbcast == other.rbcast
        &&& self.buffer == other.buffer
        &&& self.round == other.round
        &&& self.proc_num == other.proc_num
        &&& self.wait == other.wait
        &&& self.timer == other.timer
        &&& self.pending_commands == other.pending_commands
        &&& self.submitted == other.submitted
        &&& self.submit_limit == other.submit_limit
        &&& self.submit_timer == other.submit_timer
        &&& self.submit_interval == other.submit_interval
    }

    /// The first position of the buffer whose vertex is not before `id`.
    fn buffer_position(&self, id: VertexId) -> (pos: usize)
        requires
            self.wf(),
        ensures
            pos <= self.buffer@.len(),
            forall|i: int| 0 <= i < pos ==> id_lt(#[trigger] self.buffer@[i].id(), id),
            forall|i: int| pos <= i < self.buffer@.len() ==> !id_lt(#[trigger] self.buffer@[i].id(), id),
    {
        let mut i: usize = 0;
        while i < self.buffer.len()
            invariant
                self.wf(),
                i <= self.buffer@.len(),
                forall|j: int| 0 <= j < i ==> id_lt(#[trigger] self.buffer@[j].id(), id),
            decreases self.buffer@.len() - i,
        {
            let b = &self.buffer[i];
            if !(b.round < id.0 || (b.round == id.0 && b.source < id.1)) {
                assert forall|j: int| i <= j < self.buffer@.len() implies !id_lt(#[trigger] self.buffer@[j].id(), id) by {
                    if j > i {
                        assert(id_lt(self.buffer@[i as int].id(), self.buffer@[j].id()));
                    }
                }
                return i;
            }
            i = i + 1;
        }
        i
    }

    /// Drops the buffered vertex of identity `id`, if any.
    fn buffer_remove(&mut self, id: VertexId)
        requires
            old(self).wf(),
        ensures
            final(self).wf(),
            final(self).dag == old(self).dag,
            final(self).rbcast == old(self).rbcast,
            final(self).pending_commands == old(self).pending_commands,
            final(self).round == old(self).round,
            final(self).proc_num == old(self).proc_num,
            final(self).last_ordered_round == old(self).last_ordered_round,
            final(self).wait == old(self).wait,
            final(self).timer == old(self).timer,
            final(self).submitted == old(self).submitted,
            final(self).submit_limit == old(self).submit_limit,
            final(self).submit_timer == old(self).submit_timer,
            final(self).submit_interval == old(self).submit_interval,
            forall|i: int| 0 <= i < final(self).buffer@.len() ==> (#[trigger] final(self).buffer@[i]).id() != id,
            forall|i: int| 0 <= i < old(self).buffer@.len() && (#[trigger] old(self).buffer@[i]).id() != id
                ==> final(self).buffer@.contains(old(self).buffer@[i]),
            forall|v: Vertex| #[trigger] final(self).buffer@.contains(v) ==> old(self).buffer@.contains(v),
    {
        let pos = self.buffer_position(id);
        if pos < self.buffer.len() && self.buffer[pos].round == id.0 && self.buffer[pos].source == id.1 {
            let ghost before = self.buffer@;
            self.buffer.remove(pos);
            proof {
                assert forall|i: int| 0 <= i < self.buffer@.len() implies (#[trigger] self.buffer@[i]).id() != id by {
                    if i < pos {
                        assert(self.buffer@[i] == before[i]);
                    } else {
                        assert(self.buffer@[i] == before[i + 1]);
                        assert(id_lt(before[pos as int].id(), before[i + 1].id()));
                    }
                }
                assert forall|i: int| 0 <= i < before.len() && (#[trigger] before[i]).id() != id
                    implies self.buffer@.contains(before[i]) by {
                    if i < pos {
                        assert(self.buffer@[i] == before[i]);
                    } else if i > pos {
                        assert(self.buffer@[i - 1] == before[i]);
                    }
                }
                assert forall|v: Vertex| #[trigger] self.buffer@.contains(v) implies before.contains(v) by {
                    let k = choose|k: int| 0 <= k < self.buffer@.len() && self.buffer@[k] == v;
                    if k < pos {
                        assert(before[k] == v);
                    } else {
                        assert(before[k + 1] == v);
                    }
                }
                assert forall|i: int| 0 <= i < self.buffer@.len() implies vertex_ok((#[trigger] self.buffer@[i]).view(), self.proc_num as nat) by {
                    if i < pos {
                        assert(self.buffer@[i] == before[i]);
                    } else {
                        assert(self.buffer@[i] == before[i + 1]);
                    }
                }
                assert forall|i: int, j: int| 0 <= i < j < self.buffer@.len() implies id_lt(#[trigger] self.buffer@[i].id(), #[trigger] self.buffer@[j].id()) by {
                    let i0 = if i < pos { i } else { i + 1 };
                    let j0 = if j < pos { j } else { j + 1 };
                    assert(self.buffer@[i] == before[i0]);
                    assert(self.buffer@[j] == before[j0]);
                }
            }
        } else {
            proof {
                assert forall|i: int| 0 <= i < self.buffer@.len() implies (#[trigger] self.buffer@[i]).id() != id by {
                    if i >= pos && i > pos {
                        assert(id_lt(self.buffer@[pos as int].id(), self.buffer@[i].id()));
                    }
                }
                assert forall|i: int| 0 <= i < self.buffer@.len() && (#[trigger] self.buffer@[i]).id() != id
                    implies self.buffer@.contains(self.buffer@[i]) by {}
            }
        }
    }

    /// Keeps `vertex` in the buffer, unless a vertex of its identity is there.
    fn buffer_insert(&mut self, vertex: Vertex)
        requires
            old(self).wf(),
            vertex_ok(vertex.view(), old(self).procs()),
        ensures
            final(self).wf(),
            final(self).tracks_all_of(old(self)),
            Bullshark::dag_kept(old(self).dag, final(self).dag),
            final(self).keeps_track(vertex.id()),
            final(self).dag == old(self).dag,
            final(self).rbcast == old(self).rbcast,
            final(self).pending_commands == old(self).pending_commands,
            final(self).round == old(self).round,
            final(self).proc_num == old(self).proc_num,
            final(self).last_ordered_round == old(self).last_ordered_round,
            final(self).wait == old(self).wait,
            final(self).timer == old(self).timer,
            final(self).submitted == old(self).submitted,
            final(self).submit_limit == old(self).submit_limit,
            final(self).submit_timer == old(self).submit_timer,
            final(self).submit_interval == old(self).submit_interval,
            exists|i: int| 0 <= i < final(self).buffer@.len() && (#[trigger] final(self).buffer@[i]).id() == vertex.id(),
            forall|v: Vertex| #[trigger] old(self).buffer@.contains(v) ==> final(self).buffer@.contains(v),
            forall|v: Vertex| #[trigger] final(self).buffer@.contains(v) ==> old(self).buffer@.contains(v) || v == vertex,
    {
        let id = (vertex.round, vertex.source);
        let pos = self.buffer_position(id);
        if pos < self.buffer.len() && self.buffer[pos].round == id.0 && self.buffer[pos].source == id.1 {
            assert(self.buffer@[pos as int].id() == vertex.id());
            proof {
                Bullshark::lemma_tracks(*old(self), *self);
                assert(self.buffered()[pos as int].round == vertex.round);
            }
            return;
        }
        let ghost before = self.buffer@;
        self.buffer.insert(pos, vertex);
        proof {
            assert(self.buffer@[pos as int] == vertex);
            assert forall|v: Vertex| #[trigger] before.contains(v) implies self.buffer@.contains(v) by {
                let k = choose|k: int| 0 <= k < before.len() && before[k] == v;
                if k < pos {
                    assert(self.buffer@[k] == v);
                } else {
                    assert(self.buffer@[k + 1] == v);
                }
            }
            assert forall|v: Vertex| #[trigger] self.buffer@.contains(v) implies before.contains(v) || v == vertex by {
                let k = choose|k: int| 0 <= k < self.buffer@.len() && self.buffer@[k] == v;
                if k < pos {
                    assert(before[k] == v);
                } else if k > pos {
                    assert(before[k - 1] == v);
                }
            }
            assert forall|i: int| 0 <= i < self.buffer@.len() implies vertex_ok((#[trigger] self.buffer@[i]).view(), self.proc_num as nat) by {
                if i < pos {
                    assert(self.buffer@[i] == before[i]);
                } else if i > pos {
                    assert(self.buffer@[i] == before[i - 1]);
                }
            }
            assert forall|i: int, j: int| 0 <= i < j < self.buffer@.len() implies id_lt(#[trigger] self.buffer@[i].id(), #[trigger] self.buffer@[j].id()) by {
                if j < pos {
                    assert(self.buffer@[i] == before[i]);
                    assert(self.buffer@[j] == before[j]);
                } else if j == pos {
                    assert(self.buffer@[i] == before[i]);
                } else if i < pos {
                    assert(self.buffer@[i] == before[i]);
                    assert(self.buffer@[j] == before[j - 1]);
                    assert(!id_lt(before[j - 1].id(), id));
                } else if i == pos {
                    assert(self.buffer@[j] == before[j - 1]);
                    assert(!id_lt(before[j - 1].id(), id));
                    if j - 1 > pos {
                        assert(id_lt(before[pos as int].id(), before[j - 1].id()));
                        assert(!id_lt(before[pos as int].id(), id));
                    }
                    assert(before[j - 1].id() != id);
                } else {
                    assert(self.buffer@[i] == before[i - 1]);
                    assert(self.buffer@[j] == before[j - 1]);
                }
            }
            Bullshark::lemma_tracks(*old(self), *self);
            assert(self.buffered()[pos as int].round == vertex.round);
        }
    }

    /// Arms the round timer and waits for the leader again.
    fn start_timer(&mut self, actions: &mut Vec<BullsharkAction>)
        requires
            old(self).wf(),
        ensures
            final(self).wf(),
            final(self).wait,
            final(self).dag == old(self).dag,
            final(self).rbcast == old(self).rbcast,
            final(self).buffer == old(self).buffer,
            final(self).round == old(self).round,
            final(self).proc_num == old(self).proc_num,
            final(self).last_ordered_round == old(self).last_ordered_round,
            final(self).pending_commands == old(self).pending_commands,
            final(self).timer == old(self).timer,
            final(self).submitted == old(self).submitted,
            final(self).submit_limit == old(self).submit_limit,
            final(self).submit_timer == old(self).submit_timer,
            final(self).submit_interval == old(self).submit_interval,
            final(actions)@ == old(actions)@.push(BullsharkAction::StartRoundTimer),
    {
        self.wait = true;
        actions.push(BullsharkAction::StartRoundTimer);
    }

    /// Records `timer_id` as the armed round timer.
    pub fn round_timer_armed(&mut self, timer_id: usize)
        requires
            old(self).wf(),
        ensures
            final(self).wf(),
            final(self).round_timer_id() == timer_id,
            final(self).current_round() == old(self).current_round(),
            final(self).waiting() == old(self).waiting(),
            final(self).spec_dag() == old(self).spec_dag(),
    {
        self.timer = timer_id;
    }

    /// Records `timer_id` as the armed submit timer.
    pub fn submit_timer_armed(&mut self, timer_id: usize)
        requires
            old(self).wf(),
        ensures
            final(self).wf(),
            final(self).submit_timer_id() == timer_id,
            final(self).current_round() == old(self).current_round(),
            final(self).spec_dag() == old(self).spec_dag(),
    {
        self.submit_timer = timer_id;
    }

    /// `post` and `post_actions` are what ordering from `anchor` gives in a process
    /// with DAG `d`, last ordered round `last_ordered` and `procs` processes: the
    /// anchors back to the last ordered round (see `anchor_sequence`) are ordered from
    /// in turn, oldest first (see `ordering_chain`), their latencies recorded, and the
    /// rounds before `anchor` collected.
    pub open spec fn orders_from_anchor(
        d: RoundBasedDAG,
        last_ordered: nat,
        procs: nat,
        post: Bullshark,
        anchor: VertexView,
        pre_actions: Seq<BullsharkAction>,
        post_actions: Seq<BullsharkAction>,
        pid: Pid,
        now: usize,
    ) -> bool {
        exists|anchors: Seq<VertexView>, dags: Seq<RoundBasedDAG>, lats: Seq<Seq<usize>>| {
            &&& anchor_sequence(d, anchors, anchor, last_ordered, procs)
            &&& ordering_chain(anchors, dags, lats, pid, now)
            &&& dags[0].same_content(&d)
            &&& post_actions == pre_actions + latency_actions(lats)
            &&& post.last_ordered() == anchor.round
            &&& post.spec_dag().offset() == if d.offset() >= anchor.round || d.rows() <= 1 {
                d.offset()
            } else if anchor.round <= d.offset() + d.rows() - 1 {
                anchor.round as nat
            } else {
                (d.offset() + d.rows() - 1) as nat
            }
            &&& forall|id: VertexId| #[trigger] post.spec_dag().holds(id) == (dags.last().holds(id) && id.0 >= post.spec_dag().offset())
            &&& forall|id: VertexId| #[trigger] post.spec_dag().is_ordered(id) == (dags.last().is_ordered(id) && id.0 >= post.spec_dag().offset())
        }
    }

    /// The anchors that ordering from `anchor` orders, newest first (see
    /// `anchor_sequence`): going back two rounds at a time to the last ordered round,
    /// the leader vertex of each round is taken when the last anchor taken reaches it.
    #[verifier::rlimit(100)]
    #[verifier::spinoff_prover]
    fn linked_anchors(&mut self, anchor: &Vertex) -> (stack: Vec<Vertex>)
        requires
            old(self).wf(),
            old(self).procs() >= 1,
            old(self).dag.holds(anchor.id()),
            old(self).dag.vertex(anchor.id()) == anchor.view(),
            anchor.round % 2 == 0,
            anchor.source == leader(anchor.round as nat, old(self).procs()),
        ensures
            final(self).wf(),
            final(self).dag.same_content(&old(self).dag),
            final(self).same_but_dag(old(self)),
            final(self).last_ordered_round == old(self).last_ordered_round,
            stack@.len() >= 1,
            forall|k: int| 0 <= k < stack@.len() ==> old(self).dag.holds((#[trigger] stack@[k]).id())
                && old(self).dag.vertex(stack@[k].id()) == stack@[k].view(),
            anchor_sequence(old(self).dag, Seq::new(stack@.len(), |k: int| stack@[stack@.len() - 1 - k].view()),
                anchor.view(), old(self).last_ordered_round as nat, old(self).procs()),
    {
        let ghost d0 = self.dag;
        let ghost procs = old(self).procs();
        let mut stack: Vec<Vertex> = Vec::new();
        stack.push(copy_vertex(anchor));
        let mut a = copy_vertex(anchor);
        let mut round: usize = if anchor.round >= 2 { anchor.round - 2 } else { 0 };
        while round > self.last_ordered_round
            invariant
                self.wf(),
                self.procs() >= 1,
                self.procs() == procs,
                self.dag.same_content(&d0),
                d0 == old(self).dag,
                d0.wf(),
                self.same_but_dag(old(self)),
                self.last_ordered_round == old(self).last_ordered_round,
                round % 2 == 0,
                d0.holds(a.id()),
                d0.vertex(a.id()) == a.view(),
                stack@.len() >= 1,
                stack@[0].view() == anchor.view(),
                stack@.last().view() == a.view(),
                round < a.round || round == 0,
                a.round % 2 == 0,
                forall|k: int| 0 <= k < stack@.len() ==> d0.holds((#[trigger] stack@[k]).id())
                    && d0.vertex(stack@[k].id()) == stack@[k].view()
                    && stack@[k].source == leader(stack@[k].round as nat, old(self).procs())
                    && stack@[k].round % 2 == 0,
                forall|k: int| 1 <= k < stack@.len() ==> old(self).last_ordered_round < (#[trigger] stack@[k]).round < stack@[k - 1].round,
                forall|k: int| 1 <= k < stack@.len() ==> reaches(d0, stack@[k - 1].view(), (#[trigger] stack@[k]).id()),
                forall|k: int| 1 <= k < stack@.len() ==> skips_between(d0, stack@[k - 1].view(),
                    (#[trigger] stack@[k]).round as int, stack@[k - 1].round as int, procs),
                skips_between(d0, a.view(), round as int, a.round as int, procs),
            decreases round,
        {
            let ghost st_before = stack@;
            let ghost a_before = a.view();
            let ghost lid = leader_id(round as int, procs);
            match self.get_anchor(round) {
                None => {
                    proof {
                        assert(!d0.holds(lid));
                    }
                },
                Some(prev) => {
                    let ghost l = leader(round as nat, self.procs()) as usize;
                    proof {
                        assert(self.dag.holds((round, l)));
                        assert(prev.id() == (round, l));
                        assert(prev.id() == lid);
                        assert(d0.holds(prev.id()));
                        assert(d0.vertex(prev.id()) == prev.view());
                    }
                    let ghost dag_before = self.dag;
                    proof {
                        self.dag.lemma_held(a.id());
                    }
                    let linked = self.dag.path_exists(&a, &prev);
                    proof {
                        assert(linked == reaches(dag_before, a_before, lid));
                        lemma_reaches_same_content(dag_before, d0, a_before, lid);
                    }
                    if linked {
                        stack.push(copy_vertex(&prev));
                        a = prev;
                        proof {
                            assert forall|k: int| 0 <= k < stack@.len() implies d0.holds((#[trigger] stack@[k]).id())
                                && d0.vertex(stack@[k].id()) == stack@[k].view()
                                && stack@[k].source == leader(stack@[k].round as nat, old(self).procs())
                                && stack@[k].round % 2 == 0 by {
                                if k < st_before.len() {
                                    assert(stack@[k] == st_before[k]);
                                }
                            }
                            assert forall|k: int| 1 <= k < stack@.len() implies {
                                &&& old(self).last_ordered_round < (#[trigger] stack@[k]).round < stack@[k - 1].round
                                &&& reaches(d0, stack@[k - 1].view(), stack@[k].id())
                                &&& skips_between(d0, stack@[k - 1].view(), stack@[k].round as int, stack@[k - 1].round as int, procs)
                            } by {
                                if k < st_before.len() {
                                    assert(stack@[k] == st_before[k]);
                                    assert(stack@[k - 1] == st_before[k - 1]);
                                } else {
                                    assert(stack@[k - 1] == st_before.last());
                                    assert(stack@[k - 1].view() == a_before);
                                    assert(stack@[k].id() == lid);
                                }
                            }
                        }
                    } else {
                        proof {
                            assert(!reaches(d0, a_before, lid));
                        }
                    }
                    proof {
                        assert forall|id: VertexId| #[trigger] self.dag.holds(id) == d0.holds(id) by {
                            assert(dag_before.holds(id) == d0.holds(id));
                        }
                        assert forall|id: VertexId| d0.holds(id) implies #[trigger] self.dag.vertex(id) == d0.vertex(id) by {
                            assert(dag_before.holds(id));
                            assert(dag_before.vertex(id) == d0.vertex(id));
                        }
                        assert forall|id: VertexId| #[trigger] self.dag.is_ordered(id) == d0.is_ordered(id) by {
                            assert(dag_before.is_ordered(id) == d0.is_ordered(id));
                        }
                    }
                },
            }
            proof {
                assert forall|r: int| round - 2 < r < a.round && r % 2 == 0 implies
                    !(#[trigger] d0.holds(leader_id(r, procs)) && reaches(d0, a.view(), leader_id(r, procs))) by {
                    if a.view() == a_before && r != round as int {
                        assert(round < r);
                    }
                }
            }
            round = round - 2;
        }
        let ghost stack0 = stack@;
        let ghost all = Seq::new(stack0.len(), |k: int| stack0[stack0.len() - 1 - k].view());
        proof {
            let lo = old(self).last_ordered_round as nat;
            assert(all.last() == stack0[0].view());
            assert(all[0] == a.view());
            assert forall|r: int| lo < r < all[0].round && r % 2 == 0 implies
                !(#[trigger] d0.holds(leader_id(r, procs)) && reaches(d0, all[0], leader_id(r, procs))) by {
                assert(round < r);
            }
            assert forall|k: int| #![trigger all[k]] 0 <= k < all.len() implies {
                &&& d0.holds((all[k].round, all[k].source))
                &&& d0.vertex((all[k].round, all[k].source)) == all[k]
                &&& all[k].source == leader(all[k].round as nat, procs)
                &&& all[k].round % 2 == 0
                &&& k + 1 < all.len() ==> lo < all[k].round < all[k + 1].round
                &&& k + 1 < all.len() ==> reaches(d0, all[k + 1], (all[k].round, all[k].source))
                &&& k + 1 < all.len() ==> skips_between(d0, all[k + 1], all[k].round as int, all[k + 1].round as int, procs)
            } by {
                let j = stack0.len() - 1 - k;
                assert(all[k] == stack0[j].view());
                assert(stack0[j].id() == (all[k].round, all[k].source));
                if k + 1 < all.len() {
                    assert(all[k + 1] == stack0[j - 1].view());
                }
            }
            assert(anchor_sequence(d0, all, anchor.view(), lo, procs));
        }
        stack
    }

    /// Orders from `anchor`: first the earlier anchors linked to it by paths, back to
    /// the last ordered round, oldest first, then `anchor`; the latency of each newly
    /// ordered own vertex is recorded, and the rounds before `anchor` are collected.
    fn order_anchors(&mut self, anchor: Vertex, self_pid: Pid, now: usize, actions: &mut Vec<BullsharkAction>)
        requires
            old(self).wf(),
            old(self).procs() >= 1,
            old(self).dag.holds(anchor.id()),
            old(self).dag.vertex(anchor.id()) == anchor.view(),
            anchor.round % 2 == 0,
            anchor.source == leader(anchor.round as nat, old(self).procs()),
        ensures
            final(self).wf(),
            final(self).tracks_all_of(old(self)),
            Bullshark::dag_kept(old(self).dag, final(self).dag),
            forall|id: VertexId| old(self).dag.holds(id) && #[trigger] final(self).dag.holds(id) ==> final(self).dag.vertex(id) == old(self).dag.vertex(id),
            final(self).last_ordered_round == anchor.round,
            final(self).same_but_dag(old(self)),
            final(self).dag.width() == old(self).dag.width(),
            final(self).dag.offset() + final(self).dag.rows() == old(self).dag.offset() + old(self).dag.rows(),
            final(actions)@.len() >= old(actions)@.len(),
            final(actions)@.subrange(0, old(actions)@.len() as int) == old(actions)@,
            Bullshark::orders_from_anchor(old(self).dag, old(self).last_ordered_round as nat, old(self).procs(), *final(self),
                anchor.view(), old(actions)@, final(actions)@, self_pid, now),
            forall|id: VertexId| #[trigger] final(self).dag.holds(id) == (old(self).dag.holds(id) && id.0 >= final(self).dag.offset()),
            final(self).dag.offset() == old(self).dag.offset() || final(self).dag.offset() <= anchor.round,
    {
        let ghost d0 = self.dag;
        let mut stack = self.linked_anchors(&anchor);
        self.last_ordered_round = anchor.round;
        let ghost acts0 = actions@;
        let ghost stack0 = stack@;
        let ghost all = Seq::new(stack0.len(), |k: int| stack0[stack0.len() - 1 - k].view());
        let ghost mut done: Seq<VertexView> = Seq::empty();
        let ghost mut dags: Seq<RoundBasedDAG> = seq![self.dag];
        let ghost mut latss: Seq<Seq<usize>> = Seq::empty();
        proof {
            assert(latency_actions(latss) =~= Seq::<BullsharkAction>::empty());
            assert(actions@ =~= acts0 + latency_actions(latss));
        }
        while stack.len() > 0
            invariant
                self.wf(),
                self.same_but_dag(old(self)),
                self.last_ordered_round == anchor.round,
                d0.width() == old(self).dag.width(),
                d0.offset() == old(self).dag.offset(),
                d0.rows() == old(self).dag.rows(),
                self.dag.width() == d0.width(),
                self.dag.offset() == d0.offset(),
                self.dag.rows() == d0.rows(),
                forall|id: VertexId| #[trigger] self.dag.holds(id) == d0.holds(id),
                forall|id: VertexId| d0.holds(id) ==> #[trigger] self.dag.vertex(id) == d0.vertex(id),
                forall|id: VertexId| d0.is_ordered(id) ==> #[trigger] self.dag.is_ordered(id),
                forall|k: int| 0 <= k < stack@.len() ==> d0.holds((#[trigger] stack@[k]).id())
                    && d0.vertex(stack@[k].id()) == stack@[k].view(),
                stack@.len() <= stack0.len(),
                stack@ == stack0.take(stack@.len() as int),
                all.len() == stack0.len(),
                forall|k: int| 0 <= k < all.len() ==> #[trigger] all[k] == stack0[stack0.len() - 1 - k].view(),
                done == all.take(all.len() - stack@.len()),
                ordering_chain(done, dags, latss, self_pid, now),
                dags[0].same_content(&d0),
                dags.last() == self.dag,
                actions@ == acts0 + latency_actions(latss),
            decreases stack@.len(),
        {
            let ghost st_before = stack@;
            let x = stack.pop().unwrap();
            proof {
                assert(x == st_before.last());
                assert(d0.holds(x.id()) && d0.vertex(x.id()) == x.view());
                assert(stack@ =~= stack0.take(stack@.len() as int));
                assert(all[all.len() - st_before.len()] == x.view());
            }
            let ghost dag_before = self.dag;
            let lats = self.dag.order_from(&x, self_pid, now);
            let ghost acts_before = actions@;
            let mut i: usize = 0;
            while i < lats.len()
                invariant
                    i <= lats@.len(),
                    actions@ == acts_before + lats@.take(i as int).map_values(|l: usize| BullsharkAction::RecordLatency(l)),
                decreases lats@.len() - i,
            {
                actions.push(BullsharkAction::RecordLatency(lats[i]));
                proof {
                    assert(lats@.take(i as int + 1).map_values(|l: usize| BullsharkAction::RecordLatency(l))
                        =~= lats@.take(i as int).map_values(|l: usize| BullsharkAction::RecordLatency(l)).push(
                        BullsharkAction::RecordLatency(lats@[i as int])));
                }
                i = i + 1;
            }
            proof {
                assert(lats@.take(lats@.len() as int) =~= lats@);
                assert(ordering_step(dag_before, x.view(), self.dag, lats@, self_pid, now));
                let ghost done2 = done.push(x.view());
                let ghost dags2 = dags.push(self.dag);
                let ghost latss2 = latss.push(lats@);
                assert(latss2.drop_last() =~= latss);
                assert(latency_actions(latss2) == latency_actions(latss) + lats@.map_values(|l: usize| BullsharkAction::RecordLatency(l)));
                assert(actions@ =~= acts0 + latency_actions(latss2));
                assert(done2 =~= all.take(all.len() - stack@.len()));
                assert forall|k: int| #![trigger done2[k]] 0 <= k < done2.len() implies ordering_step(dags2[k], done2[k], dags2[k + 1], latss2[k], self_pid, now) by {
                    if k < done.len() {
                        assert(done2[k] == done[k] && dags2[k] == dags[k] && dags2[k + 1] == dags[k + 1] && latss2[k] == latss[k]);
                    }
                }
                done = done2;
                dags = dags2;
                latss = latss2;
            }
        }
        proof {
            assert(done =~= all);
        }
        let ghost dag_pre_gc = self.dag;
        self.dag.gc(self.last_ordered_round);
        proof {
            assert(Bullshark::dag_kept(old(self).dag, self.dag));
            Bullshark::lemma_tracks(*old(self), *self);
            assert(actions@.subrange(0, old(actions)@.len() as int) =~= old(actions)@);
            assert(Bullshark::orders_from_anchor(old(self).dag, old(self).last_ordered_round as nat, old(self).procs(), *self,
                anchor.view(), old(actions)@, actions@, self_pid, now));
        }
    }

    /// Commits the anchor two rounds before the leader vertex `vertex` (of an even
    /// round) when enough of the vertices `vertex` has strong edges to vote for it,
    /// and orders from it (see `order_anchors`).
    fn try_ordering(&mut self, vertex: &Vertex, self_pid: Pid, now: usize, actions: &mut Vec<BullsharkAction>)
        requires
            old(self).wf(),
            old(self).procs() >= 1,
        ensures
            final(self).wf(),
            final(self).tracks_all_of(old(self)),
            Bullshark::dag_kept(old(self).dag, final(self).dag),
            forall|id: VertexId| old(self).dag.holds(id) && #[trigger] final(self).dag.holds(id) ==> final(self).dag.vertex(id) == old(self).dag.vertex(id),
            final(self).same_but_dag(old(self)),
            final(self).dag.width() == old(self).dag.width(),
            final(self).dag.offset() + final(self).dag.rows() == old(self).dag.offset() + old(self).dag.rows(),
            final(actions)@.len() >= old(actions)@.len(),
            final(actions)@.subrange(0, old(actions)@.len() as int) == old(actions)@,
            ({
                let commits = commits_anchor(old(self).dag, vertex.view(), old(self).procs());
                &&& commits ==> final(self).last_ordered_round == vertex.round - 2
                &&& commits ==> Bullshark::orders_from_anchor(old(self).dag, old(self).last_ordered_round as nat,
                    old(self).procs(), *final(self), old(self).dag.vertex(voted_anchor(vertex.round, old(self).procs())),
                    old(actions)@, final(actions)@, self_pid, now)
                &&& !commits ==> *final(self) == *old(self) && final(actions)@ == old(actions)@
            }),
            forall|id: VertexId| #[trigger] final(self).dag.holds(id) == (old(self).dag.holds(id) && id.0 >= final(self).dag.offset()),
            final(self).dag.offset() == old(self).dag.offset() || final(self).dag.offset() + 2 <= vertex.round,
    {
        if vertex.round % 2 == 1 || vertex.round == 0 {
            return;
        }
        let anchor = match self.get_anchor(vertex.round - 2) {
            Some(a) => a,
            None => {
                return;
            },
        };
        let aid = (anchor.round, anchor.source);
        let mut count: usize = 0;
        let mut i: usize = 0;
        while i < vertex.strong_edges.len()
            invariant
                self.wf(),
                i <= vertex.strong_edges@.len(),
                count <= i,
                count == votes(self.dag, vertex.strong_edges@.take(i as int), aid),
            decreases vertex.strong_edges@.len() - i,
        {
            proof {
                assert(vertex.strong_edges@.take(i as int + 1).drop_last() =~= vertex.strong_edges@.take(i as int));
            }
            let e = vertex.strong_edges[i];
            if self.dag.holds_vertex(e) {
                let es = self.dag.edges_of(e);
                if contains_vertex_id(&es, aid) {
                    count = count + 1;
                }
            }
            i = i + 1;
        }
        proof {
            assert(vertex.strong_edges@.take(vertex.strong_edges@.len() as int) =~= vertex.strong_edges@);
        }
        if count >= self.direct_commit_threshold() {
            self.order_anchors(anchor, self_pid, now, actions);
        }
    }

    /// Adds the process's own vertex of the current round, whose edges are all held,
    /// as `try_add_to_dag` does with a vertex that does not move the round on.
    fn add_own_vertex(&mut self, vertex: Vertex, self_pid: Pid, now: usize, actions: &mut Vec<BullsharkAction>)
        requires
            old(self).wf(),
            old(self).procs() >= 1,
            vertex_ok(vertex.view(), old(self).procs()),
            admissible(old(self).dag, vertex.view()),
        ensures
            final(self).wf(),
            final(self).tracks_all_of(old(self)),
            Bullshark::dag_kept(old(self).dag, final(self).dag),
            forall|id: VertexId| old(self).dag.holds(id) && #[trigger] final(self).dag.holds(id) && id != vertex.id() ==> final(self).dag.vertex(id) == old(self).dag.vertex(id),
            final(self).dag.holds(vertex.id()) ==> final(self).dag.vertex(vertex.id()) == vertex.view(),
            final(self).keeps_track(vertex.id()),
            final(self).rbcast == old(self).rbcast,
            final(self).round == old(self).round,
            final(self).proc_num == old(self).proc_num,
            final(self).wait == old(self).wait,
            final(self).timer == old(self).timer,
            final(self).pending_commands == old(self).pending_commands,
            final(self).submitted == old(self).submitted,
            final(self).submit_limit == old(self).submit_limit,
            final(self).submit_timer == old(self).submit_timer,
            final(self).submit_interval == old(self).submit_interval,
            final(self).dag.width() == old(self).dag.width(),
            final(self).dag.offset() + final(self).dag.rows() >= old(self).dag.offset() + old(self).dag.rows(),
            final(actions)@.len() >= old(actions)@.len(),
            final(actions)@.subrange(0, old(actions)@.len() as int) == old(actions)@,
            vertex.round % 2 == 1 ==> final(self).last_ordered_round == old(self).last_ordered_round
                && final(actions)@ == old(actions)@,
    {
        let id = (vertex.round, vertex.source);
        proof {
            assert forall|e: VertexId| #[trigger] vertex.strong_edges@.contains(e) && self.dag.live(e) implies self.dag.holds(e) || e == vertex.id() by {
                assert(vertex.view().edges.contains(e));
            }
        }
        self.dag.add_vertex(copy_vertex(&vertex));
        let ghost s1 = *self;
        self.buffer_remove(id);
        let ghost s2 = *self;
        proof {
            assert forall|v: Vertex| #[trigger] old(self).buffer@.contains(v) implies s2.buffer@.contains(v)
                || s2.dag.holds(v.id()) || v.round <= s2.dag.offset() by {
                if v.id() != id {
                    let i = choose|i: int| 0 <= i < s1.buffer@.len() && s1.buffer@[i] == v;
                    assert(s1.buffer@[i].id() != id);
                }
            }
            Bullshark::lemma_tracks(*old(self), s2);
            assert(s2.dag.holds(vertex.id()));
        }
        if vertex.source == self.get_leader_id(vertex.round) {
            self.try_ordering(&vertex, self_pid, now, actions);
            proof {
                Bullshark::lemma_tracks_trans(*old(self), s2, *self);
                assert(s2.keeps_track(vertex.id()));
            }
        }
    }

    /// Creates the process's vertex of `round`, adds it to the DAG, and broadcasts it.
    fn broadcast_vertex(&mut self, round: usize, self_pid: Pid, now: usize, actions: &mut Vec<BullsharkAction>)
        requires
            old(self).wf(),
            old(self).procs() >= 1,
            self_pid <= old(self).procs(),
            round >= 1,
            round + 3 <= usize::MAX,
            old(self).dag.offset() <= round - 1 < old(self).dag.offset() + old(self).dag.rows(),
        ensures
            final(self).wf(),
            final(self).tracks_all_of(old(self)),
            Bullshark::dag_kept(old(self).dag, final(self).dag),
            forall|id: VertexId| old(self).dag.holds(id) && #[trigger] final(self).dag.holds(id) && id != (round, self_pid) ==> final(self).dag.vertex(id) == old(self).dag.vertex(id),
            final(self).round == old(self).round,
            final(self).proc_num == old(self).proc_num,
            final(self).wait == old(self).wait,
            final(self).timer == old(self).timer,
            final(self).submitted == old(self).submitted,
            final(self).submit_limit == old(self).submit_limit,
            final(self).submit_timer == old(self).submit_timer,
            final(self).submit_interval == old(self).submit_interval,
            final(self).pending() == Map::<CmdId, Command>::empty(),
            final(self).dag.width() == old(self).dag.width(),
            final(actions)@.len() > old(actions)@.len(),
            final(actions)@.subrange(0, old(actions)@.len() as int) == old(actions)@,
            broadcasts_own_vertex(final(actions)@.last(), old(self).dag, round, self_pid, now,
                old(self).pending_order().map_values(|k: CmdId| old(self).pending()[k])),
            round % 2 == 1 ==> final(self).last_ordered_round == old(self).last_ordered_round
                && final(actions)@.len() == old(actions)@.len() + 1,
    {
        let v = self.create_vertex(round, self_pid, now);
        proof {
            lemma_held_ids(self.dag, (round - 1) as usize, self.dag.width());
            assert forall|e: VertexId| #[trigger] v.view().edges.contains(e) implies e.0 + 1 == v.round
                && e.1 <= self.proc_num && self.dag.holds(e) by {}
            assert(vertex_ok(v.view(), self.procs()));
            assert(admissible(self.dag, v.view()));
        }
        let ghost s0 = *self;
        self.add_own_vertex(copy_vertex(&v), self_pid, now, actions);
        proof {
            Bullshark::lemma_tracks(*old(self), s0);
            Bullshark::lemma_tracks_trans(*old(self), s0, *self);
        }
        let ghost s1 = *self;
        let ghost acts = actions@;
        let ghost msgs = self.rbcast.messages();
        let init = self.rbcast.reliably_broadcast(VertexMessage { proc_num: self.proc_num, typ: VertexType::Vertex(v) }, self_pid);
        proof {
            assert forall|id: CmdId| #[trigger] self.rbcast.messages().contains_key(id)
                implies vertex_ok(self.rbcast.messages()[id].0.vertex, self.proc_num as nat) by {
                if msgs.contains_key(id) && self.rbcast.messages()[id] == msgs[id] {
                } else {
                    assert(self.rbcast.messages()[id].0.vertex == v.view());
                }
            }
        }
        actions.push(BullsharkAction::Broadcast(init));
        assert(actions@.subrange(0, old(actions)@.len() as int) =~= acts.subrange(0, old(actions)@.len() as int));
        proof {
            Bullshark::lemma_tracks(s1, *self);
            Bullshark::lemma_tracks_trans(*old(self), s1, *self);
        }
    }

    /// Moves to the next round when a quorum of the current round is known: arms the
    /// round timer and broadcasts the process's vertex of the new round (rounds too
    /// close to the largest integer are not entered).
    fn try_advance_round(&mut self, self_pid: Pid, now: usize, actions: &mut Vec<BullsharkAction>)
        requires
            old(self).wf(),
            old(self).procs() >= 1,
            self_pid <= old(self).procs(),
        ensures
            final(self).wf(),
            final(self).tracks_all_of(old(self)),
            Bullshark::dag_kept(old(self).dag, final(self).dag),
            final(self).proc_num == old(self).proc_num,
            final(self).submitted == old(self).submitted,
            final(self).submit_limit == old(self).submit_limit,
            final(self).submit_timer == old(self).submit_timer,
            final(self).submit_interval == old(self).submit_interval,
            final(self).dag.width() == old(self).dag.width(),
            ({
                let advances = old(self).round + 4 <= usize::MAX
                    && old(self).dag.offset() <= old(self).round < old(self).dag.offset() + old(self).dag.rows()
                    && held_count(old(self).dag, old(self).round, old(self).dag.width()) >= 2 * ((old(self).procs() - 1) / 3) + 1;
                &&& advances ==> final(self).round == old(self).round + 1 && final(self).wait
                &&& advances ==> final(actions)@.len() > old(actions)@.len() && broadcasts_own_vertex(final(actions)@.last(),
                    old(self).dag, (old(self).round + 1) as usize, self_pid, now,
                    old(self).pending_order().map_values(|k: CmdId| old(self).pending()[k]))
                &&& !advances ==> *final(self) == *old(self) && final(actions)@ == old(actions)@
            }),
            old(self).round % 2 == 0 ==> final(self).last_ordered_round == old(self).last_ordered_round
                && final(actions)@.len() <= old(actions)@.len() + 2
                && forall|k: int| old(actions)@.len() <= k < final(actions)@.len() ==> !(#[trigger] final(actions)@[k] is RecordLatency),
            final(self).pending_commands@.dom().subset_of(old(self).pending_commands@.dom()),
            final(actions)@.len() >= old(actions)@.len(),
            final(actions)@.subrange(0, old(actions)@.len() as int) == old(actions)@,
    {
        if self.round < usize::MAX - 3 && self.dag.keeps_round(self.round) && self.quorum_reached_for_round(self.round) {
            self.round = self.round + 1;
            let ghost acts = actions@;
            self.start_timer(actions);
            let ghost s0 = *self;
            let ghost acts_t = actions@;
            self.broadcast_vertex(self.round, self_pid, now, actions);
            assert(actions@.subrange(0, old(actions)@.len() as int) =~= acts.subrange(0, old(actions)@.len() as int));
            proof {
                if old(self).round % 2 == 0 {
                    assert(actions@.subrange(0, acts_t.len() as int) == acts_t);
                    assert forall|k: int| old(actions)@.len() <= k < actions@.len() implies !(#[trigger] actions@[k] is RecordLatency) by {
                        if k < acts_t.len() {
                            assert(actions@[k] == actions@.subrange(0, acts_t.len() as int)[k]);
                            assert(acts_t[k] == BullsharkAction::StartRoundTimer);
                        } else {
                            assert(k == actions@.len() - 1);
                        }
                    }
                }
            }
            proof {
                Bullshark::lemma_tracks(*old(self), s0);
                Bullshark::lemma_tracks_trans(*old(self), s0, *self);
            }
        }
    }

    /// Tries to take `vertex` into the DAG (see `admissible`); a vertex of a round
    /// already collected counts as taken. A taken vertex leaves the buffer, may move
    /// the process to its round (when a quorum of that round is known), and, when it
    /// is its round's leader vertex, may commit an anchor (see `try_ordering`).
    fn try_add_to_dag(&mut self, vertex: Vertex, self_pid: Pid, now: usize, actions: &mut Vec<BullsharkAction>) -> (b: bool)
        requires
            old(self).wf(),
            old(self).procs() >= 1,
            self_pid <= old(self).procs(),
            vertex_ok(vertex.view(), old(self).procs()),
        ensures
            final(self).wf(),
            final(self).tracks_all_of(old(self)),
            Bullshark::dag_kept(old(self).dag, final(self).dag),
            b && vertex.round > old(self).dag.offset() ==> vertex.round <= final(self).dag.offset()
                || (final(self).dag.holds(vertex.id()) && (final(self).dag.vertex(vertex.id()) == vertex.view() || vertex.source == self_pid)),
            b ==> final(self).keeps_track(vertex.id()),
            b && vertex.round > old(self).dag.offset() && old(self).round >= vertex.round
                && vertex.source == leader(vertex.round as nat, old(self).procs())
                && commits_anchor(old(self).dag, vertex.view(), old(self).procs())
                ==> final(self).last_ordered_round == vertex.round - 2 && exists|added: RoundBasedDAG|
                    with_vertex(old(self).dag, vertex.view(), added) && Bullshark::orders_from_anchor(added,
                    old(self).last_ordered_round as nat, old(self).procs(), *final(self),
                    old(self).dag.vertex(voted_anchor(vertex.round, old(self).procs())), old(actions)@, final(actions)@, self_pid, now),
            final(self).proc_num == old(self).proc_num,
            final(self).submitted == old(self).submitted,
            final(self).submit_limit == old(self).submit_limit,
            final(self).submit_timer == old(self).submit_timer,
            final(self).submit_interval == old(self).submit_interval,
            final(self).dag.width() == old(self).dag.width(),
            final(self).round >= old(self).round,
            old(self).round >= vertex.round ==> final(self).round == old(self).round && final(self).wait == old(self).wait,
            vertex.round <= old(self).dag.offset() ==> final(self).dag == old(self).dag,
            b && vertex.round > old(self).dag.offset() && old(self).round >= vertex.round ==> {
                &&& final(self).dag.offset() < vertex.round
                &&& final(self).dag.offset() + final(self).dag.rows() == if old(self).dag.offset() + old(self).dag.rows() <= vertex.round {
                    vertex.round + 1
                } else {
                    (old(self).dag.offset() + old(self).dag.rows()) as int
                }
                &&& forall|id: VertexId| id.0 + 1 >= vertex.round ==> #[trigger] final(self).dag.holds(id)
                    == (old(self).dag.holds(id) || id == vertex.id())
                &&& forall|id: VertexId| id.0 + 1 >= vertex.round && final(self).dag.holds(id) ==> #[trigger] final(self).dag.vertex(id)
                    == if id == vertex.id() { vertex.view() } else { old(self).dag.vertex(id) }
            },
            b == (vertex.round <= old(self).dag.offset() || admissible(old(self).dag, vertex.view())),
            !b ==> *final(self) == *old(self) && final(actions)@ == old(actions)@,
            final(self).pending_commands@.dom().subset_of(old(self).pending_commands@.dom()),
            b ==> forall|i: int| 0 <= i < final(self).buffer@.len() ==> (#[trigger] final(self).buffer@[i]).id() != vertex.id(),
            final(actions)@.len() >= old(actions)@.len(),
            final(actions)@.subrange(0, old(actions)@.len() as int) == old(actions)@,
    {
        let id = (vertex.round, vertex.source);
        if vertex.round <= self.dag.min_round() {
            self.buffer_remove(id);
            proof {
                assert forall|v: Vertex| #[trigger] old(self).buffer@.contains(v) implies self.buffer@.contains(v)
                    || self.dag.holds(v.id()) || v.round <= self.dag.offset() by {
                    if v.id() != id {
                        let i = choose|i: int| 0 <= i < old(self).buffer@.len() && old(self).buffer@[i] == v;
                        assert(old(self).buffer@[i].id() != id);
                    }
                }
                Bullshark::lemma_tracks(*old(self), *self);
            }
            return true;
        }
        let max = self.dag.current_max_allocated_round();
        if vertex.round - 1 > max || vertex.round > usize::MAX - 3 {
            return false;
        }
        let mut i: usize = 0;
        let mut known = true;
        while i < vertex.strong_edges.len() && known
            invariant
                self.wf(),
                i <= vertex.strong_edges@.len(),
                known ==> forall|j: int| 0 <= j < i ==> self.dag.holds(#[trigger] vertex.strong_edges@[j]),
                !known ==> exists|j: int| 0 <= j < vertex.strong_edges@.len() && !self.dag.holds(#[trigger] vertex.strong_edges@[j]),
            decreases vertex.strong_edges@.len() - i,
        {
            if !self.dag.holds_vertex(vertex.strong_edges[i]) {
                known = false;
            }
            i = i + 1;
        }
        if !known {
            proof {
                let j = choose|j: int| 0 <= j < vertex.strong_edges@.len() && !self.dag.holds(#[trigger] vertex.strong_edges@[j]);
                assert(vertex.view().edges.contains(vertex.strong_edges@[j]));
            }
            return false;
        }
        proof {
            assert forall|e: VertexId| #[trigger] vertex.view().edges.contains(e) implies self.dag.holds(e) by {
                let j = choose|j: int| 0 <= j < vertex.strong_edges@.len() && vertex.strong_edges@[j] == e;
            }
            assert forall|e: VertexId| #[trigger] vertex.strong_edges@.contains(e) && self.dag.live(e) implies self.dag.holds(e) || e == vertex.id() by {
                assert(vertex.view().edges.contains(e));
            }
            assert(admissible(self.dag, vertex.view()));
        }
        let round = vertex.round;
        let ghost acts = actions@;
        self.dag.add_vertex(copy_vertex(&vertex));
        let ghost s1 = *self;
        proof {
            Bullshark::lemma_tracks(*old(self), s1);
        }
        if self.quorum_reached_for_round(round) && round > self.round {
            self.round = round;
            self.start_timer(actions);
            let ghost acts1 = actions@;
            assert(extends(acts1, acts)) by {
                assert(acts1.subrange(0, acts.len() as int) =~= acts);
            }
            let ghost s1b = *self;
            self.broadcast_vertex(round, self_pid, now, actions);
            proof {
                lemma_extends_trans(acts, acts1, actions@);
                Bullshark::lemma_tracks(s1, s1b);
                Bullshark::lemma_tracks_trans(s1, s1b, *self);
            }
        }
        let ghost s2 = *self;
        proof {
            Bullshark::lemma_tracks_trans(*old(self), s1, s2);
            assert(s1.dag.holds(vertex.id()));
            assert(s2.dag.holds(vertex.id()) || vertex.round <= s2.dag.offset());
        }
        proof {
            if actions@ == acts {
                assert(actions@.subrange(0, acts.len() as int) =~= acts);
            }
        }
        self.buffer_remove(id);
        let ghost s3 = *self;
        proof {
            assert forall|v: Vertex| #[trigger] s2.buffer@.contains(v) implies s3.buffer@.contains(v)
                || s3.dag.holds(v.id()) || v.round <= s3.dag.offset() by {
                if v.id() != id {
                    let i = choose|i: int| 0 <= i < s2.buffer@.len() && s2.buffer@[i] == v;
                    assert(s2.buffer@[i].id() != id);
                }
            }
            Bullshark::lemma_tracks(s2, s3);
            Bullshark::lemma_tracks_trans(*old(self), s2, s3);
            assert(s3.keeps_track(vertex.id()));
        }
        let ghost acts2 = actions@;
        if vertex.source == self.get_leader_id(round) {
            self.try_ordering(&vertex, self_pid, now, actions);
            proof {
                Bullshark::lemma_tracks_trans(*old(self), s3, *self);
                lemma_extends_trans(acts, acts2, actions@);
                let a = ((round - 2) as usize, leader((round - 2) as nat, old(self).procs()) as usize);
                if old(self).round >= round && round % 2 == 0 && round >= 2 {
                    assert(s3.dag == s1.dag);
                    assert(with_vertex(old(self).dag, vertex.view(), s3.dag));
                    assert(acts2 == old(actions)@);
                    assert forall|e: VertexId| #[trigger] vertex.strong_edges@.contains(e) implies old(self).dag.holds(e) == s3.dag.holds(e)
                        && (old(self).dag.holds(e) ==> old(self).dag.vertex(e) == s3.dag.vertex(e)) by {
                        assert(vertex.view().edges.contains(e));
                        assert(e != vertex.id());
                    }
                    lemma_votes_agree(old(self).dag, s3.dag, vertex.strong_edges@, a);
                    assert(a != vertex.id());
                }
            }
        }
        assert(extends(actions@, acts));
        true
    }

    /// Starts the process as `self_pid` in a pool of `pool_len` processes at `now`:
    /// gives the delay of the first submit timer (when it has commands to submit)
    /// and the initiation of the broadcast of its genesis vertex.
    pub fn on_start(&mut self, self_pid: Pid, pool_len: usize, now: usize) -> (out: (Option<usize>, BCBMessage))
        requires
            old(self).wf(),
            old(self).procs() == 0,
            old(self).spec_dag().rows() == 0,
            pool_len < usize::MAX,
            self_pid <= pool_len,
        ensures
            final(self).wf(),
            final(self).procs() == pool_len,
            final(self).current_round() == old(self).current_round(),
            final(self).spec_dag().rows() == 0,
            final(self).spec_dag().width() == pool_len + 1,
            out.0 == if old(self).limit() != 0 { Some(old(self).interval()) } else { None::<usize> },
            out.1 matches BCBMessage::Initiate(_, m) && m.proc_num == pool_len && m.typ is Genesis
                && m.vertex().round == 0 && m.vertex().source == self_pid && m.vertex().creation_time == now
                && m.vertex().strong_edges@.len() == 0 && m.vertex().commands@.len() == 0,
            out.1 matches BCBMessage::Initiate(id, m) && id == (CmdId { pid: self_pid, id: old(self).broadcast().next_number() as usize })
                && final(self).broadcast().messages() == old(self).broadcast().messages().insert(id, (m.view(), 0usize)),
            final(self).broadcast().procs() == pool_len,
            final(self).broadcast().waiting() == old(self).broadcast().waiting(),
            final(self).broadcast().next_number() == if old(self).broadcast().next_number() < usize::MAX {
                old(self).broadcast().next_number() + 1
            } else {
                0
            },
            final(self).spec_dag().offset() == old(self).spec_dag().offset(),
            final(self).buffered() == old(self).buffered(),
            final(self).pending() == old(self).pending(),
            final(self).waiting() == old(self).waiting(),
            final(self).last_ordered() == old(self).last_ordered(),
            final(self).submit_count() == old(self).submit_count(),
            final(self).limit() == old(self).limit(),
            final(self).interval() == old(self).interval(),
            final(self).submit_timer_id() == old(self).submit_timer_id(),
            final(self).round_timer_id() == old(self).round_timer_id(),
    {
        let delay = if self.submit_limit != 0 { Some(self.submit_interval) } else { None };
        self.proc_num = pool_len;
        self.dag.set_round_size(pool_len);
        self.rbcast.on_start(pool_len);
        let genesis = Vertex {
            round: 0,
            source: self_pid,
            creation_time: now,
            strong_edges: Vec::new(),
            commands: Vec::new(),
        };
        let ghost gv = genesis.view();
        let ghost msgs = self.rbcast.messages();
        let init = self.rbcast.reliably_broadcast(VertexMessage { proc_num: pool_len, typ: VertexType::Genesis(genesis) }, self_pid);
        proof {
            assert(vertex_ok(gv, pool_len as nat));
            assert forall|id: CmdId| #[trigger] self.rbcast.messages().contains_key(id)
                implies vertex_ok(self.rbcast.messages()[id].0.vertex, self.proc_num as nat) by {
                if msgs.contains_key(id) && self.rbcast.messages()[id] == msgs[id] {
                    let v = old(self).rbcast.messages()[id].0.vertex;
                    assert(vertex_ok(v, old(self).proc_num as nat));
                    assert forall|e: VertexId| #[trigger] v.edges.contains(e) implies e.0 + 1 == v.round && e.1 <= self.proc_num by {}
                }
            }
            assert forall|i: int| 0 <= i < self.buffer@.len() implies vertex_ok((#[trigger] self.buffer@[i]).view(), self.proc_num as nat) by {
                let v = old(self).buffer@[i].view();
                assert(vertex_ok(v, old(self).proc_num as nat));
                assert forall|e: VertexId| #[trigger] v.edges.contains(e) implies e.0 + 1 == v.round && e.1 <= self.proc_num by {}
            }
        }
        (delay, init)
    }

    /// Keeps the submitted command `cmd` until a vertex carries it, unless one of its
    /// identity is already kept.
    pub fn on_submit(&mut self, cmd: Command)
        requires
            old(self).wf(),
        ensures
            final(self).wf(),
            final(self).pending() == if old(self).pending().contains_key(cmd.id) {
                old(self).pending()
            } else {
                old(self).pending().insert(cmd.id, cmd)
            },
            final(self).current_round() == old(self).current_round(),
            final(self).spec_dag() == old(self).spec_dag(),
            final(self).buffered() == old(self).buffered(),
            final(self).broadcast() == old(self).broadcast(),
            final(self).waiting() == old(self).waiting(),
            final(self).last_ordered() == old(self).last_ordered(),
            final(self).procs() == old(self).procs(),
            final(self).round_timer_id() == old(self).round_timer_id(),
            final(self).submit_timer_id() == old(self).submit_timer_id(),
            final(self).submit_count() == old(self).submit_count(),
            final(self).limit() == old(self).limit(),
            final(self).interval() == old(self).interval(),
    {
        if !self.pending_commands.contains_key(&cmd.id) {
            self.pending_commands.insert(cmd.id, cmd);
        }
    }

    /// Adds a delivered genesis vertex whose round is kept and whose strong edges are
    /// all held (other ones are left out).
    fn add_genesis(&mut self, vertex: Vertex)
        requires
            old(self).wf(),
            vertex_ok(vertex.view(), old(self).procs()),
        ensures
            final(self).wf(),
            final(self).tracks_all_of(old(self)),
            Bullshark::dag_kept(old(self).dag, final(self).dag),
            final(self).same_but_dag(old(self)),
            final(self).last_ordered_round == old(self).last_ordered_round,
            final(self).dag.width() == old(self).dag.width(),
            ({
                let added = old(self).dag.offset() <= vertex.round <= usize::MAX - 3
                    && forall|j: int| 0 <= j < vertex.strong_edges@.len() ==> old(self).dag.holds(#[trigger] vertex.strong_edges@[j]);
                &&& added ==> {
                    &&& forall|id: VertexId| #[trigger] final(self).dag.holds(id) == (old(self).dag.holds(id) || id == vertex.id())
                    &&& final(self).dag.vertex(vertex.id()) == vertex.view()
                    &&& forall|id: VertexId| old(self).dag.holds(id) && id != vertex.id()
                        ==> #[trigger] final(self).dag.vertex(id) == old(self).dag.vertex(id)
                    &&& final(self).dag.offset() == old(self).dag.offset()
                    &&& final(self).dag.rows() == if old(self).dag.offset() + old(self).dag.rows() <= vertex.round {
                        (vertex.round + 1 - old(self).dag.offset()) as nat
                    } else {
                        old(self).dag.rows()
                    }
                    &&& forall|id: VertexId| #[trigger] final(self).dag.is_ordered(id) == old(self).dag.is_ordered(id)
                }
                &&& !added ==> *final(self) == *old(self)
            }),
    {
        if vertex.round < self.dag.min_round() || vertex.round > usize::MAX - 3 {
            return;
        }
        let mut i: usize = 0;
        let mut known = true;
        while i < vertex.strong_edges.len() && known
            invariant
                self.wf(),
                i <= vertex.strong_edges@.len(),
                known ==> forall|j: int| 0 <= j < i ==> self.dag.holds(#[trigger] vertex.strong_edges@[j]),
                !known ==> exists|j: int| 0 <= j < vertex.strong_edges@.len() && !self.dag.holds(#[trigger] vertex.strong_edges@[j]),
                *self == *old(self),
            decreases vertex.strong_edges@.len() - i,
        {
            if !self.dag.holds_vertex(vertex.strong_edges[i]) {
                known = false;
            }
            i = i + 1;
        }
        if known {
            proof {
                assert forall|e: VertexId| #[trigger] vertex.strong_edges@.contains(e) && self.dag.live(e)
                    implies self.dag.holds(e) || e == vertex.id() by {
                    let j = choose|j: int| 0 <= j < vertex.strong_edges@.len() && vertex.strong_edges@[j] == e;
                }
            }
            self.dag.add_vertex(vertex);
            proof {
                Bullshark::lemma_tracks(*old(self), *self);
            }
        }
    }

    /// The number of vertices of `round` with a strong edge to `anchor`.
    fn count_supporters(&self, round: usize, anchor: VertexId) -> (n: usize)
        requires
            self.wf(),
            self.dag.offset() <= round < self.dag.offset() + self.dag.rows(),
        ensures
            n == supporters(self.dag, round, anchor, self.dag.width()),
    {
        let row = self.dag.row(round);
        let mut count: usize = 0;
        let mut s: usize = 0;
        while s < row.len()
            invariant
                self.wf(),
                row@.len() == self.dag.width(),
                forall|t: int| 0 <= t < row@.len() ==> (#[trigger] row@[t] is Some) == self.dag.holds((round, t as usize)),
                forall|t: int| 0 <= t < row@.len() && row@[t] is Some ==> #[trigger] row@[t]->0.view() == self.dag.vertex((round, t as usize)),
                s <= row@.len(),
                count == supporters(self.dag, round, anchor, s as nat),
                count <= s,
            decreases row@.len() - s,
        {
            match &row[s] {
                Some(v) => {
                    assert(row@[s as int]->0.view() == self.dag.vertex((round, s)));
                    if contains_vertex_id(&v.strong_edges, anchor) {
                        count = count + 1;
                    }
                },
                None => {},
            }
            s = s + 1;
        }
        count
    }

    /// Copies of the buffered vertices, in identity order.
    fn buffered_copies(&self) -> (out: Vec<Vertex>)
        requires
            self.wf(),
        ensures
            out@.len() == self.buffer@.len(),
            forall|i: int| 0 <= i < out@.len() ==> (#[trigger] out@[i]).view() == self.buffer@[i].view(),
    {
        let mut out: Vec<Vertex> = Vec::new();
        let mut i: usize = 0;
        while i < self.buffer.len()
            invariant
                i <= self.buffer@.len(),
                out@.len() == i,
                forall|j: int| 0 <= j < i ==> (#[trigger] out@[j]).view() == self.buffer@[j].view(),
            decreases self.buffer@.len() - i,
        {
            out.push(copy_vertex(&self.buffer[i]));
            i = i + 1;
        }
        out
    }

    /// Handles a delivered vertex `vertex` received from `from`: a vertex with too few
    /// strong edges or not from its source is dropped; otherwise its commands are no
    /// longer pending, the buffered vertices are tried again in identity order, and
    /// the vertex is tried (and buffered if it does not go in). A vertex of the
    /// current round then moves the process on: at once when it no longer waits;
    /// in an even round when the round's anchor is known; in an odd round when a
    /// quorum of the round's vertices have a strong edge to the previous anchor.
    fn on_vertex(&mut self, from: Pid, vertex: Vertex, self_pid: Pid, now: usize, actions: &mut Vec<BullsharkAction>)
        requires
            old(self).wf(),
            old(self).procs() >= 1,
            self_pid <= old(self).procs(),
            vertex_ok(vertex.view(), old(self).procs()),
        ensures
            final(self).wf(),
            final(self).tracks_all_of(old(self)),
            Bullshark::dag_kept(old(self).dag, final(self).dag),
            !refused(vertex.view(), from, old(self).procs()) ==> final(self).keeps_track(vertex.id()),
            final(self).proc_num == old(self).proc_num,
            final(self).round >= old(self).round,
            final(self).submitted == old(self).submitted,
            final(self).submit_limit == old(self).submit_limit,
            final(self).submit_timer == old(self).submit_timer,
            final(self).submit_interval == old(self).submit_interval,
            final(self).dag.width() == old(self).dag.width(),
            extends(final(actions)@, old(actions)@),
            (vertex.strong_edges@.len() < 2 * ((old(self).procs() - 1) / 3) + 1 || from != vertex.source)
                ==> *final(self) == *old(self) && final(actions)@ == old(actions)@,
            !(vertex.strong_edges@.len() < 2 * ((old(self).procs() - 1) / 3) + 1 || from != vertex.source)
                ==> forall|i: int| 0 <= i < vertex.commands@.len()
                    ==> !final(self).pending().contains_key(#[trigger] vertex.commands@[i].id),
            !refused(vertex.view(), from, old(self).procs()) && admissible(old(self).dag, vertex.view())
                ==> final(self).dag.holds(vertex.id()) || vertex.round <= final(self).dag.offset(),
            !refused(vertex.view(), from, old(self).procs()) ==> admitted_all(old(self).buffered(), old(self).dag, final(self).dag),
            !refused(vertex.view(), from, old(self).procs()) && vertex.round - 1 <= max_allocated(old(self).dag)
                && vertex.round + 3 <= usize::MAX && edges_held_or_admitted(old(self).dag, old(self).buffered(), vertex.view())
                ==> final(self).dag.holds(vertex.id()) || vertex.round <= final(self).dag.offset() + 1,
            !refused(vertex.view(), from, old(self).procs()) && old(self).round == vertex.round && final(self).round == old(self).round
                ==> !moves_on(final(self).dag, final(self).round as nat, final(self).wait, old(self).procs()),
            !refused(vertex.view(), from, old(self).procs()) && old(self).buffer@.len() == 0 && old(self).round == vertex.round
                ==> forall|d: RoundBasedDAG| #[trigger] taken_dag(old(self).dag, vertex.view(), d) ==> final(self).round
                    == if moves_on(d, old(self).round as nat, old(self).wait, old(self).procs()) {
                    old(self).round + 1
                } else {
                    old(self).round as int
                },
            !refused(vertex.view(), from, old(self).procs()) && old(self).buffer@.len() == 0
                && vertex.round > old(self).dag.offset() && admissible(old(self).dag, vertex.view())
                && old(self).round >= vertex.round && vertex.source == leader(vertex.round as nat, old(self).procs())
                && commits_anchor(old(self).dag, vertex.view(), old(self).procs())
                ==> final(self).last_ordered_round == vertex.round - 2 && exists|added: RoundBasedDAG, s1: Bullshark,
                    acts1: Seq<BullsharkAction>| {
                    &&& with_vertex(old(self).dag, vertex.view(), added)
                    &&& Bullshark::orders_from_anchor(added, old(self).last_ordered_round as nat, old(self).procs(), s1,
                        old(self).dag.vertex(voted_anchor(vertex.round, old(self).procs())), old(actions)@, acts1, self_pid, now)
                    &&& extends(final(actions)@, acts1)
                    &&& final(actions)@.len() <= acts1.len() + 2
                    &&& forall|k: int| acts1.len() <= k < final(actions)@.len() ==> !(#[trigger] final(actions)@[k] is RecordLatency)
                },
    {
        proof {
            assert(old(actions)@.subrange(0, old(actions)@.len() as int) =~= old(actions)@);
        }
        if self.bad_vertex(&vertex, from) {
            return;
        }
        let mut c: usize = 0;
        while c < vertex.commands.len()
            invariant
                self.wf(),
                self.proc_num == old(self).proc_num,
                self.round == old(self).round,
                self.submitted == old(self).submitted,
                self.submit_limit == old(self).submit_limit,
                self.submit_timer == old(self).submit_timer,
                self.submit_interval == old(self).submit_interval,
                self.dag == old(self).dag,
                self.buffer == old(self).buffer,
                self.last_ordered_round == old(self).last_ordered_round,
                self.wait == old(self).wait,
                c <= vertex.commands@.len(),
                forall|i: int| 0 <= i < c ==> !self.pending_commands@.contains_key(#[trigger] vertex.commands@[i].id),
            decreases vertex.commands@.len() - c,
        {
            self.pending_commands.remove(&vertex.commands[c].id);
            c = c + 1;
        }
        proof {
            Bullshark::lemma_tracks(*old(self), *self);
        }
        let buffered = self.buffered_copies();
        let ghost sb = *self;
        let mut k: usize = 0;
        while k < buffered.len()
            invariant
                buffered@.len() == 0 ==> *self == sb && actions@ == old(actions)@,
                self.wf(),
                self.procs() >= 1,
                self_pid <= self.procs(),
                self.proc_num == old(self).proc_num,
                self.round >= old(self).round,
                self.submitted == old(self).submitted,
                self.submit_limit == old(self).submit_limit,
                self.submit_timer == old(self).submit_timer,
                self.submit_interval == old(self).submit_interval,
                self.dag.width() == old(self).dag.width(),
                forall|i: int| 0 <= i < buffered@.len() ==> vertex_ok((#[trigger] buffered@[i]).view(), self.procs()),
                extends(actions@, old(actions)@),
                k <= buffered@.len(),
                forall|i: int| 0 <= i < vertex.commands@.len() ==> !self.pending_commands@.contains_key(#[trigger] vertex.commands@[i].id),
                self.tracks_all_of(old(self)),
                Bullshark::dag_kept(old(self).dag, self.dag),
                buffered@.len() == old(self).buffered().len(),
                forall|j: int| 0 <= j < buffered@.len() ==> (#[trigger] buffered@[j]).view() == old(self).buffered()[j],
                admitted_below(old(self).buffered(), old(self).dag, self.dag, k as int),
            decreases buffered@.len() - k,
        {
            let b = copy_vertex(&buffered[k]);
            let ghost bv = b.view();
            let ghost a0 = actions@;
            let ghost sk = *self;
            let added = self.try_add_to_dag(b, self_pid, now, actions);
            proof {
                lemma_extends_trans(old(actions)@, a0, actions@);
                Bullshark::lemma_tracks_trans(*old(self), sk, *self);
                let buf = old(self).buffered();
                assert(bv == buf[k as int]);
                lemma_admitted_below_kept(buf, old(self).dag, sk.dag, self.dag, k as int);
                if admissible(old(self).dag, bv) {
                    lemma_admissible_kept(old(self).dag, sk.dag, bv, self.procs());
                    assert(added);
                }
                assert forall|j: int| 0 <= j < k + 1 && j < buf.len() && admissible(old(self).dag, #[trigger] buf[j])
                    implies self.dag.holds((buf[j].round, buf[j].source)) || buf[j].round <= self.dag.offset() by {
                    if j == k {
                        assert(buf[j] == bv);
                    }
                }
            }
            k = k + 1;
        }
        proof {
            assert(admitted_all(old(self).buffered(), old(self).dag, self.dag));
        }
        let vround = vertex.round;
        let ghost vv = vertex.view();
        let ghost vv_id = vertex.id();
        let ghost a1 = actions@;
        let ghost sa = *self;
        if !self.try_add_to_dag(copy_vertex(&vertex), self_pid, now, actions) {
            let ghost sb = *self;
            self.buffer_insert(vertex);
            proof {
                Bullshark::lemma_tracks_trans(sa, sb, *self);
            }
        }
        proof {
            lemma_extends_trans(old(actions)@, a1, actions@);
            Bullshark::lemma_tracks_trans(*old(self), sa, *self);
            assert(self.keeps_track(vertex.id()));
        }
        let ghost premise = !refused(vv, from, old(self).procs()) && old(self).buffer@.len() == 0
            && vv.round > old(self).dag.offset() && admissible(old(self).dag, vv)
            && old(self).round >= vv.round && vv.source == leader(vv.round as nat, old(self).procs())
            && commits_anchor(old(self).dag, vv, old(self).procs());
        let ghost s1 = *self;
        let ghost acts1 = actions@;
        let ghost added = choose|added: RoundBasedDAG| with_vertex(sa.dag, vv, added) && Bullshark::orders_from_anchor(added,
            sa.last_ordered_round as nat, sa.procs(), s1, sa.dag.vertex(voted_anchor(vv.round, sa.procs())), a1, acts1, self_pid, now);
        proof {
            if !refused(vv, from, old(self).procs()) && admissible(old(self).dag, vv) {
                assert(admissible(sa.dag, vv) || vv.round <= sa.dag.offset()) by {
                    if vv.round > sa.dag.offset() {
                        assert forall|e: VertexId| #[trigger] vv.edges.contains(e) implies sa.dag.holds(e) by {
                            assert(old(self).dag.holds(e));
                            assert(e.0 + 1 == vv.round);
                        }
                    }
                }
                assert(self.dag.holds(vv_id) || vv.round <= self.dag.offset());
            }
            let buf = old(self).buffered();
            if !refused(vv, from, old(self).procs()) && vv.round - 1 <= max_allocated(old(self).dag)
                && vv.round + 3 <= usize::MAX && edges_held_or_admitted(old(self).dag, buf, vv) {
                assert(admissible(sa.dag, vv) || vv.round <= sa.dag.offset() + 1) by {
                    if vv.round > sa.dag.offset() + 1 {
                        assert forall|e: VertexId| #[trigger] vv.edges.contains(e) implies sa.dag.holds(e) by {
                            assert(e.0 + 1 == vv.round);
                            if !old(self).dag.holds(e) {
                                let j = choose|j: int| 0 <= j < buf.len() && admissible(old(self).dag, #[trigger] buf[j])
                                    && (buf[j].round, buf[j].source) == e;
                                assert(admitted_below(buf, old(self).dag, sa.dag, buf.len() as int));
                            }
                        }
                    }
                }
                assert(self.dag.holds(vv_id) || vv.round <= self.dag.offset() + 1);
            }
        }
        proof {
            lemma_admitted_below_kept(old(self).buffered(), old(self).dag, sa.dag, s1.dag, old(self).buffered().len() as int);
        }
        let ghost premise2 = !refused(vv, from, old(self).procs()) && old(self).buffer@.len() == 0 && old(self).round == vv.round;
        proof {
            if premise2 {
                assert(buffered@.len() == 0);
                assert(sa.dag == old(self).dag && sa.round == old(self).round && sa.wait == old(self).wait);
                assert(s1.round == old(self).round && s1.wait == old(self).wait);
                assert forall|d: RoundBasedDAG| #[trigger] taken_dag(old(self).dag, vv, d) implies moves_on(d, old(self).round as nat,
                    old(self).wait, old(self).procs()) == moves_on(s1.dag, old(self).round as nat, old(self).wait, old(self).procs()) by {
                    lemma_moves_on_agree(s1.dag, d, old(self).round as nat, old(self).wait, old(self).procs());
                }
            }
        }
        proof {
            if premise {
                assert(buffered@.len() == 0);
                assert(sa.dag == old(self).dag && sa.last_ordered_round == old(self).last_ordered_round && a1 == old(actions)@);
                assert(sa.round == old(self).round && sa.proc_num == old(self).proc_num);
                assert(with_vertex(old(self).dag, vv, added));
                assert(acts1.subrange(0, acts1.len() as int) =~= acts1);
            }
        }
        if self.round != vround {
            return;
        }
        let ghost a2 = actions@;
        let ghost sc = *self;
        if !self.wait {
            self.try_advance_round(self_pid, now, actions);
            proof {
                lemma_extends_trans(old(actions)@, a2, actions@);
                Bullshark::lemma_tracks_trans(*old(self), sc, *self);
                lemma_admitted_below_kept(old(self).buffered(), old(self).dag, sc.dag, self.dag, old(self).buffered().len() as int);
                assert(sc.keeps_track(vertex.id()));
                if premise {
                    assert(sc.round % 2 == 0);
                }
            }
            return;
        }
        let advance = if self.round % 4 == 0 || self.round % 4 == 2 {
            self.get_anchor(self.round).is_some()
        } else {
            match self.get_anchor(self.round - 1) {
                None => false,
                Some(anchor) => {
                    self.dag.keeps_round(self.round)
                        && self.count_supporters(self.round, (anchor.round, anchor.source)) >= self.quorum_size()
                },
            }
        };
        if advance {
            self.try_advance_round(self_pid, now, actions);
            proof {
                lemma_extends_trans(old(actions)@, a2, actions@);
                Bullshark::lemma_tracks_trans(*old(self), sc, *self);
                lemma_admitted_below_kept(old(self).buffered(), old(self).dag, sc.dag, self.dag, old(self).buffered().len() as int);
                assert(sc.keeps_track(vertex.id()));
                if premise {
                    assert(sc.round % 2 == 0);
                }
            }
        }
    }

    /// Handles the consistent-broadcast message `message` from `from` at `now`: the
    /// broadcast handles it (see `ByzantineConsistentBroadcast::handles`), its reply
    /// and its broadcast are sent, and a delivered vertex is handled: a genesis vertex
    /// is added and the round may move on; another vertex is handled as described at
    /// `on_vertex`. Nothing else changes when nothing is delivered or the delivered
    /// vertex is refused; a vertex that is not refused is kept track of, no vertex is
    /// ever lost track of (see `keeps_track`), and the DAG drops held or ordered
    /// vertices only by collecting their rounds (see `dag_kept`). A delivered leader
    /// vertex that commits the anchor it votes on (see `commits_anchor`), reaching a
    /// process in or past its round with nothing buffered, is added and orders from
    /// that anchor (see `orders_from_anchor`); moving on to the next round then records
    /// no further latency. A delivered vertex that is admissible (see `admissible`)
    /// ends in the DAG, unless its round is collected; so does every buffered vertex
    /// that the DAG admitted before the message, when the delivered vertex is not
    /// refused (see `admitted_all`); and a delivered vertex that is not refused, whose
    /// strong edges lead to held vertices or to buffered vertices that the DAG admitted
    /// (see `edges_held_or_admitted`), ends in the DAG, unless its round is at most one
    /// past the first kept round. A delivered vertex of the
    /// current round, with nothing buffered, moves the process on exactly as
    /// `moves_on` says of the DAG with the vertex taken (see `taken_dag`).
    pub fn on_message(&mut self, from: Pid, message: &BCBMessage, self_pid: Pid, now: usize, actions: &mut Vec<BullsharkAction>)
        requires
            old(self).wf(),
            old(self).procs() >= 1,
            self_pid <= old(self).procs(),
            *message matches BCBMessage::Initiate(_, m) ==> vertex_ok(m.view().vertex, old(self).procs()),
            *message matches BCBMessage::Signature(id) ==> (old(self).broadcast().messages().contains_key(id)
                ==> old(self).broadcast().messages()[id].1 < usize::MAX),
        ensures
            final(self).wf(),
            final(self).procs() == old(self).procs(),
            final(self).current_round() >= old(self).current_round(),
            final(self).submit_count() == old(self).submit_count(),
            final(self).limit() == old(self).limit(),
            final(self).submit_timer_id() == old(self).submit_timer_id(),
            extends(final(actions)@, old(actions)@),
            final(self).tracks_all_of(old(self)),
            Bullshark::dag_kept(old(self).spec_dag(), final(self).spec_dag()),
            exists|b: ByzantineConsistentBroadcast, out: BCBOutput| {
                &&& #[trigger] ByzantineConsistentBroadcast::handles(old(self).broadcast(), b, from, *message, self_pid, out)
                &&& final(actions)@.len() >= old(actions)@.len() + bcast_actions(out).len()
                &&& final(actions)@.subrange(0, (old(actions)@.len() + bcast_actions(out).len()) as int)
                    == old(actions)@ + bcast_actions(out)
                &&& quiet(out, from, old(self).procs()) ==> {
                    &&& final(self).broadcast() == b
                    &&& final(self).spec_dag() == old(self).spec_dag()
                    &&& final(self).current_round() == old(self).current_round()
                    &&& final(self).waiting() == old(self).waiting()
                    &&& final(self).last_ordered() == old(self).last_ordered()
                    &&& final(self).buffered() == old(self).buffered()
                    &&& final(self).pending() == old(self).pending()
                    &&& final(self).round_timer_id() == old(self).round_timer_id()
                    &&& final(actions)@ == old(actions)@ + bcast_actions(out)
                }
                &&& out.deliver matches Some(m) ==> (!m.view().genesis && !refused(m.view().vertex, from, old(self).procs())
                    ==> (forall|c: Command| m.view().vertex.commands.contains(c) ==> !final(self).pending().contains_key(c.id))
                    && final(self).keeps_track((m.view().vertex.round, m.view().vertex.source)))
                &&& out.deliver matches Some(m) ==> ({
                    let v = m.view().vertex;
                    !m.view().genesis && !refused(v, from, old(self).procs()) && old(self).buffered().len() == 0
                        && v.round > old(self).spec_dag().offset() && admissible(old(self).spec_dag(), v)
                        && old(self).current_round() >= v.round && v.source == leader(v.round as nat, old(self).procs())
                        && commits_anchor(old(self).spec_dag(), v, old(self).procs())
                    ==> final(self).last_ordered() == v.round - 2 && exists|added: RoundBasedDAG, s1: Bullshark,
                        acts1: Seq<BullsharkAction>| {
                        &&& with_vertex(old(self).spec_dag(), v, added)
                        &&& Bullshark::orders_from_anchor(added, old(self).last_ordered(), old(self).procs(), s1,
                            old(self).spec_dag().vertex(voted_anchor(v.round, old(self).procs())),
                            old(actions)@ + bcast_actions(out), acts1, self_pid, now)
                        &&& extends(final(actions)@, acts1)
                        &&& final(actions)@.len() <= acts1.len() + 2
                        &&& forall|k: int| acts1.len() <= k < final(actions)@.len() ==> !(#[trigger] final(actions)@[k] is RecordLatency)
                    }
                })
                &&& out.deliver matches Some(m) ==> (!m.view().genesis && !refused(m.view().vertex, from, old(self).procs())
                    ==> admitted_all(old(self).buffered(), old(self).spec_dag(), final(self).spec_dag()))
                &&& out.deliver matches Some(m) ==> ({
                    let v = m.view().vertex;
                    !m.view().genesis && !refused(v, from, old(self).procs()) && v.round - 1 <= max_allocated(old(self).spec_dag())
                        && v.round + 3 <= usize::MAX && edges_held_or_admitted(old(self).spec_dag(), old(self).buffered(), v)
                    ==> final(self).spec_dag().holds((v.round, v.source)) || v.round <= final(self).spec_dag().offset() + 1
                })
                &&& out.deliver matches Some(m) ==> (!m.view().genesis && !refused(m.view().vertex, from, old(self).procs())
                    && admissible(old(self).spec_dag(), m.view().vertex)
                    ==> final(self).spec_dag().holds((m.view().vertex.round, m.view().vertex.source))
                        || m.view().vertex.round <= final(self).spec_dag().offset())
                &&& out.deliver matches Some(m) ==> (!m.view().genesis && !refused(m.view().vertex, from, old(self).procs())
                    && old(self).current_round() == m.view().vertex.round && final(self).current_round() == old(self).current_round()
                    ==> !moves_on(final(self).spec_dag(), final(self).current_round(), final(self).waiting(), old(self).procs()))
                &&& out.deliver matches Some(m) ==> (!m.view().genesis && !refused(m.view().vertex, from, old(self).procs())
                    && old(self).buffered().len() == 0 && old(self).current_round() == m.view().vertex.round
                    ==> forall|d: RoundBasedDAG| #[trigger] taken_dag(old(self).spec_dag(), m.view().vertex, d)
                        ==> final(self).current_round() == if moves_on(d, old(self).current_round(), old(self).waiting(), old(self).procs()) {
                        old(self).current_round() + 1
                    } else {
                        old(self).current_round()
                    })
                &&& out.deliver matches Some(m) ==> (m.view().genesis ==> exists|g: RoundBasedDAG|
                    #[trigger] takes_genesis(old(self).spec_dag(), m.view().vertex, g) && {
                    let round = old(self).current_round();
                    let advances = round + 4 <= usize::MAX && g.offset() <= round < g.offset() + g.rows()
                        && held_count(g, round as usize, g.width()) >= 2 * ((old(self).procs() - 1) / 3) + 1;
                    &&& final(self).current_round() == if advances { round + 1 } else { round }
                    &&& advances ==> final(actions)@.len() > 0 && broadcasts_own_vertex(final(actions)@.last(), g,
                        (round + 1) as usize, self_pid, now, old(self).pending_order().map_values(|k: CmdId| old(self).pending()[k]))
                    &&& !advances ==> final(self).spec_dag() == g && final(actions)@ == old(actions)@ + bcast_actions(out)
                })
            },
    {
        let ghost msgs = self.rbcast.messages();
        let out = self.rbcast.on_message(from, message, self_pid);
        let ghost b = self.rbcast;
        let ghost out_g = out;
        let ghost mid_self = *self;
        proof {
            Bullshark::lemma_tracks(*old(self), mid_self);
        }
        proof {
            assert forall|id: CmdId| #[trigger] self.rbcast.messages().contains_key(id)
                implies vertex_ok(self.rbcast.messages()[id].0.vertex, self.proc_num as nat) by {
                if msgs.contains_key(id) && self.rbcast.messages()[id].0 == msgs[id].0 {
                    assert(vertex_ok(msgs[id].0.vertex, self.proc_num as nat));
                }
            }
            if out.deliver is Some {
                let d = out.deliver->0;
                assert(vertex_ok(d.view().vertex, self.proc_num as nat));
            }
            assert(actions@.subrange(0, actions@.len() as int) =~= actions@);
        }
        match out.reply {
            Some((to, m)) => {
                actions.push(BullsharkAction::Send(to, m));
            },
            None => {},
        }
        match out.broadcast {
            Some(m) => {
                actions.push(BullsharkAction::Broadcast(m));
            },
            None => {},
        }
        proof {
            assert(actions@.subrange(0, old(actions)@.len() as int) =~= old(actions)@);
            assert(actions@ =~= old(actions)@ + bcast_actions(out_g));
        }
        let ghost a1 = actions@;
        match out.deliver {
            None => {},
            Some(m) => {
                match m.typ {
                    VertexType::Genesis(v) => {
                        let ghost gv = v.view();
                        let ghost gadded = self.dag.offset() <= v.round <= usize::MAX - 3
                            && forall|j: int| 0 <= j < v.strong_edges@.len() ==> self.dag.holds(#[trigger] v.strong_edges@[j]);
                        proof {
                            assert(gv.edges == v.strong_edges@);
                        }
                        self.add_genesis(v);
                        let ghost sg = *self;
                        self.try_advance_round(self_pid, now, actions);
                        proof {
                            Bullshark::lemma_tracks_trans(*old(self), mid_self, sg);
                            Bullshark::lemma_tracks_trans(*old(self), sg, *self);
                            assert(mid_self.dag == old(self).dag);
                            assert(gv == m.view().vertex);
                            let od = old(self).dag;
                            let by_index = forall|j: int| 0 <= j < gv.edges.len() ==> od.holds(#[trigger] gv.edges[j]);
                            let by_edge = forall|e: VertexId| #[trigger] gv.edges.contains(e) ==> od.holds(e);
                            assert(by_index ==> by_edge) by {
                                if by_index {
                                    assert forall|e: VertexId| #[trigger] gv.edges.contains(e) implies od.holds(e) by {
                                        let j = choose|j: int| 0 <= j < gv.edges.len() && gv.edges[j] == e;
                                    }
                                }
                            }
                            assert(by_edge ==> by_index) by {
                                if by_edge {
                                    assert forall|j: int| 0 <= j < gv.edges.len() implies od.holds(#[trigger] gv.edges[j]) by {
                                        assert(gv.edges.contains(gv.edges[j]));
                                    }
                                }
                            }
                            assert(gadded == (od.offset() <= gv.round <= usize::MAX - 3 && by_index));
                            if od.offset() <= gv.round <= usize::MAX - 3 && by_edge {
                                assert(gadded);
                                assert(sg.dag.offset() == od.offset());
                                assert(sg.dag.width() == od.width());
                                assert(sg.dag.rows() == if od.offset() + od.rows() <= gv.round { (gv.round + 1 - od.offset()) as nat } else { od.rows() });
                                assert(forall|id: VertexId| #[trigger] sg.dag.holds(id) == (od.holds(id) || id == (gv.round, gv.source)));
                                assert(sg.dag.vertex((gv.round, gv.source)) == gv);
                                assert(forall|id: VertexId| #[trigger] sg.dag.is_ordered(id) == od.is_ordered(id));
                                assert(with_vertex(od, gv, sg.dag));
                            } else {
                                assert(sg.dag == od);
                            }
                            assert(takes_genesis(old(self).spec_dag(), m.view().vertex, sg.dag));
                            assert(sg.pending_commands == old(self).pending_commands);
                            assert(sg.round == old(self).round);
                        }
                    },
                    VertexType::Vertex(v) => {
                        proof {
                            assert(v.view().commands == v.commands@);
                        }
                        let ghost vv = v.view();
                        let ghost pre_v = *self;
                        self.on_vertex(from, v, self_pid, now, actions);
                        proof {
                            assert(vv == m.view().vertex);
                            assert(pre_v.dag == old(self).dag && pre_v.buffer == old(self).buffer && pre_v.round == old(self).round);
                            assert(pre_v.last_ordered_round == old(self).last_ordered_round && pre_v.proc_num == old(self).proc_num);
                            assert(pre_v.wait == old(self).wait);
                            assert(old(self).buffered().len() == old(self).buffer@.len());
                            assert(pre_v.buffered() == old(self).buffered());
                            if !refused(vv, from, old(self).procs()) && old(self).buffer@.len() == 0
                                && vv.round > old(self).dag.offset() && admissible(old(self).dag, vv)
                                && old(self).round >= vv.round && vv.source == leader(vv.round as nat, old(self).procs())
                                && commits_anchor(old(self).dag, vv, old(self).procs()) {
                                let (added, s1, acts1) = choose|added: RoundBasedDAG, s1: Bullshark, acts1: Seq<BullsharkAction>| {
                                    &&& with_vertex(pre_v.dag, vv, added)
                                    &&& Bullshark::orders_from_anchor(added, pre_v.last_ordered_round as nat, pre_v.procs(), s1,
                                        pre_v.dag.vertex(voted_anchor(vv.round, pre_v.procs())), a1, acts1, self_pid, now)
                                    &&& extends(actions@, acts1)
                                    &&& actions@.len() <= acts1.len() + 2
                                    &&& forall|k: int| acts1.len() <= k < actions@.len() ==> !(#[trigger] actions@[k] is RecordLatency)
                                };
                                assert(with_vertex(old(self).spec_dag(), m.view().vertex, added));
                                assert(Bullshark::orders_from_anchor(added, old(self).last_ordered(), old(self).procs(), s1,
                                    old(self).spec_dag().vertex(voted_anchor(vv.round, old(self).procs())),
                                    old(actions)@ + bcast_actions(out_g), acts1, self_pid, now));
                            }
                        }
                        proof {
                            Bullshark::lemma_tracks_trans(*old(self), mid_self, *self);
                            if !refused(v.view(), from, old(self).procs()) {
                                assert forall|c: Command| v.view().commands.contains(c) implies !self.pending().contains_key(c.id) by {
                                    let i = choose|i: int| 0 <= i < v.commands@.len() && v.commands@[i] == c;
                                    assert(!self.pending().contains_key(v.commands@[i].id));
                                }
                            }
                        }
                    },
                }
                proof {
                    lemma_extends_trans(old(actions)@, a1, actions@);
                }
            },
        }
        proof {
            assert(actions@.subrange(0, a1.len() as int) == a1);
            assert(actions@.subrange(0, (old(actions)@.len() + bcast_actions(out_g).len()) as int) =~= old(actions)@ + bcast_actions(out_g));
            assert(ByzantineConsistentBroadcast::handles(old(self).broadcast(), b, from, *message, self_pid, out_g));
        }
    }

    /// Handles the timer `timer_id` on process `self_pid` at `now`: the submit timer
    /// submits a new command on key 0 under `cmd_number` (and asks for the next
    /// submit timer while the limit is not reached); the round timer stops waiting for
    /// the leader and tries to move to the next round.
    pub fn on_timer(&mut self, timer_id: usize, self_pid: Pid, cmd_number: usize, now: usize, actions: &mut Vec<BullsharkAction>)
        requires
            old(self).wf(),
            old(self).procs() >= 1,
            self_pid <= old(self).procs(),
            timer_id == old(self).submit_timer_id() ==> old(self).submit_count() < usize::MAX,
        ensures
            final(self).wf(),
            final(self).procs() == old(self).procs(),
            final(self).current_round() >= old(self).current_round(),
            extends(final(actions)@, old(actions)@),
            final(self).tracks_all_of(old(self)),
            Bullshark::dag_kept(old(self).spec_dag(), final(self).spec_dag()),
            timer_id == old(self).submit_timer_id() ==> {
                let cmd = Command { id: CmdId { pid: self_pid, id: cmd_number }, key: 0 };
                &&& final(self).submit_count() == old(self).submit_count() + 1
                &&& final(self).current_round() == old(self).current_round()
                &&& final(actions)@ == if old(self).submit_count() + 1 < old(self).limit() {
                    old(actions)@.push(BullsharkAction::BroadcastSubmit(cmd)).push(BullsharkAction::StartSubmitTimer(old(self).interval()))
                } else {
                    old(actions)@.push(BullsharkAction::BroadcastSubmit(cmd))
                }
            },
            timer_id != old(self).submit_timer_id() && timer_id != old(self).round_timer_id() ==> *final(self) == *old(self)
                && final(actions)@ == old(actions)@,
            timer_id != old(self).submit_timer_id() && timer_id == old(self).round_timer_id() ==> {
                let advances = old(self).current_round() + 4 <= usize::MAX
                    && old(self).spec_dag().offset() <= old(self).current_round() < old(self).spec_dag().offset() + old(self).spec_dag().rows()
                    && held_count(old(self).spec_dag(), old(self).current_round() as usize, old(self).spec_dag().width())
                        >= 2 * ((old(self).procs() - 1) / 3) + 1;
                &&& final(self).submit_count() == old(self).submit_count()
                &&& final(self).current_round() == if advances { old(self).current_round() + 1 } else { old(self).current_round() }
                &&& final(self).waiting() == advances
                &&& advances ==> final(actions)@.len() > old(actions)@.len() && broadcasts_own_vertex(final(actions)@.last(),
                    old(self).spec_dag(), (old(self).current_round() + 1) as usize, self_pid, now,
                    old(self).pending_order().map_values(|k: CmdId| old(self).pending()[k]))
                &&& !advances ==> final(self).spec_dag() == old(self).spec_dag() && final(actions)@ == old(actions)@
            },
    {
        proof {
            assert(old(actions)@.subrange(0, old(actions)@.len() as int) =~= old(actions)@);
        }
        if timer_id == self.submit_timer {
            let cmd = create_cmd_for_key(0, self_pid, cmd_number);
            actions.push(BullsharkAction::BroadcastSubmit(cmd));
            self.submitted = self.submitted + 1;
            if self.submitted < self.submit_limit {
                actions.push(BullsharkAction::StartSubmitTimer(self.submit_interval));
            }
            proof {
                assert(actions@.subrange(0, old(actions)@.len() as int) =~= old(actions)@);
                Bullshark::lemma_tracks(*old(self), *self);
            }
        } else if timer_id == self.timer {
            self.wait = false;
            let ghost sw = *self;
            proof {
                Bullshark::lemma_tracks(*old(self), sw);
            }
            self.try_advance_round(self_pid, now, actions);
            proof {
                Bullshark::lemma_tracks_trans(*old(self), sw, *self);
            }
        }
    }
}

/// The identities held in a round are held vertices of that round, with a slot.
pub proof fn lemma_held_ids(d: RoundBasedDAG, round: usize, n: nat)
    ensures
        forall|e: VertexId| #[trigger] held_ids(d, round, n).contains(e) ==> e.0 == round && e.1 < n && d.holds(e),
    decreases n,
{
    if n > 0 {
        lemma_held_ids(d, round, (n - 1) as nat);
        let rest = held_ids(d, round, (n - 1) as nat);
        assert forall|e: VertexId| #[trigger] held_ids(d, round, n).contains(e) implies e.0 == round && e.1 < n && d.holds(e) by {
            if d.holds((round, (n - 1) as usize)) {
                let full = rest.push((round, (n - 1) as usize));
                let i = choose|i: int| 0 <= i < full.len() && #[trigger] full[i] == e;
                if i < rest.len() {
                    assert(rest[i] == e);
                    assert(rest.contains(e));
                }
            } else {
                assert(rest.contains(e));
            }
        }
    }
}

} // verus!