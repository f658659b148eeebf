use vstd::prelude::*;

use crate::client::{Command, Pid};

verus! {

/// Identity of a vertex: its round and the process that created it.
pub type VertexId = (usize, Pid);

/// A vertex of the DAG: created by `source` in `round` at `creation_time`, with strong
/// edges to vertices of earlier rounds and the commands it carries.
pub struct Vertex {
    pub round: usize,
    pub source: Pid,
    pub creation_time: usize,
    pub strong_edges: Vec<VertexId>,
    pub commands: Vec<Command>,
}

/// A vertex as plain values.
pub struct VertexView {
    pub round: usize,
    pub source: Pid,
    pub creation_time: usize,
    pub edges: Seq<VertexId>,
    pub commands: Seq<Command>,
}

impl Vertex {
    /// The vertex as plain values.
    pub open spec fn view(&self) -> VertexView {
        VertexView {
            round: self.round,
            source: self.source,
            creation_time: self.creation_time,
            edges: self.strong_edges@,
            commands: self.commands@,
        }
    }

    /// The identity of the vertex.
    pub open spec fn id(&self) -> VertexId {
        (self.round, self.source)
    }
}

/// A copy of a list of vertex identities.
pub fn copy_vertex_ids(ids: &Vec<VertexId>) -> (out: Vec<VertexId>)
    ensures
        out@ == ids@,
{
    let mut out: Vec<VertexId> = Vec::new();
    let mut i: usize = 0;
    while i < ids.len()
        invariant
            i <= ids@.len(),
            out@ == ids@.take(i as int),
        decreases ids@.len() - i,
    {
        out.push(ids[i]);
        i = i + 1;
        assert(out@ =~= ids@.take(i as int));
    }
    assert(ids@.take(ids@.len() as int) =~= ids@);
    out
}

/// A copy of a list of commands.
pub fn copy_commands(cmds: &Vec<Command>) -> (out: Vec<Command>)
    ensures
        out@ == cmds@,
{
    let mut out: Vec<Command> = Vec::new();
    let mut i: usize = 0;
    while i < cmds.len()
        invariant
            i <= cmds@.len(),
            out@ == cmds@.take(i as int),
        decreases cmds@.len() - i,
    {
        out.push(cmds[i]);
        i = i + 1;
        assert(out@ =~= cmds@.take(i as int));
    }
    assert(cmds@.take(cmds@.len() as int) =~= cmds@);
    out
}

/// A copy of a vertex.
pub fn copy_vertex(v: &Vertex) -> (out: Vertex)
    ensures
        out.view() == v.view(),
{
    Vertex {
        round: v.round,
        source: v.source,
        creation_time: v.creation_time,
        strong_edges: copy_vertex_ids(&v.strong_edges),
        commands: copy_commands(&v.commands),
    }
}

/// Two vertices are the same when they have the same round and source.
pub fn same_vertex(left: &Vertex, right: &Vertex) -> (b: bool)
    ensures
        b == (left.id() == right.id()),
{
    left.round == right.round && left.source == right.source
}

/// What a vertex message carries: a vertex of some round, or a genesis vertex.
pub enum VertexType {
    Vertex(Vertex),
    Genesis(Vertex),
}

/// A vertex broadcast to `proc_num` processes.
pub struct VertexMessage {
    pub proc_num: usize,
    pub typ: VertexType,
}

/// A vertex message as plain values: the number of processes, whether the vertex
/// is a genesis vertex, and the vertex.
pub struct VertexMessageView {
    pub proc_num: usize,
    pub genesis: bool,
    pub vertex: VertexView,
}

/// A copy of a vertex message.
pub fn copy_vertex_message(m: &VertexMessage) -> (out: VertexMessage)
    ensures
        out.view() == m.view(),
{
    let typ = match &m.typ {
        VertexType::Vertex(v) => VertexType::Vertex(copy_vertex(v)),
        VertexType::Genesis(v) => VertexType::Genesis(copy_vertex(v)),
    };
    VertexMessage { proc_num: m.proc_num, typ }
}

impl VertexMessage {
    /// The message as plain values.
    pub open spec fn view(&self) -> VertexMessageView {
        VertexMessageView { proc_num: self.proc_num, genesis: self.typ is Genesis, vertex: self.vertex().view() }
    }

    /// The vertex carried.
    pub open spec fn vertex(&self) -> Vertex {
        match self.typ {
            VertexType::Vertex(v) => v,
            VertexType::Genesis(v) => v,
        }
    }

    /// The size the message takes on the network: a header, a bit per process, and
    /// a signature per strong edge.
    pub fn virtual_size(&self) -> (n: usize)
        requires
            8 + self.proc_num / 8 + 128 * self.vertex().strong_edges@.len() <= usize::MAX,
        ensures
            n == 8 + self.proc_num / 8 + 128 * self.vertex().strong_edges@.len(),
    {
        let edges = match &self.typ {
            VertexType::Genesis(vertex) => vertex.strong_edges.len(),
            VertexType::Vertex(vertex) => vertex.strong_edges.len(),
        };
        8 + self.proc_num / 8 + 128 * edges
    }
}

/// The time from `since` to `now`, or 0 if `since` is later.
pub open spec fn elapsed(since: usize, now: usize) -> usize {
    if since <= now { (now - since) as usize } else { 0 }
}

/// The latency `lat` once for each vertex of `ids` created by `pid`, in order.
pub open spec fn own_latencies(ids: Seq<VertexId>, pid: Pid, lat: usize) -> Seq<usize>
    decreases ids.len(),
{
    if ids.len() == 0 {
        Seq::empty()
    } else {
        let rest = own_latencies(ids.drop_last(), pid, lat);
        if ids.last().1 == pid {
            rest.push(lat)
        } else {
            rest
        }
    }
}

/// A round of `width` empty slots, with its visited and ordered flags all down.
fn empty_round(width: usize) -> (out: (Vec<Option<Vertex>>, Vec<bool>, Vec<bool>))
    ensures
        out.0@ == Seq::new(width as nat, |m: int| None::<Vertex>),
        out.1@ == Seq::new(width as nat, |m: int| false),
        out.2@ == Seq::new(width as nat, |m: int| false),
{
    let mut slots: Vec<Option<Vertex>> = Vec::new();
    let mut seen: Vec<bool> = Vec::new();
    let mut flags: Vec<bool> = Vec::new();
    let mut j: usize = 0;
    while j < width
        invariant
            j <= width,
            slots@ == Seq::new(j as nat, |m: int| None::<Vertex>),
            seen@ == Seq::new(j as nat, |m: int| false),
            flags@ == Seq::new(j as nat, |m: int| false),
        decreases width - j,
    {
        slots.push(None);
        seen.push(false);
        flags.push(false);
        j = j + 1;
        assert(slots@ =~= Seq::new(j as nat, |m: int| None::<Vertex>));
        assert(seen@ =~= Seq::new(j as nat, |m: int| false));
        assert(flags@ =~= Seq::new(j as nat, |m: int| false));
    }
    (slots, seen, flags)
}

/// The DAG of vertices by round, from the round `gc_offset` on. Each round has a slot
/// per process (processes are numbered from 1, slot 0 stays empty), and remembers
/// which vertices were visited by the last search and which were ordered.
pub struct RoundBasedDAG {
    proc_num: usize,
    matrix: Vec<Vec<Option<Vertex>>>,
    visited: Vec<Vec<bool>>,
    ordered: Vec<Vec<bool>>,
    gc_offset: usize,
}

impl RoundBasedDAG {
    /// Number of slots in a round.
    pub closed spec fn width(&self) -> nat {
        (self.proc_num + 1) as nat
    }

    /// The first round kept.
    pub closed spec fn offset(&self) -> nat {
        self.gc_offset as nat
    }

    /// Number of rounds kept.
    pub closed spec fn rows(&self) -> nat {
        self.matrix@.len()
    }

    /// `id` names a slot of the rounds kept.
    pub open spec fn in_range(&self, id: VertexId) -> bool {
        &&& self.offset() <= id.0 < self.offset() + self.rows()
        &&& id.1 < self.width()
    }

    /// The slot of `id`.
    pub closed spec fn slot(&self, id: VertexId) -> Option<Vertex> {
        self.matrix@[id.0 - self.gc_offset]@[id.1 as int]
    }

    /// The DAG holds a vertex at `id`.
    pub open spec fn holds(&self, id: VertexId) -> bool {
        self.in_range(id) && self.slot(id) is Some
    }

    /// The vertex held at `id`.
    pub open spec fn vertex(&self, id: VertexId) -> VertexView {
        self.slot(id)->0.view()
    }

    /// The vertex at `id` has been ordered.
    pub closed spec fn is_ordered(&self, id: VertexId) -> bool {
        self.in_range(id) && self.ordered@[id.0 - self.gc_offset]@[id.1 as int]
    }

    /// An edge is live when its round is still kept.
    pub open spec fn live(&self, e: VertexId) -> bool {
        e.0 >= self.offset()
    }

    /// The rows have the width of a round, each held vertex sits at its own identity,
    /// and the live edges of a held vertex lead to held vertices.
    pub closed spec fn wf(&self) -> bool {
        &&& self.proc_num < usize::MAX
        &&& self.visited@.len() == self.matrix@.len()
        &&& self.ordered@.len() == self.matrix@.len()
        &&& self.gc_offset + self.matrix@.len() <= usize::MAX
        &&& forall|i: int| 0 <= i < self.matrix@.len() ==> (#[trigger] self.matrix@[i])@.len() == self.proc_num + 1
        &&& forall|i: int| 0 <= i < self.matrix@.len() ==> (#[trigger] self.visited@[i])@.len() == self.proc_num + 1
        &&& forall|i: int| 0 <= i < self.matrix@.len() ==> (#[trigger] self.ordered@[i])@.len() == self.proc_num + 1
        &&& forall|id: VertexId| #[trigger] self.holds(id) ==> self.vertex(id).round == id.0
            && self.vertex(id).source == id.1
        &&& forall|id: VertexId, e: VertexId| #[trigger] self.holds(id) && #[trigger] self.vertex(id).edges.contains(e)
            && self.live(e) ==> self.holds(e)
    }

    /// An empty DAG with rounds of one slot.
    pub fn new() -> (d: Self)
        ensures
            d.wf(),
            d.width() == 1,
            d.offset() == 0,
            d.rows() == 0,
    {
        RoundBasedDAG { proc_num: 0, matrix: Vec::new(), visited: Vec::new(), ordered: Vec::new(), gc_offset: 0 }
    }

    /// Sets the number of processes of a DAG that has no round yet.
    pub fn set_round_size(&mut self, proc_num: usize)
        requires
            old(self).wf(),
            old(self).rows() == 0,
            proc_num < usize::MAX,
        ensures
            final(self).wf(),
            final(self).width() == proc_num + 1,
            final(self).offset() == old(self).offset(),
            final(self).rows() == 0,
    {
        self.proc_num = proc_num;
    }

    /// Number of rounds allocated so far, counting those collected.
    fn current_allocated_rounds(&self) -> (n: usize)
        requires
            self.wf(),
        ensures
            n == self.offset() + self.rows(),
    {
        self.matrix.len() + self.gc_offset
    }

    /// The last round allocated (0 when none is).
    pub fn current_max_allocated_round(&self) -> (r: usize)
        requires
            self.wf(),
        ensures
            r == if self.offset() + self.rows() == 0 { 0 } else { (self.offset() + self.rows() - 1) as int },
    {
        let n = self.current_allocated_rounds();
        if n == 0 { 0 } else { n - 1 }
    }

    /// A held vertex sits at its own identity, and its live edges lead to held
    /// vertices.
    pub proof fn lemma_held(&self, id: VertexId)
        requires
            self.wf(),
            self.holds(id),
        ensures
            self.vertex(id).round == id.0,
            self.vertex(id).source == id.1,
            forall|e: VertexId| #[trigger] self.vertex(id).edges.contains(e) && self.live(e) ==> self.holds(e),
    {
    }

    /// Whether the DAG holds a vertex at `id`.
    pub fn holds_vertex(&self, id: VertexId) -> (b: bool)
        requires
            self.wf(),
        ensures
            b == self.holds(id),
    {
        if self.gc_offset <= id.0 && id.0 - self.gc_offset < self.matrix.len() && id.1 <= self.proc_num {
            self.matrix[id.0 - self.gc_offset][id.1].is_some()
        } else {
            false
        }
    }

    /// Whether `round` is one of the rounds kept.
    pub fn keeps_round(&self, round: usize) -> (b: bool)
        requires
            self.wf(),
        ensures
            b == (self.offset() <= round < self.offset() + self.rows()),
    {
        self.gc_offset <= round && round - self.gc_offset < self.matrix.len()
    }

    /// The first round kept.
    pub fn min_round(&self) -> (r: usize)
        ensures
            r == self.offset(),
    {
        self.gc_offset
    }

    /// Position of `round` among the rounds kept.
    fn round(&self, round: usize) -> (i: usize)
        requires
            round >= self.offset(),
        ensures
            i == round - self.offset(),
    {
        round - self.gc_offset
    }

    /// Adds `rounds` empty rounds at the end.
    fn grow(&mut self, rounds: usize)
        requires
            old(self).wf(),
            old(self).offset() + old(self).rows() + rounds <= usize::MAX,
        ensures
            final(self).wf(),
            final(self).width() == old(self).width(),
            final(self).offset() == old(self).offset(),
            final(self).rows() == old(self).rows() + rounds,
            forall|id: VertexId| #[trigger] final(self).holds(id) == old(self).holds(id),
            forall|id: VertexId| old(self).holds(id) ==> #[trigger] final(self).vertex(id) == old(self).vertex(id),
            forall|id: VertexId| #[trigger] final(self).is_ordered(id) == old(self).is_ordered(id),
    {
        let ghost pre = *self;
        let mut k: usize = 0;
        while k < rounds
            invariant
                k <= rounds,
                self.wf(),
                pre.wf(),
                self.proc_num == pre.proc_num,
                self.gc_offset == pre.gc_offset,
                self.matrix@.len() == pre.matrix@.len() + k,
                pre.gc_offset + pre.matrix@.len() + rounds <= usize::MAX,
                forall|i: int| 0 <= i < pre.matrix@.len() ==> self.matrix@[i] == pre.matrix@[i],
                forall|i: int| 0 <= i < pre.matrix@.len() ==> self.ordered@[i] == pre.ordered@[i],
                forall|i: int, j: int| #![trigger self.matrix@[i]@[j]] #![trigger self.ordered@[i]@[j]]
                    pre.matrix@.len() <= i < self.matrix@.len() && 0 <= j < self.proc_num + 1
                    ==> self.matrix@[i]@[j] is None && !self.ordered@[i]@[j],
            decreases rounds - k,
        {
            let (slots, seen, flags) = empty_round(self.proc_num + 1);
            let ghost before = *self;
            self.matrix.push(slots);
            self.visited.push(seen);
            self.ordered.push(flags);
            k = k + 1;
            proof {
                assert(self.matrix@[self.matrix@.len() - 1] == slots);
                assert(self.ordered@[self.matrix@.len() - 1] == flags);
                assert forall|i: int, j: int| #![trigger self.matrix@[i]@[j]] #![trigger self.ordered@[i]@[j]]
                    pre.matrix@.len() <= i < self.matrix@.len() && 0 <= j < self.proc_num + 1
                    implies self.matrix@[i]@[j] is None && !self.ordered@[i]@[j] by {
                    if i < self.matrix@.len() - 1 {
                        assert(self.matrix@[i] == before.matrix@[i]);
                        assert(self.ordered@[i] == before.ordered@[i]);
                        assert(pre.matrix@.len() <= i < before.matrix@.len());
                        assert(before.matrix@[i]@[j] is None);
                        assert(!before.ordered@[i]@[j]);
                    } else {
                        assert(self.matrix@[i]@ == slots@);
                        assert(slots@[j] is None);
                        assert(self.ordered@[i]@ == flags@);
                    }
                }
                assert forall|id: VertexId| #[trigger] self.holds(id) implies before.holds(id) && self.slot(id) == before.slot(id) by {
                    let i = id.0 - self.gc_offset;
                    if i < before.matrix@.len() {
                        assert(self.matrix@[i] == before.matrix@[i]);
                    } else {
                        assert(self.matrix@[i]@[id.1 as int] is None);
                    }
                }
                assert forall|id: VertexId| before.holds(id) implies #[trigger] self.holds(id) && self.slot(id) == before.slot(id) by {
                    let i = id.0 - self.gc_offset;
                    assert(self.matrix@[i] == before.matrix@[i]);
                }
                assert forall|id: VertexId, e: VertexId| #[trigger] self.holds(id) && #[trigger] self.vertex(id).edges.contains(e)
                    && self.live(e) implies self.holds(e) by {
                    assert(before.holds(id));
                    assert(before.vertex(id) == self.vertex(id));
                    assert(before.holds(e));
                }
                assert forall|id: VertexId| #[trigger] self.holds(id) implies self.vertex(id).round == id.0
                    && self.vertex(id).source == id.1 by {
                    assert(before.holds(id));
                }
            }
        }
        proof {
            assert forall|id: VertexId| #[trigger] self.holds(id) == pre.holds(id) by {
                if self.in_range(id) && id.0 - self.gc_offset >= pre.matrix@.len() {
                    assert(self.matrix@[id.0 - self.gc_offset]@[id.1 as int] is None);
                }
            }
            assert forall|id: VertexId| #[trigger] self.is_ordered(id) == pre.is_ordered(id) by {
                if self.in_range(id) && id.0 - self.gc_offset >= pre.matrix@.len() {
                    assert(!self.ordered@[id.0 - self.gc_offset]@[id.1 as int]);
                }
            }
        }
    }

    /// Puts `vertex` in its slot, replacing what was there.
    fn insert(&mut self, vertex: Vertex)
        requires
            old(self).wf(),
            old(self).in_range(vertex.id()),
            forall|e: VertexId| #[trigger] vertex.strong_edges@.contains(e) && old(self).live(e)
                ==> old(self).holds(e) || e == vertex.id(),
        ensures
            final(self).wf(),
            final(self).width() == old(self).width(),
            final(self).offset() == old(self).offset(),
            final(self).rows() == old(self).rows(),
            forall|id: VertexId| #[trigger] final(self).holds(id) == (old(self).holds(id) || id == vertex.id()),
            final(self).vertex(vertex.id()) == vertex.view(),
            forall|id: VertexId| old(self).holds(id) && id != vertex.id() ==> #[trigger] final(self).vertex(id) == old(self).vertex(id),
            forall|id: VertexId| #[trigger] final(self).is_ordered(id) == old(self).is_ordered(id),
    {
        let ghost pre = *self;
        let ghost vid = vertex.id();
        let round = self.round(vertex.round);
        let source = vertex.source;
        self.matrix[round].set(source, Some(vertex));
        proof {
            assert forall|id: VertexId| #[trigger] self.holds(id) == (pre.holds(id) || id == vid) by {
                if self.in_range(id) && id != vid {
                    assert(self.slot(id) == pre.slot(id));
                }
            }
            assert forall|id: VertexId| pre.holds(id) && id != vid implies #[trigger] self.vertex(id) == pre.vertex(id) by {
                assert(self.slot(id) == pre.slot(id));
            }
            assert forall|id: VertexId| #[trigger] self.is_ordered(id) == pre.is_ordered(id) by {}
            assert forall|i: int| 0 <= i < self.matrix@.len() implies (#[trigger] self.matrix@[i])@.len() == self.proc_num + 1 by {
                if i != round {
                    assert(self.matrix@[i] == pre.matrix@[i]);
                }
            }
            assert forall|id: VertexId| #[trigger] self.holds(id) implies self.vertex(id).round == id.0
                && self.vertex(id).source == id.1 by {
                if id != vid {
                    assert(pre.holds(id));
                }
            }
            assert forall|id: VertexId, e: VertexId| #[trigger] self.holds(id) && #[trigger] self.vertex(id).edges.contains(e)
                && self.live(e) implies self.holds(e) by {
                if id == vid {
                    assert(vertex.strong_edges@.contains(e));
                } else {
                    assert(pre.holds(id));
                    assert(pre.vertex(id) == self.vertex(id));
                }
            }
        }
    }

    /// Adds `vertex` to the DAG, allocating rounds up to its own, and replacing any
    /// vertex held at its identity. Its live edges must lead to held vertices.
    pub fn add_vertex(&mut self, vertex: Vertex)
        requires
            old(self).wf(),
            vertex.source < old(self).width(),
            vertex.round >= old(self).offset(),
            vertex.round < usize::MAX,
            forall|e: VertexId| #[trigger] vertex.strong_edges@.contains(e) && old(self).live(e)
                ==> old(self).holds(e) || e == vertex.id(),
        ensures
            final(self).wf(),
            final(self).width() == old(self).width(),
            final(self).offset() == old(self).offset(),
            final(self).rows() == if old(self).offset() + old(self).rows() <= vertex.round {
                (vertex.round + 1 - old(self).offset()) as nat
            } else {
                old(self).rows()
            },
            forall|id: VertexId| #[trigger] final(self).holds(id) == (old(self).holds(id) || id == vertex.id()),
            final(self).vertex(vertex.id()) == vertex.view(),
            forall|id: VertexId| old(self).holds(id) && id != vertex.id() ==> #[trigger] final(self).vertex(id) == old(self).vertex(id),
            forall|id: VertexId| #[trigger] final(self).is_ordered(id) == old(self).is_ordered(id),
    {
        let allocated = self.current_allocated_rounds();
        if allocated <= vertex.round {
            self.grow(vertex.round + 1 - allocated);
        }
        self.insert(vertex);
    }

    /// The round `round` as a row of slots.
    pub fn row(&self, round: usize) -> (r: &Vec<Option<Vertex>>)
        requires
            self.wf(),
            self.offset() <= round < self.offset() + self.rows(),
        ensures
            r@.len() == self.width(),
            forall|s: int| 0 <= s < r@.len() ==> (#[trigger] r@[s] is Some) == self.holds((round, s as usize)),
            forall|s: int| 0 <= s < r@.len() && r@[s] is Some ==> #[trigger] r@[s]->0.view() == self.vertex((round, s as usize)),
    {
        let i = self.round(round);
        assert forall|s: int| 0 <= s < self.matrix@[i as int]@.len() implies
            (#[trigger] self.matrix@[i as int]@[s] is Some) == self.holds((round, s as usize)) by {
            assert(self.slot((round, s as usize)) == self.matrix@[i as int]@[s]);
        }
        &self.matrix[i]
    }

    /// Drops the rounds before `keep_from`, always keeping at least the last round.
    pub fn gc(&mut self, keep_from: usize)
        requires
            old(self).wf(),
        ensures
            final(self).wf(),
            final(self).width() == old(self).width(),
            final(self).offset() == if old(self).offset() >= keep_from || old(self).rows() <= 1 {
                old(self).offset()
            } else if keep_from <= old(self).offset() + old(self).rows() - 1 {
                keep_from as nat
            } else {
                (old(self).offset() + old(self).rows() - 1) as nat
            },
            final(self).offset() + final(self).rows() == old(self).offset() + old(self).rows(),
            forall|id: VertexId| #[trigger] final(self).holds(id) == (old(self).holds(id) && id.0 >= final(self).offset()),
            forall|id: VertexId| #[trigger] final(self).holds(id) ==> final(self).vertex(id) == old(self).vertex(id),
            forall|id: VertexId| #[trigger] final(self).is_ordered(id) == (old(self).is_ordered(id) && id.0 >= final(self).offset()),
    {
        let ghost pre = *self;
        while self.gc_offset < keep_from && self.matrix.len() > 1
            invariant
                self.wf(),
                pre.wf(),
                self.proc_num == pre.proc_num,
                pre.gc_offset <= self.gc_offset,
                self.gc_offset + self.matrix@.len() == pre.gc_offset + pre.matrix@.len(),
                self.gc_offset > pre.gc_offset ==> self.matrix@.len() >= 1,
                pre.gc_offset >= keep_from || pre.matrix@.len() <= 1 ==> self.gc_offset == pre.gc_offset,
                self.gc_offset > pre.gc_offset ==> self.gc_offset <= keep_from,
                forall|i: int| 0 <= i < self.matrix@.len() ==> #[trigger] self.matrix@[i] == pre.matrix@[i + self.gc_offset - pre.gc_offset],
                forall|i: int| 0 <= i < self.matrix@.len() ==> #[trigger] self.ordered@[i] == pre.ordered@[i + self.gc_offset - pre.gc_offset],
            decreases self.matrix@.len(),
        {
            let ghost before = *self;
            self.matrix.remove(0);
            self.visited.remove(0);
            self.ordered.remove(0);
            self.gc_offset = self.gc_offset + 1;
            proof {
                assert forall|i: int| 0 <= i < self.matrix@.len() implies (#[trigger] self.matrix@[i])@.len() == self.proc_num + 1 by {
                    assert(self.matrix@[i] == before.matrix@[i + 1]);
                }
                assert forall|i: int| 0 <= i < self.matrix@.len() implies (#[trigger] self.visited@[i])@.len() == self.proc_num + 1 by {
                    assert(self.visited@[i] == before.visited@[i + 1]);
                }
                assert forall|i: int| 0 <= i < self.matrix@.len() implies (#[trigger] self.ordered@[i])@.len() == self.proc_num + 1 by {
                    assert(self.ordered@[i] == before.ordered@[i + 1]);
                }
                assert forall|i: int| 0 <= i < self.matrix@.len() implies #[trigger] self.matrix@[i] == pre.matrix@[i + self.gc_offset - pre.gc_offset] by {
                    assert(self.matrix@[i] == before.matrix@[i + 1]);
                }
                assert forall|i: int| 0 <= i < self.matrix@.len() implies #[trigger] self.ordered@[i] == pre.ordered@[i + self.gc_offset - pre.gc_offset] by {
                    assert(self.ordered@[i] == before.ordered@[i + 1]);
                }
                assert forall|id: VertexId| #[trigger] self.holds(id) implies before.holds(id) && self.vertex(id) == before.vertex(id) by {
                    assert(self.slot(id) == before.slot(id));
                }
                assert forall|id: VertexId| #[trigger] self.holds(id) implies self.vertex(id).round == id.0
                    && self.vertex(id).source == id.1 by {
                    assert(before.holds(id));
                }
                assert forall|id: VertexId, e: VertexId| #[trigger] self.holds(id) && #[trigger] self.vertex(id).edges.contains(e)
                    && self.live(e) implies self.holds(e) by {
                    assert(before.holds(id));
                    assert(before.holds(e));
                    assert(self.slot(e) == before.slot(e));
                }
            }
        }
        proof {
            assert forall|id: VertexId| #[trigger] self.holds(id) == (pre.holds(id) && id.0 >= self.gc_offset) by {
                if self.in_range(id) {
                    assert(self.slot(id) == pre.slot(id));
                }
                if pre.holds(id) && id.0 >= self.gc_offset {
                    assert(self.slot(id) == pre.slot(id));
                }
            }
            assert forall|id: VertexId| #[trigger] self.holds(id) implies self.vertex(id) == pre.vertex(id) by {
                assert(self.slot(id) == pre.slot(id));
            }
            assert forall|id: VertexId| #[trigger] self.is_ordered(id) == (pre.is_ordered(id) && id.0 >= self.gc_offset) by {
                if self.in_range(id) {
                    assert(self.ordered@[id.0 - self.gc_offset] == pre.ordered@[id.0 - pre.gc_offset]);
                }
                if pre.is_ordered(id) && id.0 >= self.gc_offset {
                    assert(self.ordered@[id.0 - self.gc_offset] == pre.ordered@[id.0 - pre.gc_offset]);
                }
            }
        }
    }

    /// The visited flag of `id`.
    closed spec fn is_visited(&self, id: VertexId) -> bool {
        self.visited@[id.0 - self.gc_offset]@[id.1 as int]
    }

    /// `self` holds the same rounds, vertices and ordered flags as `other`.
    pub open spec fn same_content(&self, other: &RoundBasedDAG) -> bool {
        &&& self.width() == other.width()
        &&& self.offset() == other.offset()
        &&& self.rows() == other.rows()
        &&& forall|id: VertexId| #[trigger] self.holds(id) == other.holds(id)
        &&& forall|id: VertexId| other.holds(id) ==> #[trigger] self.vertex(id) == other.vertex(id)
        &&& forall|id: VertexId| #[trigger] self.is_ordered(id) == other.is_ordered(id)
    }

    /// `p` leaves the edges `start` and follows live edges whose rounds are at least
    /// `floor`, through vertices the DAG holds.
    pub open spec fn search_path(&self, start: Seq<VertexId>, p: Seq<VertexId>, floor: int) -> bool {
        &&& p.len() >= 1
        &&& start.contains(p[0])
        &&& forall|k: int| 0 <= k < p.len() ==> self.live(#[trigger] p[k]) && p[k].0 >= floor
        &&& forall|k: int| 0 <= k < p.len() - 1 ==> self.holds(#[trigger] p[k]) && self.vertex(p[k]).edges.contains(p[k + 1])
    }

    /// `p` leaves the edges `start` and follows live edges through vertices the DAG
    /// holds that are not ordered yet.
    pub open spec fn unordered_path(&self, start: Seq<VertexId>, p: Seq<VertexId>) -> bool {
        &&& p.len() >= 1
        &&& start.contains(p[0])
        &&& forall|k: int| 0 <= k < p.len() ==> self.live(#[trigger] p[k]) && !self.is_ordered(p[k])
        &&& forall|k: int| 0 <= k < p.len() - 1 ==> self.holds(#[trigger] p[k]) && self.vertex(p[k]).edges.contains(p[k + 1])
    }

    /// The vertices that ordering from a vertex with edges `start` orders: those an
    /// unordered path leads to.
    pub open spec fn ordering_from(&self, start: Seq<VertexId>) -> Set<VertexId> {
        Set::new(|y: VertexId| exists|p: Seq<VertexId>| #[trigger] self.unordered_path(start, p) && p.last() == y)
    }

    /// Lowers every visited flag.
    fn reset_visited(&mut self)
        requires
            old(self).wf(),
        ensures
            final(self).wf(),
            final(self).same_content(old(self)),
            final(self).matrix == old(self).matrix,
            final(self).ordered == old(self).ordered,
            final(self).gc_offset == old(self).gc_offset,
            final(self).proc_num == old(self).proc_num,
            forall|id: VertexId| #[trigger] final(self).in_range(id) ==> !final(self).is_visited(id),
    {
        let ghost pre = *self;
        let mut i: usize = 0;
        while i < self.visited.len()
            invariant
                pre.wf(),
                self.matrix == pre.matrix,
                self.ordered == pre.ordered,
                self.gc_offset == pre.gc_offset,
                self.proc_num == pre.proc_num,
                self.visited@.len() == pre.visited@.len(),
                i <= self.visited@.len(),
                forall|r: int| 0 <= r < self.visited@.len() ==> (#[trigger] self.visited@[r])@.len() == self.proc_num + 1,
                forall|r: int, c: int| 0 <= r < i && 0 <= c < self.proc_num + 1 ==> !(#[trigger] self.visited@[r]@[c]),
            decreases self.visited@.len() - i,
        {
            let (_, fresh, _) = empty_round(self.proc_num + 1);
            self.visited.set(i, fresh);
            i = i + 1;
        }
        proof {
            assert forall|id: VertexId| #[trigger] self.holds(id) == pre.holds(id) by {}
        }
    }

    /// Marks `e` visited.
    fn visit(&mut self, e: VertexId)
        requires
            old(self).wf(),
            old(self).in_range(e),
        ensures
            final(self).wf(),
            final(self).matrix == old(self).matrix,
            final(self).ordered == old(self).ordered,
            final(self).gc_offset == old(self).gc_offset,
            final(self).proc_num == old(self).proc_num,
            forall|id: VertexId| #[trigger] final(self).in_range(id) ==> final(self).is_visited(id)
                == (old(self).is_visited(id) || id == e),
    {
        let ghost pre = *self;
        let r = e.0 - self.gc_offset;
        self.visited[r].set(e.1, true);
        proof {
            assert forall|i: int| 0 <= i < self.matrix@.len() implies (#[trigger] self.visited@[i])@.len() == self.proc_num + 1 by {
                if i != r {
                    assert(self.visited@[i] == pre.visited@[i]);
                }
            }
            assert forall|id: VertexId| #[trigger] self.in_range(id) implies self.is_visited(id)
                == (pre.is_visited(id) || id == e) by {
                if id.0 - self.gc_offset != r {
                    assert(self.visited@[id.0 - self.gc_offset] == pre.visited@[id.0 - self.gc_offset]);
                }
            }
            assert forall|id: VertexId| #[trigger] self.holds(id) == pre.holds(id) by {}
        }
    }

    /// Marks `e` ordered.
    fn mark_ordered(&mut self, e: VertexId)
        requires
            old(self).wf(),
            old(self).in_range(e),
        ensures
            final(self).wf(),
            final(self).matrix == old(self).matrix,
            final(self).visited == old(self).visited,
            final(self).gc_offset == old(self).gc_offset,
            final(self).proc_num == old(self).proc_num,
            forall|id: VertexId| #[trigger] final(self).is_ordered(id) == (old(self).is_ordered(id) || id == e),
    {
        let ghost pre = *self;
        let r = e.0 - self.gc_offset;
        self.ordered[r].set(e.1, true);
        proof {
            assert forall|i: int| 0 <= i < self.matrix@.len() implies (#[trigger] self.ordered@[i])@.len() == self.proc_num + 1 by {
                if i != r {
                    assert(self.ordered@[i] == pre.ordered@[i]);
                }
            }
            assert forall|id: VertexId| #[trigger] self.is_ordered(id) == (pre.is_ordered(id) || id == e) by {
                if self.in_range(id) && id.0 - self.gc_offset != r {
                    assert(self.ordered@[id.0 - self.gc_offset] == pre.ordered@[id.0 - self.gc_offset]);
                }
            }
            assert forall|id: VertexId| #[trigger] self.holds(id) == pre.holds(id) by {}
        }
    }

    /// The strong edges of the vertex held at `id`.
    pub fn edges_of(&self, id: VertexId) -> (edges: Vec<VertexId>)
        requires
            self.wf(),
            self.holds(id),
        ensures
            edges@ == self.vertex(id).edges,
    {
        let r = id.0 - self.gc_offset;
        match &self.matrix[r][id.1] {
            Some(v) => copy_vertex_ids(&v.strong_edges),
            None => Vec::new(),
        }
    }

    /// The queue of a search from `fid`: distinct held vertices in the rounds kept,
    /// none of them `tid`, each reached by its witness path; the visited flags are up
    /// exactly at `fid` and the queued vertices.
    closed spec fn search_queue(&self, pre: RoundBasedDAG, start: Seq<VertexId>, fid: VertexId, tid: VertexId, floor: int,
        queue: Seq<VertexId>, wit: Map<VertexId, Seq<VertexId>>) -> bool {
        &&& self.wf()
        &&& pre.wf()
        &&& self.matrix == pre.matrix
        &&& self.ordered == pre.ordered
        &&& self.gc_offset == pre.gc_offset
        &&& self.proc_num == pre.proc_num
        &&& pre.in_range(fid)
        &&& forall|e: VertexId| #[trigger] start.contains(e) && pre.live(e) ==> pre.holds(e)
        &&& fid != tid
        &&& queue.no_duplicates()
        &&& queue.len() <= pre.width() * pre.rows()
        &&& forall|id: VertexId| #[trigger] self.in_range(id) ==> (self.is_visited(id) <==> (id == fid || queue.contains(id)))
        &&& forall|k: int| 0 <= k < queue.len() ==> {
            let q = #[trigger] queue[k];
            &&& pre.holds(q)
            &&& q != tid
            &&& wit.contains_key(q)
            &&& pre.search_path(start, wit[q], floor)
            &&& forall|j: int| 0 <= j < wit[q].len() ==> #[trigger] wit[q][j] != fid
            &&& wit[q].last() == q
        }
    }

    /// One step of a search from `fid` for `tid`: looks at the live edges of `cur`
    /// no lower than `floor`, and either finds `tid` among them or queues those not
    /// visited yet.
    fn search_step(
        &mut self,
        current: &Vec<VertexId>,
        queue: &mut Vec<VertexId>,
        tid: VertexId,
        floor: usize,
        Ghost(pre): Ghost<RoundBasedDAG>,
        Ghost(start): Ghost<Seq<VertexId>>,
        Ghost(fid): Ghost<VertexId>,
        Ghost(cur): Ghost<VertexId>,
        Ghost(wit): Ghost<Map<VertexId, Seq<VertexId>>>,
    ) -> (out: (bool, Ghost<Map<VertexId, Seq<VertexId>>>))
        requires
            old(self).search_queue(pre, start, fid, tid, floor as int, old(queue)@, wit),
            cur == fid ==> current@ == start,
            cur != fid ==> pre.holds(cur) && current@ == pre.vertex(cur).edges && wit.contains_key(cur)
                && pre.search_path(start, wit[cur], floor as int) && wit[cur].last() == cur
                && forall|j: int| 0 <= j < wit[cur].len() ==> #[trigger] wit[cur][j] != fid,
        ensures
            final(self).search_queue(pre, start, fid, tid, floor as int, final(queue)@, out.1@),
            final(queue)@.len() >= old(queue)@.len(),
            final(queue)@.subrange(0, old(queue)@.len() as int) == old(queue)@,
            out.0 ==> exists|p: Seq<VertexId>| #[trigger] pre.search_path(start, p, floor as int)
                && (forall|j: int| 0 <= j < p.len() ==> p[j] != fid) && p.last() == tid,
            !out.0 ==> forall|e: VertexId| #[trigger] current@.contains(e) && pre.live(e) && e.0 >= floor
                ==> e != tid && (e == fid || final(queue)@.contains(e)),
    {
        let ghost q_in = queue@;
        let ghost mut w = wit;
        let mut found = false;
        let mut i: usize = 0;
        while i < current.len() && !found
            invariant
                self.search_queue(pre, start, fid, tid, floor as int, queue@, w),
                cur == fid ==> current@ == start,
                cur != fid ==> pre.holds(cur) && current@ == pre.vertex(cur).edges && w.contains_key(cur)
                    && pre.search_path(start, w[cur], floor as int) && w[cur].last() == cur
                    && forall|j: int| 0 <= j < w[cur].len() ==> #[trigger] w[cur][j] != fid,
                i <= current@.len(),
                queue@.len() >= q_in.len(),
                queue@.subrange(0, q_in.len() as int) == q_in,
                found ==> exists|p: Seq<VertexId>| #[trigger] pre.search_path(start, p, floor as int)
                    && (forall|j: int| 0 <= j < p.len() ==> p[j] != fid) && p.last() == tid,
                !found ==> forall|m: int| 0 <= m < i ==> {
                    let e = #[trigger] current@[m];
                    pre.live(e) && e.0 >= floor ==> e != tid && (e == fid || queue@.contains(e))
                },
            decreases current@.len() - i,
        {
            let e = current[i];
            proof {
                assert(current@[i as int] == e);
                assert(current@.contains(e));
            }
            if e.0 >= self.gc_offset && e.0 >= floor {
                let ghost p = if cur == fid { seq![e] } else { w[cur].push(e) };
                proof {
                    if cur != fid {
                        let wc = w[cur];
                        assert forall|k: int| 0 <= k < p.len() implies pre.live(#[trigger] p[k]) && p[k].0 >= floor by {
                            if k < wc.len() {
                                assert(p[k] == wc[k]);
                            }
                        }
                        assert forall|k: int| 0 <= k < p.len() - 1 implies pre.holds(#[trigger] p[k])
                            && pre.vertex(p[k]).edges.contains(p[k + 1]) by {
                            assert(p[k] == wc[k]);
                            if k < wc.len() - 1 {
                                assert(p[k + 1] == wc[k + 1]);
                            }
                        }
                        assert(p[0] == wc[0]);
                    }
                    assert(pre.search_path(start, p, floor as int));
                    assert(p.last() == e);
                    assert(pre.is_visited(fid) || true);
                }
                if e.0 == tid.0 && e.1 == tid.1 {
                    found = true;
                } else {
                proof {
                    assert(pre.holds(e));
                    assert(self.in_range(e));
                }
                let r = e.0 - self.gc_offset;
                if !self.visited[r][e.1] {
                    let ghost b4 = *self;
                    let ghost q0 = queue@;
                    proof {
                        assert(!b4.is_visited(e));
                        assert(!q0.contains(e));
                    }
                    self.visit(e);
                    queue.push(e);
                    proof {
                        w = w.insert(e, p);
                        assert(queue@[queue@.len() - 1] == e);
                        assert forall|x: VertexId| #[trigger] q0.contains(x) implies queue@.contains(x) by {
                            let k = choose|k: int| 0 <= k < q0.len() && q0[k] == x;
                            assert(queue@[k] == x);
                        }
                        assert forall|x: VertexId| #[trigger] queue@.contains(x) implies q0.contains(x) || x == e by {
                            let k = choose|k: int| 0 <= k < queue@.len() && queue@[k] == x;
                            if k < q0.len() {
                                assert(q0[k] == x);
                            }
                        }
                        assert forall|id: VertexId| #[trigger] self.in_range(id) implies (self.is_visited(id) <==> (id == fid || queue@.contains(id))) by {
                            assert(b4.in_range(id));
                        }
                        assert forall|k: int| 0 <= k < queue@.len() implies {
                            let q = #[trigger] queue@[k];
                            &&& pre.holds(q)
                            &&& q != tid
                            &&& w.contains_key(q)
                            &&& pre.search_path(start, w[q], floor as int)
                            &&& w[q].last() == q
                        } by {
                            if k < q0.len() {
                                assert(queue@[k] == q0[k]);
                            }
                        }
                        assert forall|a: int, b: int| 0 <= a < b < queue@.len() implies queue@[a] != queue@[b] by {
                            if b < q0.len() {
                                assert(queue@[a] == q0[a]);
                                assert(queue@[b] == q0[b]);
                            } else {
                                assert(queue@[a] == q0[a]);
                                assert(q0.contains(q0[a]));
                            }
                        }
                        assert(queue@.subrange(0, q_in.len() as int) =~= q_in) by {
                            assert(q0.subrange(0, q_in.len() as int) == q_in);
                        }
                        assert forall|k: int| 0 <= k < queue@.len() implies self.in_range(#[trigger] queue@[k]) by {
                            assert(pre.holds(queue@[k]));
                        }
                        lemma_queue_bound(queue@, pre);
                        assert forall|m: int| 0 <= m < i implies {
                            let x = #[trigger] current@[m];
                            pre.live(x) && x.0 >= floor ==> x != tid && (x == fid || queue@.contains(x))
                        } by {
                            let x = current@[m];
                            if pre.live(x) && x.0 >= floor && x != fid {
                                assert(q0.contains(x));
                            }
                        }
                    }
                } else {
                    proof {
                        assert(self.is_visited(e));
                    }
                }
                }
            }
            i = i + 1;
        }
        proof {
            if !found {
                assert forall|e: VertexId| #[trigger] current@.contains(e) && pre.live(e) && e.0 >= floor
                    implies e != tid && (e == fid || queue@.contains(e)) by {
                    let m = choose|m: int| 0 <= m < current@.len() && current@[m] == e;
                }
            }
        }
        (found, Ghost(w))
    }

    /// Whether the walk from `from` reaches `to`, following live edges no lower than
    /// the round of `to` (see `search_path`) and never through the slot of `from`;
    /// `from` reaches itself. `from` need not be in the DAG: its slot must be kept and
    /// its live strong edges must lead to vertices the DAG holds.
    #[verifier::rlimit(100)]
    #[verifier::spinoff_prover]
    pub fn path_exists(&mut self, from: &Vertex, to: &Vertex) -> (b: bool)
        requires
            old(self).wf(),
            old(self).in_range(from.id()),
            forall|e: VertexId| #[trigger] from.view().edges.contains(e) && old(self).live(e) ==> old(self).holds(e),
        ensures
            final(self).wf(),
            final(self).same_content(old(self)),
            b == (from.id() == to.id() || exists|p: Seq<VertexId>| #[trigger] old(self).search_path(from.view().edges, p, to.round as int)
                && (forall|k: int| 0 <= k < p.len() ==> p[k] != from.id()) && p.last() == to.id()),
    {
        if same_vertex(from, to) {
            return true;
        }
        let ghost pre = *self;
        let ghost fid = from.id();
        let ghost start = from.view().edges;
        let tid = (to.round, to.source);
        let floor = to.round;
        self.reset_visited();
        let ghost mid = *self;
        self.visit((from.round, from.source));
        let mut queue: Vec<VertexId> = Vec::new();
        proof {
            assert forall|id: VertexId| #[trigger] self.in_range(id) implies (self.is_visited(id) <==> (id == fid || queue@.contains(id))) by {
                assert(mid.in_range(id));
            }
            assert(self.search_queue(pre, start, fid, tid, floor as int, queue@, Map::empty()));
        }
        let mut head: usize = 0;
        let mut current = copy_vertex_ids(&from.strong_edges);
        let ghost mut cur: VertexId = fid;
        let ghost mut wit: Map<VertexId, Seq<VertexId>> = Map::empty();
        let mut reached = false;
        loop
            invariant_except_break
                !reached,
                self.search_queue(pre, start, fid, tid, floor as int, queue@, wit),
                start == from.view().edges,
                fid == from.id(),
                tid == to.id(),
                floor == to.round,
                head <= queue@.len(),
                cur == if head == 0 { fid } else { queue@[head - 1] },
                head == 0 ==> current@ == start,
                head > 0 ==> current@ == pre.vertex(cur).edges,
                head > 0 ==> forall|e: VertexId| #[trigger] start.contains(e) && pre.live(e) && e.0 >= floor
                    ==> e != tid && (e == fid || queue@.contains(e)),
                forall|k: int, e: VertexId| 0 <= k < head - 1 && #[trigger] pre.vertex(queue@[k]).edges.contains(e)
                    && pre.live(e) && e.0 >= floor ==> e != tid && (e == fid || queue@.contains(e)),
            ensures
                self.search_queue(pre, start, fid, tid, floor as int, queue@, wit),
                reached ==> exists|p: Seq<VertexId>| #[trigger] pre.search_path(start, p, floor as int)
                    && (forall|j: int| 0 <= j < p.len() ==> p[j] != fid) && p.last() == tid,
                !reached ==> forall|e: VertexId| #[trigger] start.contains(e) && pre.live(e) && e.0 >= floor
                    ==> e != tid && (e == fid || queue@.contains(e)),
                !reached ==> forall|k: int, e: VertexId| 0 <= k < queue@.len() && #[trigger] pre.vertex(queue@[k]).edges.contains(e)
                    && pre.live(e) && e.0 >= floor ==> e != tid && (e == fid || queue@.contains(e)),
            decreases pre.width() * pre.rows() - head,
        {
            let ghost q0 = queue@;
            proof {
                if head > 0 {
                    assert(q0[head - 1] == cur);
                }
            }
            let (found, Ghost(w2)) = self.search_step(&current, &mut queue, tid, floor, Ghost(pre), Ghost(start), Ghost(fid), Ghost(cur), Ghost(wit));
            if found {
                proof {
                    wit = w2;
                }
                reached = true;
                break;
            }
            proof {
                wit = w2;
                assert forall|x: VertexId| #[trigger] q0.contains(x) implies queue@.contains(x) by {
                    let k = choose|k: int| 0 <= k < q0.len() && q0[k] == x;
                    assert(queue@.subrange(0, q0.len() as int)[k] == x);
                }
                assert forall|k: int| 0 <= k < q0.len() implies #[trigger] queue@[k] == q0[k] by {
                    assert(queue@.subrange(0, q0.len() as int)[k] == q0[k]);
                }
            }
            if head >= queue.len() {
                break;
            }
            let next = queue[head];
            head = head + 1;
            current = self.edges_of(next);
            proof {
                cur = next;
            }
        }
        proof {
            lemma_same_content(*self, pre);
            if !reached {
                assert forall|p: Seq<VertexId>| #[trigger] pre.search_path(from.view().edges, p, to.round as int)
                    && (forall|k: int| 0 <= k < p.len() ==> p[k] != from.id()) implies p.last() != to.id() by {
                    assert forall|k: int| 0 <= k < p.len() implies (#[trigger] p[k]) != tid && (p[k] == fid || queue@.contains(p[k])) by {
                        lemma_path_prefix_closed(pre, from.view().edges, p, floor as int, fid, tid, queue@, k);
                    }
                }
            }
        }
        reached
    }

    /// The queue of an ordering walk from the edges `start`: distinct held vertices,
    /// each reached by its witness unordered path in `pre`; the ordered flags are
    /// those of `pre` and the queued vertices.
    #[verifier::opaque]
    closed spec fn order_queue(&self, pre: RoundBasedDAG, start: Seq<VertexId>, queue: Seq<VertexId>,
        wit: Map<VertexId, Seq<VertexId>>) -> bool {
        &&& self.wf()
        &&& pre.wf()
        &&& self.matrix == pre.matrix
        &&& self.gc_offset == pre.gc_offset
        &&& self.proc_num == pre.proc_num
        &&& queue.no_duplicates()
        &&& queue.len() <= pre.width() * pre.rows()
        &&& forall|id: VertexId| #[trigger] self.is_ordered(id) <==> (pre.is_ordered(id) || queue.contains(id))
        &&& forall|k: int| 0 <= k < queue.len() ==> {
            let q = #[trigger] queue[k];
            &&& pre.holds(q)
            &&& wit.contains_key(q)
            &&& pre.unordered_path(start, wit[q])
            &&& wit[q].last() == q
        }
    }

    /// A queued vertex of an ordering walk is reached by its witness path.
    proof fn lemma_order_queue_entry(&self, pre: RoundBasedDAG, start: Seq<VertexId>, queue: Seq<VertexId>,
        wit: Map<VertexId, Seq<VertexId>>, k: int)
        requires
            self.order_queue(pre, start, queue, wit),
            0 <= k < queue.len(),
        ensures
            wit.contains_key(queue[k]),
            pre.unordered_path(start, wit[queue[k]]),
            wit[queue[k]].last() == queue[k],
    {
        reveal(RoundBasedDAG::order_queue);
    }

    /// One step of an ordering walk from the vertex `vid`: orders and queues the live
    /// edges of `cur` not ordered yet.
    fn order_step(
        &mut self,
        current: &Vec<VertexId>,
        queue: &mut Vec<VertexId>,
        Ghost(pre): Ghost<RoundBasedDAG>,
        Ghost(vid): Ghost<VertexId>,
        Ghost(cur): Ghost<VertexId>,
        Ghost(wit): Ghost<Map<VertexId, Seq<VertexId>>>,
    ) -> (out: Ghost<Map<VertexId, Seq<VertexId>>>)
        requires
            old(self).order_queue(pre, pre.vertex(vid).edges, old(queue)@, wit),
            pre.holds(vid),
            pre.holds(cur),
            current@ == pre.vertex(cur).edges,
            cur == vid || (wit.contains_key(cur) && pre.unordered_path(pre.vertex(vid).edges, wit[cur]) && wit[cur].last() == cur),
        ensures
            final(self).order_queue(pre, pre.vertex(vid).edges, final(queue)@, out@),
            final(self).wf(),
            final(self).matrix == pre.matrix,
            final(self).gc_offset == pre.gc_offset,
            final(self).proc_num == pre.proc_num,
            forall|k: int| 0 <= k < final(queue)@.len() ==> pre.holds(#[trigger] final(queue)@[k]),
            final(queue)@.len() <= pre.width() * pre.rows(),
            final(queue)@.len() >= old(queue)@.len(),
            forall|k: int| 0 <= k < old(queue)@.len() ==> #[trigger] final(queue)@[k] == old(queue)@[k],
            forall|x: VertexId| #[trigger] old(queue)@.contains(x) ==> final(queue)@.contains(x),
            forall|e: VertexId| #[trigger] current@.contains(e) && pre.live(e) ==> pre.is_ordered(e) || final(queue)@.contains(e),
    {
        let ghost start = pre.vertex(vid).edges;
        let ghost q_in = queue@;
        let ghost mut w = wit;
        proof {
            reveal(RoundBasedDAG::order_queue);
        }
        let mut i: usize = 0;
        while i < current.len()
            invariant
                self.order_queue(pre, start, queue@, w),
                start == pre.vertex(vid).edges,
                pre.holds(cur),
                current@ == pre.vertex(cur).edges,
                cur == vid || (w.contains_key(cur) && pre.unordered_path(start, w[cur]) && w[cur].last() == cur),
                i <= current@.len(),
                queue@.len() >= q_in.len(),
                queue@.subrange(0, q_in.len() as int) == q_in,
                forall|m: int| 0 <= m < i ==> {
                    let e = #[trigger] current@[m];
                    pre.live(e) ==> pre.is_ordered(e) || queue@.contains(e)
                },
            decreases current@.len() - i,
        {
            reveal(RoundBasedDAG::order_queue);
            let e = current[i];
            proof {
                assert(current@[i as int] == e);
                assert(pre.vertex(cur).edges.contains(e));
            }
            if e.0 >= self.gc_offset {
                proof {
                    assert(pre.holds(e));
                }
                let r = e.0 - self.gc_offset;
                if !self.ordered[r][e.1] {
                    let ghost b4 = *self;
                    let ghost q0 = queue@;
                    let ghost p = if cur == vid { seq![e] } else { w[cur].push(e) };
                    proof {
                        assert(!b4.is_ordered(e));
                        assert(!q0.contains(e));
                        assert(!pre.is_ordered(e));
                        if cur != vid {
                            let wc = w[cur];
                            assert forall|k: int| 0 <= k < p.len() implies pre.live(#[trigger] p[k]) && !pre.is_ordered(p[k]) by {
                                if k < wc.len() {
                                    assert(p[k] == wc[k]);
                                }
                            }
                            assert forall|k: int| 0 <= k < p.len() - 1 implies pre.holds(#[trigger] p[k])
                                && pre.vertex(p[k]).edges.contains(p[k + 1]) by {
                                assert(p[k] == wc[k]);
                                if k < wc.len() - 1 {
                                    assert(p[k + 1] == wc[k + 1]);
                                }
                            }
                            assert(p[0] == wc[0]);
                        }
                        assert(pre.unordered_path(start, p));
                    }
                    self.mark_ordered(e);
                    queue.push(e);
                    proof {
                        w = w.insert(e, p);
                        assert(queue@[queue@.len() - 1] == e);
                        assert forall|x: VertexId| #[trigger] q0.contains(x) implies queue@.contains(x) by {
                            let k = choose|k: int| 0 <= k < q0.len() && q0[k] == x;
                            assert(queue@[k] == x);
                        }
                        assert forall|x: VertexId| #[trigger] queue@.contains(x) implies q0.contains(x) || x == e by {
                            let k = choose|k: int| 0 <= k < queue@.len() && queue@[k] == x;
                            if k < q0.len() {
                                assert(q0[k] == x);
                            }
                        }
                        assert forall|id: VertexId| #[trigger] self.is_ordered(id) <==> (pre.is_ordered(id) || queue@.contains(id)) by {
                            assert(b4.is_ordered(id) <==> (pre.is_ordered(id) || q0.contains(id)));
                        }
                        assert forall|k: int| 0 <= k < queue@.len() implies {
                            let q = #[trigger] queue@[k];
                            &&& pre.holds(q)
                            &&& w.contains_key(q)
                            &&& pre.unordered_path(start, w[q])
                            &&& w[q].last() == q
                        } by {
                            if k < q0.len() {
                                assert(queue@[k] == q0[k]);
                            }
                        }
                        assert forall|a: int, b: int| 0 <= a < b < queue@.len() implies queue@[a] != queue@[b] by {
                            if b < q0.len() {
                                assert(queue@[a] == q0[a]);
                                assert(queue@[b] == q0[b]);
                            } else {
                                assert(queue@[a] == q0[a]);
                                assert(q0.contains(q0[a]));
                            }
                        }
                        assert(queue@.subrange(0, q_in.len() as int) =~= q_in) by {
                            assert(q0.subrange(0, q_in.len() as int) == q_in);
                        }
                        assert forall|k: int| 0 <= k < queue@.len() implies pre.in_range(#[trigger] queue@[k]) by {
                            assert(pre.holds(queue@[k]));
                        }
                        lemma_queue_bound(queue@, pre);
                        assert forall|m: int| 0 <= m < i implies {
                            let x = #[trigger] current@[m];
                            pre.live(x) ==> pre.is_ordered(x) || queue@.contains(x)
                        } by {
                            let x = current@[m];
                            if pre.live(x) && !pre.is_ordered(x) {
                                assert(q0.contains(x));
                            }
                        }
                    }
                } else {
                    proof {
                        assert(self.is_ordered(e));
                    }
                }
            }
            i = i + 1;
        }
        reveal(RoundBasedDAG::order_queue);
        proof {
            assert forall|e: VertexId| #[trigger] current@.contains(e) && pre.live(e) implies pre.is_ordered(e) || queue@.contains(e) by {
                let m = choose|m: int| 0 <= m < current@.len() && current@[m] == e;
            }
            assert forall|k: int| 0 <= k < q_in.len() implies #[trigger] queue@[k] == q_in[k] by {
                assert(queue@.subrange(0, q_in.len() as int)[k] == q_in[k]);
            }
            assert forall|x: VertexId| #[trigger] q_in.contains(x) implies queue@.contains(x) by {
                let k = choose|k: int| 0 <= k < q_in.len() && q_in[k] == x;
                assert(queue@[k] == x);
            }
            assert forall|k: int| 0 <= k < queue@.len() implies pre.holds(#[trigger] queue@[k]) by {}
        }
        Ghost(w)
    }

    /// Orders every vertex that an unordered path leads to from `vertex` (see
    /// `ordering_from`), at `now` on process `self_pid`: gives, for each newly ordered
    /// vertex of that process, the time elapsed since `vertex` was created (0 if it
    /// was created after `now`).
    #[verifier::rlimit(100)]
    pub fn order_from(&mut self, vertex: &Vertex, self_pid: Pid, now: usize) -> (latencies: Vec<usize>)
        requires
            old(self).wf(),
            old(self).holds(vertex.id()),
            old(self).vertex(vertex.id()) == vertex.view(),
        ensures
            final(self).wf(),
            final(self).width() == old(self).width(),
            final(self).offset() == old(self).offset(),
            final(self).rows() == old(self).rows(),
            forall|id: VertexId| #[trigger] final(self).holds(id) == old(self).holds(id),
            forall|id: VertexId| old(self).holds(id) ==> #[trigger] final(self).vertex(id) == old(self).vertex(id),
            forall|id: VertexId| #[trigger] final(self).is_ordered(id) == (old(self).is_ordered(id)
                || old(self).ordering_from(vertex.view().edges).contains(id)),
            exists|newly: Seq<VertexId>| {
                &&& newly.no_duplicates()
                &&& newly.to_set() == old(self).ordering_from(vertex.view().edges)
                &&& latencies@ == own_latencies(newly, self_pid, elapsed(vertex.creation_time, now))
            },
    {
        let ghost pre = *self;
        let ghost vid = vertex.id();
        let ghost start = pre.vertex(vid).edges;
        let mut queue: Vec<VertexId> = Vec::new();
        proof {
            reveal(RoundBasedDAG::order_queue);
            assert(self.order_queue(pre, start, queue@, Map::empty()));
        }
        let mut head: usize = 0;
        let mut current = copy_vertex_ids(&vertex.strong_edges);
        let ghost mut cur: VertexId = vid;
        let ghost mut wit: Map<VertexId, Seq<VertexId>> = Map::empty();
        loop
            invariant_except_break
                head > 0 ==> wit.contains_key(cur) && pre.unordered_path(start, wit[cur]) && wit[cur].last() == cur,
            invariant
                self.order_queue(pre, start, queue@, wit),
                self.wf(),
                self.matrix == pre.matrix,
                self.gc_offset == pre.gc_offset,
                self.proc_num == pre.proc_num,
                pre.wf(),
                forall|k: int| 0 <= k < queue@.len() ==> pre.holds(#[trigger] queue@[k]),
                queue@.len() <= pre.width() * pre.rows(),
                pre.holds(vid),
                start == pre.vertex(vid).edges,
                head <= queue@.len(),
                cur == if head == 0 { vid } else { queue@[head - 1] },
                current@ == pre.vertex(cur).edges,
                head > 0 ==> forall|e: VertexId| #[trigger] pre.vertex(vid).edges.contains(e) && pre.live(e)
                    ==> pre.is_ordered(e) || queue@.contains(e),
                forall|k: int, e: VertexId| 0 <= k < head - 1 && #[trigger] pre.vertex(queue@[k]).edges.contains(e)
                    && pre.live(e) ==> pre.is_ordered(e) || queue@.contains(e),
            ensures
                self.order_queue(pre, start, queue@, wit),
                self.wf(),
                self.matrix == pre.matrix,
                self.gc_offset == pre.gc_offset,
                self.proc_num == pre.proc_num,
                forall|e: VertexId| #[trigger] pre.vertex(vid).edges.contains(e) && pre.live(e)
                    ==> pre.is_ordered(e) || queue@.contains(e),
                forall|k: int, e: VertexId| 0 <= k < queue@.len() && #[trigger] pre.vertex(queue@[k]).edges.contains(e)
                    && pre.live(e) ==> pre.is_ordered(e) || queue@.contains(e),
            decreases pre.width() * pre.rows() - head,
        {
            let ghost q0 = queue@;
            proof {
                if head > 0 {
                    assert(q0[head - 1] == cur);
                }
            }
            let Ghost(w2) = self.order_step(&current, &mut queue, Ghost(pre), Ghost(vid), Ghost(cur), Ghost(wit));
            proof {
                wit = w2;
            }
            if head >= queue.len() {
                break;
            }
            let next = queue[head];
            proof {
                self.lemma_order_queue_entry(pre, start, queue@, wit, head as int);
            }
            head = head + 1;
            current = self.edges_of(next);
            proof {
                cur = next;
            }
        }
        let lat = if vertex.creation_time <= now { now - vertex.creation_time } else { 0 };
        let mut latencies: Vec<usize> = Vec::new();
        let mut k: usize = 0;
        while k < queue.len()
            invariant
                k <= queue@.len(),
                latencies@ == own_latencies(queue@.take(k as int), self_pid, lat),
            decreases queue@.len() - k,
        {
            proof {
                assert(queue@.take(k as int + 1).drop_last() =~= queue@.take(k as int));
            }
            if queue[k].1 == self_pid {
                latencies.push(lat);
            }
            k = k + 1;
        }
        proof {
            reveal(RoundBasedDAG::order_queue);
            assert(start == vertex.view().edges);
            assert(queue@.take(queue@.len() as int) =~= queue@);
            assert forall|y: VertexId| #[trigger] pre.ordering_from(start).contains(y) implies queue@.contains(y) by {
                let p = choose|p: Seq<VertexId>| #[trigger] pre.unordered_path(start, p) && p.last() == y;
                lemma_unordered_path_closed(pre, start, p, vid, queue@, p.len() - 1);
            }
            assert forall|y: VertexId| queue@.contains(y) implies #[trigger] pre.ordering_from(start).contains(y) by {
                let k = choose|k: int| 0 <= k < queue@.len() && queue@[k] == y;
                assert(pre.unordered_path(start, wit[queue@[k]]));
            }
            assert(queue@.to_set() =~= pre.ordering_from(start));
            assert forall|id: VertexId| #[trigger] self.holds(id) == pre.holds(id) by {}
        }
        latencies
    }
}

/// Along an unordered path from the edges of `vid`, every node is queued when `vid`
/// and each queued vertex have their live edges ordered or queued.
proof fn lemma_unordered_path_closed(
    d: RoundBasedDAG,
    start: Seq<VertexId>,
    p: Seq<VertexId>,
    vid: VertexId,
    queue: Seq<VertexId>,
    k: int,
)
    requires
        d.unordered_path(start, p),
        0 <= k < p.len(),
        start == d.vertex(vid).edges,
        forall|e: VertexId| #[trigger] d.vertex(vid).edges.contains(e) && d.live(e) ==> d.is_ordered(e) || queue.contains(e),
        forall|j: int, e: VertexId| 0 <= j < queue.len() && #[trigger] d.vertex(queue[j]).edges.contains(e)
            && d.live(e) ==> d.is_ordered(e) || queue.contains(e),
    ensures
        queue.contains(p[k]),
    decreases k,
{
    if k == 0 {
        assert(d.live(p[0]) && !d.is_ordered(p[0]));
    } else {
        lemma_unordered_path_closed(d, start, p, vid, queue, k - 1);
        assert(d.holds(p[k - 1]) && d.vertex(p[k - 1]).edges.contains(p[k]));
        assert(d.live(p[k]) && !d.is_ordered(p[k]));
        let j = choose|j: int| 0 <= j < queue.len() && queue[j] == p[k - 1];
        assert(d.vertex(queue[j]).edges.contains(p[k]));
    }
}

/// Two states with the same rounds and ordered flags have the same content.
proof fn lemma_same_content(a: RoundBasedDAG, b: RoundBasedDAG)
    requires
        a.matrix == b.matrix,
        a.ordered == b.ordered,
        a.gc_offset == b.gc_offset,
        a.proc_num == b.proc_num,
    ensures
        a.same_content(&b),
{
    assert forall|id: VertexId| #[trigger] a.holds(id) == b.holds(id) by {}
}

/// Distinct identities in the slots of the rounds kept are no more than the slots.
proof fn lemma_queue_bound(q: Seq<VertexId>, d: RoundBasedDAG)
    requires
        q.no_duplicates(),
        forall|k: int| 0 <= k < q.len() ==> d.in_range(#[trigger] q[k]),
    ensures
        q.len() <= d.width() * d.rows(),
{
    let off = d.offset() as int;
    let w = d.width() as int;
    let n = d.rows() as int;
    let f = |id: VertexId| (id.0 - off) * w + id.1;
    let s = q.to_set();
    q.unique_seq_to_set();
    assert forall|a: VertexId, b: VertexId| s.contains(a) && s.contains(b) && #[trigger] f(a) == #[trigger] f(b) implies a == b by {
        let ka = choose|k: int| 0 <= k < q.len() && q[k] == a;
        let kb = choose|k: int| 0 <= k < q.len() && q[k] == b;
        assert(d.in_range(q[ka]));
        assert(d.in_range(q[kb]));
        let xa = a.0 - off;
        let xb = b.0 - off;
        let ya = a.1 as int;
        let yb = b.1 as int;
        assert(xa == xb && ya == yb) by (nonlinear_arith)
            requires
                xa * w + ya == xb * w + yb,
                0 <= ya < w,
                0 <= yb < w,
                0 <= xa,
                0 <= xb,
        {
            if xa < xb {
                assert(xa * w + w <= xb * w);
            } else if xb < xa {
                assert(xb * w + w <= xa * w);
            }
        }
    }
    let img = s.map(f);
    vstd::set_lib::lemma_map_size(s, img, f);
    assert forall|x: int| #[trigger] img.contains(x) implies vstd::set_lib::set_int_range(0, n * w).contains(x) by {
        let a = choose|a: VertexId| s.contains(a) && f(a) == x;
        let k = choose|k: int| 0 <= k < q.len() && q[k] == a;
        assert(d.in_range(q[k]));
        let xa = a.0 - off;
        let ya = a.1 as int;
        assert(0 <= xa * w + ya < n * w) by (nonlinear_arith)
            requires
                0 <= xa < n,
                0 <= ya < w,
        {
            assert(xa * w <= (n - 1) * w);
        }
    }
    vstd::set_lib::lemma_int_range(0, n * w);
    vstd::set_lib::lemma_len_subset(img, vstd::set_lib::set_int_range(0, n * w));
}

/// Along a search path from the edges `start` that avoids `fid`, every node is in `queue`
/// (and none is `tid`) when each of them has its live edges no lower than `floor`
/// there (and none to `tid`).
proof fn lemma_path_prefix_closed(
    d: RoundBasedDAG,
    start: Seq<VertexId>,
    p: Seq<VertexId>,
    floor: int,
    fid: VertexId,
    tid: VertexId,
    queue: Seq<VertexId>,
    k: int,
)
    requires
        d.search_path(start, p, floor),
        forall|j: int| 0 <= j < p.len() ==> p[j] != fid,
        0 <= k < p.len(),
        forall|e: VertexId| #[trigger] start.contains(e) && d.live(e) && e.0 >= floor
            ==> e != tid && (e == fid || queue.contains(e)),
        forall|j: int, e: VertexId| 0 <= j < queue.len() && #[trigger] d.vertex(queue[j]).edges.contains(e)
            && d.live(e) && e.0 >= floor ==> e != tid && (e == fid || queue.contains(e)),
    ensures
        p[k] != tid && (p[k] == fid || queue.contains(p[k])),
    decreases k,
{
    if k == 0 {
        assert(d.live(p[0]) && p[0].0 >= floor);
    } else {
        lemma_path_prefix_closed(d, start, p, floor, fid, tid, queue, k - 1);
        assert(d.holds(p[k - 1]) && d.vertex(p[k - 1]).edges.contains(p[k]));
        assert(d.live(p[k]) && p[k].0 >= floor);
        assert(p[k - 1] != fid);
        let j = choose|j: int| 0 <= j < queue.len() && queue[j] == p[k - 1];
        assert(d.vertex(queue[j]).edges.contains(p[k]));
    }
}

} // verus!
