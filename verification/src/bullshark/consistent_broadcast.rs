use vstd::prelude::*;

use crate::bullshark::dag_utils::{copy_vertex_message, VertexMessage, VertexMessageView};
use crate::client::{CmdId, Pid};
use crate::cmd_map::CmdMap;

verus! {

/// Identity of a broadcast: the process that started it and a number of its own.
pub type MessageId = CmdId;

/// A message of the consistent broadcast: the payload from its sender, a
/// signature of a receiver, or the certificate that enough receivers signed.
pub enum BCBMessage {
    Initiate(MessageId, VertexMessage),
    Signature(MessageId),
    Certificate(usize, MessageId),
}

/// One step of the consistent broadcast of a process: a message from `from` handled
/// with the output shown, or a broadcast of the process's own vertex message, handed
/// out as the initiation shown.
pub enum BCBStep {
    Handle(Pid, BCBMessage, BCBOutput),
    Broadcast(VertexMessage, BCBMessage),
}

/// What handling a broadcast message led to: a payload to deliver, a message to
/// send back to the sender, and a message to broadcast.
pub struct BCBOutput {
    pub deliver: Option<VertexMessage>,
    pub reply: Option<(Pid, BCBMessage)>,
    pub broadcast: Option<BCBMessage>,
}

impl BCBMessage {
    /// The size the message takes on the network, given that of the payload.
    pub fn virtual_size(&self, payload_size: usize) -> (n: usize)
        requires
            self is Initiate ==> 128 + payload_size <= usize::MAX,
            self matches BCBMessage::Certificate(v, _) ==> 128 + v / 8 <= usize::MAX,
        ensures
            n == match self {
                BCBMessage::Initiate(_, _) => 128 + payload_size,
                BCBMessage::Signature(_) => 64,
                BCBMessage::Certificate(v, _) => 128 + v / 8,
            },
    {
        match self {
            BCBMessage::Initiate(_, _) => 128 + payload_size,
            BCBMessage::Signature(_) => 64,
            BCBMessage::Certificate(validators, _) => 128 + validators / 8,
        }
    }
}

/// Byzantine consistent broadcast among `proc_num` processes: the sender hands the
/// payload to all, each receiver signs it back, and once a quorum signed the sender
/// certifies it; a receiver delivers the payload when it holds both the payload and
/// its certificate.
pub struct ByzantineConsistentBroadcast {
    messages: CmdMap<(VertexMessage, usize)>,
    waiting_certificates: CmdMap<()>,
    proc_num: usize,
    next_id: usize,
}

/// The certificate size: a strict two-thirds majority of `proc_num` processes.
pub open spec fn bcb_quorum(proc_num: nat) -> nat {
    (2 * ((proc_num - 1) / 3) + 1) as nat
}

impl ByzantineConsistentBroadcast {
    /// The payloads held, each with the number of signatures gathered.
    pub closed spec fn messages(&self) -> Map<MessageId, (VertexMessageView, usize)> {
        self.messages@.map_values(|e: (VertexMessage, usize)| (e.0.view(), e.1))
    }

    /// The certificates received before their payload.
    pub closed spec fn waiting(&self) -> Set<MessageId> {
        self.waiting_certificates@.dom()
    }

    /// Number of processes.
    pub closed spec fn procs(&self) -> nat {
        self.proc_num as nat
    }

    /// The number the next own broadcast is given.
    pub closed spec fn next_number(&self) -> nat {
        self.next_id as nat
    }

    /// The maps are well formed.
    pub closed spec fn wf(&self) -> bool {
        &&& self.messages.wf()
        &&& self.waiting_certificates.wf()
    }

    /// A broadcast with nothing held, among no process yet.
    pub fn new() -> (b: Self)
        ensures
            b.wf(),
            b.messages() == Map::<MessageId, (VertexMessageView, usize)>::empty(),
            b.waiting() == Set::<MessageId>::empty(),
            b.procs() == 0,
            b.next_number() == 0,
    {
        let b = ByzantineConsistentBroadcast {
            messages: CmdMap::new(),
            waiting_certificates: CmdMap::new(),
            proc_num: 0,
            next_id: 0,
        };
        assert(b.messages() =~= Map::<MessageId, (VertexMessageView, usize)>::empty());
        b
    }

    /// Sets the number of processes.
    pub fn on_start(&mut self, proc_num: usize)
        requires
            old(self).wf(),
        ensures
            final(self).wf(),
            final(self).procs() == proc_num,
            final(self).messages() == old(self).messages(),
            final(self).waiting() == old(self).waiting(),
            final(self).next_number() == old(self).next_number(),
    {
        self.proc_num = proc_num;
    }

    /// The certificate size.
    pub fn quorum_size(&self) -> (n: usize)
        requires
            self.procs() >= 1,
        ensures
            n == bcb_quorum(self.procs()),
    {
        2 * ((self.proc_num - 1) / 3) + 1
    }

    /// Starts broadcasting `message` from process `self_pid`: it is held with no
    /// signature under a fresh identity, and the returned initiation is to be sent to
    /// all processes.
    pub fn reliably_broadcast(&mut self, message: VertexMessage, self_pid: Pid) -> (out: BCBMessage)
        requires
            old(self).wf(),
        ensures
            final(self).wf(),
            final(self).procs() == old(self).procs(),
            final(self).waiting() == old(self).waiting(),
            final(self).next_number() == if old(self).next_number() < usize::MAX { old(self).next_number() + 1 } else { 0 },
            ({
                let id = CmdId { pid: self_pid, id: old(self).next_number() as usize };
                &&& final(self).messages() == old(self).messages().insert(id, (message.view(), 0usize))
                &&& out matches BCBMessage::Initiate(i, m) && i == id && m.view() == message.view()
            }),
            ByzantineConsistentBroadcast::broadcasts(*old(self), *final(self), message, self_pid, out),
    {
        let id = CmdId { pid: self_pid, id: self.next_id };
        self.next_id = if self.next_id < usize::MAX { self.next_id + 1 } else { 0 };
        let copy = copy_vertex_message(&message);
        self.messages.insert(id, (message, 0));
        assert(self.messages() =~= old(self).messages().insert(id, (copy.view(), 0usize)));
        BCBMessage::Initiate(id, copy)
    }

    /// What handling `message` from `from` on process `self_pid` does from `pre` to
    /// `post`, answering `out`. A certificate delivers its payload if held (dropping
    /// it), and is otherwise kept waiting. An initiation from another process is
    /// delivered at once if its certificate was waiting (and then not signed), and is
    /// otherwise held and signed back; an own initiation is only signed back. A
    /// signature on a held payload is counted, and the count reaching the certificate
    /// size broadcasts the certificate.
    pub open spec fn handles(pre: ByzantineConsistentBroadcast, post: ByzantineConsistentBroadcast, from: Pid,
        message: BCBMessage, self_pid: Pid, out: BCBOutput) -> bool {
        &&& post.procs() == pre.procs()
        &&& post.next_number() == pre.next_number()
        &&& match message {
            BCBMessage::Certificate(_, id) => {
                &&& out.reply is None
                &&& out.broadcast is None
                &&& if pre.messages().contains_key(id) {
                    &&& post.messages() == pre.messages().remove(id)
                    &&& post.waiting() == pre.waiting()
                    &&& out.deliver matches Some(m) && m.view() == pre.messages()[id].0
                } else {
                    &&& post.messages() == pre.messages()
                    &&& post.waiting() == pre.waiting().insert(id)
                    &&& out.deliver is None
                }
            },
            BCBMessage::Initiate(id, m) => {
                &&& out.broadcast is None
                &&& if id.pid != self_pid && pre.waiting().contains(id) {
                    &&& post.waiting() == pre.waiting().remove(id)
                    &&& post.messages() == pre.messages()
                    &&& out.deliver matches Some(d) && d.view() == m.view()
                    &&& out.reply is None
                } else {
                    &&& post.waiting() == pre.waiting()
                    &&& post.messages() == if id.pid != self_pid {
                        pre.messages().insert(id, (m.view(), 0usize))
                    } else {
                        pre.messages()
                    }
                    &&& out.deliver is None
                    &&& out.reply matches Some((to, BCBMessage::Signature(s))) && to == from && s == id
                }
            },
            BCBMessage::Signature(id) => {
                &&& out.deliver is None
                &&& out.reply is None
                &&& post.waiting() == pre.waiting()
                &&& if pre.messages().contains_key(id) {
                    let count = (pre.messages()[id].1 + 1) as usize;
                    &&& post.messages() == pre.messages().insert(id, (pre.messages()[id].0, count))
                    &&& if count == bcb_quorum(pre.procs()) {
                        out.broadcast matches Some(BCBMessage::Certificate(v, c)) && v == pre.procs() && c == id
                    } else {
                        out.broadcast is None
                    }
                } else {
                    &&& post.messages() == pre.messages()
                    &&& out.broadcast is None
                }
            },
        }
    }

    /// The message whose vertex handling `message` delivered (in `out`), if any.
    pub open spec fn delivered_id(message: BCBMessage, out: BCBOutput) -> Option<MessageId> {
        if out.deliver is Some {
            match message {
                BCBMessage::Certificate(_, id) => Some(id),
                BCBMessage::Initiate(id, _) => Some(id),
                BCBMessage::Signature(_) => None,
            }
        } else {
            None
        }
    }

    /// `message` initiates the broadcast of the message `id`.
    pub open spec fn initiates(message: BCBMessage, id: MessageId) -> bool {
        message matches BCBMessage::Initiate(i, _) && i == id
    }

    /// `post` and `out` are what broadcasting `message` from process `self_pid` gives
    /// (see `reliably_broadcast`): the message is held under the next identity of the
    /// process, with no signature yet, and its initiation is handed out.
    pub open spec fn broadcasts(pre: ByzantineConsistentBroadcast, post: ByzantineConsistentBroadcast, message: VertexMessage,
        self_pid: Pid, out: BCBMessage) -> bool {
        let id = CmdId { pid: self_pid, id: pre.next_number() as usize };
        &&& post.procs() == pre.procs()
        &&& post.waiting() == pre.waiting()
        &&& post.next_number() == if pre.next_number() < usize::MAX { pre.next_number() + 1 } else { 0 }
        &&& post.messages() == pre.messages().insert(id, (message.view(), 0usize))
        &&& out matches BCBMessage::Initiate(i, m) && i == id && m.view() == message.view()
    }

    /// One step of a run: a handled message or a broadcast of the process's own.
    pub open spec fn step_taken(pre: ByzantineConsistentBroadcast, post: ByzantineConsistentBroadcast, step: BCBStep,
        self_pid: Pid) -> bool {
        match step {
            BCBStep::Handle(from, message, out) => ByzantineConsistentBroadcast::handles(pre, post, from, message, self_pid, out),
            BCBStep::Broadcast(message, out) => ByzantineConsistentBroadcast::broadcasts(pre, post, message, self_pid, out),
        }
    }

    /// The message whose vertex `step` delivered, if any.
    pub open spec fn step_delivers(step: BCBStep) -> Option<MessageId> {
        match step {
            BCBStep::Handle(_, message, out) => ByzantineConsistentBroadcast::delivered_id(message, out),
            BCBStep::Broadcast(_, _) => None,
        }
    }

    /// `step` handles an initiation of the broadcast of `id` by another process.
    pub open spec fn step_initiates(step: BCBStep, id: MessageId) -> bool {
        step matches BCBStep::Handle(_, message, _) && ByzantineConsistentBroadcast::initiates(message, id)
    }

    /// `states` runs through `steps` on process `self_pid`, step `k` leading from
    /// `states[k]` to `states[k + 1]`.
    pub open spec fn run(states: Seq<ByzantineConsistentBroadcast>, steps: Seq<BCBStep>, self_pid: Pid) -> bool {
        &&& states.len() == steps.len() + 1
        &&& forall|k: int| 0 <= k < steps.len() ==> #[trigger] ByzantineConsistentBroadcast::step_taken(states[k], states[k + 1],
            steps[k], self_pid)
    }

    /// The own identity given out by the broadcast at step `a`.
    spec fn own_id(states: Seq<ByzantineConsistentBroadcast>, self_pid: Pid, a: int) -> MessageId {
        CmdId { pid: self_pid, id: states[a].next_number() as usize }
    }

    /// The message `id` was brought in before step `n`: by an initiation from another
    /// process, or by a broadcast of the process's own.
    spec fn brought_before(states: Seq<ByzantineConsistentBroadcast>, steps: Seq<BCBStep>, self_pid: Pid, id: MessageId,
        n: int) -> bool {
        ||| id.pid != self_pid && exists|c: int| 0 <= c < n && #[trigger] ByzantineConsistentBroadcast::step_initiates(steps[c], id)
        ||| id.pid == self_pid && exists|c: int| 0 <= c < n && steps[c] is Broadcast
            && #[trigger] ByzantineConsistentBroadcast::own_id(states, self_pid, c) == id
    }

    proof fn lemma_run_invariant(states: Seq<ByzantineConsistentBroadcast>, steps: Seq<BCBStep>, self_pid: Pid, n: int)
        requires
            ByzantineConsistentBroadcast::run(states, steps, self_pid),
            states[0].messages() == Map::<MessageId, (VertexMessageView, usize)>::empty(),
            states[0].next_number() + steps.len() < usize::MAX,
            forall|a: int, b: int, id: MessageId| 0 <= a < b < steps.len()
                && #[trigger] ByzantineConsistentBroadcast::step_initiates(steps[a], id)
                ==> !#[trigger] ByzantineConsistentBroadcast::step_initiates(steps[b], id),
            0 <= n <= steps.len(),
        ensures
            states[n].next_number() <= states[0].next_number() + n,
            forall|a: int| 0 <= a < n && #[trigger] steps[a] is Broadcast ==> states[a].next_number() < states[n].next_number(),
            forall|id: MessageId| #[trigger] states[n].messages().contains_key(id)
                ==> ByzantineConsistentBroadcast::brought_before(states, steps, self_pid, id, n),
            forall|a: int| 0 <= a < n && #[trigger] ByzantineConsistentBroadcast::step_delivers(steps[a]) is Some ==> {
                let id = ByzantineConsistentBroadcast::step_delivers(steps[a])->0;
                &&& !states[n].messages().contains_key(id)
                &&& id.pid != self_pid ==> exists|c: int| 0 <= c < n && #[trigger] ByzantineConsistentBroadcast::step_initiates(steps[c], id)
                &&& id.pid == self_pid ==> exists|c: int| 0 <= c < n && steps[c] is Broadcast
                    && #[trigger] ByzantineConsistentBroadcast::own_id(states, self_pid, c) == id
            },
        decreases n,
    {
        if n > 0 {
            let k = n - 1;
            ByzantineConsistentBroadcast::lemma_run_invariant(states, steps, self_pid, k);
            assert(ByzantineConsistentBroadcast::step_taken(states[k], states[k + 1], steps[k], self_pid));
            let pre = states[k];
            let post = states[n];
            assert forall|a: int| 0 <= a < n && #[trigger] steps[a] is Broadcast implies states[a].next_number() < post.next_number() by {
                if a < k {
                    assert(states[a].next_number() < pre.next_number());
                }
            }
            assert forall|id: MessageId| #[trigger] post.messages().contains_key(id)
                implies ByzantineConsistentBroadcast::brought_before(states, steps, self_pid, id, n) by {
                if pre.messages().contains_key(id) {
                    assert(ByzantineConsistentBroadcast::brought_before(states, steps, self_pid, id, k));
                    if id.pid != self_pid {
                        let c = choose|c: int| 0 <= c < k && #[trigger] ByzantineConsistentBroadcast::step_initiates(steps[c], id);
                        assert(ByzantineConsistentBroadcast::step_initiates(steps[c], id));
                    } else {
                        let c = choose|c: int| 0 <= c < k && steps[c] is Broadcast
                            && #[trigger] ByzantineConsistentBroadcast::own_id(states, self_pid, c) == id;
                        assert(ByzantineConsistentBroadcast::own_id(states, self_pid, c) == id);
                    }
                } else {
                    match steps[k] {
                        BCBStep::Handle(from, message, out) => {
                            assert(ByzantineConsistentBroadcast::step_initiates(steps[k], id));
                        },
                        BCBStep::Broadcast(message, out) => {
                            assert(ByzantineConsistentBroadcast::own_id(states, self_pid, k) == id);
                        },
                    }
                }
            }
            assert forall|a: int| 0 <= a < n && #[trigger] ByzantineConsistentBroadcast::step_delivers(steps[a]) is Some implies {
                let id = ByzantineConsistentBroadcast::step_delivers(steps[a])->0;
                &&& !post.messages().contains_key(id)
                &&& id.pid != self_pid ==> exists|c: int| 0 <= c < n && #[trigger] ByzantineConsistentBroadcast::step_initiates(steps[c], id)
                &&& id.pid == self_pid ==> exists|c: int| 0 <= c < n && steps[c] is Broadcast
                    && #[trigger] ByzantineConsistentBroadcast::own_id(states, self_pid, c) == id
            } by {
                let id = ByzantineConsistentBroadcast::step_delivers(steps[a])->0;
                if a < k {
                    if id.pid != self_pid {
                        let c = choose|c: int| 0 <= c < k && #[trigger] ByzantineConsistentBroadcast::step_initiates(steps[c], id);
                        assert(ByzantineConsistentBroadcast::step_initiates(steps[c], id));
                        if post.messages().contains_key(id) {
                            assert(ByzantineConsistentBroadcast::step_initiates(steps[k], id));
                        }
                    } else {
                        let c = choose|c: int| 0 <= c < k && steps[c] is Broadcast
                            && #[trigger] ByzantineConsistentBroadcast::own_id(states, self_pid, c) == id;
                        assert(ByzantineConsistentBroadcast::own_id(states, self_pid, c) == id);
                        if post.messages().contains_key(id) {
                            assert(steps[k] is Broadcast);
                            assert(states[c].next_number() < pre.next_number());
                            assert(ByzantineConsistentBroadcast::own_id(states, self_pid, k) == id);
                        }
                    }
                } else {
                    match steps[k] {
                        BCBStep::Handle(from, message, out) => {
                            match message {
                                BCBMessage::Certificate(_, i) => {
                                    assert(pre.messages().contains_key(i));
                                    assert(ByzantineConsistentBroadcast::brought_before(states, steps, self_pid, i, k));
                                    if i.pid != self_pid {
                                        let c = choose|c: int| 0 <= c < k && #[trigger] ByzantineConsistentBroadcast::step_initiates(steps[c], i);
                                        assert(ByzantineConsistentBroadcast::step_initiates(steps[c], i));
                                    } else {
                                        let c = choose|c: int| 0 <= c < k && steps[c] is Broadcast
                                            && #[trigger] ByzantineConsistentBroadcast::own_id(states, self_pid, c) == i;
                                        assert(ByzantineConsistentBroadcast::own_id(states, self_pid, c) == i);
                                    }
                                },
                                BCBMessage::Initiate(i, _) => {
                                    assert(ByzantineConsistentBroadcast::step_initiates(steps[k], i));
                                    if pre.messages().contains_key(i) {
                                        assert(ByzantineConsistentBroadcast::brought_before(states, steps, self_pid, i, k));
                                        let c = choose|c: int| 0 <= c < k && #[trigger] ByzantineConsistentBroadcast::step_initiates(steps[c], i);
                                        assert(ByzantineConsistentBroadcast::step_initiates(steps[c], i));
                                    }
                                },
                                BCBMessage::Signature(_) => {},
                            }
                        },
                        BCBStep::Broadcast(_, _) => {},
                    }
                }
            }
        }
    }

    /// From a process holding no message, in a run where each message is initiated at
    /// most once by another process and the process's numbering does not run out, every
    /// message is delivered at most once, whether another process broadcast it or this
    /// one did.
    pub proof fn lemma_delivers_at_most_once(states: Seq<ByzantineConsistentBroadcast>, steps: Seq<BCBStep>, self_pid: Pid,
        i: int, j: int)
        requires
            ByzantineConsistentBroadcast::run(states, steps, self_pid),
            states[0].messages() == Map::<MessageId, (VertexMessageView, usize)>::empty(),
            states[0].next_number() + steps.len() < usize::MAX,
            forall|a: int, b: int, id: MessageId| 0 <= a < b < steps.len()
                && #[trigger] ByzantineConsistentBroadcast::step_initiates(steps[a], id)
                ==> !#[trigger] ByzantineConsistentBroadcast::step_initiates(steps[b], id),
            0 <= i < j < steps.len(),
            ByzantineConsistentBroadcast::step_delivers(steps[i]) is Some,
        ensures
            ByzantineConsistentBroadcast::step_delivers(steps[j]) != ByzantineConsistentBroadcast::step_delivers(steps[i]),
    {
        ByzantineConsistentBroadcast::lemma_run_invariant(states, steps, self_pid, j);
        let id = ByzantineConsistentBroadcast::step_delivers(steps[i])->0;
        assert(ByzantineConsistentBroadcast::step_delivers(steps[i]) is Some);
        assert(ByzantineConsistentBroadcast::step_taken(states[j], states[j + 1], steps[j], self_pid));
        if ByzantineConsistentBroadcast::step_delivers(steps[j]) == Some(id) {
            match steps[j] {
                BCBStep::Handle(from, message, out) => {
                    match message {
                        BCBMessage::Certificate(_, x) => {
                            assert(!states[j].messages().contains_key(id));
                        },
                        BCBMessage::Initiate(x, _) => {
                            assert(ByzantineConsistentBroadcast::step_initiates(steps[j], id));
                            let c = choose|c: int| 0 <= c < j && #[trigger] ByzantineConsistentBroadcast::step_initiates(steps[c], id);
                            assert(ByzantineConsistentBroadcast::step_initiates(steps[c], id));
                        },
                        BCBMessage::Signature(_) => {},
                    }
                },
                BCBStep::Broadcast(_, _) => {},
            }
        }
    }

    /// A message that delivered its vertex delivers nothing when it arrives again: a
    /// delivering certificate drops the held message, and a delivering initiation
    /// consumes the waiting certificate.
    pub proof fn lemma_redelivery_is_nothing(pre: ByzantineConsistentBroadcast, mid: ByzantineConsistentBroadcast,
        post: ByzantineConsistentBroadcast, from: Pid, from2: Pid, message: BCBMessage, self_pid: Pid, out: BCBOutput,
        out2: BCBOutput)
        requires
            ByzantineConsistentBroadcast::handles(pre, mid, from, message, self_pid, out),
            out.deliver is Some,
            ByzantineConsistentBroadcast::handles(mid, post, from2, message, self_pid, out2),
        ensures
            out2.deliver is None,
    {
    }

    /// Handles `message` from `from` on process `self_pid` (see `handles`).
    pub fn on_message(&mut self, from: Pid, message: &BCBMessage, self_pid: Pid) -> (out: BCBOutput)
        requires
            old(self).wf(),
            *message matches BCBMessage::Signature(id) ==> (old(self).messages().contains_key(id)
                ==> old(self).procs() >= 1 && old(self).messages()[id].1 < usize::MAX),
        ensures
            final(self).wf(),
            ByzantineConsistentBroadcast::handles(*old(self), *final(self), from, *message, self_pid, out),
    {
        match message {
            BCBMessage::Certificate(_, id) => {
                match self.messages.remove(id) {
                    None => {
                        self.waiting_certificates.insert(*id, ());
                        assert(self.messages() =~= old(self).messages());
                        assert(self.waiting() =~= old(self).waiting().insert(*id));
                        BCBOutput { deliver: None, reply: None, broadcast: None }
                    },
                    Some((m, _)) => {
                        assert(self.messages() =~= old(self).messages().remove(*id));
                        BCBOutput { deliver: Some(m), reply: None, broadcast: None }
                    },
                }
            },
            BCBMessage::Initiate(id, m) => {
                if id.pid != self_pid {
                    if self.waiting_certificates.remove(id).is_some() {
                        assert(self.waiting() =~= old(self).waiting().remove(*id));
                        return BCBOutput { deliver: Some(copy_vertex_message(m)), reply: None, broadcast: None };
                    }
                    assert(self.waiting() =~= old(self).waiting());
                    let copy = copy_vertex_message(m);
                    self.messages.insert(*id, (copy, 0));
                    assert(self.messages() =~= old(self).messages().insert(*id, (m.view(), 0usize)));
                }
                BCBOutput { deliver: None, reply: Some((from, BCBMessage::Signature(*id))), broadcast: None }
            },
            BCBMessage::Signature(id) => {
                match self.messages.remove(id) {
                    None => {
                        assert(self.messages() =~= old(self).messages());
                        BCBOutput { deliver: None, reply: None, broadcast: None }
                    },
                    Some((m, count)) => {
                        let count = count + 1;
                        let ghost mv = m.view();
                        self.messages.insert(*id, (m, count));
                        assert(self.messages() =~= old(self).messages().insert(*id, (mv, count)));
                        if count == self.quorum_size() {
                            BCBOutput { deliver: None, reply: None, broadcast: Some(BCBMessage::Certificate(self.proc_num, *id)) }
                        } else {
                            BCBOutput { deliver: None, reply: None, broadcast: None }
                        }
                    },
                }
            },
        }
    }
}

} // verus!
