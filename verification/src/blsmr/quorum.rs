use vstd::prelude::*;

use crate::blsmr::pbft::{hashed_committee, is_hashed_committee};
use crate::blsmr::BLSMRProtocol;
use crate::client::{CmdId, Pid};
use crate::cmd_map::{copy_ids, copy_pids, insert_pid, lemma_with_pid_distinct, with_pid, CmdMap};
use crate::quorum::QuorumSystem;

verus! {

/// Whether two dependency lists are the same list.
pub fn ids_equal(a: &[CmdId], b: &[CmdId]) -> (r: bool)
    ensures
        r == (a@ == b@),
{
    if a.len() != b.len() {
        return false;
    }
    let mut i: usize = 0;
    while i < a.len()
        invariant
            a@.len() == b@.len(),
            i <= a@.len(),
            forall|j: int| 0 <= j < i ==> a@[j] == b@[j],
        decreases a@.len() - i,
    {
        if a[i] != b[i] {
            return false;
        }
        i = i + 1;
    }
    assert(a@ =~= b@);
    true
}

/// Slow-path request: the replica is asked to confirm the proposed dependencies.
#[derive(Debug)]
pub struct Request {
    pub cmd_id: CmdId,
    pub deps: Vec<CmdId>,
}

/// Slow-path confirmation: the replica echoes the dependencies it was asked about.
#[derive(Debug)]
pub struct Response {
    pub cmd_id: CmdId,
    pub deps: Vec<CmdId>,
}

/// A message of the slow path.
#[derive(Debug)]
pub enum QuorumMsg {
    Request(Request),
    Response(Response),
}

/// What handling a slow-path message led to.
pub enum QuorumStatus {
    DoNothing,
    Decided(CmdId, Vec<CmdId>),
}

/// Slow-path progress of one command as plain values.
pub struct InstanceView {
    pub deps: Seq<CmdId>,
    pub replicas: Seq<Pid>,
    pub responses: Seq<Pid>,
}

/// The reaction of an instance to a response of `from` carrying `deps`: the response
/// counts when it echoes the proposed dependencies and comes from a replica, and the
/// instance is done once every replica has answered.
pub open spec fn spec_accept(inst: InstanceView, from: Pid, deps: Seq<CmdId>) -> (bool, InstanceView) {
    if inst.deps == deps && inst.replicas.contains(from) {
        let responses = with_pid(inst.responses, from);
        (responses.len() == inst.replicas.len(), InstanceView { responses, ..inst })
    } else {
        (false, inst)
    }
}

/// Slow-path progress of one command.
pub struct Instance {
    deps: Vec<CmdId>,
    replicas: Vec<Pid>,
    responses: Vec<Pid>,
}

impl Instance {
    /// The instance as plain values.
    pub closed spec fn view(&self) -> InstanceView {
        InstanceView { deps: self.deps@, replicas: self.replicas@, responses: self.responses@ }
    }

    /// Responses come only from replicas, each once.
    pub closed spec fn wf(&self) -> bool {
        &&& self.responses@.no_duplicates()
        &&& forall|i: int| 0 <= i < self.responses@.len() ==> self.replicas@.contains(#[trigger] self.responses@[i])
    }

    /// An instance waiting for every process of `replicas` to confirm `deps`.
    pub fn new(deps: Vec<CmdId>, replicas: Vec<Pid>) -> (inst: Self)
        ensures
            inst.wf(),
            inst.view() == (InstanceView { deps: deps@, replicas: replicas@, responses: Seq::empty() }),
    {
        Instance { deps, replicas, responses: Vec::new() }
    }

    /// Counts the response of `from` carrying `deps`; true once every replica has
    /// answered with the proposed dependencies.
    pub fn accept(&mut self, from: Pid, deps: &[CmdId]) -> (done: bool)
        requires
            old(self).wf(),
        ensures
            final(self).wf(),
            (done, final(self).view()) == spec_accept(old(self).view(), from, deps@),
    {
        if !ids_equal(self.deps.as_slice(), deps) {
            return false;
        }
        let mut is_replica = false;
        let mut i: usize = 0;
        while i < self.replicas.len()
            invariant
                i <= self.replicas@.len(),
                is_replica == exists|j: int| 0 <= j < i && self.replicas@[j] == from,
            decreases self.replicas@.len() - i,
        {
            if self.replicas[i] == from {
                is_replica = true;
            }
            i = i + 1;
        }
        if !is_replica {
            return false;
        }
        proof {
            lemma_with_pid_distinct(self.responses@, from);
        }
        insert_pid(&mut self.responses, from);
        proof {
            let old_r = old(self).responses@;
            assert forall|k: int| 0 <= k < self.responses@.len() implies self.replicas@.contains(#[trigger] self.responses@[k]) by {
                if k < old_r.len() {
                    if !old_r.contains(from) {
                        assert(self.responses@[k] == old_r[k]);
                    }
                }
            }
        }
        self.responses.len() == self.replicas.len()
    }

    /// When every replica of distinct replicas has been counted, each replica has
    /// confirmed the dependencies.
    pub proof fn lemma_done_means_all_replied(&self)
        requires
            self.wf(),
            self.view().replicas.no_duplicates(),
            self.view().responses.len() == self.view().replicas.len(),
        ensures
            forall|p: Pid| self.view().replicas.contains(p) ==> self.view().responses.contains(p),
    {
        let r = self.responses@;
        let reps = self.replicas@;
        r.unique_seq_to_set();
        reps.unique_seq_to_set();
        assert(r.to_set().subset_of(reps.to_set()));
        vstd::set_lib::lemma_subset_equality(r.to_set(), reps.to_set());
        assert forall|p: Pid| reps.contains(p) implies r.contains(p) by {
            assert(reps.to_set().contains(p));
        }
    }
}

/// The slow path: when the dependencies reported for a command disagree, its
/// coordinator asks the replicas to confirm the merged dependencies, and decides once
/// all of them have.
pub struct SlowPath {
    protocol_type: BLSMRProtocol,
    bqs: QuorumSystem,
    instances: CmdMap<Instance>,
}

impl SlowPath {
    /// The coordinated instances as plain values.
    pub closed spec fn instances(&self) -> Map<CmdId, InstanceView> {
        self.instances@.map_values(|i: Instance| i.view())
    }

    /// The protocol the process runs.
    pub closed spec fn protocol(&self) -> BLSMRProtocol {
        self.protocol_type
    }

    /// The quorum system the protocol uses.
    pub closed spec fn quorum_system(&self) -> QuorumSystem {
        self.bqs
    }

    /// The quorum system is usable and every instance is well formed.
    pub closed spec fn wf(&self) -> bool {
        &&& self.bqs.wf()
        &&& self.instances.wf()
        &&& forall|k: CmdId| #[trigger] self.instances@.contains_key(k) ==> self.instances@[k].wf()
    }

    /// A slow path with no instance.
    pub fn new(protocol_type: BLSMRProtocol, bqs: QuorumSystem) -> (q: Self)
        requires
            bqs.wf(),
        ensures
            q.wf(),
            q.protocol() == protocol_type,
            q.quorum_system() == bqs,
            q.instances() == Map::<CmdId, InstanceView>::empty(),
    {
        let q = SlowPath { protocol_type, bqs, instances: CmdMap::new() };
        assert(q.instances() =~= Map::<CmdId, InstanceView>::empty());
        q
    }

    /// The replicas that must confirm `cmd_id`: the whole pool, or under 3Jane its
    /// hashed committee.
    pub fn replicas(&self, cmd_id: CmdId, pool: &Vec<Pid>) -> (replicas: Vec<Pid>)
        requires
            self.wf(),
        ensures
            self.protocol() != BLSMRProtocol::ThreeJane ==> replicas@ == pool@,
            self.protocol() == BLSMRProtocol::ThreeJane ==> {
                &&& replicas@.len() == if self.quorum_system().spec_committee_size() < pool@.len() {
                    self.quorum_system().spec_committee_size()
                } else {
                    pool@.len() as int
                }
                &&& forall|i: int| 0 <= i < replicas@.len() ==> pool@.contains(#[trigger] replicas@[i])
                &&& is_hashed_committee(cmd_id, pool@, self.quorum_system().spec_committee_size() as nat, replicas@)
            },
    {
        match self.protocol_type {
            BLSMRProtocol::ThreeJane => {
                let size = self.bqs.consensus_committee_size();
                hashed_committee(cmd_id, pool, size)
            },
            _ => copy_pids(pool),
        }
    }

    /// What starting the slow path of `cmd_id` with `deps` over `pool` does from `pre`
    /// to `post`: an instance opens with no response yet, and the request `msg` goes
    /// to the replicas `to` (the whole pool, or under 3Jane its hashed committee).
    pub open spec fn proposes(pre: SlowPath, post: SlowPath, cmd_id: CmdId, deps: Seq<CmdId>, pool: Seq<Pid>, to: Seq<Pid>, msg: QuorumMsg) -> bool {
        &&& post.protocol() == pre.protocol()
        &&& post.quorum_system() == pre.quorum_system()
        &&& post.instances() == pre.instances().insert(
            cmd_id,
            InstanceView { deps, replicas: to, responses: Seq::empty() },
        )
        &&& msg matches QuorumMsg::Request(r) && r.cmd_id == cmd_id && r.deps@ == deps
        &&& pre.protocol() != BLSMRProtocol::ThreeJane ==> to == pool
    }

    /// Starts the slow path of `cmd_id` with `deps` (see `proposes`): returns the
    /// replicas to ask and the request to send them.
    pub fn propose(&mut self, cmd_id: CmdId, deps: Vec<CmdId>, pool: &Vec<Pid>) -> (out: (Vec<Pid>, QuorumMsg))
        requires
            old(self).wf(),
        ensures
            final(self).wf(),
            SlowPath::proposes(*old(self), *final(self), cmd_id, deps@, pool@, out.0@, out.1),
    {
        let replicas = self.replicas(cmd_id, pool);
        let message = QuorumMsg::Request(Request { cmd_id, deps: copy_ids(&deps) });
        let sent_to = copy_pids(&replicas);
        let inst = Instance::new(deps, replicas);
        self.instances.insert(cmd_id, inst);
        assert(self.instances() =~= old(self).instances().insert(
            cmd_id,
            InstanceView { deps: deps@, replicas: sent_to@, responses: Seq::empty() },
        ));
        (sent_to, message)
    }

    /// What handling the slow-path message `message` from `from` does from `pre` to
    /// `post`, answering `result`. A request is echoed back to its sender; a response
    /// is counted by its instance, and the command is decided (and its instance
    /// dropped) once every replica has confirmed.
    pub open spec fn answers(pre: SlowPath, post: SlowPath, from: Pid, message: &QuorumMsg, result: (QuorumStatus, Option<(Pid, QuorumMsg)>)) -> bool {
        &&& post.protocol() == pre.protocol()
        &&& post.quorum_system() == pre.quorum_system()
        &&& match *message {
            QuorumMsg::Request(m) => {
                &&& post.instances() == pre.instances()
                &&& result.0 is DoNothing
                &&& result.1 matches Some((to, QuorumMsg::Response(r)))
                    && to == from && r.cmd_id == m.cmd_id && r.deps@ == m.deps@
            },
            QuorumMsg::Response(m) => {
                &&& result.1 is None
                &&& if pre.instances().contains_key(m.cmd_id) {
                    let (done, inst) = spec_accept(pre.instances()[m.cmd_id], from, m.deps@);
                    if done {
                        &&& post.instances() == pre.instances().remove(m.cmd_id)
                        &&& result.0 matches QuorumStatus::Decided(id, deps)
                            && id == m.cmd_id && deps@ == inst.deps
                    } else {
                        &&& post.instances() == pre.instances().insert(m.cmd_id, inst)
                        &&& result.0 is DoNothing
                    }
                } else {
                    &&& post.instances() == pre.instances()
                    &&& result.0 is DoNothing
                }
            },
        }
    }

    /// A command is decided once: after a response decides it, a later response for it
    /// decides nothing and changes no instance.
    pub proof fn lemma_decided_once(pre: SlowPath, mid: SlowPath, post: SlowPath, from: Pid, m: Response,
        result: (QuorumStatus, Option<(Pid, QuorumMsg)>), from2: Pid, m2: Response,
        result2: (QuorumStatus, Option<(Pid, QuorumMsg)>))
        requires
            SlowPath::answers(pre, mid, from, &QuorumMsg::Response(m), result),
            result.0 is Decided,
            SlowPath::answers(mid, post, from2, &QuorumMsg::Response(m2), result2),
            m2.cmd_id == m.cmd_id,
        ensures
            result2.0 is DoNothing,
            post.instances() == mid.instances(),
    {
    }

    /// A response decides a command whose replicas are distinct exactly when it echoes
    /// the proposed dependencies, comes from a replica, and, counting it, every replica
    /// has answered.
    pub proof fn lemma_decided_iff_all_replied(pre: SlowPath, post: SlowPath, from: Pid, m: Response,
        result: (QuorumStatus, Option<(Pid, QuorumMsg)>))
        requires
            pre.wf(),
            SlowPath::answers(pre, post, from, &QuorumMsg::Response(m), result),
            pre.instances().contains_key(m.cmd_id),
            pre.instances()[m.cmd_id].replicas.no_duplicates(),
        ensures
            result.0 is Decided <==> {
                let inst = pre.instances()[m.cmd_id];
                &&& m.deps@ == inst.deps
                &&& inst.replicas.contains(from)
                &&& forall|p: Pid| #[trigger] inst.replicas.contains(p) ==> with_pid(inst.responses, from).contains(p)
            },
    {
        let inst = pre.instances()[m.cmd_id];
        assert(pre.instances@[m.cmd_id].wf());
        assert(inst == pre.instances@[m.cmd_id].view());
        if m.deps@ == inst.deps && inst.replicas.contains(from) {
            let r = with_pid(inst.responses, from);
            let reps = inst.replicas;
            lemma_with_pid_distinct(inst.responses, from);
            assert forall|p: Pid| r.contains(p) implies reps.contains(p) by {
                if inst.responses.contains(p) {
                    let k = choose|k: int| 0 <= k < inst.responses.len() && inst.responses[k] == p;
                    assert(reps.contains(inst.responses[k]));
                }
            }
            r.unique_seq_to_set();
            reps.unique_seq_to_set();
            assert(r.to_set().subset_of(reps.to_set()));
            if r.len() == reps.len() {
                vstd::set_lib::lemma_subset_equality(r.to_set(), reps.to_set());
                assert forall|p: Pid| #[trigger] reps.contains(p) implies r.contains(p) by {
                    assert(reps.to_set().contains(p));
                }
            } else {
                assert(!(forall|p: Pid| #[trigger] reps.contains(p) ==> r.contains(p))) by {
                    if forall|p: Pid| #[trigger] reps.contains(p) ==> r.contains(p) {
                        assert(r.to_set() =~= reps.to_set());
                    }
                }
            }
        }
    }

    /// Handles a slow-path message from `from` (see `answers`).
    pub fn on_message(&mut self, from: Pid, message: &QuorumMsg) -> (result: (QuorumStatus, Option<(Pid, QuorumMsg)>))
        requires
            old(self).wf(),
        ensures
            final(self).wf(),
            SlowPath::answers(*old(self), *final(self), from, message, result),
    {
        match message {
            QuorumMsg::Request(m) => {
                let reply = QuorumMsg::Response(Response { cmd_id: m.cmd_id, deps: copy_ids(&m.deps) });
                (QuorumStatus::DoNothing, Some((from, reply)))
            },
            QuorumMsg::Response(m) => {
                match self.instances.remove(&m.cmd_id) {
                    None => {
                        assert(self.instances() =~= old(self).instances());
                        (QuorumStatus::DoNothing, None)
                    },
                    Some(mut inst) => {
                        let done = inst.accept(from, m.deps.as_slice());
                        if done {
                            assert(self.instances() =~= old(self).instances().remove(m.cmd_id));
                            (QuorumStatus::Decided(m.cmd_id, inst.deps), None)
                        } else {
                            let ghost iv = inst.view();
                            self.instances.insert(m.cmd_id, inst);
                            assert(self.instances() =~= old(self).instances().insert(m.cmd_id, iv));
                            (QuorumStatus::DoNothing, None)
                        }
                    },
                }
            },
        }
    }
}

} // verus!
