use vstd::prelude::*;

use core::hash::{Hash, Hasher};
use rustc_hash::FxHasher;

use crate::blsmr::BLSMRProtocol;
use crate::client::{CmdId, Pid};
use crate::cmd_map::{copy_ids, copy_pids, insert_pid, with_pid, CmdMap};
use crate::ordering::{sort_by_key, stable_sort_of};
use crate::quorum::QuorumSystem;

verus! {

/// Number of matching votes a 3Jane committee of `size` members needs: `2f + 1`
/// where `f = (size - 1) / 3` members may be faulty.
pub fn committee_quorum(size: usize) -> (q: usize)
    requires
        size >= 1,
    ensures
        q == 2 * ((size - 1) / 3) + 1,
{
    2 * ((size - 1) / 3) + 1
}

/// Whether a vote of `from` counts: any sender under Wintermute and EPaxos, only
/// committee members under 3Jane.
pub open spec fn spec_accepts_sender(protocol_type: BLSMRProtocol, committee: Seq<Pid>, from: Pid) -> bool {
    protocol_type != BLSMRProtocol::ThreeJane || committee.contains(from)
}

/// Whether a vote of `from` counts under `protocol_type` for `committee`.
pub fn accepts_sender(protocol_type: &BLSMRProtocol, committee: &[Pid], from: Pid) -> (r: bool)
    ensures
        r == spec_accepts_sender(*protocol_type, committee@, from),
{
    match protocol_type {
        BLSMRProtocol::ThreeJane => {
            let mut i: usize = 0;
            while i < committee.len()
                invariant
                    i <= committee@.len(),
                    forall|j: int| 0 <= j < i ==> committee@[j] != from,
                decreases committee@.len() - i,
            {
                if committee[i] == from {
                    return true;
                }
                i = i + 1;
            }
            false
        },
        _ => true,
    }
}

/// Proposal of the leader: the command, its dependencies and the committee.
#[derive(Debug)]
pub struct PrePrepare {
    pub cmd_id: CmdId,
    pub deps: Vec<CmdId>,
    pub committee: Vec<Pid>,
}

/// First-round vote for a proposal.
#[derive(Debug)]
pub struct Prepare {
    pub cmd_id: CmdId,
    pub deps: Vec<CmdId>,
    pub committee: Vec<Pid>,
}

/// Second-round vote for a proposal.
#[derive(Debug)]
pub struct Commit {
    pub cmd_id: CmdId,
    pub deps: Vec<CmdId>,
    pub committee: Vec<Pid>,
}

/// A message of the consensus step.
#[derive(Debug)]
pub enum PbftMsg {
    PrePrepare(PrePrepare),
    Prepare(Prepare),
    Commit(Commit),
}

/// Which round a consensus message belongs to.
pub enum MsgKind {
    PrePrepare,
    Prepare,
    Commit,
}

/// A consensus message as plain values: its round, command, dependencies and committee.
pub struct MsgView {
    pub kind: MsgKind,
    pub cmd_id: CmdId,
    pub deps: Seq<CmdId>,
    pub committee: Seq<Pid>,
}

impl PbftMsg {
    /// The message as plain values.
    pub open spec fn view(&self) -> MsgView {
        match self {
            PbftMsg::PrePrepare(m) => MsgView {
                kind: MsgKind::PrePrepare,
                cmd_id: m.cmd_id,
                deps: m.deps@,
                committee: m.committee@,
            },
            PbftMsg::Prepare(m) => MsgView {
                kind: MsgKind::Prepare,
                cmd_id: m.cmd_id,
                deps: m.deps@,
                committee: m.committee@,
            },
            PbftMsg::Commit(m) => MsgView {
                kind: MsgKind::Commit,
                cmd_id: m.cmd_id,
                deps: m.deps@,
                committee: m.committee@,
            },
        }
    }
}

/// What handling a consensus message led to.
pub enum PbftStatus {
    DoNothing,
    /// The command is decided with these dependencies; the last value is the leader.
    Decided(CmdId, Vec<CmdId>, Pid),
}

/// Per-command consensus progress as plain values.
pub struct InstanceView {
    pub deps: Seq<CmdId>,
    pub committee: Seq<Pid>,
    pub sent_prepare: bool,
    pub prepares: Seq<Pid>,
    pub sent_commit: bool,
    pub commits: Seq<Pid>,
    pub decided: bool,
}

/// A fresh instance for `deps` and `committee`, before any vote.
pub open spec fn fresh_instance(deps: Seq<CmdId>, committee: Seq<Pid>) -> InstanceView {
    InstanceView {
        deps,
        committee,
        sent_prepare: false,
        prepares: Seq::empty(),
        sent_commit: false,
        commits: Seq::empty(),
        decided: false,
    }
}

/// Per-command consensus progress.
struct Instance {
    deps: Vec<CmdId>,
    committee: Vec<Pid>,
    sent_prepare: bool,
    prepares: Vec<Pid>,
    sent_commit: bool,
    commits: Vec<Pid>,
    decided: bool,
}

impl Instance {
    /// The instance as plain values.
    spec fn view(&self) -> InstanceView {
        InstanceView {
            deps: self.deps@,
            committee: self.committee@,
            sent_prepare: self.sent_prepare,
            prepares: self.prepares@,
            sent_commit: self.sent_commit,
            commits: self.commits@,
            decided: self.decided,
        }
    }

    fn new(deps: Vec<CmdId>, committee: Vec<Pid>) -> (inst: Self)
        ensures
            inst.view() == fresh_instance(deps@, committee@),
    {
        Instance {
            deps,
            committee,
            sent_prepare: false,
            prepares: Vec::new(),
            sent_commit: false,
            commits: Vec::new(),
            decided: false,
        }
    }
}

/// The consensus state as plain values.
pub struct PbftView {
    pub instances: Map<CmdId, InstanceView>,
    pub decided: Set<CmdId>,
}

/// The consensus message the process sends in reaction to another, as plain values.
pub struct OutView {
    pub kind: MsgKind,
    pub cmd_id: CmdId,
    pub deps: Seq<CmdId>,
    pub committee: Seq<Pid>,
}

/// What handling a consensus message leads to, as plain values: the new state, the
/// decision if one was reached (command, dependencies, leader), and the message to send.
pub struct StepView {
    pub next: PbftView,
    pub decision: Option<(CmdId, Seq<CmdId>, Pid)>,
    pub out: Option<OutView>,
}

/// The consensus step of a process: it runs one PBFT-style instance per command, in
/// which a proposal is answered with a prepare vote, enough prepare votes with a commit
/// vote, and enough commit votes decide the command once.
pub struct Pbft {
    protocol_type: BLSMRProtocol,
    bqs: QuorumSystem,
    instances: CmdMap<Instance>,
    decided: CmdMap<()>,
}

/// The instance a message finds: the stored one, or a fresh one for its dependencies
/// and committee.
pub open spec fn found_instance(v: PbftView, m: MsgView) -> InstanceView {
    if v.instances.contains_key(m.cmd_id) {
        v.instances[m.cmd_id]
    } else {
        fresh_instance(m.deps, m.committee)
    }
}

impl Pbft {
    /// The protocol the process runs.
    pub closed spec fn protocol(&self) -> BLSMRProtocol {
        self.protocol_type
    }

    /// The quorum system of the non-3Jane protocols.
    pub closed spec fn quorum_system(&self) -> QuorumSystem {
        self.bqs
    }

    /// The consensus state as plain values.
    pub closed spec fn view(&self) -> PbftView {
        PbftView {
            instances: self.instances@.map_values(|i: Instance| i.view()),
            decided: self.decided@.dom(),
        }
    }

    /// The quorum system is usable, the maps are well formed, and no stored instance
    /// is decided or holds enough commit votes to decide (it holds none, or too few).
    pub closed spec fn wf(&self) -> bool {
        &&& self.bqs.wf()
        &&& self.instances.wf()
        &&& self.decided.wf()
        &&& forall|k: CmdId| #[trigger] self.instances@.contains_key(k) ==> !self.instances@[k].decided
            && (self.instances@[k].commits@.len() == 0
            || !self.votes_ready(self.instances@[k].committee@, self.instances@[k].commits@))
    }

    /// A commit vote that decides a command finds the votes stored for it short of
    /// deciding: the instance holds no commit vote yet, or too few.
    pub proof fn lemma_decision_completes_votes(&self, from: Pid, m: MsgView)
        requires
            self.wf(),
            m.kind is Commit,
            self.spec_step(self.view(), from, m).decision is Some,
        ensures
            ({
                let inst = found_instance(self.view(), m);
                inst.commits.len() == 0 || !self.votes_ready(inst.committee, inst.commits)
            }),
    {
        if self.instances@.contains_key(m.cmd_id) {
            assert(self.view().instances[m.cmd_id] == self.instances@[m.cmd_id].view());
        }
    }

    /// Whether the votes `votes` of an instance for `committee` are enough to move on.
    pub open spec fn votes_ready(&self, committee: Seq<Pid>, votes: Seq<Pid>) -> bool {
        if self.protocol() == BLSMRProtocol::ThreeJane {
            votes.len() >= 2 * ((committee.len() - 1) / 3) + 1
        } else {
            self.quorum_system().spec_is_quorum(votes)
        }
    }

    /// The reaction to message `m` from `from` on state `v`.
    pub open spec fn spec_step(&self, v: PbftView, from: Pid, m: MsgView) -> StepView {
        let inst = found_instance(v, m);
        match m.kind {
            MsgKind::PrePrepare => {
                if v.decided.contains(m.cmd_id) {
                    StepView { next: v, decision: None, out: None }
                } else if inst.sent_prepare {
                    StepView {
                        next: PbftView { instances: v.instances.insert(m.cmd_id, inst), ..v },
                        decision: None,
                        out: None,
                    }
                } else {
                    StepView {
                        next: PbftView {
                            instances: v.instances.insert(
                                m.cmd_id,
                                InstanceView { sent_prepare: true, ..inst },
                            ),
                            ..v
                        },
                        decision: None,
                        out: Some(
                            OutView {
                                kind: MsgKind::Prepare,
                                cmd_id: m.cmd_id,
                                deps: inst.deps,
                                committee: inst.committee,
                            },
                        ),
                    }
                }
            },
            MsgKind::Prepare => {
                if v.decided.contains(m.cmd_id) || !spec_accepts_sender(
                    self.protocol(),
                    m.committee,
                    from,
                ) {
                    StepView { next: v, decision: None, out: None }
                } else {
                    let prepares = with_pid(inst.prepares, from);
                    let ready = self.votes_ready(inst.committee, prepares);
                    if !inst.sent_commit && ready {
                        StepView {
                            next: PbftView {
                                instances: v.instances.insert(
                                    m.cmd_id,
                                    InstanceView { prepares, sent_commit: true, ..inst },
                                ),
                                ..v
                            },
                            decision: None,
                            out: Some(
                                OutView {
                                    kind: MsgKind::Commit,
                                    cmd_id: m.cmd_id,
                                    deps: inst.deps,
                                    committee: inst.committee,
                                },
                            ),
                        }
                    } else {
                        StepView {
                            next: PbftView {
                                instances: v.instances.insert(
                                    m.cmd_id,
                                    InstanceView { prepares, ..inst },
                                ),
                                ..v
                            },
                            decision: None,
                            out: None,
                        }
                    }
                }
            },
            MsgKind::Commit => {
                if v.decided.contains(m.cmd_id) || !spec_accepts_sender(
                    self.protocol(),
                    m.committee,
                    from,
                ) {
                    StepView { next: v, decision: None, out: None }
                } else {
                    let commits = with_pid(inst.commits, from);
                    let ready = self.votes_ready(inst.committee, commits);
                    if !inst.decided && ready {
                        let leader = if inst.committee.len() > 0 {
                            inst.committee[0]
                        } else {
                            m.cmd_id.pid
                        };
                        StepView {
                            next: PbftView {
                                instances: v.instances.remove(m.cmd_id),
                                decided: v.decided.insert(m.cmd_id),
                            },
                            decision: Some((m.cmd_id, inst.deps, leader)),
                            out: None,
                        }
                    } else {
                        StepView {
                            next: PbftView {
                                instances: v.instances.insert(
                                    m.cmd_id,
                                    InstanceView { commits, ..inst },
                                ),
                                ..v
                            },
                            decision: None,
                            out: None,
                        }
                    }
                }
            },
        }
    }

    /// A command is decided at most once: a decided command stays decided, a message
    /// about it changes nothing, decides nothing and sends nothing, and a decision is
    /// only taken on a command not decided before.
    pub proof fn lemma_decided_once(&self, v: PbftView, from: Pid, m: MsgView)
        ensures
            forall|c: CmdId| v.decided.contains(c) ==> #[trigger] self.spec_step(v, from, m).next.decided.contains(c),
            v.decided.contains(m.cmd_id) ==> self.spec_step(v, from, m) == (StepView { next: v, decision: None, out: None }),
            self.spec_step(v, from, m).decision is Some ==> !v.decided.contains(m.cmd_id)
                && self.spec_step(v, from, m).next.decided.contains(m.cmd_id),
    {
    }

    /// In a history of handled messages, a command decided at step `i` is still decided
    /// at every later step `k`.
    proof fn lemma_stays_decided(states: Seq<Pbft>, froms: Seq<Pid>, msgs: Seq<MsgView>, i: int, k: int)
        requires
            states.len() == msgs.len() + 1,
            froms.len() == msgs.len(),
            forall|n: int| 0 <= n < msgs.len() ==> #[trigger] states[n + 1].view()
                == states[n].spec_step(states[n].view(), froms[n], msgs[n]).next,
            0 <= i < k <= msgs.len(),
            states[i].spec_step(states[i].view(), froms[i], msgs[i]).decision is Some,
        ensures
            states[k].view().decided.contains(msgs[i].cmd_id),
        decreases k,
    {
        if k == i + 1 {
            states[i].lemma_decided_once(states[i].view(), froms[i], msgs[i]);
            assert(states[i + 1].view() == states[i].spec_step(states[i].view(), froms[i], msgs[i]).next);
        } else {
            Pbft::lemma_stays_decided(states, froms, msgs, i, k - 1);
            states[k - 1].lemma_decided_once(states[k - 1].view(), froms[k - 1], msgs[k - 1]);
            assert(states[k - 1 + 1].view() == states[k - 1].spec_step(states[k - 1].view(), froms[k - 1], msgs[k - 1]).next);
        }
    }

    /// A command is decided at most once over any history: after the step that decides
    /// it, every later message about it, whatever came in between, changes nothing,
    /// decides nothing and sends nothing.
    pub proof fn lemma_decided_for_good(states: Seq<Pbft>, froms: Seq<Pid>, msgs: Seq<MsgView>, i: int, j: int)
        requires
            states.len() == msgs.len() + 1,
            froms.len() == msgs.len(),
            forall|n: int| 0 <= n < msgs.len() ==> #[trigger] states[n + 1].view()
                == states[n].spec_step(states[n].view(), froms[n], msgs[n]).next,
            0 <= i < j < msgs.len(),
            states[i].spec_step(states[i].view(), froms[i], msgs[i]).decision is Some,
            msgs[j].cmd_id == msgs[i].cmd_id,
        ensures
            states[j].spec_step(states[j].view(), froms[j], msgs[j])
                == (StepView { next: states[j].view(), decision: None, out: None }),
    {
        Pbft::lemma_stays_decided(states, froms, msgs, i, j);
        states[j].lemma_decided_once(states[j].view(), froms[j], msgs[j]);
    }

    fn take_instance(&mut self, cmd_id: CmdId, deps: &Vec<CmdId>, committee: &Vec<Pid>) -> (inst: Instance)
        requires
            old(self).wf(),
        ensures
            final(self).instances.wf(),
            final(self).instances@ == old(self).instances@.remove(cmd_id),
            final(self).decided == old(self).decided,
            final(self).bqs == old(self).bqs,
            final(self).protocol_type == old(self).protocol_type,
            inst.view() == found_instance(old(self).view(), MsgView { kind: MsgKind::Prepare, cmd_id, deps: deps@, committee: committee@ }),
            old(self).instances@.contains_key(cmd_id) ==> inst == old(self).instances@[cmd_id],
    {
        match self.instances.remove(&cmd_id) {
            Some(inst) => inst,
            None => Instance::new(copy_ids(deps), copy_pids(committee)),
        }
    }

    fn ready(&self, inst: &Instance) -> (r: bool)
        requires
            self.wf(),
            self.protocol() == BLSMRProtocol::ThreeJane ==> inst.committee@.len() > 0,
        ensures
            r == self.votes_ready(inst.committee@, inst.prepares@),
    {
        if self.sends_to_committee() {
            inst.prepares.len() >= committee_quorum(inst.committee.len())
        } else {
            self.bqs.is_quorum(inst.prepares.as_slice())
        }
    }

    fn commit_ready(&self, inst: &Instance) -> (r: bool)
        requires
            self.wf(),
            self.protocol() == BLSMRProtocol::ThreeJane ==> inst.committee@.len() > 0,
        ensures
            r == self.votes_ready(inst.committee@, inst.commits@),
    {
        if self.sends_to_committee() {
            inst.commits.len() >= committee_quorum(inst.committee.len())
        } else {
            self.bqs.is_quorum(inst.commits.as_slice())
        }
    }

    /// Handles a consensus message from `from`: answers a proposal with a prepare vote
    /// (once), a quorum of prepare votes with a commit vote (once), and a quorum of
    /// commit votes with the decision (once per command). Votes from outside a 3Jane
    /// committee and messages about decided commands are ignored. Under 3Jane a vote
    /// counted for a stored instance needs that instance to have a committee: the
    /// committee quorum of no process is undefined.
    pub fn on_message(&mut self, from: Pid, message: &PbftMsg) -> (result: (PbftStatus, Option<PbftMsg>))
        requires
            old(self).wf(),
            old(self).protocol() == BLSMRProtocol::ThreeJane && !(message.view().kind is PrePrepare)
                && old(self).view().instances.contains_key(message.view().cmd_id)
                && !old(self).view().decided.contains(message.view().cmd_id)
                && spec_accepts_sender(old(self).protocol(), message.view().committee, from)
                ==> old(self).view().instances[message.view().cmd_id].committee.len() > 0,
        ensures
            final(self).wf(),
            final(self).protocol() == old(self).protocol(),
            final(self).quorum_system() == old(self).quorum_system(),
            ({
                let step = old(self).spec_step(old(self).view(), from, message.view());
                &&& final(self).view() == step.next
                &&& match result.0 {
                    PbftStatus::DoNothing => step.decision is None,
                    PbftStatus::Decided(id, deps, leader) => step.decision == Some((id, deps@, leader)),
                }
                &&& match result.1 {
                    None => step.out is None,
                    Some(out) => step.out == Some(OutView {
                        kind: out.view().kind,
                        cmd_id: out.view().cmd_id,
                        deps: out.view().deps,
                        committee: out.view().committee,
                    }),
                }
            }),
    {
        let ghost v = self.view();
        match message {
            PbftMsg::PrePrepare(m) => {
                if self.decided.contains_key(&m.cmd_id) {
                    return (PbftStatus::DoNothing, None);
                }
                let mut inst = self.take_instance(m.cmd_id, &m.deps, &m.committee);
                let out = if inst.sent_prepare {
                    None
                } else {
                    inst.sent_prepare = true;
                    Some(PbftMsg::Prepare(Prepare {
                        cmd_id: m.cmd_id,
                        deps: copy_ids(&inst.deps),
                        committee: copy_pids(&inst.committee),
                    }))
                };
                self.instances.insert(m.cmd_id, inst);
                proof {
                    assert(self.view().instances =~= old(self).spec_step(v, from, message.view()).next.instances);
                }
                (PbftStatus::DoNothing, out)
            },
            PbftMsg::Prepare(m) => {
                if self.decided.contains_key(&m.cmd_id) || !accepts_sender(&self.protocol_type, m.committee.as_slice(), from) {
                    return (PbftStatus::DoNothing, None);
                }
                let mut inst = self.take_instance(m.cmd_id, &m.deps, &m.committee);
                insert_pid(&mut inst.prepares, from);
                let ready = self.ready(&inst);
                let out = if !inst.sent_commit && ready {
                    inst.sent_commit = true;
                    Some(PbftMsg::Commit(Commit {
                        cmd_id: m.cmd_id,
                        deps: copy_ids(&inst.deps),
                        committee: copy_pids(&inst.committee),
                    }))
                } else {
                    None
                };
                self.instances.insert(m.cmd_id, inst);
                proof {
                    assert(self.view().instances =~= old(self).spec_step(v, from, message.view()).next.instances);
                }
                (PbftStatus::DoNothing, out)
            },
            PbftMsg::Commit(m) => {
                if self.decided.contains_key(&m.cmd_id) || !accepts_sender(&self.protocol_type, m.committee.as_slice(), from) {
                    return (PbftStatus::DoNothing, None);
                }
                let mut inst = self.take_instance(m.cmd_id, &m.deps, &m.committee);
                insert_pid(&mut inst.commits, from);
                let ready = self.commit_ready(&inst);
                if !inst.decided && ready {
                    let leader = if inst.committee.len() > 0 {
                        inst.committee[0]
                    } else {
                        m.cmd_id.pid
                    };
                    self.decided.insert(m.cmd_id, ());
                    proof {
                        assert(self.view().instances =~= old(self).spec_step(v, from, message.view()).next.instances);
                        assert(self.view().decided =~= v.decided.insert(m.cmd_id));
                    }
                    (PbftStatus::Decided(m.cmd_id, inst.deps, leader), None)
                } else {
                    self.instances.insert(m.cmd_id, inst);
                    proof {
                        assert(self.view().instances =~= old(self).spec_step(v, from, message.view()).next.instances);
                    }
                    (PbftStatus::DoNothing, None)
                }
            },
        }
    }

    /// A consensus step with no instance and no decision yet.
    pub fn new(protocol_type: BLSMRProtocol, bqs: QuorumSystem) -> (p: Self)
        requires
            bqs.wf(),
        ensures
            p.wf(),
            p.protocol() == protocol_type,
            p.quorum_system() == bqs,
            p.view().instances == Map::<CmdId, InstanceView>::empty(),
            p.view().decided == Set::<CmdId>::empty(),
    {
        let p = Pbft { protocol_type, bqs, instances: CmdMap::new(), decided: CmdMap::new() };
        assert(p.view().instances =~= Map::<CmdId, InstanceView>::empty());
        assert(p.view().decided =~= Set::<CmdId>::empty());
        p
    }

    /// Whether messages go to the command's committee (3Jane) rather than to every
    /// process of the pool.
    pub fn sends_to_committee(&self) -> (b: bool)
        ensures
            b == (self.protocol() == BLSMRProtocol::ThreeJane),
    {
        match self.protocol_type {
            BLSMRProtocol::ThreeJane => true,
            _ => false,
        }
    }

    /// The proposal of `cmd_id` with `deps`; its committee is drawn from `pool` with the
    /// per-process keys `keys`.
    pub fn propose(&self, cmd_id: CmdId, deps: Vec<CmdId>, pool: &Vec<Pid>) -> (m: PbftMsg)
        requires
            self.wf(),
        ensures
            m.view().kind == MsgKind::PrePrepare,
            m.view().cmd_id == cmd_id,
            m.view().deps == deps@,
            self.protocol() != BLSMRProtocol::ThreeJane ==> m.view().committee.len() == 0,
            self.protocol() == BLSMRProtocol::ThreeJane ==> {
                &&& m.view().committee.len() == if self.quorum_system().spec_committee_size()
                    < pool@.len() {
                    self.quorum_system().spec_committee_size()
                } else {
                    pool@.len() as int
                }
                &&& forall|i: int| 0 <= i < m.view().committee.len() ==> pool@.contains(#[trigger] m.view().committee[i])
            },
    {
        let committee = self.committee(cmd_id, pool);
        PbftMsg::PrePrepare(PrePrepare { cmd_id, deps, committee })
    }

    /// The consensus committee of `cmd_id` under 3Jane: the pool ordered by a hash of
    /// the command and each process, cut to the committee size. Empty otherwise.
    pub fn committee(&self, cmd_id: CmdId, pool: &Vec<Pid>) -> (committee: Vec<Pid>)
        requires
            self.wf(),
        ensures
            self.protocol() != BLSMRProtocol::ThreeJane ==> committee@.len() == 0,
            self.protocol() == BLSMRProtocol::ThreeJane ==> {
                &&& committee@.len() == if self.quorum_system().spec_committee_size()
                    < pool@.len() {
                    self.quorum_system().spec_committee_size()
                } else {
                    pool@.len() as int
                }
                &&& forall|i: int| 0 <= i < committee@.len() ==> pool@.contains(#[trigger] committee@[i])
                &&& pool@.no_duplicates() ==> committee@.no_duplicates()
                &&& is_hashed_committee(cmd_id, pool@, self.quorum_system().spec_committee_size() as nat, committee@)
            },
    {
        if !self.sends_to_committee() {
            return Vec::new();
        }
        let size = self.bqs.consensus_committee_size();
        hashed_committee(cmd_id, pool, size)
    }
}

/// `perm` lists the positions `0..keys.len()` in ascending order of their keys, equal
/// keys in ascending order of position (the order a stable sort by key leaves).
pub open spec fn stable_key_order(keys: Seq<u64>, perm: Seq<int>) -> bool {
    &&& perm.len() == keys.len()
    &&& perm.no_duplicates()
    &&& forall|i: int| 0 <= i < perm.len() ==> 0 <= #[trigger] perm[i] < keys.len()
    &&& forall|i: int, j: int|
        0 <= i < j < perm.len() ==> keys[#[trigger] perm[i]] < keys[#[trigger] perm[j]] || (
        keys[perm[i]] == keys[perm[j]] && perm[i] < perm[j])
}

/// The first `size` processes of `pool` once `pool` is sorted stably by `keys`, the
/// key of `pool[j]` being `keys[j]`.
pub fn committee_from_keys(keys: &Vec<u64>, pool: &Vec<Pid>, size: usize) -> (committee: Vec<Pid>)
    requires
        keys@.len() == pool@.len(),
    ensures
        committee@.len() == if size < pool@.len() { size as int } else { pool@.len() as int },
        exists|perm: Seq<int>|
            stable_key_order(keys@, perm) && forall|i: int|
                0 <= i < committee@.len() ==> #[trigger] committee@[i] == pool@[perm[i]],
        forall|i: int| 0 <= i < committee@.len() ==> pool@.contains(#[trigger] committee@[i]),
        pool@.no_duplicates() ==> committee@.no_duplicates(),
{
    let mut keyed: Vec<(u64, Pid)> = Vec::new();
    let mut i: usize = 0;
    while i < pool.len()
        invariant
            i <= pool@.len(),
            keys@.len() == pool@.len(),
            keyed@.len() == i,
            forall|j: int| 0 <= j < i ==> #[trigger] keyed@[j] == (keys@[j], pool@[j]),
        decreases pool@.len() - i,
    {
        keyed.push((keys[i], pool[i]));
        i = i + 1;
    }
    let ghost unsorted = keyed@;
    let ordered = sort_by_key(keyed);
    let ghost perm = choose|perm: Seq<int>| stable_sort_of(unsorted, ordered@, perm);
    proof {
        assert forall|a: int, b: int| 0 <= a < b < perm.len() implies keys@[#[trigger] perm[a]]
            < keys@[#[trigger] perm[b]] || (keys@[perm[a]] == keys@[perm[b]] && perm[a] < perm[b]) by {
            assert(ordered@[a] == unsorted[perm[a]] && ordered@[b] == unsorted[perm[b]]);
            assert(ordered@[a].0 <= ordered@[b].0);
        }
        assert(stable_key_order(keys@, perm));
    }
    let mut committee: Vec<Pid> = Vec::new();
    let mut k: usize = 0;
    while k < size && k < ordered.len()
        invariant
            k <= ordered@.len(),
            k <= size,
            keys@.len() == pool@.len(),
            ordered@.len() == pool@.len(),
            stable_sort_of(unsorted, ordered@, perm),
            unsorted.len() == pool@.len(),
            forall|j: int| 0 <= j < unsorted.len() ==> #[trigger] unsorted[j] == (keys@[j], pool@[j]),
            committee@.len() == k,
            forall|m: int| 0 <= m < k ==> #[trigger] committee@[m] == pool@[perm[m]],
        decreases ordered@.len() - k,
    {
        proof {
            assert(ordered@[k as int] == unsorted[perm[k as int]]);
        }
        committee.push(ordered[k].1);
        k = k + 1;
    }
    proof {
        assert forall|m: int| 0 <= m < committee@.len() implies pool@.contains(#[trigger] committee@[m]) by {
            assert(0 <= perm[m] < pool@.len());
            assert(committee@[m] == pool@[perm[m]]);
        }
        if pool@.no_duplicates() {
            assert forall|a: int, b: int| 0 <= a < committee@.len() && 0 <= b < committee@.len() && a != b
                implies committee@[a] != committee@[b] by {
                assert(committee@[a] == pool@[perm[a]] && committee@[b] == pool@[perm[b]]);
                assert(perm[a] != perm[b]);
            }
        }
    }
    committee
}

/// The first `size` processes of `pool` in the order of a per-command hash of each
/// process (the order that picks a command's 3Jane committee), distinct when the
/// processes of `pool` are (see `is_hashed_committee`).
pub fn hashed_committee(cmd_id: CmdId, pool: &Vec<Pid>, size: usize) -> (committee: Vec<Pid>)
    ensures
        is_hashed_committee(cmd_id, pool@, size as nat, committee@),
        committee@.len() == if size < pool@.len() { size as int } else { pool@.len() as int },
        exists|keys: Seq<u64>, perm: Seq<int>|
            keys.len() == pool@.len() && stable_key_order(keys, perm) && forall|i: int|
                0 <= i < committee@.len() ==> #[trigger] committee@[i] == pool@[perm[i]],
        forall|i: int| 0 <= i < committee@.len() ==> pool@.contains(#[trigger] committee@[i]),
        pool@.no_duplicates() ==> committee@.no_duplicates(),
{
    let mut keys: Vec<u64> = Vec::new();
    let mut i: usize = 0;
    while i < pool.len()
        invariant
            i <= pool@.len(),
            keys@ == committee_keys(cmd_id, pool@).take(i as int),
        decreases pool@.len() - i,
    {
        keys.push(committee_key(cmd_id, pool[i]));
        i = i + 1;
        proof {
            assert(keys@ =~= committee_keys(cmd_id, pool@).take(i as int));
        }
    }
    proof {
        assert(keys@ =~= committee_keys(cmd_id, pool@));
    }
    committee_from_keys(&keys, pool, size)
}

/// The multiplier of rustc-hash's `FxHasher` for the width of `usize`.
pub open spec fn fx_multiplier() -> int {
    if usize::BITS == 64 { 0xf1357aea2e62a9c5 } else { 0x93d765dd }
}

/// An `FxHasher` in state `h` taking the word `i`: `(h + i) * K`, wrapping at the
/// width of `usize`.
pub open spec fn fx_add(h: int, i: int) -> int {
    ((h + i) % (usize::MAX as int + 1)) * fx_multiplier() % (usize::MAX as int + 1)
}

/// What `FxHasher::finish` gives of the state `h`: `h` rotated left by 26 bits on a
/// 64-bit `usize`, by 15 on a 32-bit one.
pub open spec fn fx_finish(h: int) -> int {
    if usize::BITS == 64 {
        (h * 0x4000000) % 0x1_0000_0000_0000_0000 + h / 0x40_0000_0000
    } else {
        (h * 0x8000) % 0x1_0000_0000 + h / 0x2_0000
    }
}

/// The key of process `pid` in the committee order of command `cmd_id`: the
/// `FxHasher` hash of the command's creator, its number, then the process.
pub open spec fn committee_key_of(cmd_id: CmdId, pid: Pid) -> u64 {
    fx_finish(fx_add(fx_add(fx_add(0, cmd_id.pid as int), cmd_id.id as int), pid as int)) as u64
}

/// The committee keys of the processes of `pool` for command `cmd_id`, by position.
pub open spec fn committee_keys(cmd_id: CmdId, pool: Seq<Pid>) -> Seq<u64> {
    Seq::new(pool.len(), |j: int| committee_key_of(cmd_id, pool[j]))
}

/// `committee` is the first `size` processes of `pool` once `pool` is sorted stably
/// by the committee keys of command `cmd_id`.
pub open spec fn is_hashed_committee(cmd_id: CmdId, pool: Seq<Pid>, size: nat, committee: Seq<Pid>) -> bool {
    &&& committee.len() == if size < pool.len() { size as int } else { pool.len() as int }
    &&& exists|perm: Seq<int>| stable_key_order(committee_keys(cmd_id, pool), perm) && forall|i: int|
        0 <= i < committee.len() ==> #[trigger] committee[i] == pool[perm[i]]
}

/// A hashed committee is ordered by key, and no process of the pool left out of it
/// has a smaller key than a member; of two processes with equal keys the earlier in
/// the pool comes first.
pub proof fn lemma_committee_takes_smallest_keys(cmd_id: CmdId, pool: Seq<Pid>, size: nat, committee: Seq<Pid>)
    requires
        pool.no_duplicates(),
        is_hashed_committee(cmd_id, pool, size, committee),
    ensures
        forall|a: int, b: int| 0 <= a < b < committee.len() ==> committee_key_of(cmd_id, #[trigger] committee[a])
            <= committee_key_of(cmd_id, #[trigger] committee[b]),
        forall|a: int, p: Pid| 0 <= a < committee.len() && #[trigger] pool.contains(p) && !committee.contains(p)
            ==> committee_key_of(cmd_id, #[trigger] committee[a]) <= committee_key_of(cmd_id, p),
{
    let keys = committee_keys(cmd_id, pool);
    let perm = choose|perm: Seq<int>| stable_key_order(keys, perm) && forall|i: int|
        0 <= i < committee.len() ==> #[trigger] committee[i] == pool[perm[i]];
    assert forall|a: int, b: int| 0 <= a < b < committee.len() implies committee_key_of(cmd_id, #[trigger] committee[a])
        <= committee_key_of(cmd_id, #[trigger] committee[b]) by {
        assert(committee[a] == pool[perm[a]] && committee[b] == pool[perm[b]]);
        assert(keys[perm[a]] < keys[perm[b]] || keys[perm[a]] == keys[perm[b]]);
    }
    assert forall|a: int, p: Pid| 0 <= a < committee.len() && #[trigger] pool.contains(p) && !committee.contains(p)
        implies committee_key_of(cmd_id, #[trigger] committee[a]) <= committee_key_of(cmd_id, p) by {
        let j = choose|j: int| 0 <= j < pool.len() && pool[j] == p;
        assert(perm.len() == pool.len());
        assert(exists|t: int| 0 <= t < perm.len() && perm[t] == j) by {
            lemma_perm_onto(perm, pool.len() as int, j);
        }
        let t = choose|t: int| 0 <= t < perm.len() && perm[t] == j;
        if t < committee.len() {
            assert(committee[t] == p);
            assert(committee.contains(p));
        }
        assert(committee[a] == pool[perm[a]]);
        assert(keys[perm[a]] < keys[perm[t]] || keys[perm[a]] == keys[perm[t]]);
    }
}

/// A sequence of `n` distinct positions below `n` takes every position below `n`.
proof fn lemma_perm_onto(perm: Seq<int>, n: int, j: int)
    requires
        perm.len() == n,
        perm.no_duplicates(),
        forall|i: int| 0 <= i < perm.len() ==> 0 <= #[trigger] perm[i] < n,
        0 <= j < n,
    ensures
        exists|t: int| 0 <= t < perm.len() && perm[t] == j,
{
    let s = perm.to_set();
    perm.unique_seq_to_set();
    let full = vstd::set_lib::set_int_range(0, n);
    vstd::set_lib::lemma_int_range(0, n);
    assert(s.subset_of(full)) by {
        assert forall|x: int| s.contains(x) implies full.contains(x) by {
            let t = choose|t: int| 0 <= t < perm.len() && perm[t] == x;
        }
    }
    vstd::set_lib::lemma_subset_equality(s, full);
    assert(full.contains(j));
    assert(s.contains(j));
}

/// Calls rustc_hash's `FxHasher` as the committee order does: hashes the command
/// identity (its derived `Hash` writes the creator, then the number, each as a
/// `usize`), then the process (`write_usize`), and finishes. `FxHasher` starts at 0,
/// `write_usize` is `add_to_hash` (`(hash + i) * K`, wrapping) and `finish` rotates the
/// state left, `K` and the rotation depending on the width of `usize`
/// (rustc-hash 2.1.3, src/lib.rs); the contract states exactly that arithmetic.
#[verifier::external_body]
fn committee_key(cmd_id: CmdId, pid: Pid) -> (k: u64)
    ensures
        k == committee_key_of(cmd_id, pid),
{
    let mut hasher = FxHasher::default();
    cmd_id.hash(&mut hasher);
    pid.hash(&mut hasher);
    hasher.finish()
}

} // verus!
