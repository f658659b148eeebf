use vstd::prelude::*;

use dscale::rand::rngs::SmallRng;

use crate::blsmr::log::{CmdLog, StableStep};
use crate::blsmr::BLSMRProtocol;
use crate::client::{CmdId, Command, Pid};
use crate::cmd_map::{copy_ids, CmdMap, IdMap};
use crate::ordering::{sort_dedup_ids, strictly_sorted};
use crate::quorum::QuorumSystem;

verus! {

/// Announcement of a new command to the replicas that must report its conflicts.
#[derive(Clone, Copy, PartialEq, Eq, Debug, Structural)]
pub struct Req {
    pub cmd: Command,
}

/// A replica's report: the commands it knows that conflict with `id`.
#[derive(Debug)]
pub struct Res {
    pub pid: Pid,
    pub id: CmdId,
    pub conflicts: Vec<CmdId>,
}

/// A report as plain values.
pub struct ResView {
    pub pid: Pid,
    pub id: CmdId,
    pub conflicts: Seq<CmdId>,
}

impl Res {
    /// The report as plain values.
    pub open spec fn view(&self) -> ResView {
        ResView { pid: self.pid, id: self.id, conflicts: self.conflicts@ }
    }
}

/// The reports as plain values.
pub open spec fn res_views(rs: Seq<Res>) -> Seq<ResView> {
    rs.map_values(|r: Res| r.view())
}

/// A copy of a report.
pub fn copy_res(r: &Res) -> (out: Res)
    ensures
        out.view() == r.view(),
{
    Res { pid: r.pid, id: r.id, conflicts: copy_ids(&r.conflicts) }
}

/// The decision on a command with its agreed dependencies.
#[derive(Debug)]
pub struct Commit {
    pub cmd_id: CmdId,
    pub deps: Vec<CmdId>,
}

/// A message of the dependency discovery step.
#[derive(Debug)]
pub enum Announce {
    Req(Req),
    Res(Res),
    Commit(Commit),
}

/// A full set of reports on one command, and whether they allow the fast path.
pub struct QuorumReady {
    pub quorum: Vec<Res>,
    pub allow_fastpath: bool,
}

/// What handling an announcement or a timeout led to.
pub enum AnnounceStatus {
    DoNothing,
    QuorumReady(QuorumReady),
}

/// How a new command is announced: to a random quorum (`Some`) or to the whole pool
/// (`None`), and after which delay to force a decision (`Some` under Wintermute).
pub struct AnnounceOut {
    pub recipients: Option<Vec<Pid>>,
    pub force_after: Option<usize>,
    pub req: Req,
}

/// What handling one announcement message led to: the status of the announcement,
/// the report to send back (to the sender of a request), and the commands that a
/// commit made stable.
pub struct Handled {
    pub status: AnnounceStatus,
    pub reply: Option<(Pid, Res)>,
    pub stable: Vec<StableStep>,
}

/// `status` hands over the reports `q` with the fast path decision on them, when
/// `ready`, and is `DoNothing` otherwise.
pub open spec fn reports_ready(status: &AnnounceStatus, ready: bool, q: Seq<ResView>, peers: nat) -> bool {
    match status {
        AnnounceStatus::DoNothing => !ready,
        AnnounceStatus::QuorumReady(r) => ready && res_views(r.quorum@) == q
            && r.allow_fastpath == spec_allow_fastpath(q, peers),
    }
}

/// The fast path is allowed when every process reported, and every report holds the
/// same number of conflicts as the first one, all of them among the first one's.
pub open spec fn spec_allow_fastpath(quorum: Seq<ResView>, peer_number: nat) -> bool {
    &&& quorum.len() == peer_number
    &&& forall|i: int| 1 <= i < quorum.len() ==> {
        &&& (#[trigger] quorum[i]).conflicts.len() == quorum[0].conflicts.len()
        &&& forall|c: CmdId| quorum[i].conflicts.contains(c) ==> quorum[0].conflicts.contains(c)
    }
}

/// Two conflict lists that name each conflict once have as many entries, the first's
/// all among the second's, exactly when they name the same conflicts.
proof fn lemma_same_conflicts(a: Seq<CmdId>, b: Seq<CmdId>)
    requires
        a.no_duplicates(),
        b.no_duplicates(),
    ensures
        (a.len() == b.len() && forall|c: CmdId| a.contains(c) ==> b.contains(c))
            <==> a.to_set() == b.to_set(),
{
    a.unique_seq_to_set();
    b.unique_seq_to_set();
    if a.len() == b.len() && forall|c: CmdId| a.contains(c) ==> b.contains(c) {
        assert(a.to_set().subset_of(b.to_set()));
        vstd::set_lib::lemma_subset_equality(a.to_set(), b.to_set());
    }
    if a.to_set() == b.to_set() {
        assert forall|c: CmdId| a.contains(c) implies b.contains(c) by {
            assert(a.to_set().contains(c));
        }
    }
}

/// Over reports that name each conflict once, the fast path is allowed exactly when
/// every process reported and all reports name the same conflicts as the first one.
pub proof fn lemma_fastpath_iff_same_conflicts(quorum: Seq<ResView>, peers: nat)
    requires
        forall|i: int| 0 <= i < quorum.len() ==> (#[trigger] quorum[i]).conflicts.no_duplicates(),
    ensures
        spec_allow_fastpath(quorum, peers) <==> (quorum.len() == peers
            && forall|i: int| 0 <= i < quorum.len()
                ==> (#[trigger] quorum[i]).conflicts.to_set() == quorum[0].conflicts.to_set()),
{
    if quorum.len() > 0 {
        assert forall|i: int| 0 <= i < quorum.len() implies
            ((#[trigger] quorum[i]).conflicts.len() == quorum[0].conflicts.len()
                && forall|c: CmdId| quorum[i].conflicts.contains(c) ==> quorum[0].conflicts.contains(c))
            <==> quorum[i].conflicts.to_set() == quorum[0].conflicts.to_set() by {
            lemma_same_conflicts(quorum[i].conflicts, quorum[0].conflicts);
        }
    }
}

/// Every conflict reported in `quorum`.
pub open spec fn reported_conflicts(quorum: Seq<ResView>) -> Set<CmdId> {
    Set::new(|c: CmdId| exists|i: int| 0 <= i < quorum.len() && (#[trigger] quorum[i]).conflicts.contains(c))
}

/// The union of the reported conflicts, sorted, each once: the dependencies a
/// decision on the command carries.
pub fn union_deps(quorum: &Vec<Res>) -> (deps: Vec<CmdId>)
    ensures
        strictly_sorted(deps@),
        deps@.to_set() == reported_conflicts(res_views(quorum@)),
{
    let mut all: Vec<CmdId> = Vec::new();
    let mut i: usize = 0;
    while i < quorum.len()
        invariant
            i <= quorum@.len(),
            forall|c: CmdId| all@.contains(c) <==> exists|k: int| 0 <= k < i && (#[trigger] quorum@[k]).conflicts@.contains(c),
        decreases quorum@.len() - i,
    {
        let r = &quorum[i];
        let mut j: usize = 0;
        let ghost before = all@;
        while j < r.conflicts.len()
            invariant
                j <= r.conflicts@.len(),
                all@ == before + r.conflicts@.subrange(0, j as int),
            decreases r.conflicts@.len() - j,
        {
            all.push(r.conflicts[j]);
            j = j + 1;
            assert(all@ =~= before + r.conflicts@.subrange(0, j as int));
        }
        proof {
            assert(r.conflicts@.subrange(0, j as int) =~= r.conflicts@);
            assert forall|c: CmdId| all@.contains(c) <==> exists|k: int| 0 <= k < i + 1 && (#[trigger] quorum@[k]).conflicts@.contains(c) by {
                if all@.contains(c) {
                    let w = choose|w: int| 0 <= w < all@.len() && all@[w] == c;
                    if w < before.len() {
                        assert(before[w] == c);
                        assert(before.contains(c));
                    } else {
                        assert(r.conflicts@[w - before.len()] == c);
                        assert(quorum@[i as int].conflicts@.contains(c));
                    }
                }
                if exists|k: int| 0 <= k < i + 1 && (#[trigger] quorum@[k]).conflicts@.contains(c) {
                    let k = choose|k: int| 0 <= k < i + 1 && (#[trigger] quorum@[k]).conflicts@.contains(c);
                    if k == i {
                        let m = choose|m: int| 0 <= m < r.conflicts@.len() && r.conflicts@[m] == c;
                        assert(all@[before.len() + m] == c);
                    } else {
                        assert(before.contains(c));
                        let w = choose|w: int| 0 <= w < before.len() && before[w] == c;
                        assert(all@[w] == c);
                    }
                }
            }
        }
        i = i + 1;
    }
    let deps = sort_dedup_ids(&all);
    proof {
        assert forall|c: CmdId| deps@.to_set().contains(c) <==> reported_conflicts(res_views(quorum@)).contains(c) by {
            if exists|k: int| 0 <= k < quorum@.len() && (#[trigger] quorum@[k]).conflicts@.contains(c) {
                let k = choose|k: int| 0 <= k < quorum@.len() && (#[trigger] quorum@[k]).conflicts@.contains(c);
                assert(res_views(quorum@)[k].conflicts.contains(c));
            }
            if reported_conflicts(res_views(quorum@)).contains(c) {
                let k = choose|k: int| 0 <= k < res_views(quorum@).len() && (#[trigger] res_views(quorum@)[k]).conflicts.contains(c);
                assert(quorum@[k].conflicts@.contains(c));
            }
        }
        assert(deps@.to_set() =~= reported_conflicts(res_views(quorum@)));
    }
    deps
}

/// Dependency discovery of a process: it announces its commands, answers the
/// announcements of others with their conflicts, gathers the answers to its own
/// announcements, and records the decisions in its command log.
pub struct DDS {
    rng: SmallRng,
    protocol_type: BLSMRProtocol,
    peer_number: usize,
    bqs: QuorumSystem,
    log: CmdLog,
    pending_announce_quorums: CmdMap<Vec<Res>>,
    announce_timeout: usize,
    announce_force_timers: IdMap<CmdId>,
}

impl DDS {
    /// The protocol the process runs.
    pub closed spec fn protocol(&self) -> BLSMRProtocol {
        self.protocol_type
    }

    /// Number of processes in the pool.
    pub closed spec fn peers(&self) -> nat {
        self.peer_number as nat
    }

    /// The quorum system.
    pub closed spec fn quorum_system(&self) -> QuorumSystem {
        self.bqs
    }

    /// The command log.
    pub closed spec fn cmd_log(&self) -> CmdLog {
        self.log
    }

    /// The reports gathered so far for each own command still undecided.
    pub closed spec fn pending(&self) -> Map<CmdId, Seq<ResView>> {
        self.pending_announce_quorums@.map_values(|q: Vec<Res>| res_views(q@))
    }

    /// The force timers still armed, with their commands.
    pub closed spec fn timers(&self) -> Map<usize, CmdId> {
        self.announce_force_timers@
    }

    /// The delay after which a Wintermute announcement is forced.
    pub closed spec fn timeout(&self) -> usize {
        self.announce_timeout
    }

    /// The parts are well formed and the pool is not empty.
    pub closed spec fn wf(&self) -> bool {
        &&& self.peer_number > 0
        &&& self.bqs.wf()
        &&& self.log.wf()
        &&& self.pending_announce_quorums.wf()
        &&& self.announce_force_timers.wf()
    }

    /// Dependency discovery for a pool of `peer_number` processes.
    pub fn new(
        rng: SmallRng,
        protocol_type: BLSMRProtocol,
        peer_number: usize,
        bqs: QuorumSystem,
        announce_timeout: usize,
    ) -> (d: Self)
        requires
            peer_number > 0,
            bqs.wf(),
        ensures
            d.wf(),
            d.protocol() == protocol_type,
            d.peers() == peer_number,
            d.quorum_system() == bqs,
            d.timeout() == announce_timeout,
            d.pending() == Map::<CmdId, Seq<ResView>>::empty(),
            d.timers() == Map::<usize, CmdId>::empty(),
            d.cmd_log().entries() == Map::<CmdId, crate::blsmr::log::EntryView>::empty(),
            d.cmd_log().stable() == Set::<CmdId>::empty(),
    {
        let d = DDS {
            rng,
            protocol_type,
            peer_number,
            bqs,
            log: CmdLog::new(),
            pending_announce_quorums: CmdMap::new(),
            announce_timeout,
            announce_force_timers: IdMap::new(),
        };
        assert(d.pending() =~= Map::<CmdId, Seq<ResView>>::empty());
        d
    }

    /// What announcing `cmd` at `now` does from `pre` to `post`, answering `out`: it
    /// records the command's creation, opens the gathering of its reports, and says
    /// where to send the request and whether to arm a force timer (under Wintermute,
    /// after the announce timeout). Under 3Jane the request goes to a random quorum.
    pub open spec fn announces(pre: DDS, post: DDS, cmd: Command, now: usize, out: AnnounceOut) -> bool {
        &&& (post.protocol() == pre.protocol())
        &&& (post.peers() == pre.peers())
        &&& (post.quorum_system().same_quorums(&pre.quorum_system()))
        &&& (post.timeout() == pre.timeout())
        &&& (post.timers() == pre.timers())
        &&& (post.pending() == pre.pending().insert(cmd.id, Seq::empty()))
        &&& (post.cmd_log().stable() == pre.cmd_log().stable())
        &&& post.cmd_log().entries() == if pre.cmd_log().entries().contains_key(cmd.id) {
            pre.cmd_log().entries()
        } else {
            pre.cmd_log().entries().insert(cmd.id, crate::blsmr::log::EntryView {
                cmd: None,
                submitted_at: now,
                deps: Seq::empty(),
                phase: crate::blsmr::log::Phase::Pending,
                executed: false,
            })
        }
        &&& out.req == (Req { cmd })
        &&& out.force_after == if pre.protocol() == BLSMRProtocol::Wintermute {
            Some(pre.timeout())
        } else {
            None::<usize>
        }
        &&& (pre.protocol() == BLSMRProtocol::ThreeJane <==> out.recipients is Some)
        &&& (out.recipients matches Some(q) ==> {
            &&& forall|i: int| 0 <= i < q@.len() ==> pre.quorum_system().members().contains(#[trigger] q@[i])
            &&& (pre.quorum_system().is_grid() || pre.quorum_system().spec_size()
                <= pre.quorum_system().members().len()) ==> pre.quorum_system().spec_is_quorum(q@)
        })
    }

    /// Announces the new command `cmd` at `now` (see `announces`).
    pub fn announce(&mut self, cmd: Command, now: usize) -> (out: AnnounceOut)
        requires
            old(self).wf(),
        ensures
            final(self).wf(),
            DDS::announces(*old(self), *final(self), cmd, now, out),
    {
        self.log.record_creation(cmd.id, now);
        let force_after = match self.protocol_type {
            BLSMRProtocol::Wintermute => Some(self.announce_timeout),
            _ => None,
        };
        let fresh: Vec<Res> = Vec::new();
        assert(res_views(fresh@) =~= Seq::<ResView>::empty());
        self.pending_announce_quorums.insert(cmd.id, fresh);
        let recipients = match self.protocol_type {
            BLSMRProtocol::ThreeJane => Some(self.bqs.choose_random_quorum(&mut self.rng)),
            _ => None,
        };
        proof {
            assert(self.pending() =~= old(self).pending().insert(cmd.id, Seq::empty()));
            if !(self.protocol_type == BLSMRProtocol::ThreeJane) {
                assert(self.quorum_system() == old(self).quorum_system());
            }
        }
        AnnounceOut { recipients, force_after, req: Req { cmd } }
    }

    /// Arms the force timer `timer_id` for `cmd_id`.
    pub fn register_force_timer(&mut self, timer_id: usize, cmd_id: CmdId)
        requires
            old(self).wf(),
        ensures
            final(self).wf(),
            final(self).timers() == old(self).timers().insert(timer_id, cmd_id),
            final(self).pending() == old(self).pending(),
            final(self).cmd_log() == old(self).cmd_log(),
            final(self).protocol() == old(self).protocol(),
            final(self).peers() == old(self).peers(),
            final(self).quorum_system() == old(self).quorum_system(),
            final(self).timeout() == old(self).timeout(),
    {
        self.announce_force_timers.insert(timer_id, cmd_id);
    }

    /// Whether the reports `q` settle an announcement: under Wintermute when every
    /// process reported, otherwise when the reporting processes form a quorum.
    pub open spec fn settles(&self, q: Seq<ResView>) -> bool {
        if self.protocol() == BLSMRProtocol::Wintermute {
            q.len() == self.peers()
        } else {
            self.quorum_system().spec_is_quorum(q.map_values(|r: ResView| r.pid))
        }
    }

    /// What handling `message` from `from` at `now` on process `self_pid` does from `pre`
    /// to `post`, answering `out`. A request is submitted to the log and answered with
    /// its conflicts; a commit goes to the log; a report joins those gathered for its
    /// command, and once they settle the announcement they are handed over. A report on a command that is not gathering
    /// (already settled, or not announced here) is dropped.
    pub open spec fn handles(pre: DDS, post: DDS, from: Pid, message: Announce, self_pid: Pid, now: usize, out: Handled) -> bool {
        &&& (post.protocol() == pre.protocol())
        &&& (post.peers() == pre.peers())
        &&& (post.quorum_system() == pre.quorum_system())
        &&& (post.timeout() == pre.timeout())
        &&& (post.timers() == pre.timers())
        &&& (match message {
            Announce::Req(req) => {
                &&& out.status is DoNothing
                &&& out.stable@.len() == 0
                &&& post.pending() == pre.pending()
                &&& out.reply matches Some((to, res)) && to == from && res.pid == self_pid
                    && res.id == req.cmd.id
                    && CmdLog::submits(pre.cmd_log(), post.cmd_log(), req.cmd, now, res.conflicts@)
            },
            Announce::Commit(c) => {
                &&& out.status is DoNothing
                &&& out.reply is None
                &&& post.pending() == pre.pending()
                &&& CmdLog::commits(pre.cmd_log(), post.cmd_log(), c.cmd_id, c.deps@, now, self_pid, out.stable@)
            },
            Announce::Res(r) => {
                &&& out.reply is None
                &&& out.stable@.len() == 0
                &&& post.cmd_log() == pre.cmd_log()
                &&& !pre.pending().contains_key(r.id) ==> {
                    &&& out.status is DoNothing
                    &&& post.pending() == pre.pending()
                }
                &&& pre.pending().contains_key(r.id) ==> {
                    let q = pre.pending()[r.id].push(r.view());
                    &&& reports_ready(&out.status, pre.settles(q), q, pre.peers())
                    &&& post.pending() == if pre.settles(q) {
                        pre.pending().remove(r.id)
                    } else {
                        pre.pending().insert(r.id, q)
                    }
                }
            }
        })
    }

    /// Handles `message` from `from` at `now` on process `self_pid` (see `handles`).
    pub fn on_message(&mut self, from: Pid, message: &Announce, self_pid: Pid, now: usize) -> (out: Handled)
        requires
            old(self).wf(),
            old(self).cmd_log().not_after(now),
        ensures
            final(self).wf(),
            final(self).cmd_log().not_after(now),
            DDS::handles(*old(self), *final(self), from, *message, self_pid, now, out),
    {
        match message {
            Announce::Req(req) => {
                let conflicts = self.log.submit(req.cmd, now);
                proof {
                    assert(self.cmd_log().not_after(now));
                }
                Handled {
                    status: AnnounceStatus::DoNothing,
                    reply: Some((from, Res { pid: self_pid, id: req.cmd.id, conflicts })),
                    stable: Vec::new(),
                }
            },
            Announce::Commit(c) => {
                let deps = copy_ids(&c.deps);
                let stable = self.log.commit(c.cmd_id, deps, now, self_pid);
                Handled { status: AnnounceStatus::DoNothing, reply: None, stable }
            },
            Announce::Res(r) => {
                let ghost pre = self.pending();
                match self.pending_announce_quorums.remove(&r.id) {
                    None => {
                        assert(self.pending() =~= pre);
                        Handled { status: AnnounceStatus::DoNothing, reply: None, stable: Vec::new() }
                    },
                    Some(mut quorum) => {
                        let ghost q = pre[r.id].push(r.view());
                        quorum.push(copy_res(r));
                        assert(res_views(quorum@) =~= q);
                        assert(self.pending() =~= pre.remove(r.id));
                        let ready = match self.protocol_type {
                            BLSMRProtocol::Wintermute => quorum.len() == self.peer_number,
                            _ => self.is_quorum(&quorum),
                        };
                        if ready {
                            let allow_fastpath = self.allow_fastpath(&quorum);
                            Handled {
                                status: AnnounceStatus::QuorumReady(QuorumReady { quorum, allow_fastpath }),
                                reply: None,
                                stable: Vec::new(),
                            }
                        } else {
                            self.pending_announce_quorums.insert(r.id, quorum);
                            assert(self.pending() =~= pre.insert(r.id, q));
                            Handled { status: AnnounceStatus::DoNothing, reply: None, stable: Vec::new() }
                        }
                    },
                }
            },
        }
    }

    /// Whether `timer_id` is one of the armed force timers.
    pub fn is_my_timer(&self, timer_id: usize) -> (b: bool)
        requires
            self.wf(),
        ensures
            b == self.timers().contains_key(timer_id),
    {
        self.announce_force_timers.contains_key(&timer_id)
    }

    /// What the force timer `timer_id` does from `pre` to `post`, answering `status`: it
    /// is disarmed, and if its command is still gathering reports and those reporting
    /// form a quorum, they are handed over.
    pub open spec fn fires(pre: DDS, post: DDS, timer_id: usize, status: AnnounceStatus) -> bool {
        let c = pre.timers()[timer_id];
        &&& post.protocol() == pre.protocol()
        &&& post.peers() == pre.peers()
        &&& post.quorum_system() == pre.quorum_system()
        &&& post.timeout() == pre.timeout()
        &&& post.cmd_log() == pre.cmd_log()
        &&& post.timers() == pre.timers().remove(timer_id)
        &&& !pre.pending().contains_key(c) ==> {
            &&& status is DoNothing
            &&& post.pending() == pre.pending()
        }
        &&& pre.pending().contains_key(c) ==> {
            let q = pre.pending()[c];
            let ready = pre.quorum_system().spec_is_quorum(q.map_values(|r: ResView| r.pid));
            &&& reports_ready(&status, ready, q, pre.peers())
            &&& post.pending() == if ready {
                pre.pending().remove(c)
            } else {
                pre.pending()
            }
        }
    }

    /// An announcement is settled once: after a report settles the announcement of a
    /// command, a later report on that command is dropped and changes nothing.
    pub proof fn lemma_settled_reports_dropped(pre: DDS, mid: DDS, post: DDS, from: Pid, r: Res,
        from2: Pid, r2: Res, self_pid: Pid, now: usize, now2: usize, out: Handled, out2: Handled)
        requires
            DDS::handles(pre, mid, from, Announce::Res(r), self_pid, now, out),
            out.status is QuorumReady,
            DDS::handles(mid, post, from2, Announce::Res(r2), self_pid, now2, out2),
            r2.id == r.id,
        ensures
            out2.status is DoNothing,
            post.pending() == mid.pending(),
    {
    }

    /// After a report settles the announcement of a command, its force timer firing
    /// settles nothing and changes no gathered reports.
    pub proof fn lemma_settled_timer_idle(pre: DDS, mid: DDS, post: DDS, from: Pid, r: Res, self_pid: Pid,
        now: usize, out: Handled, timer_id: usize, status: AnnounceStatus)
        requires
            DDS::handles(pre, mid, from, Announce::Res(r), self_pid, now, out),
            out.status is QuorumReady,
            mid.timers().contains_key(timer_id),
            mid.timers()[timer_id] == r.id,
            DDS::fires(mid, post, timer_id, status),
        ensures
            status is DoNothing,
            post.pending() == mid.pending(),
    {
    }

    /// After the force timer of a command settles its announcement, a later report on
    /// that command is dropped and changes nothing.
    pub proof fn lemma_fired_reports_dropped(pre: DDS, mid: DDS, post: DDS, timer_id: usize, status: AnnounceStatus,
        from: Pid, r: Res, self_pid: Pid, now: usize, out: Handled)
        requires
            pre.timers().contains_key(timer_id),
            DDS::fires(pre, mid, timer_id, status),
            status is QuorumReady,
            pre.timers()[timer_id] == r.id,
            DDS::handles(mid, post, from, Announce::Res(r), self_pid, now, out),
        ensures
            out.status is DoNothing,
            post.pending() == mid.pending(),
    {
    }

    /// Handles the armed force timer `timer_id` (see `fires`).
    pub fn on_timer(&mut self, timer_id: usize) -> (status: AnnounceStatus)
        requires
            old(self).wf(),
            old(self).timers().contains_key(timer_id),
        ensures
            final(self).wf(),
            DDS::fires(*old(self), *final(self), timer_id, status),
    {
        let cmd_id = self.announce_force_timers.remove(&timer_id).unwrap();
        let ghost pre = self.pending();
        match self.pending_announce_quorums.get(&cmd_id) {
            None => AnnounceStatus::DoNothing,
            Some(quorum) => {
                if self.is_quorum(quorum) {
                    let allow_fastpath = self.allow_fastpath(quorum);
                    let results = self.pending_announce_quorums.remove(&cmd_id).unwrap();
                    assert(self.pending() =~= pre.remove(cmd_id));
                    AnnounceStatus::QuorumReady(QuorumReady { quorum: results, allow_fastpath })
                } else {
                    AnnounceStatus::DoNothing
                }
            },
        }
    }

    fn pids_of(quorum: &Vec<Res>) -> (pids: Vec<Pid>)
        ensures
            pids@ == res_views(quorum@).map_values(|r: ResView| r.pid),
    {
        let mut pids: Vec<Pid> = Vec::new();
        let mut i: usize = 0;
        while i < quorum.len()
            invariant
                i <= quorum@.len(),
                pids@ == res_views(quorum@).map_values(|r: ResView| r.pid).take(i as int),
            decreases quorum@.len() - i,
        {
            pids.push(quorum[i].pid);
            i = i + 1;
            assert(pids@ =~= res_views(quorum@).map_values(|r: ResView| r.pid).take(i as int));
        }
        assert(res_views(quorum@).map_values(|r: ResView| r.pid).take(quorum@.len() as int)
            =~= res_views(quorum@).map_values(|r: ResView| r.pid));
        pids
    }

    /// Whether the reporting processes of `res` form a quorum.
    pub fn is_quorum(&self, res: &Vec<Res>) -> (q: bool)
        requires
            self.wf(),
        ensures
            q == self.quorum_system().spec_is_quorum(res_views(res@).map_values(|r: ResView| r.pid)),
    {
        let pids = Self::pids_of(res);
        self.bqs.is_quorum(pids.as_slice())
    }

    /// Whether a complete set of reports allows the fast path: every process reported,
    /// and every report holds as many conflicts as the first one, all of them among the
    /// first one's. Where no report names a conflict twice, this is: every process
    /// reported, and all reports name the same conflicts.
    pub fn allow_fastpath(&self, quorum: &Vec<Res>) -> (ok: bool)
        requires
            self.wf(),
        ensures
            ok == spec_allow_fastpath(res_views(quorum@), self.peers()),
            ok ==> quorum@.len() == self.peers(),
            ok ==> forall|i: int| 0 <= i < quorum@.len() ==> {
                &&& (#[trigger] quorum@[i]).conflicts@.len() == quorum@[0].conflicts@.len()
                &&& forall|c: CmdId| quorum@[i].conflicts@.contains(c) ==> quorum@[0].conflicts@.contains(c)
            },
            (quorum@.len() == self.peers() && forall|i: int| 0 <= i < quorum@.len() ==> {
                &&& (#[trigger] quorum@[i]).conflicts@.len() == quorum@[0].conflicts@.len()
                &&& forall|c: CmdId| quorum@[i].conflicts@.contains(c) ==> quorum@[0].conflicts@.contains(c)
            }) ==> ok,
            (forall|i: int| 0 <= i < quorum@.len() ==> (#[trigger] quorum@[i]).conflicts@.no_duplicates())
                ==> (ok <==> (quorum@.len() == self.peers() && forall|i: int| 0 <= i < quorum@.len()
                    ==> (#[trigger] quorum@[i]).conflicts@.to_set() == quorum@[0].conflicts@.to_set())),
    {
        let ok = self.reports_agree(quorum);
        proof {
            let q = res_views(quorum@);
            assert forall|i: int| 0 <= i < quorum@.len() implies #[trigger] q[i].conflicts == quorum@[i].conflicts@ by {}
            if quorum@.len() > 0 {
                assert(q[0].conflicts == quorum@[0].conflicts@);
            }
            if ok {
                assert forall|i: int| 0 <= i < quorum@.len() implies {
                    &&& (#[trigger] quorum@[i]).conflicts@.len() == quorum@[0].conflicts@.len()
                    &&& forall|c: CmdId| quorum@[i].conflicts@.contains(c) ==> quorum@[0].conflicts@.contains(c)
                } by {
                    if i >= 1 {
                        assert(q[i].conflicts == quorum@[i].conflicts@);
                    }
                }
            }
            if quorum@.len() == self.peers() && forall|i: int| 0 <= i < quorum@.len() ==> {
                &&& (#[trigger] quorum@[i]).conflicts@.len() == quorum@[0].conflicts@.len()
                &&& forall|c: CmdId| quorum@[i].conflicts@.contains(c) ==> quorum@[0].conflicts@.contains(c)
            } {
                assert forall|i: int| 1 <= i < q.len() implies {
                    &&& (#[trigger] q[i]).conflicts.len() == q[0].conflicts.len()
                    &&& forall|c: CmdId| q[i].conflicts.contains(c) ==> q[0].conflicts.contains(c)
                } by {
                    assert(q[i].conflicts == quorum@[i].conflicts@);
                    assert((quorum@[i]).conflicts@.len() == quorum@[0].conflicts@.len());
                }
            }
            if forall|i: int| 0 <= i < quorum@.len() ==> (#[trigger] quorum@[i]).conflicts@.no_duplicates() {
                assert forall|i: int| 0 <= i < q.len() implies (#[trigger] q[i]).conflicts.no_duplicates() by {
                    assert(q[i].conflicts == quorum@[i].conflicts@);
                }
                lemma_fastpath_iff_same_conflicts(q, self.peers());
                if quorum@.len() == self.peers() && forall|i: int| 0 <= i < quorum@.len()
                    ==> (#[trigger] quorum@[i]).conflicts@.to_set() == quorum@[0].conflicts@.to_set() {
                    assert forall|i: int| 0 <= i < q.len() implies
                        (#[trigger] q[i]).conflicts.to_set() == q[0].conflicts.to_set() by {
                        assert(q[i].conflicts == quorum@[i].conflicts@);
                        assert(quorum@[i].conflicts@.to_set() == quorum@[0].conflicts@.to_set());
                    }
                }
                if ok {
                    assert forall|i: int| 0 <= i < quorum@.len() implies
                        (#[trigger] quorum@[i]).conflicts@.to_set() == quorum@[0].conflicts@.to_set() by {
                        assert(q[i].conflicts == quorum@[i].conflicts@);
                        assert(q[i].conflicts.to_set() == q[0].conflicts.to_set());
                    }
                }
            }
        }
        ok
    }

    /// The fast path check on the reports as they stand.
    fn reports_agree(&self, quorum: &Vec<Res>) -> (ok: bool)
        requires
            self.wf(),
        ensures
            ok == spec_allow_fastpath(res_views(quorum@), self.peers()),
    {
        if quorum.len() != self.peer_number {
            return false;
        }
        let first = &quorum[0].conflicts;
        let mut i: usize = 1;
        while i < quorum.len()
            invariant
                1 <= i <= quorum@.len(),
                quorum@.len() == self.peers(),
                *first == quorum@[0].conflicts,
                forall|k: int| 1 <= k < i ==> {
                    &&& (#[trigger] quorum@[k]).conflicts@.len() == first@.len()
                    &&& forall|c: CmdId| quorum@[k].conflicts@.contains(c) ==> first@.contains(c)
                },
            decreases quorum@.len() - i,
        {
            let r = &quorum[i];
            if r.conflicts.len() != first.len() {
                assert(res_views(quorum@)[i as int].conflicts.len() != res_views(quorum@)[0].conflicts.len());
                return false;
            }
            let mut j: usize = 0;
            while j < r.conflicts.len()
                invariant
                    j <= r.conflicts@.len(),
                    1 <= i < quorum@.len(),
                    *r == quorum@[i as int],
                    *first == quorum@[0].conflicts,
                    forall|m: int| 0 <= m < j ==> first@.contains(#[trigger] r.conflicts@[m]),
                decreases r.conflicts@.len() - j,
            {
                if !crate::quorum::grid::contains_id(first.as_slice(), r.conflicts[j]) {
                    assert(res_views(quorum@)[i as int].conflicts.contains(r.conflicts@[j as int]));
                    assert(!res_views(quorum@)[0].conflicts.contains(r.conflicts@[j as int]));
                    return false;
                }
                j = j + 1;
            }
            assert forall|c: CmdId| quorum@[i as int].conflicts@.contains(c) implies first@.contains(c) by {
                let m = choose|m: int| 0 <= m < r.conflicts@.len() && r.conflicts@[m] == c;
            }
            i = i + 1;
        }
        assert forall|k: int| 1 <= k < res_views(quorum@).len() implies {
            &&& (#[trigger] res_views(quorum@)[k]).conflicts.len() == res_views(quorum@)[0].conflicts.len()
            &&& forall|c: CmdId| res_views(quorum@)[k].conflicts.contains(c) ==> res_views(quorum@)[0].conflicts.contains(c)
        } by {
            assert(quorum@[k].conflicts@.len() == first@.len());
        }
        true
    }
}

} // verus!
