use vstd::prelude::*;

use dscale::rand::rngs::SmallRng;

use crate::blsmr::dds::{
    reported_conflicts, res_views, union_deps, Announce, AnnounceOut, AnnounceStatus, Commit,
    Handled, ResView, DDS,
};
use crate::blsmr::quorum::{SlowPath, QuorumMsg, QuorumStatus};
use crate::client::{create_cmd, CmdId, Command, Pid};
use crate::ordering::strictly_sorted;
use crate::random::uniform_inclusive;

verus! {

/// What a process does once the reports on one of its commands settled.
pub enum Decision {
    /// Fast path: broadcast the decision to the pool.
    Decide(Commit),
    /// Slow path: send the request to each of the replicas.
    Propose(Vec<Pid>, QuorumMsg),
}

/// `decision` is what the settled `status` leads to, the slow path going from `pre` to
/// `post`. Settled reports decide on the command of the first report, with the union
/// of the reported conflicts (sorted, each once) as dependencies: at once when the
/// fast path is allowed, through the slow path over `pool` otherwise.
pub open spec fn decides(pre: SlowPath, post: SlowPath, status: &AnnounceStatus, pool: Seq<Pid>, decision: Option<Decision>) -> bool {
    match status {
        AnnounceStatus::DoNothing => decision is None && post == pre,
        AnnounceStatus::QuorumReady(r) => {
            let cmd_id = r.quorum@[0].id;
            let deps = reported_conflicts(res_views(r.quorum@));
            if r.allow_fastpath {
                &&& post == pre
                &&& decision matches Some(Decision::Decide(c)) && c.cmd_id == cmd_id
                    && strictly_sorted(c.deps@) && c.deps@.to_set() == deps
            } else {
                decision matches Some(Decision::Propose(to, msg)) && msg matches QuorumMsg::Request(rq)
                    && strictly_sorted(rq.deps@) && rq.deps@.to_set() == deps
                    && SlowPath::proposes(pre, post, cmd_id, rq.deps@, pool, to@, msg)
            }
        },
    }
}

/// What a submit timer led to: the new command, how to announce it, and the delay of
/// the next submit timer, if another command is to be submitted.
pub struct SubmitOut {
    pub cmd: Command,
    pub announce: AnnounceOut,
    pub next_delay: Option<usize>,
}

/// A BLSMR process: it submits commands at random intervals up to a limit, discovers
/// their dependencies, decides them on the fast or the slow path, and executes the
/// decisions in its command log.
pub struct BLSMR {
    rng: SmallRng,
    submit_interval: usize,
    submit_limit: usize,
    submitted: usize,
    key_count: usize,
    current_submit_timer_id: usize,
    track_conflict_rate: bool,
    dds: DDS,
    quorum: SlowPath,
}

impl BLSMR {
    /// The dependency discovery part.
    pub closed spec fn dds(&self) -> DDS {
        self.dds
    }

    /// The slow path part.
    pub closed spec fn slow_path(&self) -> SlowPath {
        self.quorum
    }

    /// How many commands were submitted so far.
    pub closed spec fn spec_submitted(&self) -> nat {
        self.submitted as nat
    }

    /// How many commands the process submits in all.
    pub closed spec fn spec_submit_limit(&self) -> nat {
        self.submit_limit as nat
    }

    /// The mean delay between two submissions; each delay is drawn between half of
    /// it and all of it.
    pub closed spec fn interval(&self) -> usize {
        self.submit_interval
    }

    /// Number of keys the commands touch.
    pub closed spec fn keys(&self) -> usize {
        self.key_count
    }

    /// The submit timer currently armed.
    pub closed spec fn submit_timer(&self) -> usize {
        self.current_submit_timer_id
    }

    /// Whether conflicts are tracked.
    pub closed spec fn tracking(&self) -> bool {
        self.track_conflict_rate
    }

    /// The parts are well formed, a submitting process has keys to draw from, no
    /// quorum is empty, and no more commands were submitted than the limit.
    pub closed spec fn wf(&self) -> bool {
        &&& self.dds.wf()
        &&& self.quorum.wf()
        &&& self.submit_limit > 0 ==> self.key_count > 0
        &&& !self.dds.quorum_system().spec_is_quorum(Seq::empty())
        &&& self.submitted <= self.submit_limit
    }

    /// A process that has submitted nothing yet.
    pub fn new(
        rng: SmallRng,
        submit_interval: usize,
        submit_limit: usize,
        key_count: usize,
        track_conflict_rate: bool,
        dds: DDS,
        quorum: SlowPath,
    ) -> (p: Self)
        requires
            dds.wf(),
            quorum.wf(),
            submit_limit > 0 ==> key_count > 0,
            !dds.quorum_system().spec_is_quorum(Seq::empty()),
        ensures
            p.wf(),
            p.dds() == dds,
            p.slow_path() == quorum,
            p.spec_submitted() == 0,
            p.spec_submit_limit() == submit_limit,
            p.interval() == submit_interval,
            p.keys() == key_count,
            p.submit_timer() == 0,
            p.tracking() == track_conflict_rate,
    {
        BLSMR {
            rng,
            submit_interval,
            submit_limit,
            submitted: 0,
            key_count,
            current_submit_timer_id: 0,
            track_conflict_rate,
            dds,
            quorum,
        }
    }

    /// Whether conflicts are tracked.
    pub fn tracks_conflict_rate(&self) -> (b: bool)
        ensures
            b == self.tracking(),
    {
        self.track_conflict_rate
    }

    /// How many commands were submitted so far.
    pub fn submitted(&self) -> (n: usize)
        ensures
            n == self.spec_submitted(),
    {
        self.submitted
    }

    /// How many commands the process submits in all.
    pub fn submit_limit(&self) -> (n: usize)
        ensures
            n == self.spec_submit_limit(),
    {
        self.submit_limit
    }

    fn submit_delay(&mut self) -> (d: usize)
        ensures
            final(self).dds() == old(self).dds(),
            final(self).slow_path() == old(self).slow_path(),
            final(self).spec_submitted() == old(self).spec_submitted(),
            final(self).spec_submit_limit() == old(self).spec_submit_limit(),
            final(self).interval() == old(self).interval(),
            final(self).keys() == old(self).keys(),
            final(self).submit_timer() == old(self).submit_timer(),
            final(self).tracking() == old(self).tracking(),
            old(self).interval() / 2 <= d <= old(self).interval(),
    {
        uniform_inclusive(self.submit_interval / 2, self.submit_interval, &mut self.rng)
    }

    /// Starts the process: when it has commands to submit, the delay after which to
    /// arm the first submit timer, drawn between half the interval and the interval.
    pub fn on_start(&mut self) -> (delay: Option<usize>)
        requires
            old(self).wf(),
        ensures
            final(self).wf(),
            final(self).dds() == old(self).dds(),
            final(self).slow_path() == old(self).slow_path(),
            final(self).spec_submitted() == old(self).spec_submitted(),
            final(self).submit_timer() == old(self).submit_timer(),
            delay is Some <==> old(self).spec_submit_limit() != 0,
            delay matches Some(d) ==> old(self).interval() / 2 <= d <= old(self).interval(),
    {
        if self.submit_limit != 0 {
            Some(self.submit_delay())
        } else {
            None
        }
    }

    /// Records `timer_id` as the armed submit timer.
    pub fn submit_timer_armed(&mut self, timer_id: usize)
        requires
            old(self).wf(),
        ensures
            final(self).wf(),
            final(self).submit_timer() == timer_id,
            final(self).dds() == old(self).dds(),
            final(self).slow_path() == old(self).slow_path(),
            final(self).spec_submitted() == old(self).spec_submitted(),
            final(self).spec_submit_limit() == old(self).spec_submit_limit(),
    {
        self.current_submit_timer_id = timer_id;
    }

    /// Whether `timer_id` is the armed submit timer.
    pub fn is_submit_timer(&self, timer_id: usize) -> (b: bool)
        ensures
            b == (timer_id == self.submit_timer()),
    {
        timer_id == self.current_submit_timer_id
    }

    /// Whether `timer_id` is one of the armed force timers of the announcements.
    pub fn is_force_timer(&self, timer_id: usize) -> (b: bool)
        requires
            self.wf(),
        ensures
            b == self.dds().timers().contains_key(timer_id),
    {
        self.dds.is_my_timer(timer_id)
    }

    /// Records `timer_id` as the force timer of the announcement of `cmd_id`.
    pub fn force_timer_armed(&mut self, timer_id: usize, cmd_id: CmdId)
        requires
            old(self).wf(),
        ensures
            final(self).wf(),
            final(self).dds().timers() == old(self).dds().timers().insert(timer_id, cmd_id),
            final(self).dds().pending() == old(self).dds().pending(),
            final(self).dds().cmd_log() == old(self).dds().cmd_log(),
            final(self).dds().quorum_system() == old(self).dds().quorum_system(),
            final(self).slow_path() == old(self).slow_path(),
            final(self).spec_submitted() == old(self).spec_submitted(),
            final(self).submit_timer() == old(self).submit_timer(),
    {
        self.dds.register_force_timer(timer_id, cmd_id);
    }

    /// Acts on a settled announcement (see `decides`).
    fn handle_announce_status(&mut self, status: &AnnounceStatus, pool: &Vec<Pid>) -> (decision: Option<Decision>)
        requires
            old(self).wf(),
            status matches AnnounceStatus::QuorumReady(r) ==> r.quorum@.len() > 0,
        ensures
            final(self).wf(),
            final(self).dds() == old(self).dds(),
            final(self).spec_submitted() == old(self).spec_submitted(),
            final(self).spec_submit_limit() == old(self).spec_submit_limit(),
            final(self).interval() == old(self).interval(),
            final(self).keys() == old(self).keys(),
            final(self).submit_timer() == old(self).submit_timer(),
            final(self).tracking() == old(self).tracking(),
            decides(old(self).slow_path(), final(self).slow_path(), status, pool@, decision),
    {
        match status {
            AnnounceStatus::DoNothing => None,
            AnnounceStatus::QuorumReady(r) => {
                let cmd_id = r.quorum[0].id;
                let deps = union_deps(&r.quorum);
                if r.allow_fastpath {
                    Some(Decision::Decide(Commit { cmd_id, deps }))
                } else {
                    let (to, msg) = self.quorum.propose(cmd_id, deps, pool);
                    Some(Decision::Propose(to, msg))
                }
            },
        }
    }

    /// Handles the announcement message `message` from `from` at `now` on process
    /// `self_pid`, the pool being `pool`: the dependency discovery handles it (see
    /// `DDS::handles`), and settled reports lead to a decision (see `decides`).
    pub fn on_announce(&mut self, from: Pid, message: &Announce, self_pid: Pid, now: usize, pool: &Vec<Pid>) -> (out: (Handled, Option<Decision>))
        requires
            old(self).wf(),
            old(self).dds().cmd_log().not_after(now),
        ensures
            final(self).wf(),
            final(self).dds().cmd_log().not_after(now),
            DDS::handles(old(self).dds(), final(self).dds(), from, *message, self_pid, now, out.0),
            decides(old(self).slow_path(), final(self).slow_path(), &out.0.status, pool@, out.1),
            final(self).spec_submitted() == old(self).spec_submitted(),
            final(self).submit_timer() == old(self).submit_timer(),
    {
        let h = self.dds.on_message(from, message, self_pid, now);
        proof {
            if h.status is QuorumReady {
                let r = h.status->0;
                assert(res_views(r.quorum@).len() == r.quorum@.len());
            }
        }
        let decision = self.handle_announce_status(&h.status, pool);
        (h, decision)
    }

    /// Handles the armed force timer `timer_id`, the pool being `pool`: the dependency
    /// discovery handles it (see `DDS::fires`), and settled reports lead to a decision
    /// (see `decides`).
    pub fn on_force_timer(&mut self, timer_id: usize, pool: &Vec<Pid>) -> (out: (AnnounceStatus, Option<Decision>))
        requires
            old(self).wf(),
            old(self).dds().timers().contains_key(timer_id),
        ensures
            final(self).wf(),
            DDS::fires(old(self).dds(), final(self).dds(), timer_id, out.0),
            decides(old(self).slow_path(), final(self).slow_path(), &out.0, pool@, out.1),
            final(self).spec_submitted() == old(self).spec_submitted(),
            final(self).submit_timer() == old(self).submit_timer(),
    {
        let status = self.dds.on_timer(timer_id);
        proof {
            if status is QuorumReady {
                let r = status->0;
                let q = res_views(r.quorum@);
                if r.quorum@.len() == 0 {
                    assert(q.map_values(|v: ResView| v.pid) =~= Seq::<Pid>::empty());
                }
            }
        }
        let decision = self.handle_announce_status(&status, pool);
        (status, decision)
    }

    /// Handles the slow-path message `message` from `from` (see `SlowPath::answers`):
    /// gives the reply to send, and the decision to broadcast once the command is
    /// decided.
    pub fn on_quorum_message(&mut self, from: Pid, message: &QuorumMsg) -> (out: (QuorumStatus, Option<(Pid, QuorumMsg)>))
        requires
            old(self).wf(),
        ensures
            final(self).wf(),
            SlowPath::answers(old(self).slow_path(), final(self).slow_path(), from, message, out),
            final(self).dds() == old(self).dds(),
            final(self).spec_submitted() == old(self).spec_submitted(),
            final(self).submit_timer() == old(self).submit_timer(),
    {
        self.quorum.on_message(from, message)
    }

    /// Handles the armed submit timer at `now` on process `self_pid`, with `unique_id`
    /// the number the simulation hands out for the new command: a command on a random
    /// key is created and announced (see `DDS::announces`), and while the limit is not
    /// reached the delay of the next submit timer is drawn.
    pub fn on_submit_timer(&mut self, self_pid: Pid, unique_id: usize, now: usize) -> (out: SubmitOut)
        requires
            old(self).wf(),
            old(self).spec_submitted() < old(self).spec_submit_limit(),
        ensures
            final(self).wf(),
            out.cmd.id == (CmdId { pid: self_pid, id: unique_id }),
            out.cmd.key < old(self).keys(),
            DDS::announces(old(self).dds(), final(self).dds(), out.cmd, now, out.announce),
            final(self).slow_path() == old(self).slow_path(),
            final(self).spec_submitted() == old(self).spec_submitted() + 1,
            final(self).spec_submit_limit() == old(self).spec_submit_limit(),
            final(self).submit_timer() == old(self).submit_timer(),
            out.next_delay is Some <==> final(self).spec_submitted() < final(self).spec_submit_limit(),
            out.next_delay matches Some(d) ==> old(self).interval() / 2 <= d <= old(self).interval(),
    {
        let cmd = create_cmd(&mut self.rng, self.key_count, self_pid, unique_id);
        let announce = self.dds.announce(cmd, now);
        self.submitted = self.submitted + 1;
        let next_delay = if self.submitted < self.submit_limit {
            Some(self.submit_delay())
        } else {
            None
        };
        SubmitOut { cmd, announce, next_delay }
    }
}

} // verus!
