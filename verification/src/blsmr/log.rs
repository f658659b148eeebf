use vstd::prelude::*;

use crate::client::{cmd_id_lt, CmdId, Command, Pid};
use crate::ordering::{sort_dedup_ids, strictly_sorted};
use crate::cmd_map::{copy_ids, insert_pid, lemma_with_pid_distinct, with_pid, CmdMap};

verus! {

/// What the conflict statistics know of a command that has arrived and is not yet
/// executed everywhere: its key and the replicas that have executed it.
pub struct TrackedView {
    pub key: usize,
    pub executors: Seq<Pid>,
}

struct TrackedCommand {
    key: usize,
    executors: Vec<Pid>,
}

impl TrackedCommand {
    spec fn view(&self) -> TrackedView {
        TrackedView { key: self.key, executors: self.executors@ }
    }
}

/// Run-wide statistics of the leaderless protocols: how many executed commands found
/// a conflicting command still in flight, and how many decisions took the fast path.
pub struct ConflictTracker {
    replica_count: usize,
    commands: CmdMap<TrackedCommand>,
    conflicting_commands: usize,
    executed_commands: usize,
    fast_paths: usize,
    paths: usize,
}

/// A command other than `cmd_id` on `key` is still in flight: it has arrived and not
/// every replica has executed it yet.
pub open spec fn in_flight_conflict(
    commands: Map<CmdId, TrackedView>,
    replica_count: usize,
    cmd_id: CmdId,
    key: usize,
) -> bool {
    exists|other: CmdId|
        #![trigger commands[other]]
        commands.contains_key(other) && other != cmd_id && commands[other].key == key
            && commands[other].executors.len() < replica_count
}

/// This is the first execution of `cmd_id` anywhere.
pub open spec fn first_execution(commands: Map<CmdId, TrackedView>, cmd_id: CmdId) -> bool {
    !commands.contains_key(cmd_id) || commands[cmd_id].executors.len() == 0
}

impl ConflictTracker {
    /// Number of replicas that execute each command.
    pub closed spec fn replicas(&self) -> usize {
        self.replica_count
    }

    /// Commands that have arrived and are not yet executed by every replica.
    pub closed spec fn in_flight(&self) -> Map<CmdId, TrackedView> {
        self.commands@.map_values(|c: TrackedCommand| c.view())
    }

    /// Commands executed at least once.
    pub closed spec fn executed(&self) -> nat {
        self.executed_commands as nat
    }

    /// Commands that, at their first execution, found a conflicting command in flight.
    pub closed spec fn conflicting(&self) -> nat {
        self.conflicting_commands as nat
    }

    /// Decisions that took the fast path.
    pub closed spec fn fast(&self) -> nat {
        self.fast_paths as nat
    }

    /// All decisions.
    pub closed spec fn decisions(&self) -> nat {
        self.paths as nat
    }

    /// The map is well formed, every such command's executors are distinct, and no
    /// more commands conflicted than were executed, nor took the fast path than decided.
    pub closed spec fn wf(&self) -> bool {
        &&& self.commands.wf()
        &&& forall|k: CmdId| #[trigger] self.commands@.contains_key(k)
            ==> self.commands@[k].executors@.no_duplicates()
        &&& self.conflicting_commands <= self.executed_commands
        &&& self.fast_paths <= self.paths
    }

    /// No more commands conflicted than were executed, and no more decisions took the
    /// fast path than were made: the conflict rate and the fast-path rate are at most
    /// one whole.
    pub proof fn lemma_counts_bounded(&self)
        requires
            self.wf(),
        ensures
            self.conflicting() <= self.executed(),
            self.fast() <= self.decisions(),
    {
    }

    /// Statistics for a run with `replica_count` replicas, with nothing recorded yet.
    pub fn new(replica_count: usize) -> (t: Self)
        ensures
            t.wf(),
            t.replicas() == replica_count,
            t.in_flight() == Map::<CmdId, TrackedView>::empty(),
            t.executed() == 0,
            t.conflicting() == 0,
            t.fast() == 0,
            t.decisions() == 0,
    {
        let t = ConflictTracker {
            replica_count,
            commands: CmdMap::new(),
            conflicting_commands: 0,
            executed_commands: 0,
            fast_paths: 0,
            paths: 0,
        };
        assert(t.in_flight() =~= Map::<CmdId, TrackedView>::empty());
        t
    }

    /// Notes that `cmd_id`, on `key`, has arrived (once; later arrivals change nothing).
    pub fn record_arrival(&mut self, cmd_id: CmdId, key: usize)
        requires
            old(self).wf(),
        ensures
            final(self).wf(),
            final(self).replicas() == old(self).replicas(),
            final(self).executed() == old(self).executed(),
            final(self).conflicting() == old(self).conflicting(),
            final(self).fast() == old(self).fast(),
            final(self).decisions() == old(self).decisions(),
            final(self).in_flight() == if old(self).in_flight().contains_key(cmd_id) {
                old(self).in_flight()
            } else {
                old(self).in_flight().insert(cmd_id, TrackedView { key, executors: Seq::empty() })
            },
    {
        if !self.commands.contains_key(&cmd_id) {
            self.commands.insert(cmd_id, TrackedCommand { key, executors: Vec::new() });
            assert(self.in_flight() =~= old(self).in_flight().insert(
                cmd_id,
                TrackedView { key, executors: Seq::empty() },
            ));
        }
    }

    fn conflict_in_flight(&self, cmd_id: CmdId, key: usize) -> (r: bool)
        requires
            self.wf(),
        ensures
            r == in_flight_conflict(self.in_flight(), self.replica_count, cmd_id, key),
    {
        proof {
            self.commands.lemma_key_seq();
        }
        let n = self.commands.len();
        let mut i: usize = 0;
        while i < n
            invariant
                self.wf(),
                n == self.commands.key_seq().len(),
                i <= n,
                forall|j: int| 0 <= j < i ==> {
                    let k = #[trigger] self.commands.key_seq()[j];
                    !(k != cmd_id && self.in_flight()[k].key == key
                        && self.in_flight()[k].executors.len() < self.replica_count)
                },
            decreases n - i,
        {
            let k = self.commands.key_at(i);
            proof {
                self.commands.lemma_key_seq();
                assert(self.commands.key_seq().contains(k));
            }
            match self.commands.get(&k) {
                Some(c) => {
                    if k != cmd_id && c.key == key && c.executors.len() < self.replica_count {
                        assert(self.in_flight().contains_key(k));
                        assert(self.in_flight()[k] == c.view());
                        return true;
                    }
                },
                None => {},
            }
            i = i + 1;
        }
        proof {
            self.commands.lemma_key_seq();
            assert forall|other: CmdId| #![trigger self.in_flight()[other]]
                self.in_flight().contains_key(other) implies !(other != cmd_id
                && self.in_flight()[other].key == key && self.in_flight()[other].executors.len()
                < self.replica_count) by {
                assert(self.commands.key_seq().contains(other));
                let j = choose|j: int| 0 <= j < self.commands.key_seq().len()
                    && self.commands.key_seq()[j] == other;
            }
        }
        false
    }

    /// Notes that replica `pid` executed `cmd_id`, on `key`. The first execution of a
    /// command anywhere counts it as executed, and as conflicting when another command on
    /// the same key is still in flight. A command every replica executed is forgotten.
    pub fn record_execution(&mut self, pid: Pid, cmd_id: CmdId, key: usize)
        requires
            old(self).wf(),
            old(self).executed() < usize::MAX,
        ensures
            final(self).wf(),
            final(self).replicas() == old(self).replicas(),
            final(self).fast() == old(self).fast(),
            final(self).decisions() == old(self).decisions(),
            ({
                let pre = old(self).in_flight();
                let first = first_execution(pre, cmd_id);
                let conflict = in_flight_conflict(pre, old(self).replicas(), cmd_id, key);
                let entry = if pre.contains_key(cmd_id) {
                    pre[cmd_id]
                } else {
                    TrackedView { key, executors: Seq::empty() }
                };
                let executors = with_pid(entry.executors, pid);
                &&& final(self).executed() == old(self).executed() + if first { 1nat } else { 0nat }
                &&& final(self).conflicting() == old(self).conflicting() + if first && conflict {
                    1nat
                } else {
                    0nat
                }
                &&& final(self).in_flight() == if executors.len() == old(self).replicas() {
                    pre.remove(cmd_id)
                } else {
                    pre.insert(cmd_id, TrackedView { key: entry.key, executors })
                }
            }),
    {
        let first = match self.commands.get(&cmd_id) {
            None => true,
            Some(c) => c.executors.len() == 0,
        };
        if first {
            let conflict = self.conflict_in_flight(cmd_id, key);
            self.executed_commands = self.executed_commands + 1;
            if conflict {
                self.conflicting_commands = self.conflicting_commands + 1;
            }
        }
        let mut command = match self.commands.remove(&cmd_id) {
            Some(c) => c,
            None => TrackedCommand { key, executors: Vec::new() },
        };
        proof {
            lemma_with_pid_distinct(command.executors@, pid);
        }
        insert_pid(&mut command.executors, pid);
        if command.executors.len() == self.replica_count {
            assert(self.in_flight() =~= old(self).in_flight().remove(cmd_id));
        } else {
            let ghost cv = command.view();
            self.commands.insert(cmd_id, command);
            assert(self.in_flight() =~= old(self).in_flight().insert(cmd_id, cv));
        }
    }

    /// Notes one decision, on the fast path or not.
    pub fn record_fast_path(&mut self, fast: bool)
        requires
            old(self).wf(),
            old(self).decisions() < usize::MAX,
        ensures
            final(self).wf(),
            final(self).replicas() == old(self).replicas(),
            final(self).in_flight() == old(self).in_flight(),
            final(self).executed() == old(self).executed(),
            final(self).conflicting() == old(self).conflicting(),
            final(self).fast() == old(self).fast() + if fast { 1nat } else { 0nat },
            final(self).decisions() == old(self).decisions() + 1,
    {
        if fast {
            self.fast_paths = self.fast_paths + 1;
        }
        self.paths = self.paths + 1;
    }

    /// Commands executed at least once.
    pub fn executed_commands(&self) -> (n: usize)
        ensures
            n == self.executed(),
    {
        self.executed_commands
    }

    /// Commands that found a conflicting command in flight at their first execution.
    pub fn conflicting_commands(&self) -> (n: usize)
        ensures
            n == self.conflicting(),
    {
        self.conflicting_commands
    }

    /// Decisions that took the fast path.
    pub fn fast_paths(&self) -> (n: usize)
        ensures
            n == self.fast(),
    {
        self.fast_paths
    }

    /// All decisions.
    pub fn paths(&self) -> (n: usize)
        ensures
            n == self.decisions(),
    {
        self.paths
    }
}


/// Where a command is in the log.
#[derive(Clone, Copy, PartialEq, Eq, Debug, Structural)]
pub enum Phase {
    Pending,
    Commit,
    Stable,
}

/// One command becoming stable: its identity, how long it took since it was
/// submitted, whether this process created it, and the commands executed as a result.
pub struct StableStep {
    pub cmd_id: CmdId,
    pub latency: usize,
    pub own: bool,
    pub executed: Vec<Command>,
}

/// `st` reports its command with the latency since the entry in `pre` was submitted,
/// says whether `pid` created it, and executes only commands that had an unexecuted
/// entry in `pre` holding them.
pub open spec fn step_reported(st: StableStep, pre: Map<CmdId, EntryView>, now: usize, pid: Pid) -> bool {
    &&& st.latency == now - pre[st.cmd_id].submitted_at
    &&& st.own == (st.cmd_id.pid == pid)
    &&& forall|c: Command| st.executed@.contains(c) ==> pre.contains_key(c.id)
        && !pre[c.id].executed && pre[c.id].cmd == Some(c)
}

/// The entry `e` with its executed flag set to `executed`.
pub open spec fn with_executed(e: EntryView, executed: bool) -> EntryView {
    EntryView { executed, ..e }
}

/// A log entry as plain values.
pub struct EntryView {
    pub cmd: Option<Command>,
    pub submitted_at: usize,
    pub deps: Seq<CmdId>,
    pub phase: Phase,
    pub executed: bool,
}

struct Entry {
    cmd: Option<Command>,
    submitted_at: usize,
    deps: Vec<CmdId>,
    phase: Phase,
    executed: bool,
}

impl Entry {
    spec fn view(&self) -> EntryView {
        EntryView {
            cmd: self.cmd,
            submitted_at: self.submitted_at,
            deps: self.deps@,
            phase: self.phase,
            executed: self.executed,
        }
    }
}


/// The lists of `ss`, one after another.
pub open spec fn flatten_ids(ss: Seq<Seq<CmdId>>) -> Seq<CmdId>
    decreases ss.len(),
{
    if ss.len() == 0 {
        Seq::empty()
    } else {
        flatten_ids(ss.drop_last()) + ss.last()
    }
}

/// Search state of Tarjan's algorithm over the dependency graph.
struct TarjanState {
    index: CmdMap<usize>,
    low_link: CmdMap<usize>,
    on_stack: CmdMap<()>,
    stack: Vec<CmdId>,
    counter: usize,
    sccs: Vec<Vec<CmdId>>,
}

impl TarjanState {
    spec fn components(&self) -> Seq<Seq<CmdId>> {
        self.sccs@.map_values(|c: Vec<CmdId>| c@)
    }

    spec fn visited(&self) -> Set<CmdId> {
        self.index@.dom()
    }

    /// Every visited node is either on the stack or in exactly one finished component;
    /// `low_link` is below `index`; nodes indexed from `floor` on keep their low links
    /// at or above `floor`, and so do the nodes on the stack.
    spec fn inv(&self, nodes: Set<CmdId>, floor: int) -> bool {
        &&& self.index.wf()
        &&& self.low_link.wf()
        &&& self.on_stack.wf()
        &&& self.stack@.no_duplicates()
        &&& self.on_stack@.dom() == self.stack@.to_set()
        &&& flatten_ids(self.components()).no_duplicates()
        &&& forall|x: CmdId| self.stack@.contains(x) ==> !flatten_ids(self.components()).contains(x)
        &&& self.visited() == self.stack@.to_set() + flatten_ids(self.components()).to_set()
        &&& self.low_link@.dom() == self.visited()
        &&& self.visited().subset_of(nodes)
        &&& self.visited().finite()
        &&& self.counter == self.visited().len()
        &&& forall|x: CmdId| #[trigger] self.index@.contains_key(x) ==> self.index@[x] < self.counter
        &&& forall|x: CmdId| #[trigger] self.index@.contains_key(x) ==> self.low_link@[x] <= self.index@[x]
        &&& forall|x: CmdId| self.stack@.contains(x) ==> #[trigger] self.index@[x] >= floor
        &&& forall|x: CmdId| #[trigger] self.index@.contains_key(x) && self.index@[x] >= floor ==> self.low_link@[x] >= floor
        &&& forall|i: int| 0 <= i < self.components().len() ==> #[trigger] self.components()[i].len() > 0
    }
}

proof fn lemma_push_to_set(s: Seq<CmdId>, x: CmdId)
    ensures
        s.push(x).to_set() == s.to_set().insert(x),
{
    assert forall|y: CmdId| s.push(x).contains(y) <==> s.to_set().insert(x).contains(y) by {
        if s.push(x).contains(y) && y != x {
            let i = choose|i: int| 0 <= i < s.push(x).len() && s.push(x)[i] == y;
            assert(s[i] == y);
        }
        if s.contains(y) {
            let i = choose|i: int| 0 <= i < s.len() && s[i] == y;
            assert(s.push(x)[i] == y);
        }
        if y == x {
            assert(s.push(x)[s.len() as int] == x);
        }
    }
    assert(s.push(x).to_set() =~= s.to_set().insert(x));
}

proof fn lemma_flatten_push(ss: Seq<Seq<CmdId>>, t: Seq<CmdId>)
    ensures
        flatten_ids(ss.push(t)) == flatten_ids(ss) + t,
{
    assert(ss.push(t).drop_last() =~= ss);
}

/// `x` occurs in `ss` flattened exactly when it occurs in one of the lists of `ss`.
proof fn lemma_flatten_contains(ss: Seq<Seq<CmdId>>, x: CmdId)
    ensures
        flatten_ids(ss).contains(x) <==> exists|i: int| 0 <= i < ss.len() && #[trigger] ss[i].contains(x),
    decreases ss.len(),
{
    if ss.len() > 0 {
        let init = ss.drop_last();
        let t = ss.last();
        lemma_flatten_contains(init, x);
        let f0 = flatten_ids(init);
        assert(flatten_ids(ss) == f0 + t);
        if flatten_ids(ss).contains(x) {
            let k = choose|k: int| 0 <= k < (f0 + t).len() && (f0 + t)[k] == x;
            if k < f0.len() {
                assert(f0[k] == x);
                let i = choose|i: int| 0 <= i < init.len() && #[trigger] init[i].contains(x);
                assert(ss[i] == init[i]);
            } else {
                assert(t[k - f0.len()] == x);
                assert(ss[ss.len() - 1].contains(x));
            }
        }
        if exists|i: int| 0 <= i < ss.len() && #[trigger] ss[i].contains(x) {
            let i = choose|i: int| 0 <= i < ss.len() && #[trigger] ss[i].contains(x);
            if i < ss.len() - 1 {
                assert(init[i] == ss[i]);
                assert(f0.contains(x));
                let k = choose|k: int| 0 <= k < f0.len() && f0[k] == x;
                assert((f0 + t)[k] == x);
            } else {
                let k = choose|k: int| 0 <= k < t.len() && t[k] == x;
                assert((f0 + t)[f0.len() + k] == x);
            }
        }
    }
}

/// A command occurs in at most one list of `ss` when `ss` flattened has no duplicates.
proof fn lemma_flatten_unique(ss: Seq<Seq<CmdId>>, a: int, b: int, x: CmdId)
    requires
        flatten_ids(ss).no_duplicates(),
        0 <= a < ss.len(),
        0 <= b < ss.len(),
        ss[a].contains(x),
        ss[b].contains(x),
    ensures
        a == b,
    decreases ss.len(),
{
    let init = ss.drop_last();
    let t = ss.last();
    let f0 = flatten_ids(init);
    assert(flatten_ids(ss) == f0 + t);
    assert(f0.no_duplicates()) by {
        assert forall|i: int, j: int| 0 <= i < f0.len() && 0 <= j < f0.len() && i != j implies f0[i] != f0[j] by {
            assert((f0 + t)[i] == f0[i] && (f0 + t)[j] == f0[j]);
        }
    }
    if a < ss.len() - 1 && b < ss.len() - 1 {
        assert(init[a] == ss[a] && init[b] == ss[b]);
        lemma_flatten_unique(init, a, b, x);
    } else if a != b {
        let (lo, hi) = if a < b { (a, b) } else { (b, a) };
        assert(hi == ss.len() - 1);
        assert(init[lo] == ss[lo]);
        lemma_flatten_contains(init, x);
        let i = choose|i: int| 0 <= i < f0.len() && f0[i] == x;
        let k = choose|k: int| 0 <= k < t.len() && t[k] == x;
        assert((f0 + t)[i] == x);
        assert((f0 + t)[f0.len() + k] == x);
    }
}

/// The per-process command log of the leaderless protocols: commands are submitted
/// (and reported with their conflicts), committed with agreed dependencies, promoted to
/// stable once every transitive dependency is committed, and then executed.
pub struct CmdLog {
    entries: CmdMap<Entry>,
    stable: CmdMap<()>,
    submitted: Vec<CmdId>,
}

impl CmdLog {
    /// The entries not yet stable, by command.
    pub closed spec fn entries(&self) -> Map<CmdId, EntryView> {
        self.entries@.map_values(|e: Entry| e.view())
    }

    /// The commands already promoted to stable.
    pub closed spec fn stable(&self) -> Set<CmdId> {
        self.stable@.dom()
    }

    /// The commands submitted here, in the order in which their command first arrived.
    pub closed spec fn submission_order(&self) -> Seq<CmdId> {
        self.submitted@
    }

    /// The maps are well formed and an entry's command carries the entry's identity.
    pub closed spec fn wf(&self) -> bool {
        &&& self.entries.wf()
        &&& self.stable.wf()
        &&& forall|k: CmdId| #[trigger] self.entries@.contains_key(k) ==> match self.entries@[k].cmd {
            Some(c) => c.id == k,
            None => true,
        }
        &&& self.submitted@.no_duplicates()
        &&& forall|i: int| 0 <= i < self.submitted@.len() ==> self.stable@.contains_key(#[trigger] self.submitted@[i])
            || (self.entries@.contains_key(self.submitted@[i]) && self.entries@[self.submitted@[i]].cmd is Some)
        &&& forall|k: CmdId| #[trigger] self.entries@.contains_key(k) && self.entries@[k].cmd is Some ==> self.submitted@.contains(k)
    }

    /// No entry was submitted after `now`.
    pub open spec fn not_after(&self, now: usize) -> bool {
        forall|k: CmdId| #[trigger] self.entries().contains_key(k) ==> self.entries()[k].submitted_at <= now
    }

    /// `k` has an entry in phase Commit or Stable.
    pub open spec fn committed_entry(&self, k: CmdId) -> bool {
        self.entries().contains_key(k) && (self.entries()[k].phase == Phase::Commit
            || self.entries()[k].phase == Phase::Stable)
    }

    /// `k` is stable or committed.
    pub open spec fn is_committed(&self, k: CmdId) -> bool {
        self.stable().contains(k) || self.committed_entry(k)
    }

    /// The dependencies of `k` are followed when checking a closure: `k` is committed
    /// and not already stable.
    pub open spec fn expands(&self, k: CmdId) -> bool {
        !self.stable().contains(k) && self.committed_entry(k)
    }

    /// `p` is a dependency path from `start`: it begins at one of `start` and each step
    /// goes from an expanded command to one of its dependencies.
    pub open spec fn dep_path(&self, start: Seq<CmdId>, p: Seq<CmdId>) -> bool {
        &&& p.len() >= 1
        &&& start.contains(p[0])
        &&& forall|i: int| 0 <= i < p.len() - 1 ==> #[trigger] self.expands(p[i])
            && self.entries()[p[i]].deps.contains(p[i + 1])
    }

    /// `k` can be reached from `start` along dependency paths.
    pub open spec fn reaches(&self, start: Seq<CmdId>, k: CmdId) -> bool {
        exists|p: Seq<CmdId>| #[trigger] self.dep_path(start, p) && p.last() == k
    }

    /// Every command reachable from `start` is committed.
    pub open spec fn closure_committed(&self, start: Seq<CmdId>) -> bool {
        forall|k: CmdId| #[trigger] self.reaches(start, k) ==> self.is_committed(k)
    }

    /// An empty log.
    pub fn new() -> (log: Self)
        ensures
            log.wf(),
            log.entries() == Map::<CmdId, EntryView>::empty(),
            log.stable() == Set::<CmdId>::empty(),
    {
        let log = CmdLog { entries: CmdMap::new(), stable: CmdMap::new(), submitted: Vec::new() };
        assert(log.entries() =~= Map::<CmdId, EntryView>::empty());
        assert(log.stable() =~= Set::<CmdId>::empty());
        log
    }

    /// Notes, at time `now`, that `cmd_id` was created here, unless it has an entry.
    pub fn record_creation(&mut self, cmd_id: CmdId, now: usize)
        requires
            old(self).wf(),
        ensures
            final(self).submission_order() == old(self).submission_order(),
            final(self).wf(),
            final(self).stable() == old(self).stable(),
            final(self).entries() == if old(self).entries().contains_key(cmd_id) {
                old(self).entries()
            } else {
                old(self).entries().insert(cmd_id, EntryView {
                    cmd: None,
                    submitted_at: now,
                    deps: Seq::empty(),
                    phase: Phase::Pending,
                    executed: false,
                })
            },
    {
        if !self.entries.contains_key(&cmd_id) {
            let e = Entry { cmd: None, submitted_at: now, deps: Vec::new(), phase: Phase::Pending, executed: false };
            let ghost ev = e.view();
            self.entries.insert(cmd_id, e);
            assert(self.entries() =~= old(self).entries().insert(cmd_id, ev));
        }
    }

    /// The commands of the log that conflict with a command on `key`: those with an
    /// entry holding a command on `key` that is not stable.
    pub open spec fn conflicts(&self, key: usize) -> Set<CmdId> {
        Set::new(|k: CmdId| self.entries().contains_key(k) && self.entries()[k].phase != Phase::Stable
            && (self.entries()[k].cmd matches Some(c) && c.key == key))
    }

    /// The commands of the log that conflict with a command on `key`, in the order in
    /// which they were submitted.
    pub open spec fn conflicts_in_order(&self, key: usize) -> Seq<CmdId> {
        self.submission_order().filter(|k: CmdId| self.conflicts(key).contains(k))
    }

    fn conflicting_ids(&self, key: usize) -> (ids: Vec<CmdId>)
        requires
            self.wf(),
        ensures
            ids@ == self.conflicts_in_order(key),
            ids@.no_duplicates(),
            ids@.to_set() == self.conflicts(key),
    {
        let ghost pred = |k: CmdId| self.conflicts(key).contains(k);
        let ghost sub = self.submitted@;
        let mut ids: Vec<CmdId> = Vec::new();
        let mut i: usize = 0;
        proof {
            reveal(Seq::filter);
            assert(sub.take(0) =~= Seq::<CmdId>::empty());
        }
        while i < self.submitted.len()
            invariant
                self.wf(),
                sub == self.submitted@,
                pred == (|k: CmdId| self.conflicts(key).contains(k)),
                i <= sub.len(),
                ids@ == sub.take(i as int).filter(pred),
                ids@.no_duplicates(),
                forall|a: int| 0 <= a < i ==> (self.conflicts(key).contains(#[trigger] sub[a]) <==> ids@.contains(sub[a])),
                forall|j: int| 0 <= j < ids@.len() ==> exists|a: int| 0 <= a < i && #[trigger] ids@[j] == sub[a],
            decreases sub.len() - i,
        {
            let k = self.submitted[i];
            let hit = match self.entries.get(&k) {
                Some(e) => match e.cmd {
                    Some(c) => c.key == key && e.phase != Phase::Stable,
                    None => false,
                },
                None => false,
            };
            proof {
                assert(hit == self.conflicts(key).contains(k)) by {
                    if self.entries@.contains_key(k) {
                        assert(self.entries()[k] == self.entries@[k].view());
                    }
                }
                reveal(Seq::filter);
                assert(sub.take(i + 1).drop_last() =~= sub.take(i as int));
                assert(sub.take(i + 1).last() == k);
            }
            if hit {
                let ghost prev = ids@;
                proof {
                    assert forall|j: int| 0 <= j < prev.len() implies prev[j] != k by {
                        let a = choose|a: int| 0 <= a < i && #[trigger] prev[j] == sub[a];
                        assert(sub[a] != sub[i as int]);
                    }
                }
                ids.push(k);
                proof {
                    assert forall|j: int| 0 <= j < ids@.len() implies exists|a: int| 0 <= a < i + 1 && #[trigger] ids@[j] == sub[a] by {
                        if j == prev.len() {
                            assert(ids@[j] == sub[i as int]);
                        } else {
                            assert(ids@[j] == prev[j]);
                            let a = choose|a: int| 0 <= a < i && #[trigger] prev[j] == sub[a];
                        }
                    }
                    assert forall|a: int| 0 <= a < i + 1 implies (self.conflicts(key).contains(#[trigger] sub[a]) <==> ids@.contains(sub[a])) by {
                        if a < i {
                            assert(sub[a] != k);
                            if prev.contains(sub[a]) {
                                let w = choose|w: int| 0 <= w < prev.len() && prev[w] == sub[a];
                                assert(ids@[w] == sub[a]);
                            }
                            if ids@.contains(sub[a]) {
                                let w = choose|w: int| 0 <= w < ids@.len() && ids@[w] == sub[a];
                                assert(prev[w] == sub[a]);
                            }
                        } else {
                            assert(ids@[prev.len() as int] == k);
                        }
                    }
                }
            } else {
                proof {
                    assert forall|a: int| 0 <= a < i + 1 implies (self.conflicts(key).contains(#[trigger] sub[a]) <==> ids@.contains(sub[a])) by {
                        if a == i && ids@.contains(sub[a]) {
                            let w = choose|w: int| 0 <= w < ids@.len() && ids@[w] == sub[a];
                            let b = choose|b: int| 0 <= b < i && #[trigger] ids@[w] == sub[b];
                            assert(sub[b] != sub[a]);
                        }
                    }
                }
            }
            i = i + 1;
        }
        proof {
            assert(sub.take(sub.len() as int) =~= sub);
            assert forall|k: CmdId| ids@.to_set().contains(k) <==> self.conflicts(key).contains(k) by {
                if self.conflicts(key).contains(k) {
                    assert(self.entries@.contains_key(k) && self.entries()[k] == self.entries@[k].view());
                    assert(sub.contains(k));
                    let a = choose|a: int| 0 <= a < sub.len() && sub[a] == k;
                }
                if ids@.contains(k) {
                    let w = choose|w: int| 0 <= w < ids@.len() && ids@[w] == k;
                    let a = choose|a: int| 0 <= a < sub.len() && #[trigger] ids@[w] == sub[a];
                }
            }
            assert(ids@.to_set() =~= self.conflicts(key));
        }
        ids
    }

    /// What submitting `cmd` at `now` does from `pre` to `post`, reporting `conflicts`.
    /// A command that is already stable is ignored (no conflicts). Otherwise the
    /// conflicts are those of its key, and its entry is created if needed and
    /// remembers the command.
    pub open spec fn submits(pre: CmdLog, post: CmdLog, cmd: Command, now: usize, conflicts: Seq<CmdId>) -> bool {
        &&& post.stable() == pre.stable()
        &&& conflicts.no_duplicates()
        &&& pre.stable().contains(cmd.id) ==> {
            &&& conflicts.len() == 0
            &&& post.entries() == pre.entries()
        }
        &&& pre.stable().contains(cmd.id) ==> post.submission_order() == pre.submission_order()
        &&& !pre.stable().contains(cmd.id) ==> {
            &&& conflicts == pre.conflicts_in_order(cmd.key)
            &&& conflicts.to_set() == pre.conflicts(cmd.key)
            &&& post.submission_order() == if !pre.entries().contains_key(cmd.id) || pre.entries()[cmd.id].cmd is None {
                pre.submission_order().push(cmd.id)
            } else {
                pre.submission_order()
            }
            &&& post.entries() == if !pre.entries().contains_key(cmd.id) {
                pre.entries().insert(cmd.id, EntryView {
                    cmd: Some(cmd),
                    submitted_at: now,
                    deps: Seq::empty(),
                    phase: Phase::Pending,
                    executed: false,
                })
            } else if pre.entries()[cmd.id].cmd is None {
                pre.entries().insert(cmd.id, EntryView { cmd: Some(cmd), ..pre.entries()[cmd.id] })
            } else {
                pre.entries()
            }
        }
    }

    /// Submits `cmd` at time `now` and reports the commands it conflicts with.
    pub fn submit(&mut self, cmd: Command, now: usize) -> (conflicts: Vec<CmdId>)
        requires
            old(self).wf(),
        ensures
            final(self).wf(),
            CmdLog::submits(*old(self), *final(self), cmd, now, conflicts@),
    {
        if self.stable.contains_key(&cmd.id) {
            return Vec::new();
        }
        let conflicts = self.conflicting_ids(cmd.key);
        proof {
            if self.submitted@.contains(cmd.id) {
                let i = choose|i: int| 0 <= i < self.submitted@.len() && self.submitted@[i] == cmd.id;
                assert(self.entries@.contains_key(self.submitted@[i]) && self.entries@[cmd.id].cmd is Some);
            }
        }
        match self.entries.remove(&cmd.id) {
            None => {
                let e = Entry { cmd: Some(cmd), submitted_at: now, deps: Vec::new(), phase: Phase::Pending, executed: false };
                let ghost ev = e.view();
                self.entries.insert(cmd.id, e);
                self.submitted.push(cmd.id);
                assert(self.entries() =~= old(self).entries().insert(cmd.id, ev));
            },
            Some(mut e) => {
                if e.cmd.is_none() {
                    e.cmd = Some(cmd);
                    self.submitted.push(cmd.id);
                }
                let ghost ev = e.view();
                self.entries.insert(cmd.id, e);
                assert(self.entries() =~= old(self).entries().insert(cmd.id, ev));
                assert(old(self).entries()[cmd.id].cmd is Some ==> old(self).entries().insert(cmd.id, ev) =~= old(self).entries());
            },
        }
        proof {
            let sub = self.submitted@;
            let osub = old(self).submitted@;
            assert(self.entries@.contains_key(cmd.id) && self.entries@[cmd.id].cmd is Some);
            assert(sub == osub || sub == osub.push(cmd.id));
            assert forall|k: CmdId| #[trigger] self.entries@.contains_key(k) && k != cmd.id implies old(self).entries@.contains_key(k)
                && self.entries@[k] == old(self).entries@[k] by {}
            assert forall|i: int| 0 <= i < sub.len() implies self.stable@.contains_key(#[trigger] sub[i])
                || (self.entries@.contains_key(sub[i]) && self.entries@[sub[i]].cmd is Some) by {
                if i < osub.len() {
                    assert(sub[i] == osub[i]);
                    if osub[i] != cmd.id && !self.stable@.contains_key(osub[i]) {
                        assert(old(self).entries@.contains_key(osub[i]));
                    }
                }
            }
            assert forall|k: CmdId| #[trigger] self.entries@.contains_key(k) && self.entries@[k].cmd is Some implies sub.contains(k) by {
                if k == cmd.id {
                    if sub == osub {
                        assert(old(self).entries@.contains_key(k) && old(self).entries@[k].cmd is Some);
                    } else {
                        assert(sub[osub.len() as int] == k);
                    }
                } else {
                    assert(osub.contains(k));
                    let i = choose|i: int| 0 <= i < osub.len() && osub[i] == k;
                    assert(sub[i] == k);
                }
            }
        }
        conflicts
    }

    /// Commands the log knows of: with an entry or stable.
    pub open spec fn known(&self) -> Set<CmdId> {
        self.entries().dom().union(self.stable())
    }

    proof fn lemma_known_finite(&self)
        requires
            self.wf(),
        ensures
            self.known().finite(),
    {
        self.entries.lemma_key_seq();
        self.stable.lemma_key_seq();
        assert(self.entries().dom() =~= self.entries@.dom());
    }

    proof fn lemma_path_extends(&self, start: Seq<CmdId>, p: Seq<CmdId>, d: CmdId)
        requires
            self.dep_path(start, p),
            self.expands(p.last()),
            self.entries()[p.last()].deps.contains(d),
        ensures
            self.dep_path(start, p.push(d)),
            p.push(d).last() == d,
    {
        let q = p.push(d);
        assert forall|i: int| 0 <= i < q.len() - 1 implies #[trigger] self.expands(q[i])
            && self.entries()[q[i]].deps.contains(q[i + 1]) by {
            if i < p.len() - 1 {
                assert(q[i] == p[i] && q[i + 1] == p[i + 1]);
            } else {
                assert(q[i] == p.last() && q[i + 1] == d);
            }
        }
    }

    proof fn lemma_closed_set_holds_paths(&self, start: Seq<CmdId>, seen: Set<CmdId>, p: Seq<CmdId>, k: int)
        requires
            self.dep_path(start, p),
            0 <= k < p.len(),
            forall|d: CmdId| start.contains(d) ==> seen.contains(d),
            forall|x: CmdId, d: CmdId| seen.contains(x) && self.expands(x) && #[trigger] self.entries()[x].deps.contains(d)
                ==> seen.contains(d),
        ensures
            seen.contains(p[k]),
        decreases k,
    {
        if k > 0 {
            self.lemma_closed_set_holds_paths(start, seen, p, k - 1);
            let i = k - 1;
            assert(self.expands(p[i]));
            assert(self.entries()[p[i]].deps.contains(p[i + 1]));
            assert(p[i + 1] == p[k]);
        }
    }

    /// Whether every command reachable from `deps` is committed (depth-first search).
    fn is_deps_closure_committed(&self, deps: &Vec<CmdId>) -> (ok: bool)
        requires
            self.wf(),
        ensures
            ok == self.closure_committed(deps@),
    {
        let ghost start = deps@;
        let mut stack: Vec<CmdId> = copy_ids(deps);
        let mut seen: CmdMap<()> = CmdMap::new();
        proof {
            self.lemma_known_finite();
            assert forall|x: CmdId| stack@.contains(x) implies self.reaches(start, x) by {
                let i = choose|i: int| 0 <= i < stack@.len() && stack@[i] == x;
                let p = seq![x];
                assert(self.dep_path(start, p));
            }
        }
        while stack.len() > 0
            invariant
                self.wf(),
                start == deps@,
                self.known().finite(),
                seen.wf(),
                forall|x: CmdId| stack@.contains(x) ==> self.reaches(start, x),
                forall|x: CmdId| #[trigger] seen@.contains_key(x) ==> self.reaches(start, x) && self.is_committed(x),
                forall|d: CmdId| start.contains(d) ==> seen@.contains_key(d) || stack@.contains(d),
                forall|x: CmdId, d: CmdId| seen@.contains_key(x) && self.expands(x)
                    && #[trigger] self.entries()[x].deps.contains(d) ==> seen@.contains_key(d) || stack@.contains(d),
            decreases self.known().difference(seen@.dom()).len(), stack@.len(),
        {
            let ghost before_stack = stack@;
            let ghost before_seen = seen@.dom();
            let id = stack.pop().unwrap();
            assert(before_stack == stack@.push(id));
            assert(before_stack.contains(id)) by { assert(before_stack[before_stack.len() - 1] == id); }
            assert forall|x: CmdId| stack@.contains(x) implies before_stack.contains(x) by {
                let i = choose|i: int| 0 <= i < stack@.len() && stack@[i] == x;
                assert(before_stack[i] == x);
            }
            if seen.contains_key(&id) {
                continue;
            }
            proof {
                vstd::set::axiom_set_difference_finite(self.known(), before_seen);
                vstd::set::axiom_set_remove_len(self.known().difference(before_seen), id);
            }
            if self.stable.contains_key(&id) {
                seen.insert(id, ());
                proof {
                    assert(self.known().contains(id));
                    assert(self.known().difference(seen@.dom()) =~= self.known().difference(before_seen).remove(id));
                }
                continue;
            }
            let committed = match self.entries.get(&id) {
                Some(e) => e.phase == Phase::Commit || e.phase == Phase::Stable,
                None => false,
            };
            if !committed {
                proof {
                    assert(self.reaches(start, id));
                    assert(!self.is_committed(id));
                    assert(!self.closure_committed(start));
                }
                return false;
            }
            let e = self.entries.get(&id).unwrap();
            assert(self.entries()[id] == e.view());
            seen.insert(id, ());
            proof {
                assert(self.known().contains(id));
                assert(self.known().difference(seen@.dom()) =~= self.known().difference(before_seen).remove(id));
                assert(self.expands(id));
            }
            let mut j: usize = 0;
            while j < e.deps.len()
                invariant
                    self.wf(),
                    seen.wf(),
                    seen@.contains_key(id),
                    self.expands(id),
                    self.reaches(start, id),
                    self.entries()[id].deps == e.deps@,
                    j <= e.deps@.len(),
                    forall|x: CmdId| stack@.contains(x) ==> self.reaches(start, x),
                    forall|k: int| 0 <= k < j ==> stack@.contains(#[trigger] e.deps@[k]),
                    forall|x: CmdId| before_stack.contains(x) && x != id ==> stack@.contains(x),
                    stack@.len() >= before_stack.len() - 1,
                decreases e.deps@.len() - j,
            {
                let d = e.deps[j];
                proof {
                    let p = choose|p: Seq<CmdId>| #[trigger] self.dep_path(start, p) && p.last() == id;
                    assert(self.entries()[id].deps.contains(d)) by { assert(e.deps@[j as int] == d); }
                    self.lemma_path_extends(start, p, d);
                }
                let ghost prev = stack@;
                stack.push(d);
                proof {
                    assert forall|x: CmdId| stack@.contains(x) implies self.reaches(start, x) by {
                        if x != d {
                            let i = choose|i: int| 0 <= i < stack@.len() && stack@[i] == x;
                            assert(prev[i] == x);
                        }
                    }
                    assert forall|k: int| 0 <= k < j + 1 implies stack@.contains(#[trigger] e.deps@[k]) by {
                        if k < j {
                            let i = choose|i: int| 0 <= i < prev.len() && prev[i] == e.deps@[k];
                            assert(stack@[i] == e.deps@[k]);
                        } else {
                            assert(stack@[prev.len() as int] == d);
                        }
                    }
                    assert forall|x: CmdId| before_stack.contains(x) && x != id implies stack@.contains(x) by {
                        let i = choose|i: int| 0 <= i < prev.len() && prev[i] == x;
                        assert(stack@[i] == x);
                    }
                }
                j = j + 1;
            }
            proof {
                assert forall|x: CmdId, dd: CmdId| seen@.contains_key(x) && self.expands(x)
                    && #[trigger] self.entries()[x].deps.contains(dd) implies seen@.contains_key(dd) || stack@.contains(dd) by {
                    if x == id {
                        let k = choose|k: int| 0 <= k < e.deps@.len() && e.deps@[k] == dd;
                    } else {
                        assert(before_seen.contains(x));
                    }
                }
            }
        }
        proof {
            assert forall|k: CmdId| #[trigger] self.reaches(start, k) implies self.is_committed(k) by {
                let p = choose|p: Seq<CmdId>| #[trigger] self.dep_path(start, p) && p.last() == k;
                self.lemma_closed_set_holds_paths(start, seen@.dom(), p, p.len() - 1);
            }
        }
        true
    }

    /// An execution step: `d` is a not yet executed dependency, with an entry, of the
    /// command `x`, which has an entry.
    pub open spec fn pending_edge(&self, x: CmdId, d: CmdId) -> bool {
        &&& self.entries().contains_key(x)
        &&& self.entries()[x].deps.contains(d)
        &&& self.entries().contains_key(d)
        &&& !self.entries()[d].executed
    }

    /// `p` starts at `root` and follows execution steps.
    pub open spec fn pending_path(&self, root: CmdId, p: Seq<CmdId>) -> bool {
        &&& p.len() >= 1
        &&& p[0] == root
        &&& forall|i: int| 0 <= i < p.len() - 1 ==> #[trigger] self.pending_edge(p[i], p[i + 1])
    }

    /// `root` and every command reachable from it through execution steps.
    pub open spec fn pending_closure(&self, root: CmdId) -> Set<CmdId> {
        Set::new(|k: CmdId| exists|p: Seq<CmdId>| #[trigger] self.pending_path(root, p) && p.last() == k)
    }

    proof fn lemma_pending_path_extends(&self, root: CmdId, p: Seq<CmdId>, d: CmdId)
        requires
            self.pending_path(root, p),
            self.pending_edge(p.last(), d),
        ensures
            self.pending_path(root, p.push(d)),
            p.push(d).last() == d,
    {
        let q = p.push(d);
        assert forall|i: int| 0 <= i < q.len() - 1 implies #[trigger] self.pending_edge(q[i], q[i + 1]) by {
            if i < p.len() - 1 {
                assert(q[i] == p[i] && q[i + 1] == p[i + 1]);
            } else {
                assert(q[i] == p.last() && q[i + 1] == d);
            }
        }
    }

    proof fn lemma_pending_closed(&self, root: CmdId, seen: Set<CmdId>, p: Seq<CmdId>, k: int)
        requires
            self.pending_path(root, p),
            0 <= k < p.len(),
            seen.contains(root),
            forall|x: CmdId, d: CmdId| seen.contains(x) && #[trigger] self.pending_edge(x, d) ==> seen.contains(d),
        ensures
            seen.contains(p[k]),
        decreases k,
    {
        if k > 0 {
            self.lemma_pending_closed(root, seen, p, k - 1);
            let i = k - 1;
            assert(self.pending_edge(p[i], p[i + 1]));
            assert(p[i + 1] == p[k]);
        }
    }

    /// `root` and every command reachable from it through not yet executed
    /// dependencies, in increasing order.
    #[verifier::spinoff_prover]
    #[verifier::rlimit(50)]
    fn collect_pending_closure(&self, root: CmdId) -> (nodes: Vec<CmdId>)
        requires
            self.wf(),
        ensures
            strictly_sorted(nodes@),
            nodes@.to_set() == self.pending_closure(root),
    {
        let mut stack: Vec<CmdId> = Vec::new();
        stack.push(root);
        let mut seen: CmdMap<()> = CmdMap::new();
        let ghost bound = self.entries().dom().insert(root);
        proof {
            self.entries.lemma_key_seq();
            assert(self.entries().dom() =~= self.entries@.dom());
            assert(self.pending_path(root, seq![root]));
        }
        while stack.len() > 0
            invariant
                self.wf(),
                bound == self.entries().dom().insert(root),
                bound.finite(),
                seen.wf(),
                stack@.len() == 0 ==> seen@.contains_key(root),
                seen@.contains_key(root) || stack@.contains(root),
                forall|x: CmdId| stack@.contains(x) ==> #[trigger] bound.contains(x) && self.pending_closure(root).contains(x),
                forall|x: CmdId| #[trigger] seen@.contains_key(x) ==> bound.contains(x) && self.pending_closure(root).contains(x),
                forall|x: CmdId, d: CmdId| seen@.contains_key(x) && #[trigger] self.pending_edge(x, d)
                    ==> seen@.contains_key(d) || stack@.contains(d),
            decreases bound.difference(seen@.dom()).len(), stack@.len(),
        {
            let ghost before_stack = stack@;
            let ghost before_seen = seen@.dom();
            let id = stack.pop().unwrap();
            assert(before_stack == stack@.push(id));
            assert(before_stack.contains(id)) by { assert(before_stack[before_stack.len() - 1] == id); }
            assert forall|x: CmdId| stack@.contains(x) implies before_stack.contains(x) by {
                let i = choose|i: int| 0 <= i < stack@.len() && stack@[i] == x;
                assert(before_stack[i] == x);
            }
            if seen.contains_key(&id) {
                continue;
            }
            proof {
                vstd::set::axiom_set_difference_finite(bound, before_seen);
                vstd::set::axiom_set_remove_len(bound.difference(before_seen), id);
            }
            seen.insert(id, ());
            proof {
                assert(bound.difference(seen@.dom()) =~= bound.difference(before_seen).remove(id));
            }
            match self.entries.get(&id) {
                None => {
                    proof {
                        assert forall|x: CmdId, d: CmdId| seen@.contains_key(x) && #[trigger] self.pending_edge(x, d)
                            implies seen@.contains_key(d) || stack@.contains(d) by {
                            if x == id {
                                assert(!self.entries().contains_key(id));
                            }
                        }
                    }
                },
                Some(e) => {
                    assert(self.entries()[id] == e.view());
                    let mut j: usize = 0;
                    while j < e.deps.len()
                        invariant
                            self.wf(),
                            bound == self.entries().dom().insert(root),
                            self.entries().contains_key(id),
                            self.entries()[id].deps == e.deps@,
                            self.pending_closure(root).contains(id),
                            j <= e.deps@.len(),
                            forall|x: CmdId| stack@.contains(x) ==> #[trigger] bound.contains(x) && self.pending_closure(root).contains(x),
                            forall|k: int| 0 <= k < j ==> self.pending_edge(id, #[trigger] e.deps@[k]) ==> stack@.contains(e.deps@[k]),
                            forall|x: CmdId| before_stack.contains(x) && x != id ==> stack@.contains(x),
                            before_stack.contains(root) && root != id ==> stack@.contains(root),
                        decreases e.deps@.len() - j,
                    {
                        let d = e.deps[j];
                        let pushes = match self.entries.get(&d) {
                            Some(de) => !de.executed,
                            None => false,
                        };
                        if pushes {
                            proof {
                                assert(self.entries()[id].deps.contains(d)) by { assert(e.deps@[j as int] == d); }
                                assert(self.entries@.contains_key(d));
                                assert(self.entries().contains_key(d));
                                assert(bound.contains(d));
                                assert(self.pending_edge(id, d));
                                let p = choose|p: Seq<CmdId>| #[trigger] self.pending_path(root, p) && p.last() == id;
                                self.lemma_pending_path_extends(root, p, d);
                                assert(self.pending_closure(root).contains(d));
                            }
                            let ghost prev = stack@;
                            stack.push(d);
                            proof {
                                assert forall|x: CmdId| stack@.contains(x) implies #[trigger] bound.contains(x) && self.pending_closure(root).contains(x) by {
                                    if x != d {
                                        let i = choose|i: int| 0 <= i < stack@.len() && stack@[i] == x;
                                        assert(prev[i] == x);
                                        assert(prev.contains(x));
                                    } else {
                                        assert(bound.contains(d));
                                        assert(self.pending_closure(root).contains(d));
                                    }
                                }
                                assert forall|k: int| 0 <= k < j + 1 implies self.pending_edge(id, #[trigger] e.deps@[k]) ==> stack@.contains(e.deps@[k]) by {
                                    if k < j && self.pending_edge(id, e.deps@[k]) {
                                        let i = choose|i: int| 0 <= i < prev.len() && prev[i] == e.deps@[k];
                                        assert(stack@[i] == e.deps@[k]);
                                    } else if k == j {
                                        assert(stack@[prev.len() as int] == d);
                                    }
                                }
                                assert forall|x: CmdId| before_stack.contains(x) && x != id implies stack@.contains(x) by {
                                    let i = choose|i: int| 0 <= i < prev.len() && prev[i] == x;
                                    assert(stack@[i] == x);
                                }
                            }
                        } else {
                            proof {
                                assert(!self.pending_edge(id, e.deps@[j as int]));
                                assert(forall|x: CmdId| stack@.contains(x) ==> #[trigger] bound.contains(x) && self.pending_closure(root).contains(x));
                            }
                        }
                        j = j + 1;
                    }
                    proof {
                        assert forall|x: CmdId, dd: CmdId| seen@.contains_key(x) && #[trigger] self.pending_edge(x, dd)
                            implies seen@.contains_key(dd) || stack@.contains(dd) by {
                            if x == id {
                                let k = choose|k: int| 0 <= k < e.deps@.len() && e.deps@[k] == dd;
                            } else {
                                assert(before_seen.contains(x));
                            }
                        }
                    }
                },
            }
        }
        proof {
            assert forall|k: CmdId| self.pending_closure(root).contains(k) implies seen@.contains_key(k) by {
                let p = choose|p: Seq<CmdId>| #[trigger] self.pending_path(root, p) && p.last() == k;
                self.lemma_pending_closed(root, seen@.dom(), p, p.len() - 1);
            }
        }
        let keys = seen.keys();
        let nodes = sort_dedup_ids(&keys);
        proof {
            seen.lemma_key_seq();
            assert(nodes@.to_set() =~= self.pending_closure(root));
        }
        nodes
    }

    /// `w` is a dependency of `x`, both among `nodes`.
    pub open spec fn dep_step(&self, nodes: Set<CmdId>, x: CmdId, w: CmdId) -> bool {
        &&& nodes.contains(x)
        &&& nodes.contains(w)
        &&& self.entries().contains_key(x)
        &&& self.entries()[x].deps.contains(w)
    }

    /// `p` follows dependencies among `nodes`.
    pub open spec fn dep_walk(&self, nodes: Set<CmdId>, p: Seq<CmdId>) -> bool {
        &&& p.len() >= 1
        &&& nodes.contains(p[0])
        &&& forall|i: int| 0 <= i < p.len() - 1 ==> #[trigger] self.dep_step(nodes, p[i], p[i + 1])
    }

    /// `y` can be reached from `x` following dependencies among `nodes`.
    pub open spec fn reaches_within(&self, nodes: Set<CmdId>, x: CmdId, y: CmdId) -> bool {
        exists|p: Seq<CmdId>| #[trigger] self.dep_walk(nodes, p) && p[0] == x && p.last() == y
    }

    proof fn lemma_reach_refl(&self, nodes: Set<CmdId>, x: CmdId)
        requires
            nodes.contains(x),
        ensures
            self.reaches_within(nodes, x, x),
    {
        let p = seq![x];
        assert(self.dep_walk(nodes, p));
    }

    proof fn lemma_reach_step(&self, nodes: Set<CmdId>, x: CmdId, w: CmdId)
        requires
            self.dep_step(nodes, x, w),
        ensures
            self.reaches_within(nodes, x, w),
    {
        let p = seq![x, w];
        assert forall|i: int| 0 <= i < p.len() - 1 implies #[trigger] self.dep_step(nodes, p[i], p[i + 1]) by {
            assert(i == 0);
        }
        assert(self.dep_walk(nodes, p));
    }

    proof fn lemma_reach_trans(&self, nodes: Set<CmdId>, x: CmdId, y: CmdId, z: CmdId)
        requires
            self.reaches_within(nodes, x, y),
            self.reaches_within(nodes, y, z),
        ensures
            self.reaches_within(nodes, x, z),
    {
        let p = choose|p: Seq<CmdId>| #[trigger] self.dep_walk(nodes, p) && p[0] == x && p.last() == y;
        let q = choose|q: Seq<CmdId>| #[trigger] self.dep_walk(nodes, q) && q[0] == y && q.last() == z;
        let r = p + q.subrange(1, q.len() as int);
        assert forall|i: int| 0 <= i < r.len() - 1 implies #[trigger] self.dep_step(nodes, r[i], r[i + 1]) by {
            if i < p.len() - 1 {
                assert(r[i] == p[i] && r[i + 1] == p[i + 1]);
            } else {
                let k = i - (p.len() - 1);
                assert(r[i] == q[k]);
                assert(r[i + 1] == q[k + 1]);
            }
        }
        assert(r[0] == x);
        assert(r.last() == z) by {
            if q.len() == 1 {
                assert(r =~= p);
            } else {
                assert(r.last() == q.last());
            }
        }
        assert(self.dep_walk(nodes, r));
    }

    /// The nodes on the stack are in increasing order of index.
    spec fn sorted_stack(stack: Seq<CmdId>, index: Map<CmdId, usize>) -> bool {
        forall|i: int, j: int| 0 <= i < j < stack.len() ==> index[#[trigger] stack[i]] < index[#[trigger] stack[j]]
    }

    /// Every dependency of `x` among `nodes` is in a finished component, or on the stack
    /// with an index at or above the low link of `x`.
    #[verifier::opaque]
    spec fn settled(&self, nodes: Set<CmdId>, s: TarjanState, x: CmdId) -> bool {
        forall|w: CmdId| #[trigger] self.dep_step(nodes, x, w) ==> flatten_ids(s.components()).contains(w)
            || (s.stack@.contains(w) && s.low_link@[x] <= s.index@[w])
    }

    /// The nodes on the stack indexed after `c` have low links at or above that of `v`
    /// and below their own index, and are settled.
    #[verifier::opaque]
    spec fn region_ok(&self, nodes: Set<CmdId>, s: TarjanState, v: CmdId, c: int) -> bool {
        forall|x: CmdId| #[trigger] s.stack@.contains(x) && s.index@[x] > c ==> {
            &&& s.low_link@[v] <= s.low_link@[x]
            &&& s.low_link@[x] < s.index@[x]
            &&& self.settled(nodes, s, x)
        }
    }

    /// A finished component depends only on itself and earlier components.
    #[verifier::opaque]
    spec fn comps_closed(&self, nodes: Set<CmdId>, comps: Seq<Seq<CmdId>>) -> bool {
        forall|i: int, x: CmdId, w: CmdId| 0 <= i < comps.len()
            && #[trigger] comps[i].contains(x) && #[trigger] self.dep_step(nodes, x, w)
            ==> exists|j: int| 0 <= j <= i && #[trigger] comps[j].contains(w)
    }

    /// The nodes of a finished component reach one another.
    #[verifier::opaque]
    spec fn comps_connected(&self, nodes: Set<CmdId>, comps: Seq<Seq<CmdId>>) -> bool {
        forall|i: int, x: CmdId, y: CmdId| 0 <= i < comps.len()
            && #[trigger] comps[i].contains(x) && #[trigger] comps[i].contains(y)
            ==> self.reaches_within(nodes, x, y)
    }

    /// `x` reaches a node on the stack whose index is the low link of `x`.
    spec fn anchored_at(&self, nodes: Set<CmdId>, stack: Seq<CmdId>, index: Map<CmdId, usize>, low: Map<CmdId, usize>, x: CmdId) -> bool {
        exists|z: CmdId| #[trigger] self.reaches_within(nodes, x, z) && stack.contains(z) && index[z] == low[x]
    }

    /// Each node on the stack reaches a node on the stack whose index is its low link.
    #[verifier::opaque]
    spec fn lows_anchored(&self, nodes: Set<CmdId>, stack: Seq<CmdId>, index: Map<CmdId, usize>, low: Map<CmdId, usize>) -> bool {
        forall|x: CmdId| stack.contains(x) ==> #[trigger] self.anchored_at(nodes, stack, index, low, x)
    }

    /// What the search keeps of the dependency graph.
    spec fn tarjan_ok(&self, nodes: Set<CmdId>, s: TarjanState) -> bool {
        &&& Self::sorted_stack(s.stack@, s.index@)
        &&& self.comps_closed(nodes, s.components())
        &&& self.comps_connected(nodes, s.components())
        &&& self.lows_anchored(nodes, s.stack@, s.index@, s.low_link@)
    }

    proof fn lemma_below_root(s: TarjanState, s0: Seq<CmdId>, v: CmdId, x: CmdId)
        requires
            Self::sorted_stack(s.stack@, s.index@),
            s.stack@.no_duplicates(),
            s.stack@.len() >= s0.len() + 1,
            s.stack@.take(s0.len() + 1int) == s0.push(v),
            s.stack@.contains(x),
        ensures
            s0.contains(x) <==> s.index@[x] < s.index@[v],
            s.index@[x] == s.index@[v] ==> x == v,
            x == v ==> !s0.contains(x),
    {
        let h = s0.len() as int;
        assert(s.stack@[h] == v) by {
            assert(s.stack@.take(h + 1)[h] == s.stack@[h]);
        }
        let p = choose|p: int| 0 <= p < s.stack@.len() && s.stack@[p] == x;
        if s0.contains(x) {
            let q = choose|q: int| 0 <= q < s0.len() && s0[q] == x;
            assert(s.stack@.take(h + 1)[q] == s.stack@[q]);
            assert(s.stack@[q] == x);
            assert(s.index@[s.stack@[q]] < s.index@[s.stack@[h]]);
            assert(x != v);
        }
        if p < h {
            assert(s.stack@.take(h + 1)[p] == s.stack@[p]);
            assert(s0[p] == x);
        } else if p > h {
            assert(s.index@[s.stack@[h]] < s.index@[s.stack@[p]]);
        }
    }

    proof fn lemma_reach_root(&self, nodes: Set<CmdId>, s: TarjanState, floor: int, s0: Seq<CmdId>, v: CmdId, y: CmdId)
        requires
            s.inv(nodes, floor),
            self.tarjan_ok(nodes, s),
            s.stack@.len() >= s0.len() + 1,
            s.stack@.take(s0.len() + 1int) == s0.push(v),
            forall|x: CmdId| s0.contains(x) ==> self.reaches_within(nodes, x, v),
            self.region_ok(nodes, s, v, s.index@[v] as int),
            s.stack@.contains(y),
        ensures
            self.reaches_within(nodes, y, v),
        decreases s.index@[y],
    {
        reveal(CmdLog::lows_anchored);
        reveal(CmdLog::region_ok);
        Self::lemma_below_root(s, s0, v, y);
        if s0.contains(y) {
        } else if s.index@[y] == s.index@[v] {
            assert(s.stack@.to_set().contains(v));
            assert(s.visited().contains(v));
            self.lemma_reach_refl(nodes, v);
        } else {
            assert(s.low_link@[y] < s.index@[y]);
            assert(self.anchored_at(nodes, s.stack@, s.index@, s.low_link@, y));
            let z = choose|z: CmdId| #[trigger] self.reaches_within(nodes, y, z) && s.stack@.contains(z)
                && s.index@[z] == s.low_link@[y];
            self.lemma_reach_root(nodes, s, floor, s0, v, z);
            self.lemma_reach_trans(nodes, y, z, v);
        }
    }

    /// Once the search from `w`, a dependency of `v`, has returned and `v` has taken the
    /// lower of the two low links, the facts kept while scanning the dependencies of `v`
    /// hold again, one dependency further.
    proof fn lemma_after_child(&self, nodes: Set<CmdId>, floor: int, mid: TarjanState, post: TarjanState,
        s: TarjanState, v: CmdId, w: CmdId, c: int, old_index: Set<CmdId>, comps0: Seq<Seq<CmdId>>,
        deps: Seq<CmdId>, j: int)
        requires
            mid.inv(nodes, floor),
            self.tarjan_ok(nodes, mid),
            mid.index@.contains_key(v),
            mid.index@[v] == c,
            mid.counter > c,
            self.region_ok(nodes, mid, v, c),
            mid.components().len() >= comps0.len(),
            mid.components().take(comps0.len() as int) == comps0,
            forall|x: CmdId| #[trigger] mid.index@.contains_key(x) && !old_index.contains(x)
                ==> mid.index@[x] >= c && (x != v ==> mid.index@[x] > c) && self.reaches_within(nodes, v, x),
            0 <= j < deps.len(),
            deps[j] == w,
            self.dep_step(nodes, v, w),
            !mid.index@.contains_key(w),
            forall|k: int| 0 <= k < j && nodes.contains(#[trigger] deps[k]) ==> flatten_ids(mid.components()).contains(deps[k])
                || (mid.stack@.contains(deps[k]) && mid.low_link@[v] <= mid.index@[deps[k]]),
            post.inv(nodes, floor),
            self.tarjan_ok(nodes, post),
            mid.visited().insert(w).subset_of(post.visited()),
            post.index@[w] == mid.counter,
            forall|x: CmdId| #[trigger] mid.index@.contains_key(x) ==> post.index@[x] == mid.index@[x]
                && post.low_link@[x] == mid.low_link@[x],
            post.stack@.len() >= mid.stack@.len(),
            post.stack@.take(mid.stack@.len() as int) == mid.stack@,
            post.components().len() >= mid.components().len(),
            post.components().take(mid.components().len() as int) == mid.components(),
            forall|x: CmdId| #[trigger] post.index@.contains_key(x) && !mid.index@.contains_key(x)
                ==> post.index@[x] >= mid.counter && (x != w ==> post.index@[x] > mid.counter)
                && self.reaches_within(nodes, w, x),
            forall|x: CmdId| #[trigger] post.stack@.contains(x) && post.index@[x] >= mid.counter ==> post.stack@.contains(w),
            post.stack@.contains(w) ==> self.region_ok(nodes, post, w, mid.counter as int)
                && post.low_link@[w] < post.index@[w] && self.settled(nodes, post, w),
            !post.stack@.contains(w) ==> post.low_link@[w] == post.index@[w],
            s.index@ == post.index@,
            s.stack@ == post.stack@,
            s.components() == post.components(),
            s.counter == post.counter,
            s.low_link@ == post.low_link@.insert(v, if post.low_link@[v] < post.low_link@[w] {
                post.low_link@[v]
            } else {
                post.low_link@[w]
            }),
        ensures
            self.tarjan_ok(nodes, s),
            s.counter > c,
            s.components().len() >= comps0.len(),
            s.components().take(comps0.len() as int) == comps0,
            forall|x: CmdId| #[trigger] s.index@.contains_key(x) && !old_index.contains(x)
                ==> s.index@[x] >= c && (x != v ==> s.index@[x] > c) && self.reaches_within(nodes, v, x),
            self.region_ok(nodes, s, v, c),
            forall|k: int| 0 <= k < j + 1 && nodes.contains(#[trigger] deps[k]) ==> flatten_ids(s.components()).contains(deps[k])
                || (s.stack@.contains(deps[k]) && s.low_link@[v] <= s.index@[deps[k]]),
    {
        reveal(CmdLog::lows_anchored);
        reveal(CmdLog::region_ok);
        reveal(CmdLog::settled);
        let cw = mid.counter as int;
        assert forall|x: CmdId| flatten_ids(mid.components()).contains(x) implies flatten_ids(post.components()).contains(x) by {
            lemma_flatten_contains(mid.components(), x);
            lemma_flatten_contains(post.components(), x);
            let i = choose|i: int| 0 <= i < mid.components().len() && #[trigger] mid.components()[i].contains(x);
            assert(post.components().take(mid.components().len() as int)[i] == post.components()[i]);
        }
        assert forall|x: CmdId| mid.stack@.contains(x) implies post.stack@.contains(x) by {
            let i = choose|i: int| 0 <= i < mid.stack@.len() && mid.stack@[i] == x;
            assert(post.stack@.take(mid.stack@.len() as int)[i] == post.stack@[i]);
        }
        assert forall|x: CmdId| post.stack@.contains(x) && mid.index@.contains_key(x) implies mid.stack@.contains(x) by {
            assert(mid.visited().contains(x));
            if !mid.stack@.contains(x) {
                assert(flatten_ids(mid.components()).to_set().contains(x));
                assert(flatten_ids(post.components()).contains(x));
            }
        }
        assert(mid.low_link@[v] <= c);
        assert(post.low_link@[v] == mid.low_link@[v]);
        assert(post.index@[v] == c);
        assert(post.visited().contains(w));
        self.lemma_reach_step(nodes, v, w);
        assert(s.counter > c) by {
            assert(post.index@.contains_key(w));
        }
        assert(s.components().take(comps0.len() as int) =~= comps0) by {
            assert forall|k: int| 0 <= k < comps0.len() implies #[trigger] s.components().take(comps0.len() as int)[k] == comps0[k] by {
                assert(post.components().take(mid.components().len() as int)[k] == post.components()[k]);
                assert(mid.components().take(comps0.len() as int)[k] == mid.components()[k]);
            }
        }
        assert forall|x: CmdId| s.stack@.contains(x) implies #[trigger] self.anchored_at(nodes, s.stack@, s.index@, s.low_link@, x) by {
            if x == v {
                if post.low_link@[w] < post.low_link@[v] {
                    if !post.stack@.contains(w) {
                        assert(post.index@[w] == cw);
                    }
                    assert(self.anchored_at(nodes, post.stack@, post.index@, post.low_link@, w));
                    let z = choose|z: CmdId| #[trigger] self.reaches_within(nodes, w, z) && post.stack@.contains(z)
                        && post.index@[z] == post.low_link@[w];
                    self.lemma_reach_trans(nodes, v, w, z);
                    assert(s.low_link@[v] == post.low_link@[w]);
                } else {
                    assert(mid.stack@.contains(v));
                    assert(self.anchored_at(nodes, mid.stack@, mid.index@, mid.low_link@, v));
                    let z = choose|z: CmdId| #[trigger] self.reaches_within(nodes, v, z) && mid.stack@.contains(z)
                        && mid.index@[z] == mid.low_link@[v];
                    assert(mid.visited().contains(z));
                    assert(s.low_link@[v] == mid.low_link@[v]);
                }
            } else {
                assert(post.stack@.contains(x));
                assert(self.anchored_at(nodes, post.stack@, post.index@, post.low_link@, x));
                let z = choose|z: CmdId| #[trigger] self.reaches_within(nodes, x, z) && post.stack@.contains(z)
                    && post.index@[z] == post.low_link@[x];
                assert(s.low_link@[x] == post.low_link@[x]);
            }
        }
        assert(self.tarjan_ok(nodes, s));
        assert forall|x: CmdId| #[trigger] s.index@.contains_key(x) && !old_index.contains(x)
            implies s.index@[x] >= c && (x != v ==> s.index@[x] > c) && self.reaches_within(nodes, v, x) by {
            if !mid.index@.contains_key(x) {
                self.lemma_reach_trans(nodes, v, w, x);
            }
        }
        assert forall|x: CmdId| #[trigger] s.stack@.contains(x) && s.index@[x] > c implies {
            &&& s.low_link@[v] <= s.low_link@[x]
            &&& s.low_link@[x] < s.index@[x]
            &&& self.settled(nodes, s, x)
        } by {
            assert(x != v);
            assert(s.low_link@[x] == post.low_link@[x]);
            if mid.index@.contains_key(x) {
                assert(mid.stack@.contains(x));
                assert(self.settled(nodes, mid, x));
                assert forall|u: CmdId| #[trigger] self.dep_step(nodes, x, u) implies flatten_ids(s.components()).contains(u)
                    || (s.stack@.contains(u) && s.low_link@[x] <= s.index@[u]) by {
                    if !flatten_ids(mid.components()).contains(u) {
                        assert(mid.stack@.contains(u));
                        assert(mid.visited().contains(u));
                    }
                }
            } else {
                assert(post.stack@.to_set().contains(x));
                assert(post.visited().contains(x));
                assert(post.index@.contains_key(x));
                assert(post.stack@.contains(w));
                if x != w {
                    assert(post.index@[x] > cw);
                }
                assert(self.settled(nodes, post, x));
                assert forall|u: CmdId| #[trigger] self.dep_step(nodes, x, u) implies flatten_ids(s.components()).contains(u)
                    || (s.stack@.contains(u) && s.low_link@[x] <= s.index@[u]) by {
                    assert(self.settled(nodes, post, x));
                }
            }
        }
        assert forall|k: int| 0 <= k < j + 1 && nodes.contains(#[trigger] deps[k]) implies flatten_ids(s.components()).contains(deps[k])
            || (s.stack@.contains(deps[k]) && s.low_link@[v] <= s.index@[deps[k]]) by {
            if k < j {
                if !flatten_ids(mid.components()).contains(deps[k]) {
                    assert(mid.stack@.contains(deps[k]));
                    assert(mid.visited().contains(deps[k]));
                }
            } else {
                if !post.stack@.contains(w) {
                    assert(flatten_ids(post.components()).to_set().contains(w));
                }
            }
        }
    }

    /// Once `v` has lowered its low link to the index of `w`, a dependency of `v` on the
    /// stack, the facts kept while scanning the dependencies of `v` hold again, one
    /// dependency further.
    proof fn lemma_lower_low(&self, nodes: Set<CmdId>, floor: int, mid: TarjanState, s: TarjanState,
        v: CmdId, w: CmdId, c: int, deps: Seq<CmdId>, j: int)
        requires
            mid.inv(nodes, floor),
            self.tarjan_ok(nodes, mid),
            mid.index@.contains_key(v),
            mid.index@[v] == c,
            self.region_ok(nodes, mid, v, c),
            0 <= j < deps.len(),
            deps[j] == w,
            self.dep_step(nodes, v, w),
            mid.stack@.contains(w),
            forall|k: int| 0 <= k < j && nodes.contains(#[trigger] deps[k]) ==> flatten_ids(mid.components()).contains(deps[k])
                || (mid.stack@.contains(deps[k]) && mid.low_link@[v] <= mid.index@[deps[k]]),
            s.index@ == mid.index@,
            s.stack@ == mid.stack@,
            s.components() == mid.components(),
            s.low_link@ == mid.low_link@.insert(v, if mid.low_link@[v] < mid.index@[w] {
                mid.low_link@[v]
            } else {
                mid.index@[w]
            }),
        ensures
            self.tarjan_ok(nodes, s),
            self.region_ok(nodes, s, v, c),
            forall|k: int| 0 <= k < j + 1 && nodes.contains(#[trigger] deps[k]) ==> flatten_ids(s.components()).contains(deps[k])
                || (s.stack@.contains(deps[k]) && s.low_link@[v] <= s.index@[deps[k]]),
    {
        reveal(CmdLog::lows_anchored);
        reveal(CmdLog::region_ok);
        reveal(CmdLog::settled);
        self.lemma_reach_step(nodes, v, w);
        assert(self.lows_anchored(nodes, s.stack@, s.index@, s.low_link@)) by {
            assert forall|x: CmdId| s.stack@.contains(x) implies #[trigger] self.anchored_at(nodes, s.stack@, s.index@, s.low_link@, x) by {
                if x == v {
                    if mid.index@[w] < mid.low_link@[v] {
                        assert(s.low_link@[v] == mid.index@[w]);
                    } else {
                        assert(self.anchored_at(nodes, mid.stack@, mid.index@, mid.low_link@, v));
                        let z = choose|z: CmdId| #[trigger] self.reaches_within(nodes, v, z) && mid.stack@.contains(z)
                            && mid.index@[z] == mid.low_link@[v];
                        assert(s.low_link@[v] == mid.low_link@[v]);
                    }
                } else {
                    assert(self.anchored_at(nodes, mid.stack@, mid.index@, mid.low_link@, x));
                    let z = choose|z: CmdId| #[trigger] self.reaches_within(nodes, x, z) && mid.stack@.contains(z)
                        && mid.index@[z] == mid.low_link@[x];
                    assert(s.low_link@[x] == mid.low_link@[x]);
                }
            }
        }
        assert(self.lows_anchored(nodes, s.stack@, s.index@, s.low_link@));
        assert(self.tarjan_ok(nodes, s));
        assert forall|x: CmdId| #[trigger] s.stack@.contains(x) && s.index@[x] > c implies {
            &&& s.low_link@[v] <= s.low_link@[x]
            &&& s.low_link@[x] < s.index@[x]
            &&& self.settled(nodes, s, x)
        } by {
            assert(x != v);
            assert(s.low_link@[x] == mid.low_link@[x]);
            assert(self.settled(nodes, mid, x));
            assert forall|u: CmdId| #[trigger] self.dep_step(nodes, x, u) implies flatten_ids(s.components()).contains(u)
                || (s.stack@.contains(u) && s.low_link@[x] <= s.index@[u]) by {
                assert(self.settled(nodes, mid, x));
            }
        }
        assert forall|k: int| 0 <= k < j + 1 && nodes.contains(#[trigger] deps[k]) implies flatten_ids(s.components()).contains(deps[k])
            || (s.stack@.contains(deps[k]) && s.low_link@[v] <= s.index@[deps[k]]) by {
            assert(s.low_link@[v] <= mid.low_link@[v]);
        }
    }

    /// Popping the nodes indexed from `c` on off the stack, `v` first among them, as a
    /// new component keeps what the search knows of the graph.
    proof fn lemma_close_component(&self, nodes: Set<CmdId>, floor: int, snap: TarjanState, s: TarjanState,
        v: CmdId, c: int, s0: Seq<CmdId>, old_index: Set<CmdId>, t: Seq<CmdId>)
        requires
            snap.inv(nodes, floor),
            self.tarjan_ok(nodes, snap),
            snap.stack@.len() >= s0.len() + 1,
            snap.stack@.take(s0.len() + 1int) == s0.push(v),
            snap.index@[v] == c,
            snap.low_link@[v] == c,
            self.region_ok(nodes, snap, v, c),
            self.settled(nodes, snap, v),
            forall|x: CmdId| s0.contains(x) ==> self.reaches_within(nodes, x, v),
            forall|x: CmdId| #[trigger] snap.index@.contains_key(x) && !old_index.contains(x)
                ==> snap.index@[x] >= c && self.reaches_within(nodes, v, x),
            forall|x: CmdId| old_index.contains(x) ==> #[trigger] snap.index@[x] < c,
            forall|x: CmdId| t.contains(x) <==> (snap.stack@.contains(x) && snap.index@[x] >= c),
            s.stack@ == s0,
            s.index@ == snap.index@,
            s.low_link@ == snap.low_link@,
            s.components() == snap.components().push(t),
        ensures
            self.tarjan_ok(nodes, s),
    {
        reveal(CmdLog::lows_anchored);
        reveal(CmdLog::comps_closed);
        reveal(CmdLog::comps_connected);
        reveal(CmdLog::region_ok);
        reveal(CmdLog::settled);
        let n = snap.components().len() as int;
        assert forall|x: CmdId| s0.contains(x) implies snap.index@[x] < c by {
            assert(snap.stack@.contains(x)) by {
                let i = choose|i: int| 0 <= i < s0.len() && s0[i] == x;
                assert(snap.stack@.take(s0.len() + 1int)[i] == snap.stack@[i]);
            }
            Self::lemma_below_root(snap, s0, v, x);
        }
        assert(Self::sorted_stack(s.stack@, s.index@)) by {
            assert forall|i: int, k: int| 0 <= i < k < s.stack@.len()
                implies s.index@[#[trigger] s.stack@[i]] < s.index@[#[trigger] s.stack@[k]] by {
                assert(snap.stack@.take(s0.len() + 1int)[i] == snap.stack@[i]);
                assert(snap.stack@.take(s0.len() + 1int)[k] == snap.stack@[k]);
            }
        }
        assert forall|i: int, x: CmdId, u: CmdId| 0 <= i < s.components().len()
            && #[trigger] s.components()[i].contains(x) && #[trigger] self.dep_step(nodes, x, u)
            implies exists|jj: int| 0 <= jj <= i && #[trigger] s.components()[jj].contains(u) by {
            if i < n {
                assert(s.components()[i] == snap.components()[i]);
                let jj = choose|jj: int| 0 <= jj <= i && #[trigger] snap.components()[jj].contains(u);
                assert(s.components()[jj] == snap.components()[jj]);
            } else {
                assert(s.components()[i] == t);
                assert(snap.stack@.contains(x) && snap.index@[x] >= c);
                if x != v {
                    assert(snap.index@[x] > c) by {
                        Self::lemma_below_root(snap, s0, v, x);
                    }
                    assert(self.settled(nodes, snap, x));
                }
                assert(self.settled(nodes, snap, x));
                if flatten_ids(snap.components()).contains(u) {
                    lemma_flatten_contains(snap.components(), u);
                    let jj = choose|jj: int| 0 <= jj < snap.components().len() && #[trigger] snap.components()[jj].contains(u);
                    assert(s.components()[jj] == snap.components()[jj]);
                } else {
                    assert(snap.stack@.contains(u) && snap.low_link@[x] <= snap.index@[u]);
                    assert(snap.low_link@[x] >= c);
                    assert(t.contains(u));
                    assert(s.components()[i].contains(u));
                }
            }
        }
        assert forall|i: int, x: CmdId, y: CmdId| 0 <= i < s.components().len()
            && #[trigger] s.components()[i].contains(x) && #[trigger] s.components()[i].contains(y)
            implies self.reaches_within(nodes, x, y) by {
            if i < n {
                assert(s.components()[i] == snap.components()[i]);
            } else {
                assert(s.components()[i] == t);
                self.lemma_reach_root(nodes, snap, floor, s0, v, x);
                assert(snap.stack@.contains(y) && snap.index@[y] >= c);
                assert(snap.visited().contains(y));
                if y == v {
                    self.lemma_reach_refl(nodes, v);
                } else if old_index.contains(y) {
                    assert(snap.index@[y] < c);
                } else {
                    assert(self.reaches_within(nodes, v, y));
                }
                self.lemma_reach_trans(nodes, x, v, y);
            }
        }
        assert forall|x: CmdId| s.stack@.contains(x) implies #[trigger] self.anchored_at(nodes, s.stack@, s.index@, s.low_link@, x) by {
            assert(snap.stack@.contains(x)) by {
                let i = choose|i: int| 0 <= i < s0.len() && s0[i] == x;
                assert(snap.stack@.take(s0.len() + 1int)[i] == snap.stack@[i]);
            }
            assert(self.anchored_at(nodes, snap.stack@, snap.index@, snap.low_link@, x));
            let z = choose|z: CmdId| #[trigger] self.reaches_within(nodes, x, z) && snap.stack@.contains(z)
                && snap.index@[z] == snap.low_link@[x];
            assert(snap.visited().contains(x));
            Self::lemma_below_root(snap, s0, v, z);
        }
    }

    /// Pushing the fresh node `v` with index and low link `c` keeps what the search knows
    /// of the graph, and no node on the stack is indexed after `v`.
    proof fn lemma_push_node(&self, nodes: Set<CmdId>, floor: int, pre: TarjanState, s: TarjanState, v: CmdId, c: usize)
        requires
            pre.inv(nodes, floor),
            self.tarjan_ok(nodes, pre),
            nodes.contains(v),
            !pre.index@.contains_key(v),
            c == pre.counter,
            s.stack@ == pre.stack@.push(v),
            s.index@ == pre.index@.insert(v, c),
            s.low_link@ == pre.low_link@.insert(v, c),
            s.components() == pre.components(),
        ensures
            self.tarjan_ok(nodes, s),
            self.region_ok(nodes, s, v, c as int),
    {
        reveal(CmdLog::lows_anchored);
        reveal(CmdLog::region_ok);
        let h = pre.stack@.len() as int;
        assert(s.stack@[h] == v);
        assert forall|x: CmdId| pre.stack@.contains(x) implies pre.index@.contains_key(x) && pre.index@[x] < c && x != v by {
            assert(pre.visited().contains(x));
        }
        assert(Self::sorted_stack(s.stack@, s.index@)) by {
            assert forall|i: int, k: int| 0 <= i < k < s.stack@.len()
                implies s.index@[#[trigger] s.stack@[i]] < s.index@[#[trigger] s.stack@[k]] by {
                assert(s.stack@[i] == pre.stack@[i]);
                assert(pre.stack@.contains(pre.stack@[i]));
                if k < h {
                    assert(s.stack@[k] == pre.stack@[k]);
                    assert(pre.stack@.contains(pre.stack@[k]));
                }
            }
        }
        assert forall|x: CmdId| s.stack@.contains(x) implies #[trigger] self.anchored_at(nodes, s.stack@, s.index@, s.low_link@, x) by {
            if x == v {
                self.lemma_reach_refl(nodes, v);
            } else {
                let i = choose|i: int| 0 <= i < s.stack@.len() && s.stack@[i] == x;
                assert(pre.stack@[i] == x);
                assert(pre.stack@.contains(x));
                assert(self.anchored_at(nodes, pre.stack@, pre.index@, pre.low_link@, x));
                let z = choose|z: CmdId| #[trigger] self.reaches_within(nodes, x, z) && pre.stack@.contains(z)
                    && pre.index@[z] == pre.low_link@[x];
                let iz = choose|iz: int| 0 <= iz < pre.stack@.len() && pre.stack@[iz] == z;
                assert(s.stack@[iz] == z);
            }
        }
        assert forall|x: CmdId| #[trigger] s.stack@.contains(x) && s.index@[x] > c implies false by {
            if x != v {
                let i = choose|i: int| 0 <= i < s.stack@.len() && s.stack@[i] == x;
                assert(pre.stack@[i] == x);
                assert(pre.stack@.contains(x));
            }
        }
    }

    fn strongconnect(&self, nodes: &Vec<CmdId>, v: CmdId, s: &mut TarjanState, Ghost(floor): Ghost<int>)
        requires
            self.wf(),
            old(s).inv(nodes@.to_set(), floor),
            nodes@.contains(v),
            !old(s).index@.contains_key(v),
            floor <= old(s).counter,
            self.tarjan_ok(nodes@.to_set(), *old(s)),
            forall|x: CmdId| old(s).stack@.contains(x) ==> self.reaches_within(nodes@.to_set(), x, v),
        ensures
            final(s).inv(nodes@.to_set(), floor),
            self.tarjan_ok(nodes@.to_set(), *final(s)),
            final(s).components().len() >= old(s).components().len(),
            final(s).components().take(old(s).components().len() as int) == old(s).components(),
            forall|x: CmdId| #[trigger] final(s).index@.contains_key(x) && !old(s).index@.contains_key(x)
                ==> final(s).index@[x] >= old(s).counter && (x != v ==> final(s).index@[x] > old(s).counter)
                && self.reaches_within(nodes@.to_set(), v, x),
            forall|x: CmdId| #[trigger] final(s).stack@.contains(x) && final(s).index@[x] >= old(s).counter
                ==> final(s).stack@.contains(v),
            final(s).stack@.contains(v) ==> self.region_ok(nodes@.to_set(), *final(s), v, old(s).counter as int)
                && final(s).low_link@[v] < final(s).index@[v] && self.settled(nodes@.to_set(), *final(s), v),
            !final(s).stack@.contains(v) ==> final(s).low_link@[v] == final(s).index@[v],
            old(s).visited().insert(v).subset_of(final(s).visited()),
            final(s).index@[v] == old(s).counter,
            forall|x: CmdId| #[trigger] old(s).index@.contains_key(x) ==> final(s).index@[x] == old(s).index@[x]
                && final(s).low_link@[x] == old(s).low_link@[x],
            final(s).stack@.len() >= old(s).stack@.len(),
            final(s).stack@.take(old(s).stack@.len() as int) == old(s).stack@,
            old(s).stack@.len() == 0 && floor == old(s).counter ==> final(s).stack@.len() == 0,
        decreases nodes@.to_set().difference(old(s).visited()).len(),
    {
        let ghost n_set = nodes@.to_set();
        let ghost s0 = old(s).stack@;
        let ghost h: int = s0.len() as int;
        let ghost comps0 = old(s).components();
        proof {
            vstd::seq_lib::seq_to_set_is_finite(nodes@);
            assert(n_set.contains(v));
            vstd::set_lib::lemma_len_subset(old(s).visited().insert(v), n_set);
            self.entries.lemma_key_seq();
        }
        let c = s.counter;
        let node_count = nodes.len();
        assert(c < node_count) by {
            nodes@.lemma_cardinality_of_set();
            vstd::set::axiom_set_insert_len(old(s).visited(), v);
        }
        s.index.insert(v, c);
        s.low_link.insert(v, c);
        s.counter = c + 1;
        s.stack.push(v);
        s.on_stack.insert(v, ());
        proof {
            assert(s.stack@ == s0.push(v));
            lemma_push_to_set(s0, v);
            assert(s.stack@.to_set() =~= s0.to_set().insert(v));
            assert(s.visited() =~= old(s).visited().insert(v));
            assert(s.visited() =~= s.stack@.to_set() + flatten_ids(s.components()).to_set());
            assert(s.on_stack@.dom() =~= s.stack@.to_set());
            assert(s.low_link@.dom() =~= s.visited());
            assert(s.stack@.no_duplicates()) by {
                assert(!s0.contains(v));
            }
            assert forall|x: CmdId| s.stack@.contains(x) implies !flatten_ids(s.components()).contains(x) by {
                if x != v {
                    let i = choose|i: int| 0 <= i < s.stack@.len() && s.stack@[i] == x;
                    assert(s0[i] == x);
                }
            }
            assert forall|x: CmdId| s.stack@.contains(x) implies #[trigger] s.index@[x] >= floor by {
                if x != v {
                    let i = choose|i: int| 0 <= i < s.stack@.len() && s.stack@[i] == x;
                    assert(s0[i] == x);
                }
            }
            assert(s.inv(n_set, floor));
            assert(s.stack@.take(h + 1) =~= s0.push(v));
            assert(n_set.difference(old(s).visited()).contains(v));
            vstd::set::axiom_set_difference_finite(n_set, old(s).visited());
            vstd::set::axiom_set_remove_len(n_set.difference(old(s).visited()), v);
            self.lemma_push_node(n_set, floor, *old(s), *s, v, c);
            assert(s.components().take(comps0.len() as int) =~= comps0);
            assert forall|x: CmdId| #[trigger] s.index@.contains_key(x) && !old(s).index@.contains_key(x)
                implies s.index@[x] >= c && (x != v ==> s.index@[x] > c) && self.reaches_within(n_set, v, x) by {
                assert(x == v);
                self.lemma_reach_refl(n_set, v);
            }
        }
        match self.entries.get(&v) {
            Some(entry) => {
                assert(self.entries()[v] == entry.view());
                let mut j: usize = 0;
                while j < entry.deps.len()
                    invariant
                        self.wf(),
                        n_set == nodes@.to_set(),
                        n_set.finite(),
                        s.inv(n_set, floor),
                        h == s0.len(),
                        s.index@.contains_key(v),
                        s.index@[v] == c,
                        c == old(s).counter,
                        c >= floor,
                        s.stack@.len() >= h + 1,
                        s.stack@.take(h + 1) == s0.push(v),
                        old(s).visited().insert(v).subset_of(s.visited()),
                        forall|x: CmdId| #[trigger] old(s).index@.contains_key(x) ==> s.index@[x] == old(s).index@[x]
                            && s.low_link@[x] == old(s).low_link@[x],
                        j <= entry.deps@.len(),
                        self.entries().contains_key(v),
                        self.entries()[v].deps == entry.deps@,
                        s.counter > c,
                        self.tarjan_ok(n_set, *s),
                        s.components().len() >= comps0.len(),
                        s.components().take(comps0.len() as int) == comps0,
                        forall|x: CmdId| s0.contains(x) ==> self.reaches_within(n_set, x, v),
                        forall|x: CmdId| #[trigger] s.index@.contains_key(x) && !old(s).index@.contains_key(x)
                            ==> s.index@[x] >= c && (x != v ==> s.index@[x] > c) && self.reaches_within(n_set, v, x),
                        n_set.contains(v),
                        self.region_ok(n_set, *s, v, c as int),
                        forall|k: int| 0 <= k < j && n_set.contains(#[trigger] entry.deps@[k])
                            ==> flatten_ids(s.components()).contains(entry.deps@[k])
                            || (s.stack@.contains(entry.deps@[k]) && s.low_link@[v] <= s.index@[entry.deps@[k]]),
                        n_set.difference(old(s).visited()).len() > 0,
                        n_set.difference(old(s).visited()).finite(),
                        n_set.difference(old(s).visited()).contains(v),
                    decreases entry.deps@.len() - j,
                {
                    let w = entry.deps[j];
                    if crate::quorum::grid::contains_id(nodes.as_slice(), w) {
                        if !s.index.contains_key(&w) {
                            proof {
                                let before = n_set.difference(old(s).visited());
                                let now_ = n_set.difference(s.visited());
                                assert(now_.subset_of(before.remove(v)));
                                vstd::set_lib::lemma_len_subset(now_, before.remove(v));
                            }
                            let ghost mid_stack = s.stack@;
                            let ghost mid_index = s.index@;
                            let ghost mid_low = s.low_link@;
                            let ghost mid = *s;
                            proof {
                                assert(entry.deps@[j as int] == w);
                                assert(self.dep_step(n_set, v, w));
                                self.lemma_reach_step(n_set, v, w);
                                assert forall|x: CmdId| s.stack@.contains(x) implies self.reaches_within(n_set, x, w) by {
                                    self.lemma_reach_root(n_set, *s, floor, s0, v, x);
                                    self.lemma_reach_trans(n_set, x, v, w);
                                }
                            }
                            self.strongconnect(nodes, w, s, Ghost(floor));
                            let ghost post = *s;
                            proof {
                                assert forall|x: CmdId| #[trigger] old(s).index@.contains_key(x) implies s.index@[x] == old(s).index@[x]
                                    && s.low_link@[x] == old(s).low_link@[x] by {
                                    assert(mid_index.contains_key(x));
                                }
                                assert(mid_index.contains_key(v));
                                assert(s.stack@.take(h + 1) =~= mid_stack.take(h + 1)) by {
                                    assert(s.stack@.take(mid_stack.len() as int) == mid_stack);
                                    assert forall|k: int| 0 <= k < h + 1 implies #[trigger] s.stack@.take(h + 1)[k] == mid_stack.take(h + 1)[k] by {
                                        assert(s.stack@.take(mid_stack.len() as int)[k] == s.stack@[k]);
                                    }
                                }
                            }
                            let lv = *s.low_link.get(&v).unwrap();
                            let lw = *s.low_link.get(&w).unwrap();
                            let merged = if lv < lw { lv } else { lw };
                            s.low_link.insert(v, merged);
                            proof {
                                assert(s.low_link@.dom() =~= s.visited());
                                self.lemma_after_child(n_set, floor, mid, post, *s, v, w, c as int, old(s).index@.dom(), comps0, entry.deps@, j as int);
                            }
                        } else if s.on_stack.contains_key(&w) {
                            let ghost mid = *s;
                            let lv = *s.low_link.get(&v).unwrap();
                            let iw = *s.index.get(&w).unwrap();
                            proof {
                                assert(s.stack@.to_set().contains(w));
                                assert(entry.deps@[j as int] == w);
                                assert(self.dep_step(n_set, v, w));
                            }
                            let merged = if lv < iw { lv } else { iw };
                            s.low_link.insert(v, merged);
                            proof {
                                assert(s.low_link@.dom() =~= s.visited());
                                self.lemma_lower_low(n_set, floor, mid, *s, v, w, c as int, entry.deps@, j as int);
                            }
                        } else {
                            proof {
                                assert(entry.deps@[j as int] == w);
                                assert(s.visited().contains(w));
                                assert(!s.stack@.to_set().contains(w));
                                assert(flatten_ids(s.components()).to_set().contains(w));
                            }
                        }
                    } else {
                        proof {
                            assert(entry.deps@[j as int] == w);
                            assert(!n_set.contains(w));
                        }
                    }
                    j = j + 1;
                }
                proof {
                    assert forall|u: CmdId| #[trigger] self.dep_step(n_set, v, u) implies flatten_ids(s.components()).contains(u)
                        || (s.stack@.contains(u) && s.low_link@[v] <= s.index@[u]) by {
                        let k = choose|k: int| 0 <= k < entry.deps@.len() && entry.deps@[k] == u;
                    }
                }
            },
            None => {
                proof {
                    assert(!self.entries().contains_key(v));
                }
            },
        }
        proof {
            reveal(CmdLog::settled);
            assert(self.settled(n_set, *s, v));
        }
        let ghost s_snap = *s;
        let lv = *s.low_link.get(&v).unwrap();
        let iv = *s.index.get(&v).unwrap();
        let ghost idx_snap = s.index@;
        let ghost low_snap = s.low_link@;
        let ghost counter_snap = s.counter;
        let ghost comps_snap = s.components();
        if lv == iv {
            let mut scc: Vec<CmdId> = Vec::new();
            let mut closed = false;
            while !closed
                invariant
                    s.index@ == idx_snap,
                    s.low_link@ == low_snap,
                    s.counter == counter_snap,
                    s.components() == comps_snap,
                    s.index.wf(),
                    s.low_link.wf(),
                    s.on_stack.wf(),
                    h == s0.len(),
                    !closed ==> s.stack@.len() >= h + 1 && s.stack@.take(h + 1) == s0.push(v),
                    closed ==> s.stack@ == s0 && scc@.len() > 0,
                    s.stack@.no_duplicates(),
                    s.on_stack@.dom() == s.stack@.to_set(),
                    scc@.no_duplicates(),
                    forall|x: CmdId| #[trigger] s.stack@.contains(x) ==> !scc@.contains(x),
                    forall|x: CmdId| #[trigger] s.stack@.contains(x) ==> !flatten_ids(s.components()).contains(x),
                    forall|x: CmdId| #[trigger] scc@.contains(x) ==> !flatten_ids(s.components()).contains(x),
                    flatten_ids(s.components()).no_duplicates(),
                    s.visited() == s.stack@.to_set() + flatten_ids(s.components()).to_set() + scc@.to_set(),
                    Self::sorted_stack(s_snap.stack@, idx_snap),
                    s_snap.index@ == idx_snap,
                    s_snap.stack@.len() >= h + 1,
                    s_snap.stack@.take(h + 1) == s0.push(v),
                    idx_snap[v] == c,
                    s.stack@.len() <= s_snap.stack@.len(),
                    s.stack@ == s_snap.stack@.take(s.stack@.len() as int),
                    forall|x: CmdId| scc@.contains(x) ==> s_snap.stack@.contains(x) && idx_snap[x] >= c,
                    forall|x: CmdId| s_snap.stack@.contains(x) && idx_snap[x] >= c ==> scc@.contains(x) || s.stack@.contains(x),
                decreases s.stack@.len(),
            {
                let ghost before = s.stack@;
                let ghost flat_now = flatten_ids(s.components());
                let ghost scc_now = scc@;
                assert(forall|x: CmdId| scc_now.contains(x) ==> !flat_now.contains(x));
                assert(forall|x: CmdId| before.contains(x) ==> !flat_now.contains(x));
                let w = s.stack.pop().unwrap();
                s.on_stack.remove(&w);
                let ghost prev_scc = scc@;
                scc.push(w);
                proof {
                    assert(s.components() == comps_snap);
                    assert(before == s.stack@.push(w));
                    assert(s.stack@.to_set() =~= before.to_set().remove(w)) by {
                        assert forall|x: CmdId| s.stack@.contains(x) implies x != w by {
                            let i = choose|i: int| 0 <= i < s.stack@.len() && s.stack@[i] == x;
                            assert(before[i] == x);
                        }
                        assert forall|x: CmdId| before.contains(x) && x != w implies s.stack@.contains(x) by {
                            let i = choose|i: int| 0 <= i < before.len() && before[i] == x;
                            if i == before.len() - 1 {
                                assert(before[i] == w);
                            }
                            assert(s.stack@[i] == x);
                        }
                    }
                    assert(before.contains(w)) by { assert(before[before.len() - 1] == w); }
                    assert(s.on_stack@.dom() =~= s.stack@.to_set());
                    assert(scc@ == prev_scc.push(w));
                    assert(!prev_scc.contains(w));
                    lemma_push_to_set(prev_scc, w);
                    assert(scc@.to_set() =~= prev_scc.to_set().insert(w));
                    assert(s.visited() =~= s.stack@.to_set() + flatten_ids(s.components()).to_set() + scc@.to_set());
                    assert forall|x: CmdId| #[trigger] s.stack@.contains(x) implies !scc@.contains(x) && !flatten_ids(s.components()).contains(x) by {
                        let i = choose|i: int| 0 <= i < s.stack@.len() && s.stack@[i] == x;
                        assert(before[i] == x);
                        assert(before.contains(x));
                        assert(before[before.len() - 1] == w);
                        assert(x != w);
                        assert(!prev_scc.contains(x));
                        if scc@.contains(x) {
                            let k = choose|k: int| 0 <= k < scc@.len() && scc@[k] == x;
                            if k < prev_scc.len() {
                                assert(prev_scc[k] == x);
                            }
                        }
                    }
                    assert forall|x: CmdId| scc@.contains(x) implies !flatten_ids(s.components()).contains(x) by {
                        if x == w {
                            assert(before.contains(w));
                            assert(!flat_now.contains(w));
                        } else {
                            let i = choose|i: int| 0 <= i < scc@.len() && scc@[i] == x;
                            assert(prev_scc[i] == x);
                            assert(scc_now.contains(x));
                            assert(!flat_now.contains(x));
                        }
                    }
                    assert(before.take(h + 1) == s0.push(v));
                    assert(before[h as int] == v) by { assert(before.take(h + 1)[h as int] == before[h as int]); }
                    if w == v {
                        assert(before.len() - 1 == h) by {
                            if before.len() - 1 != h {
                                assert(before[before.len() - 1] == before[h as int]);
                            }
                        }
                        assert(s.stack@ =~= s0) by {
                            assert forall|k: int| 0 <= k < h implies #[trigger] s.stack@[k] == s0[k] by {
                                assert(before.take(h + 1)[k] == before[k]);
                            }
                        }
                    } else {
                        assert(before.len() - 1 != h);
                        assert(s.stack@.take(h + 1) =~= s0.push(v)) by {
                            assert forall|k: int| 0 <= k < h + 1 implies #[trigger] s.stack@.take(h + 1)[k] == before.take(h + 1)[k] by {}
                        }
                    }
                    let pw = before.len() - 1;
                    assert(s.stack@ =~= s_snap.stack@.take(s.stack@.len() as int)) by {
                        assert forall|k: int| 0 <= k < s.stack@.len() implies s.stack@[k] == s_snap.stack@.take(s.stack@.len() as int)[k] by {
                            assert(before[k] == s.stack@[k]);
                            assert(s_snap.stack@.take(before.len() as int)[k] == s_snap.stack@[k]);
                        }
                    }
                    assert(s_snap.stack@[pw] == w) by {
                        assert(s_snap.stack@.take(before.len() as int)[pw] == s_snap.stack@[pw]);
                    }
                    assert(s_snap.stack@[h] == v) by {
                        assert(s_snap.stack@.take(h + 1)[h] == s_snap.stack@[h]);
                    }
                    assert(idx_snap[w] >= c) by {
                        if pw > h {
                            assert(idx_snap[s_snap.stack@[h]] < idx_snap[s_snap.stack@[pw]]);
                        }
                    }
                    assert(s_snap.stack@.contains(w));
                    assert forall|x: CmdId| scc@.contains(x) implies s_snap.stack@.contains(x) && idx_snap[x] >= c by {
                        if x != w {
                            let i = choose|i: int| 0 <= i < scc@.len() && scc@[i] == x;
                            assert(prev_scc[i] == x);
                            assert(prev_scc.contains(x));
                        }
                    }
                    assert forall|x: CmdId| s_snap.stack@.contains(x) && idx_snap[x] >= c implies scc@.contains(x) || s.stack@.contains(x) by {
                        if prev_scc.contains(x) {
                            let i = choose|i: int| 0 <= i < prev_scc.len() && prev_scc[i] == x;
                            assert(scc@[i] == x);
                        } else if x == w {
                            assert(scc@[prev_scc.len() as int] == w);
                        } else {
                            assert(before.contains(x));
                            assert(s.stack@.to_set().contains(x));
                        }
                    }
                }
                if w == v {
                    closed = true;
                }
            }
            let ghost comps_before = s.components();
            let ghost scc_view = scc@;
            assert(forall|x: CmdId| s.stack@.contains(x) ==> !scc_view.contains(x));
            assert(s.stack@ == s0);
            s.sccs.push(scc);
            proof {
                assert(s.components() =~= comps_before.push(s.sccs@[s.sccs@.len() - 1]@));
                lemma_flatten_push(comps_before, s.sccs@[s.sccs@.len() - 1]@);
                let f = flatten_ids(s.components());
                let t = s.sccs@[s.sccs@.len() - 1]@;
                assert(f == flatten_ids(comps_before) + t);
                assert(f.no_duplicates()) by {
                    assert forall|a: int, b: int| 0 <= a < f.len() && 0 <= b < f.len() && a != b implies f[a] != f[b] by {
                        let fl = flatten_ids(comps_before).len();
                        if a < fl && b >= fl {
                            assert(t.contains(f[b])) by { assert(t[b - fl] == f[b]); }
                            assert(flatten_ids(comps_before).contains(f[a]));
                        } else if a >= fl && b < fl {
                            assert(t.contains(f[a])) by { assert(t[a - fl] == f[a]); }
                            assert(flatten_ids(comps_before).contains(f[b]));
                        }
                    }
                }
                assert(f.to_set() =~= flatten_ids(comps_before).to_set() + t.to_set()) by {
                    assert forall|x: CmdId| f.contains(x) <==> (flatten_ids(comps_before).contains(x) || t.contains(x)) by {
                        let fl = flatten_ids(comps_before).len();
                        if f.contains(x) {
                            let i = choose|i: int| 0 <= i < f.len() && f[i] == x;
                            if i < fl { assert(flatten_ids(comps_before)[i] == x); } else { assert(t[i - fl] == x); }
                        }
                        if flatten_ids(comps_before).contains(x) {
                            let i = choose|i: int| 0 <= i < fl && flatten_ids(comps_before)[i] == x;
                            assert(f[i] == x);
                        }
                        if t.contains(x) {
                            let i = choose|i: int| 0 <= i < t.len() && t[i] == x;
                            assert(f[fl + i] == x);
                        }
                    }
                }
                assert(s.visited() =~= s.stack@.to_set() + f.to_set());
                assert(t == scc_view);
                assert forall|x: CmdId| s.stack@.contains(x) implies !f.contains(x) by {
                    assert(s0.contains(x));
                    assert(!scc_view.contains(x));
                    if f.contains(x) {
                        let fl = flatten_ids(comps_before).len();
                        let i = choose|i: int| 0 <= i < f.len() && f[i] == x;
                        if i >= fl { assert(t[i - fl] == x); }
                        else { assert(flatten_ids(comps_before)[i] == x); }
                    }
                }
                assert forall|i: int| 0 <= i < s.components().len() implies #[trigger] s.components()[i].len() > 0 by {
                    if i < comps_before.len() { assert(s.components()[i] == comps_before[i]); }
                }
                assert forall|x: CmdId| t.contains(x) <==> (s_snap.stack@.contains(x) && s_snap.index@[x] >= c) by {
                    if s_snap.stack@.contains(x) && s_snap.index@[x] >= c && !t.contains(x) {
                        assert(s0.contains(x));
                        Self::lemma_below_root(s_snap, s0, v, x);
                    }
                }
                assert forall|x: CmdId| old(s).index@.dom().contains(x) implies #[trigger] s_snap.index@[x] < c by {
                    assert(old(s).index@[x] < old(s).counter);
                }
                self.lemma_close_component(n_set, floor, s_snap, *s, v, c as int, s0, old(s).index@.dom(), t);
                assert(s.components().take(comps0.len() as int) =~= comps0) by {
                    assert forall|k: int| 0 <= k < comps0.len() implies #[trigger] s.components().take(comps0.len() as int)[k] == comps0[k] by {
                        assert(comps_before.take(comps0.len() as int)[k] == comps_before[k]);
                        assert(s.components()[k] == comps_before[k]);
                    }
                }
                assert forall|x: CmdId| #[trigger] s.stack@.contains(x) && s.index@[x] >= c implies s.stack@.contains(v) by {
                    Self::lemma_below_root(s_snap, s0, v, x);
                    assert(s_snap.stack@.contains(x)) by {
                        let i = choose|i: int| 0 <= i < s0.len() && s0[i] == x;
                        assert(s_snap.stack@.take(h + 1)[i] == s_snap.stack@[i]);
                    }
                }
                assert(s_snap.stack@[h] == v) by {
                    assert(s_snap.stack@.take(h + 1)[h] == s_snap.stack@[h]);
                }
                Self::lemma_below_root(s_snap, s0, v, v);
                assert(!s.stack@.contains(v));
                assert forall|x: CmdId| s.stack@.contains(x) implies #[trigger] s.index@[x] >= floor by {
                    assert(s0.contains(x));
                    assert(old(s).stack@.contains(x));
                    assert(old(s).visited().contains(x));
                    assert(old(s).index@.contains_key(x));
                    assert(old(s).index@[x] >= floor);
                }
            }
        } else {
            proof {
                assert(s.stack@[h] == v) by {
                    assert(s.stack@.take(h + 1)[h] == s.stack@[h]);
                }
                assert(s.stack@.contains(v));
                assert(s.index@.contains_key(v));
            }
        }
    }

    /// Tarjan's algorithm over the dependencies among `nodes`: the strongly connected
    /// components, each node in exactly one of them, the nodes of each reaching one
    /// another, and each depending only on itself and components listed before it.
    fn tarjan_sccs(&self, nodes: &Vec<CmdId>) -> (sccs: Vec<Vec<CmdId>>)
        requires
            self.wf(),
        ensures
            flatten_ids(sccs@.map_values(|c: Vec<CmdId>| c@)).no_duplicates(),
            flatten_ids(sccs@.map_values(|c: Vec<CmdId>| c@)).to_set() == nodes@.to_set(),
            forall|i: int| 0 <= i < sccs@.len() ==> #[trigger] sccs@[i]@.len() > 0,
            self.comps_closed(nodes@.to_set(), sccs@.map_values(|c: Vec<CmdId>| c@)),
            self.comps_connected(nodes@.to_set(), sccs@.map_values(|c: Vec<CmdId>| c@)),
    {
        let mut state = TarjanState {
            index: CmdMap::new(),
            low_link: CmdMap::new(),
            on_stack: CmdMap::new(),
            stack: Vec::new(),
            counter: 0,
            sccs: Vec::new(),
        };
        let ghost n_set = nodes@.to_set();
        proof {
            assert(state.components() =~= Seq::<Seq<CmdId>>::empty());
            assert(flatten_ids(state.components()) =~= Seq::<CmdId>::empty());
            assert(state.visited() =~= Set::<CmdId>::empty());
            assert(state.stack@.to_set() =~= Set::<CmdId>::empty());
            assert(state.on_stack@.dom() =~= Set::<CmdId>::empty());
            assert(state.low_link@.dom() =~= Set::<CmdId>::empty());
            assert(flatten_ids(state.components()).to_set() =~= Set::<CmdId>::empty());
            assert(state.visited() =~= state.stack@.to_set() + flatten_ids(state.components()).to_set());
            assert(state.inv(n_set, 0));
            reveal(CmdLog::comps_closed);
            reveal(CmdLog::comps_connected);
            reveal(CmdLog::lows_anchored);
            assert(self.tarjan_ok(n_set, state));
        }
        let mut i: usize = 0;
        while i < nodes.len()
            invariant
                self.wf(),
                n_set == nodes@.to_set(),
                i <= nodes@.len(),
                state.inv(n_set, 0),
                self.tarjan_ok(n_set, state),
                state.stack@.len() == 0,
                forall|k: int| 0 <= k < i ==> state.visited().contains(#[trigger] nodes@[k]),
            decreases nodes@.len() - i,
        {
            let node = nodes[i];
            if !state.index.contains_key(&node) {
                let ghost floor = state.counter as int;
                proof {
                    assert(state.inv(n_set, floor));
                    assert(nodes@.contains(node)) by { assert(nodes@[i as int] == node); }
                }
                let ghost before = state.visited();
                self.strongconnect(nodes, node, &mut state, Ghost(floor));
                proof {
                    assert(state.inv(n_set, 0));
                    assert forall|k: int| 0 <= k < i + 1 implies state.visited().contains(#[trigger] nodes@[k]) by {
                        if k < i {
                            assert(before.contains(nodes@[k]));
                        }
                    }
                }
            }
            i = i + 1;
        }
        proof {
            assert forall|i: int| 0 <= i < state.sccs@.len() implies #[trigger] state.sccs@[i]@.len() > 0 by {
                assert(state.components()[i] == state.sccs@[i]@);
            }
            assert(state.visited() =~= n_set) by {
                assert forall|x: CmdId| n_set.contains(x) implies state.visited().contains(x) by {
                    let k = choose|k: int| 0 <= k < nodes@.len() && nodes@[k] == x;
                }
            }
            assert(state.stack@.to_set() =~= Set::<CmdId>::empty());
            assert(flatten_ids(state.components()).to_set() =~= n_set);
        }
        state.sccs
    }

    /// Whenever `order` runs a command before one of its dependencies, that dependency
    /// depends back on it, directly or through commands not yet executed: only a
    /// dependency cycle lets a command run before one of its dependencies.
    pub open spec fn dependencies_first(&self, order: Seq<Command>) -> bool {
        forall|a: int, b: int| 0 <= a < b < order.len()
            && #[trigger] self.entries()[order[a].id].deps.contains(#[trigger] order[b].id)
            ==> self.pending_closure(order[b].id).contains(order[a].id)
    }

    /// Commands of `order` that reach one another through dependencies among the
    /// commands of `order` (the members of one dependency cycle) run in ascending order
    /// of identity.
    pub open spec fn cycles_ascending(&self, order: Seq<Command>) -> bool {
        let ids = order.map_values(|c: Command| c.id).to_set();
        forall|a: int, b: int| 0 <= a < b < order.len()
            && #[trigger] self.reaches_within(ids, order[a].id, order[b].id)
            && #[trigger] self.reaches_within(ids, order[b].id, order[a].id)
            ==> cmd_id_lt(order[a].id, order[b].id)
    }

    /// What `cur` runs with cycles ascending, `pre` does too, where `cur` keeps a subset
    /// of the entries of `pre` with the same dependencies.
    proof fn lemma_cycles_ascending_earlier(pre: CmdLog, cur: CmdLog, order: Seq<Command>)
        requires
            cur.entries().dom().subset_of(pre.entries().dom()),
            forall|k: CmdId| #[trigger] cur.entries().contains_key(k) ==> cur.entries()[k].deps == pre.entries()[k].deps,
            forall|i: int| 0 <= i < order.len() ==> cur.entries().contains_key(#[trigger] order[i].id),
            cur.cycles_ascending(order),
        ensures
            pre.cycles_ascending(order),
    {
        let ids = order.map_values(|c: Command| c.id).to_set();
        assert forall|x: CmdId, y: CmdId| #[trigger] pre.reaches_within(ids, x, y) implies cur.reaches_within(ids, x, y) by {
            let p = choose|p: Seq<CmdId>| #[trigger] pre.dep_walk(ids, p) && p[0] == x && p.last() == y;
            assert forall|i: int| 0 <= i < p.len() - 1 implies #[trigger] cur.dep_step(ids, p[i], p[i + 1]) by {
                assert(pre.dep_step(ids, p[i], p[i + 1]));
                let idseq = order.map_values(|c: Command| c.id);
                let q = choose|q: int| 0 <= q < idseq.len() && #[trigger] idseq[q] == p[i];
                assert(cur.entries().contains_key(order[q].id));
            }
            assert(cur.dep_walk(ids, p));
        }
    }

    proof fn lemma_closure_pending(&self, root: CmdId)
        requires
            self.entries().contains_key(root),
            !self.entries()[root].executed,
        ensures
            forall|k: CmdId| #[trigger] self.pending_closure(root).contains(k)
                ==> self.entries().contains_key(k) && !self.entries()[k].executed,
    {
        assert forall|k: CmdId| #[trigger] self.pending_closure(root).contains(k)
            implies self.entries().contains_key(k) && !self.entries()[k].executed by {
            let p = choose|p: Seq<CmdId>| #[trigger] self.pending_path(root, p) && p.last() == k;
            if p.len() > 1 {
                assert(self.pending_edge(p[p.len() - 2], p[p.len() - 2 + 1]));
            }
        }
    }

    /// The commands along a path of execution steps that starts inside the pending
    /// closure of `root` stay inside it.
    proof fn lemma_path_in_closure(&self, root: CmdId, p: Seq<CmdId>, k: int)
        requires
            self.pending_path(p[0], p),
            self.pending_closure(root).contains(p[0]),
            0 <= k < p.len(),
        ensures
            self.pending_closure(root).contains(p[k]),
        decreases k,
    {
        if k > 0 {
            self.lemma_path_in_closure(root, p, k - 1);
            let q = choose|q: Seq<CmdId>| #[trigger] self.pending_path(root, q) && q.last() == p[k - 1];
            assert(self.pending_edge(p[k - 1], p[k - 1 + 1]));
            self.lemma_pending_path_extends(root, q, p[k]);
        }
    }

    /// A command that `x` reaches through execution steps, `x` being in the pending
    /// closure of `root`, is reached from `x` within that closure.
    proof fn lemma_pending_reach_within(&self, root: CmdId, x: CmdId, y: CmdId)
        requires
            self.pending_closure(root).contains(x),
            self.pending_closure(x).contains(y),
        ensures
            self.reaches_within(self.pending_closure(root), x, y),
    {
        let nodes = self.pending_closure(root);
        let p = choose|p: Seq<CmdId>| #[trigger] self.pending_path(x, p) && p.last() == y;
        assert forall|i: int| 0 <= i < p.len() - 1 implies #[trigger] self.dep_step(nodes, p[i], p[i + 1]) by {
            assert(self.pending_edge(p[i], p[i + 1]));
            self.lemma_path_in_closure(root, p, i);
            self.lemma_path_in_closure(root, p, i + 1);
        }
        assert(self.dep_walk(nodes, p));
    }

    /// A walk that leaves a component of `comps` ends in the same or an earlier one.
    proof fn lemma_walk_comp(&self, nodes: Set<CmdId>, comps: Seq<Seq<CmdId>>, p: Seq<CmdId>, i: int)
        requires
            self.comps_closed(nodes, comps),
            self.dep_walk(nodes, p),
            0 <= i < comps.len(),
            comps[i].contains(p[0]),
        ensures
            exists|j: int| 0 <= j <= i && #[trigger] comps[j].contains(p.last()),
        decreases p.len(),
    {
        if p.len() > 1 {
            reveal(CmdLog::comps_closed);
            assert(self.dep_step(nodes, p[0], p[0int + 1]));
            let j1 = choose|j: int| 0 <= j <= i && #[trigger] comps[j].contains(p[1]);
            let q = p.drop_first();
            assert forall|k: int| 0 <= k < q.len() - 1 implies #[trigger] self.dep_step(nodes, q[k], q[k + 1]) by {
                assert(self.dep_step(nodes, p[k + 1], p[k + 1 + 1]));
            }
            self.lemma_walk_comp(nodes, comps, q, j1);
            assert(q.last() == p.last());
        } else {
            assert(comps[i].contains(p.last()));
        }
    }

    proof fn lemma_walk_pending(&self, nodes: Set<CmdId>, x: CmdId, y: CmdId)
        requires
            forall|k: CmdId| #[trigger] nodes.contains(k) ==> self.entries().contains_key(k) && !self.entries()[k].executed,
            self.reaches_within(nodes, x, y),
        ensures
            self.pending_closure(x).contains(y),
    {
        let p = choose|p: Seq<CmdId>| #[trigger] self.dep_walk(nodes, p) && p[0] == x && p.last() == y;
        assert forall|i: int| 0 <= i < p.len() - 1 implies #[trigger] self.pending_edge(p[i], p[i + 1]) by {
            assert(self.dep_step(nodes, p[i], p[i + 1]));
        }
        assert(self.pending_path(x, p));
    }

    /// What `cur` runs dependencies first, `pre` does too, where `cur` keeps a subset of
    /// the entries of `pre` with the same dependencies and at least as much executed.
    proof fn lemma_dependencies_first_earlier(pre: CmdLog, cur: CmdLog, order: Seq<Command>)
        requires
            cur.entries().dom().subset_of(pre.entries().dom()),
            forall|k: CmdId| #[trigger] cur.entries().contains_key(k) ==> cur.entries()[k].deps == pre.entries()[k].deps
                && (pre.entries()[k].executed ==> cur.entries()[k].executed),
            forall|i: int| 0 <= i < order.len() ==> cur.entries().contains_key(#[trigger] order[i].id),
            cur.dependencies_first(order),
        ensures
            pre.dependencies_first(order),
    {
        assert forall|a: int, b: int| 0 <= a < b < order.len()
            && #[trigger] pre.entries()[order[a].id].deps.contains(#[trigger] order[b].id)
            implies pre.pending_closure(order[b].id).contains(order[a].id) by {
            assert(cur.entries().contains_key(order[a].id));
            assert(cur.entries()[order[a].id].deps.contains(order[b].id));
            let y = order[b].id;
            let p = choose|p: Seq<CmdId>| #[trigger] cur.pending_path(y, p) && p.last() == order[a].id;
            assert forall|i: int| 0 <= i < p.len() - 1 implies #[trigger] pre.pending_edge(p[i], p[i + 1]) by {
                assert(cur.pending_edge(p[i], p[i + 1]));
            }
            assert(pre.pending_path(y, p));
        }
    }

    /// Executes `root` and every not yet executed command reachable through it,
    /// component by component, each component in increasing order of identity. Returns
    /// the commands executed. Nothing happens when `root` has no entry or is executed.
    fn try_execute(&mut self, root: CmdId) -> (executed: Vec<Command>)
        requires
            old(self).wf(),
        ensures
            final(self).submission_order() == old(self).submission_order(),
            final(self).wf(),
            final(self).stable() == old(self).stable(),
            final(self).entries().dom() == old(self).entries().dom(),
            ({
                let runs = old(self).entries().contains_key(root) && !old(self).entries()[root].executed;
                let closure = old(self).pending_closure(root);
                &&& forall|k: CmdId| #[trigger] old(self).entries().contains_key(k) ==> final(self).entries()[k]
                    == with_executed(old(self).entries()[k], old(self).entries()[k].executed || (runs && closure.contains(k)))
                &&& executed@.map_values(|c: Command| c.id).no_duplicates()
                &&& forall|c: Command| executed@.contains(c) <==> (runs && closure.contains(c.id)
                    && old(self).entries().contains_key(c.id) && !old(self).entries()[c.id].executed
                    && old(self).entries()[c.id].cmd == Some(c))
            }),
            old(self).dependencies_first(executed@),
            forall|a: int, b: int| 0 <= a < b < executed@.len()
                && #[trigger] old(self).pending_closure(executed@[a].id).contains(executed@[b].id)
                && #[trigger] old(self).pending_closure(executed@[b].id).contains(executed@[a].id)
                ==> cmd_id_lt(executed@[a].id, executed@[b].id),
            old(self).cycles_ascending(executed@),
    {
        let run = match self.entries.get(&root) {
            Some(e) => !e.executed,
            None => false,
        };
        if !run {
            assert(self.entries() =~= old(self).entries());
            return Vec::new();
        }
        let pending = self.collect_pending_closure(root);
        let sccs = self.tarjan_sccs(&pending);
        let ghost closure = old(self).pending_closure(root);
        proof {
            assert(old(self).comps_closed(closure, sccs@.map_values(|c: Vec<CmdId>| c@)));
            assert(old(self).comps_connected(closure, sccs@.map_values(|c: Vec<CmdId>| c@)));
        }
        let ghost pre = old(self).entries();
        let ghost done: Set<CmdId> = Set::empty();
        let ghost comps = sccs@.map_values(|c: Vec<CmdId>| c@);
        let ghost pos: Seq<int> = Seq::empty();
        let mut executed: Vec<Command> = Vec::new();
        let mut k: usize = 0;
        proof {
            assert(flatten_ids(sccs@.map_values(|c: Vec<CmdId>| c@).take(0)) =~= Seq::<CmdId>::empty());
        }
        while k < sccs.len()
            invariant
                self.wf(),
                self.submission_order() == old(self).submission_order(),
                self.stable() == old(self).stable(),
                self.entries().dom() == pre.dom(),
                pre == old(self).entries(),
                closure == old(self).pending_closure(root),
                k <= sccs@.len(),
                done == flatten_ids(sccs@.map_values(|c: Vec<CmdId>| c@).take(k as int)).to_set(),
                flatten_ids(sccs@.map_values(|c: Vec<CmdId>| c@)).to_set() == closure,
                forall|x: CmdId| #[trigger] pre.contains_key(x) ==> self.entries()[x] == with_executed(pre[x], pre[x].executed || done.contains(x)),
                executed@.map_values(|c: Command| c.id).no_duplicates(),
                forall|c: Command| executed@.contains(c) <==> (done.contains(c.id)
                    && pre.contains_key(c.id) && !pre[c.id].executed && pre[c.id].cmd == Some(c)),
                comps == sccs@.map_values(|c: Vec<CmdId>| c@),
                pos.len() == executed@.len(),
                forall|p: int| 0 <= p < pos.len() ==> 0 <= #[trigger] pos[p] < k && comps[pos[p]].contains(executed@[p].id),
                forall|p: int, q: int| 0 <= p < q < pos.len() ==> #[trigger] pos[p] <= #[trigger] pos[q],
                forall|p: int, q: int| #![trigger executed@[p], executed@[q]] 0 <= p < q < pos.len() && pos[p] == pos[q]
                    ==> cmd_id_lt(executed@[p].id, executed@[q].id),
            decreases sccs@.len() - k,
        {
            let ordered = sort_dedup_ids(&sccs[k]);
            proof {
                assert(comps[k as int] == sccs@[k as int]@);
            }
            let ghost done_k = done;
            let mut j: usize = 0;
            while j < ordered.len()
                invariant
                    self.wf(),
                    self.submission_order() == old(self).submission_order(),
                    self.stable() == old(self).stable(),
                    self.entries().dom() == pre.dom(),
                    j <= ordered@.len(),
                    done == done_k + ordered@.take(j as int).to_set(),
                    forall|x: CmdId| #[trigger] pre.contains_key(x) ==> self.entries()[x] == with_executed(pre[x], pre[x].executed || done.contains(x)),
                    executed@.map_values(|c: Command| c.id).no_duplicates(),
                    forall|c: Command| executed@.contains(c) <==> (done.contains(c.id)
                        && pre.contains_key(c.id) && !pre[c.id].executed && pre[c.id].cmd == Some(c)),
                    k < sccs@.len(),
                    comps == sccs@.map_values(|c: Vec<CmdId>| c@),
                    ordered@.to_set() == comps[k as int].to_set(),
                    pos.len() == executed@.len(),
                    forall|p: int| 0 <= p < pos.len() ==> 0 <= #[trigger] pos[p] <= k && comps[pos[p]].contains(executed@[p].id),
                    forall|p: int, q: int| 0 <= p < q < pos.len() ==> #[trigger] pos[p] <= #[trigger] pos[q],
                    forall|p: int, q: int| #![trigger executed@[p], executed@[q]] 0 <= p < q < pos.len() && pos[p] == pos[q]
                        ==> cmd_id_lt(executed@[p].id, executed@[q].id),
                    strictly_sorted(ordered@),
                    forall|p: int| 0 <= p < pos.len() && pos[p] == k ==> ordered@.take(j as int).contains(#[trigger] executed@[p].id),
                decreases ordered@.len() - j,
            {
                let id = ordered[j];
                proof {
                    assert(ordered@.take(j + 1).to_set() =~= ordered@.take(j as int).to_set().insert(id)) by {
                        assert(ordered@.take(j + 1) =~= ordered@.take(j as int).push(id));
                        lemma_push_to_set(ordered@.take(j as int), id);
                    }
                }
                let ghost done_old = done;
                let ghost exec_old = executed@;
                let ghost pos_old = pos;
                match self.entries.remove(&id) {
                    Some(mut e) => {
                        assert(pre.contains_key(id));
                        assert(e.view() == with_executed(pre[id], pre[id].executed || done_old.contains(id)));
                        if !e.executed {
                            e.executed = true;
                            let ghost before_exec = executed@;
                            match e.cmd {
                                Some(c) => {
                                    executed.push(c);
                                    proof {
                                        assert(ordered@.to_set().contains(id)) by {
                                            assert(ordered@[j as int] == id);
                                        }
                                        assert(comps[k as int].contains(id));
                                        pos = pos.push(k as int);
                                        assert(pre.contains_key(id));
                                        assert(!done.contains(id));
                                        assert(c.id == id);
                                        let ids_before = before_exec.map_values(|c: Command| c.id);
                                        assert(!ids_before.contains(id)) by {
                                            if ids_before.contains(id) {
                                                let w = choose|w: int| 0 <= w < ids_before.len() && #[trigger] ids_before[w] == id;
                                                assert(before_exec.contains(before_exec[w]));
                                            }
                                        }
                                        assert(executed@.map_values(|c: Command| c.id) =~= before_exec.map_values(|c: Command| c.id).push(id));
                                        assert forall|p: int| 0 <= p < before_exec.len() && pos[p] == k implies
                                            cmd_id_lt(#[trigger] executed@[p].id, id) by {
                                            assert(executed@[p] == before_exec[p]);
                                            assert(ordered@.take(j as int).contains(before_exec[p].id));
                                            let i = choose|i: int| 0 <= i < j && ordered@.take(j as int)[i] == before_exec[p].id;
                                            assert(ordered@[i] == before_exec[p].id);
                                        }
                                    }
                                },
                                None => {},
                            }
                        }
                        let ghost ev = e.view();
                        self.entries.insert(id, e);
                        proof {
                            done = done.insert(id);
                            assert forall|x: CmdId| #[trigger] pre.contains_key(x) implies self.entries()[x] == with_executed(pre[x], pre[x].executed || done.contains(x)) by {
                                if x == id {
                                    assert(self.entries()[x] == ev);
                                }
                            }
                            assert forall|c: Command| executed@.contains(c) <==> (done.contains(c.id)
                                && pre.contains_key(c.id) && !pre[c.id].executed && pre[c.id].cmd == Some(c)) by {
                                if executed@.contains(c) && !exec_old.contains(c) {
                                    let w = choose|w: int| 0 <= w < executed@.len() && executed@[w] == c;
                                    if w < exec_old.len() {
                                        assert(exec_old[w] == c);
                                    }
                                    assert(c == executed@[exec_old.len() as int]);
                                }
                                if exec_old.contains(c) {
                                    let w = choose|w: int| 0 <= w < exec_old.len() && exec_old[w] == c;
                                    assert(executed@[w] == c);
                                }
                                if c.id == id && done.contains(c.id) && pre.contains_key(c.id) && !pre[c.id].executed && pre[c.id].cmd == Some(c) {
                                    if !done_old.contains(id) {
                                        assert(executed@[exec_old.len() as int] == c);
                                    }
                                }
                            }
                            assert(self.entries().dom() =~= pre.dom());
                        }
                    },
                    None => {
                        proof {
                            assert(!pre.contains_key(id));
                            done = done.insert(id);
                        }
                    },
                }
                proof {
                    assert forall|p: int| 0 <= p < pos.len() && pos[p] == k implies ordered@.take(j + 1).contains(
                        #[trigger] executed@[p].id) by {
                        if p < exec_old.len() {
                            assert(executed@[p] == exec_old[p]);
                            assert(pos[p] == pos_old[p]);
                            assert(ordered@.take(j as int).contains(exec_old[p].id));
                            let i = choose|i: int| 0 <= i < j && ordered@.take(j as int)[i] == exec_old[p].id;
                            assert(ordered@.take(j + 1)[i] == exec_old[p].id);
                        } else {
                            assert(executed@[p].id == id);
                            assert(ordered@.take(j + 1)[j as int] == id);
                        }
                    }
                }
                j = j + 1;
            }
            proof {
                let comps = sccs@.map_values(|c: Vec<CmdId>| c@);
                assert(ordered@.take(ordered@.len() as int) =~= ordered@);
                assert(comps.take(k + 1) =~= comps.take(k as int).push(comps[k as int]));
                lemma_flatten_push(comps.take(k as int), comps[k as int]);
                assert(done =~= flatten_ids(comps.take(k + 1)).to_set()) by {
                    let f0 = flatten_ids(comps.take(k as int));
                    let t = comps[k as int];
                    assert forall|x: CmdId| (f0 + t).contains(x) <==> (f0.contains(x) || t.contains(x)) by {
                        if (f0 + t).contains(x) {
                            let i = choose|i: int| 0 <= i < (f0 + t).len() && (f0 + t)[i] == x;
                            if i < f0.len() { assert(f0[i] == x); } else { assert(t[i - f0.len()] == x); }
                        }
                        if f0.contains(x) {
                            let i = choose|i: int| 0 <= i < f0.len() && f0[i] == x;
                            assert((f0 + t)[i] == x);
                        }
                        if t.contains(x) {
                            let i = choose|i: int| 0 <= i < t.len() && t[i] == x;
                            assert((f0 + t)[f0.len() + i] == x);
                        }
                    }
                }
            }
            k = k + 1;
        }
        proof {
            let comps = sccs@.map_values(|c: Vec<CmdId>| c@);
            assert(comps.take(comps.len() as int) =~= comps);
            assert(done == closure);
        }
        proof {
            old(self).lemma_closure_pending(root);
            reveal(CmdLog::comps_closed);
            reveal(CmdLog::comps_connected);
            let order = executed@;
            assert forall|a: int, b: int| 0 <= a < b < order.len()
                && #[trigger] pre[order[a].id].deps.contains(#[trigger] order[b].id)
                implies old(self).pending_closure(order[b].id).contains(order[a].id) by {
                let x = order[a].id;
                let y = order[b].id;
                assert(order.contains(order[a]));
                assert(order.contains(order[b]));
                assert(comps[pos[a]].contains(x));
                assert(comps[pos[b]].contains(y));
                lemma_flatten_contains(comps, x);
                lemma_flatten_contains(comps, y);
                assert(closure.contains(x) && closure.contains(y));
                assert(old(self).dep_step(closure, x, y));
                let jj = choose|jj: int| 0 <= jj <= pos[a] && #[trigger] comps[jj].contains(y);
                lemma_flatten_unique(comps, jj, pos[b], y);
                assert(pos[a] <= pos[b]);
                assert(old(self).reaches_within(closure, y, x));
                old(self).lemma_walk_pending(closure, y, x);
            }
            assert forall|a: int, b: int| 0 <= a < b < order.len()
                && #[trigger] old(self).pending_closure(order[a].id).contains(order[b].id)
                && #[trigger] old(self).pending_closure(order[b].id).contains(order[a].id)
                implies cmd_id_lt(order[a].id, order[b].id) by {
                let x = order[a].id;
                let y = order[b].id;
                assert(order.contains(order[a]));
                assert(order.contains(order[b]));
                assert(comps[pos[a]].contains(x));
                assert(comps[pos[b]].contains(y));
                assert(closure.contains(x) && closure.contains(y));
                old(self).lemma_pending_reach_within(root, x, y);
                let p = choose|p: Seq<CmdId>| #[trigger] old(self).dep_walk(closure, p) && p[0] == x && p.last() == y;
                old(self).lemma_walk_comp(closure, comps, p, pos[a]);
                let jb = choose|j: int| 0 <= j <= pos[a] && #[trigger] comps[j].contains(y);
                lemma_flatten_unique(comps, jb, pos[b], y);
                assert(pos[a] <= pos[b]);
                assert(pos[a] == pos[b]);
                assert(cmd_id_lt(executed@[a].id, executed@[b].id));
            }
            let ids = order.map_values(|c: Command| c.id).to_set();
            assert forall|x: CmdId| #[trigger] ids.contains(x) implies old(self).entries().contains_key(x)
                && !old(self).entries()[x].executed by {
                let idseq = order.map_values(|c: Command| c.id);
                let q = choose|q: int| 0 <= q < idseq.len() && #[trigger] idseq[q] == x;
                assert(order.contains(order[q]));
            }
            assert forall|a: int, b: int| 0 <= a < b < order.len()
                && #[trigger] old(self).reaches_within(ids, order[a].id, order[b].id)
                && #[trigger] old(self).reaches_within(ids, order[b].id, order[a].id)
                implies cmd_id_lt(order[a].id, order[b].id) by {
                old(self).lemma_walk_pending(ids, order[a].id, order[b].id);
                old(self).lemma_walk_pending(ids, order[b].id, order[a].id);
                assert(old(self).pending_closure(order[a].id).contains(order[b].id));
            }
        }
        executed
    }

    /// The commands that promoting `ids` executes: those reachable through not yet
    /// executed dependencies from a promoted command not yet executed itself.
    pub open spec fn runs_from(&self, ids: Set<CmdId>) -> Set<CmdId> {
        Set::new(|k: CmdId| exists|id: CmdId| ids.contains(id) && self.entries().contains_key(id)
            && !self.entries()[id].executed && #[trigger] self.pending_closure(id).contains(k))
    }

    proof fn lemma_root_in_closure(&self, r: CmdId)
        ensures
            self.pending_closure(r).contains(r),
    {
        assert(self.pending_path(r, seq![r]));
    }

    proof fn lemma_closure_trans(&self, a: CmdId, b: CmdId, k: CmdId)
        requires
            self.pending_closure(a).contains(b),
            self.pending_closure(b).contains(k),
        ensures
            self.pending_closure(a).contains(k),
    {
        let p = choose|p: Seq<CmdId>| #[trigger] self.pending_path(a, p) && p.last() == b;
        let q = choose|q: Seq<CmdId>| #[trigger] self.pending_path(b, q) && q.last() == k;
        let r = p + q.subrange(1, q.len() as int);
        assert forall|i: int| 0 <= i < r.len() - 1 implies #[trigger] self.pending_edge(r[i], r[i + 1]) by {
            if i < p.len() - 1 {
                assert(r[i] == p[i] && r[i + 1] == p[i + 1]);
                assert(self.pending_edge(p[i], p[i + 1]));
            } else {
                let t = i - (p.len() - 1);
                assert(r[i] == q[t]);
                assert(r[i + 1] == q[t + 1]);
                assert(self.pending_edge(q[t], q[t + 1]));
            }
        }
        assert(r.last() == k) by {
            if q.len() == 1 {
                assert(r =~= p);
            } else {
                assert(r.last() == q.last());
            }
        }
        assert(self.pending_path(a, r));
    }

    proof fn lemma_runs_from_closed(&self, ids: Set<CmdId>, r: CmdId, k: CmdId)
        requires
            self.runs_from(ids).contains(r),
            self.pending_closure(r).contains(k),
        ensures
            self.runs_from(ids).contains(k),
    {
        let id = choose|id: CmdId| ids.contains(id) && self.entries().contains_key(id)
            && !self.entries()[id].executed && #[trigger] self.pending_closure(id).contains(r);
        self.lemma_closure_trans(id, r, k);
    }

    /// One promotion step, from `mid`, a later state of `pre` that has executed exactly
    /// what promoting `ids` executes and removed only such commands, running from `id`:
    /// what `mid` has executed or reaches from `id` is what promoting `ids` and `id`
    /// executes.
    proof fn lemma_step_runs(pre: CmdLog, mid: CmdLog, ids: Set<CmdId>, id: CmdId)
        requires
            mid.entries().dom().subset_of(pre.entries().dom()),
            forall|k: CmdId| #[trigger] mid.entries().contains_key(k) ==> mid.entries()[k].deps == pre.entries()[k].deps
                && mid.entries()[k].executed == (pre.entries()[k].executed || pre.runs_from(ids).contains(k)),
            forall|k: CmdId| #[trigger] pre.entries().contains_key(k) && !mid.entries().contains_key(k)
                ==> pre.entries()[k].executed || pre.runs_from(ids).contains(k),
            mid.entries().contains_key(id),
        ensures
            forall|k: CmdId| #[trigger] mid.entries().contains_key(k) ==>
                ((mid.entries()[k].executed || (!mid.entries()[id].executed && mid.pending_closure(id).contains(k)))
                <==> (pre.entries()[k].executed || pre.runs_from(ids.insert(id)).contains(k))),
    {
        let runs = !mid.entries()[id].executed;
        assert forall|k: CmdId| #[trigger] mid.entries().contains_key(k) implies
            ((mid.entries()[k].executed || (runs && mid.pending_closure(id).contains(k)))
            <==> (pre.entries()[k].executed || pre.runs_from(ids.insert(id)).contains(k))) by {
            if pre.runs_from(ids).contains(k) {
                let r = choose|r: CmdId| ids.contains(r) && pre.entries().contains_key(r)
                    && !pre.entries()[r].executed && #[trigger] pre.pending_closure(r).contains(k);
                assert(ids.insert(id).contains(r));
            }
            if runs && mid.pending_closure(id).contains(k) {
                let p = choose|p: Seq<CmdId>| #[trigger] mid.pending_path(id, p) && p.last() == k;
                assert forall|i: int| 0 <= i < p.len() - 1 implies #[trigger] pre.pending_edge(p[i], p[i + 1]) by {
                    assert(mid.pending_edge(p[i], p[i + 1]));
                }
                assert(pre.pending_path(id, p));
                assert(ids.insert(id).contains(id));
                assert(pre.entries().contains_key(id));
                assert(!pre.entries()[id].executed);
                assert(pre.pending_closure(id).contains(k));
                assert(pre.runs_from(ids.insert(id)).contains(k));
            }
            if pre.runs_from(ids.insert(id)).contains(k) && !pre.entries()[k].executed && !pre.runs_from(ids).contains(k) {
                let r = choose|r: CmdId| ids.insert(id).contains(r) && pre.entries().contains_key(r)
                    && !pre.entries()[r].executed && #[trigger] pre.pending_closure(r).contains(k);
                if r != id {
                    assert(ids.contains(r));
                } else {
                    if !runs {
                        assert(pre.runs_from(ids).contains(id));
                        pre.lemma_runs_from_closed(ids, id, k);
                    } else {
                        let p = choose|p: Seq<CmdId>| #[trigger] pre.pending_path(id, p) && p.last() == k;
                        if exists|s: int| 1 <= s < p.len() && #[trigger] pre.runs_from(ids).contains(p[s]) {
                            let s = choose|s: int| 1 <= s < p.len() && #[trigger] pre.runs_from(ids).contains(p[s]);
                            let q = p.subrange(s, p.len() as int);
                            assert forall|i: int| 0 <= i < q.len() - 1 implies #[trigger] pre.pending_edge(q[i], q[i + 1]) by {
                                assert(q[i] == p[s + i] && q[i + 1] == p[s + i + 1]);
                                assert(pre.pending_edge(p[s + i], p[s + i + 1]));
                            }
                            assert(pre.pending_path(p[s], q));
                            assert(q.last() == k);
                            pre.lemma_runs_from_closed(ids, p[s], k);
                        } else {
                            assert forall|s: int| 1 <= s < p.len() implies mid.entries().contains_key(#[trigger] p[s])
                                && !mid.entries()[p[s]].executed by {
                                assert(pre.pending_edge(p[s - 1], p[s - 1 + 1]));
                                assert(!pre.runs_from(ids).contains(p[s]));
                            }
                            assert forall|i: int| 0 <= i < p.len() - 1 implies #[trigger] mid.pending_edge(p[i], p[i + 1]) by {
                                assert(pre.pending_edge(p[i], p[i + 1]));
                                if i > 0 {
                                    assert(mid.entries().contains_key(p[i]));
                                }
                                assert(mid.entries().contains_key(p[i + 1]));
                            }
                            assert(mid.pending_path(id, p));
                        }
                    }
                }
            }
        }
    }

    /// One promotion step keeps the account of what the steps so far executed: together
    /// they executed exactly what promoting `ids` and `id` executes, no command twice, and
    /// no command before one of its dependencies run in a later step.
    proof fn lemma_promote_reports(pre: CmdLog, mid: CmdLog, ids: Set<CmdId>, id: CmdId,
        prev_steps: Seq<StableStep>, steps: Seq<StableStep>, executed: Seq<Command>)
        requires
            mid.entries().dom().subset_of(pre.entries().dom()),
            forall|k: CmdId| #[trigger] mid.entries().contains_key(k) ==> mid.entries()[k].deps == pre.entries()[k].deps
                && mid.entries()[k].cmd == pre.entries()[k].cmd
                && mid.entries()[k].executed == (pre.entries()[k].executed || pre.runs_from(ids).contains(k)),
            forall|k: CmdId| #[trigger] pre.entries().contains_key(k) && !mid.entries().contains_key(k)
                ==> pre.entries()[k].executed || pre.runs_from(ids).contains(k),
            mid.entries().contains_key(id),
            executed.map_values(|c: Command| c.id).no_duplicates(),
            forall|c: Command| executed.contains(c) <==> (!mid.entries()[id].executed
                && mid.pending_closure(id).contains(c.id) && mid.entries().contains_key(c.id)
                && !mid.entries()[c.id].executed && mid.entries()[c.id].cmd == Some(c)),
            forall|j: int| 0 <= j < prev_steps.len() ==> (#[trigger] prev_steps[j].executed@).map_values(|c: Command| c.id).no_duplicates(),
            forall|c: Command| (exists|j: int| 0 <= j < prev_steps.len() && #[trigger] prev_steps[j].executed@.contains(c))
                <==> (pre.runs_from(ids).contains(c.id) && pre.entries().contains_key(c.id)
                    && !pre.entries()[c.id].executed && pre.entries()[c.id].cmd == Some(c)),
            forall|a: int, b: int, c: Command| 0 <= a < b < prev_steps.len() && #[trigger] prev_steps[a].executed@.contains(c)
                ==> !#[trigger] prev_steps[b].executed@.contains(c),
            forall|a: int, b: int, x: int, y: int| 0 <= a < b < prev_steps.len() && 0 <= x < prev_steps[a].executed@.len()
                && 0 <= y < prev_steps[b].executed@.len()
                ==> !pre.entries()[#[trigger] prev_steps[a].executed@[x].id].deps.contains(#[trigger] prev_steps[b].executed@[y].id),
            steps.len() == prev_steps.len() + 1,
            forall|j: int| 0 <= j < prev_steps.len() ==> steps[j] == prev_steps[j],
            steps[prev_steps.len() as int].executed@ == executed,
        ensures
            forall|j: int| 0 <= j < steps.len() ==> (#[trigger] steps[j].executed@).map_values(|c: Command| c.id).no_duplicates(),
            forall|c: Command| (exists|j: int| 0 <= j < steps.len() && #[trigger] steps[j].executed@.contains(c))
                <==> (pre.runs_from(ids.insert(id)).contains(c.id) && pre.entries().contains_key(c.id)
                    && !pre.entries()[c.id].executed && pre.entries()[c.id].cmd == Some(c)),
            forall|a: int, b: int, c: Command| 0 <= a < b < steps.len() && #[trigger] steps[a].executed@.contains(c)
                ==> !#[trigger] steps[b].executed@.contains(c),
            forall|a: int, b: int, x: int, y: int| 0 <= a < b < steps.len() && 0 <= x < steps[a].executed@.len()
                && 0 <= y < steps[b].executed@.len()
                ==> !pre.entries()[#[trigger] steps[a].executed@[x].id].deps.contains(#[trigger] steps[b].executed@[y].id),
    {
        let m = prev_steps.len() as int;
        CmdLog::lemma_step_runs(pre, mid, ids, id);
        assert forall|j: int| 0 <= j < steps.len() implies (#[trigger] steps[j].executed@).map_values(|c: Command| c.id).no_duplicates() by {
            if j < m {
                assert(steps[j] == prev_steps[j]);
            }
        }
        assert forall|c: Command| (exists|j: int| 0 <= j < steps.len() && #[trigger] steps[j].executed@.contains(c))
            <==> (pre.runs_from(ids.insert(id)).contains(c.id) && pre.entries().contains_key(c.id)
                && !pre.entries()[c.id].executed && pre.entries()[c.id].cmd == Some(c)) by {
            if exists|j: int| 0 <= j < steps.len() && #[trigger] steps[j].executed@.contains(c) {
                let j = choose|j: int| 0 <= j < steps.len() && #[trigger] steps[j].executed@.contains(c);
                if j < m {
                    assert(steps[j] == prev_steps[j]);
                    assert(prev_steps[j].executed@.contains(c));
                    assert(pre.runs_from(ids).contains(c.id));
                    let r = choose|r: CmdId| ids.contains(r) && pre.entries().contains_key(r)
                        && !pre.entries()[r].executed && #[trigger] pre.pending_closure(r).contains(c.id);
                    assert(ids.insert(id).contains(r));
                    assert(pre.runs_from(ids.insert(id)).contains(c.id));
                } else {
                    assert(j == m);
                    assert(steps[j].executed@ == executed);
                    assert(executed.contains(c));
                    assert(mid.entries().contains_key(c.id));
                    assert(!mid.entries()[c.id].executed);
                    assert(!pre.entries()[c.id].executed);
                    assert(pre.runs_from(ids.insert(id)).contains(c.id));
                    assert(pre.entries()[c.id].cmd == Some(c));
                }
            }
            if pre.runs_from(ids.insert(id)).contains(c.id) && pre.entries().contains_key(c.id)
                && !pre.entries()[c.id].executed && pre.entries()[c.id].cmd == Some(c) {
                if pre.runs_from(ids).contains(c.id) {
                    let j = choose|j: int| 0 <= j < prev_steps.len() && #[trigger] prev_steps[j].executed@.contains(c);
                    assert(steps[j] == prev_steps[j]);
                    assert(steps[j].executed@.contains(c));
                } else {
                    assert(mid.entries().contains_key(c.id));
                    assert(!mid.entries()[c.id].executed);
                    assert(executed.contains(c));
                    assert(steps[m].executed@.contains(c));
                }
            }
        }
        assert forall|a: int, b: int, c: Command| 0 <= a < b < steps.len() && #[trigger] steps[a].executed@.contains(c)
            implies !#[trigger] steps[b].executed@.contains(c) by {
            assert(steps[a] == prev_steps[a]);
            if b < m {
                assert(steps[b] == prev_steps[b]);
            } else if steps[b].executed@.contains(c) {
                assert(prev_steps[a].executed@.contains(c));
                assert(pre.runs_from(ids).contains(c.id));
                assert(executed.contains(c));
            }
        }
        assert forall|a: int, b: int, x: int, y: int| 0 <= a < b < steps.len() && 0 <= x < steps[a].executed@.len()
            && 0 <= y < steps[b].executed@.len()
            implies !pre.entries()[#[trigger] steps[a].executed@[x].id].deps.contains(#[trigger] steps[b].executed@[y].id) by {
            assert(steps[a] == prev_steps[a]);
            if b < m {
                assert(steps[b] == prev_steps[b]);
            } else {
                let u = prev_steps[a].executed@[x];
                let w = executed[y];
                assert(steps[b].executed@[y] == w);
                assert(prev_steps[a].executed@.contains(u));
                assert(pre.runs_from(ids).contains(u.id));
                assert(executed.contains(w));
                assert(mid.entries().contains_key(w.id));
                if pre.entries()[u.id].deps.contains(w.id) {
                    assert(pre.pending_edge(u.id, w.id));
                    let p = seq![u.id, w.id];
                    assert forall|i: int| 0 <= i < p.len() - 1 implies #[trigger] pre.pending_edge(p[i], p[i + 1]) by {
                        assert(i == 0);
                    }
                    assert(pre.pending_path(u.id, p));
                    assert(pre.pending_closure(u.id).contains(w.id));
                    pre.lemma_runs_from_closed(ids, u.id, w.id);
                }
            }
        }
    }

    /// The commands that a promotion makes stable: in phase Commit with every
    /// reachable dependency committed.
    pub open spec fn promotable(&self) -> Set<CmdId> {
        Set::new(|k: CmdId| self.entries().contains_key(k) && self.entries()[k].phase == Phase::Commit
            && self.closure_committed(self.entries()[k].deps))
    }

    /// What a promotion at `now` on process `pid` does from `pre` to `post`: the
    /// promotable commands become stable (each reported once, with its latency and
    /// whether `pid` created it) and leave the entries. A command becomes executed exactly
    /// when it is reachable through not yet executed dependencies from a promoted command
    /// not yet executed; each step reports the commands it executes, each at most once
    /// over all steps, and runs them dependencies first: a command runs before one of its
    /// dependencies only within a dependency cycle, and never in an earlier step; the
    /// members of a dependency cycle run in ascending order of identity.
    pub open spec fn promotes(pre: &CmdLog, post: &CmdLog, steps: Seq<StableStep>, now: usize, pid: Pid) -> bool {
        let n = pre.promotable();
        &&& post.stable() == pre.stable().union(n)
        &&& post.entries().dom() == pre.entries().dom().difference(n)
        &&& forall|k: CmdId| #[trigger] post.entries().contains_key(k) ==> {
            &&& post.entries()[k] == with_executed(pre.entries()[k], post.entries()[k].executed)
            &&& post.entries()[k].executed == (pre.entries()[k].executed || pre.runs_from(n).contains(k))
        }
        &&& steps.map_values(|st: StableStep| st.cmd_id).no_duplicates()
        &&& steps.map_values(|st: StableStep| st.cmd_id).to_set() == n
        &&& forall|i: int| 0 <= i < steps.len() ==> step_reported(#[trigger] steps[i], pre.entries(), now, pid)
        &&& forall|i: int| 0 <= i < steps.len() ==> pre.dependencies_first(#[trigger] steps[i].executed@)
        &&& forall|i: int| 0 <= i < steps.len() ==> pre.cycles_ascending(#[trigger] steps[i].executed@)
        &&& forall|i: int| 0 <= i < steps.len() ==> (#[trigger] steps[i].executed@).map_values(|c: Command| c.id).no_duplicates()
        &&& forall|c: Command| (exists|i: int| 0 <= i < steps.len() && #[trigger] steps[i].executed@.contains(c))
            <==> (pre.runs_from(n).contains(c.id) && pre.entries().contains_key(c.id)
                && !pre.entries()[c.id].executed && pre.entries()[c.id].cmd == Some(c))
        &&& forall|i: int, j: int, c: Command| 0 <= i < j < steps.len() && #[trigger] steps[i].executed@.contains(c)
            ==> !#[trigger] steps[j].executed@.contains(c)
        &&& forall|i: int, j: int, a: int, b: int| 0 <= i < j < steps.len() && 0 <= a < steps[i].executed@.len()
            && 0 <= b < steps[j].executed@.len()
            ==> !pre.entries()[#[trigger] steps[i].executed@[a].id].deps.contains(#[trigger] steps[j].executed@[b].id)
    }

    /// After a promotion nothing is left promotable: every committed command still in
    /// the entries has, in the closure of its dependencies, a command that is neither
    /// stable nor committed.
    pub proof fn lemma_promotion_leaves_nothing_promotable(pre: &CmdLog, post: &CmdLog, steps: Seq<StableStep>, now: usize, pid: Pid)
        requires
            CmdLog::promotes(pre, post, steps, now, pid),
        ensures
            post.promotable() == Set::<CmdId>::empty(),
    {
        let n = pre.promotable();
        assert forall|w: CmdId| !#[trigger] post.promotable().contains(w) by {
            if post.promotable().contains(w) {
                assert(post.entries().contains_key(w));
                assert(pre.entries().contains_key(w) && !n.contains(w));
                assert(post.entries()[w] == with_executed(pre.entries()[w], post.entries()[w].executed));
                let deps = pre.entries()[w].deps;
                assert(!pre.closure_committed(deps));
                let k = choose|k: CmdId| #[trigger] pre.reaches(deps, k) && !pre.is_committed(k);
                let p = choose|p: Seq<CmdId>| #[trigger] pre.dep_path(deps, p) && p.last() == k;
                assert forall|m: int| 0 <= m < p.len() implies !#[trigger] n.contains(p[m]) by {
                    if n.contains(p[m]) {
                        if m == p.len() - 1 {
                            assert(pre.committed_entry(k));
                        } else {
                            let q = p.subrange(m + 1, p.len() as int);
                            assert(0 <= m < p.len() - 1);
                            assert(pre.dep_path(deps, p));
                            assert(pre.expands(p[m]));
                            assert forall|i: int| 0 <= i < q.len() - 1 implies #[trigger] pre.expands(q[i])
                                && pre.entries()[q[i]].deps.contains(q[i + 1]) by {
                                assert(q[i] == p[m + 1 + i] && q[i + 1] == p[m + 1 + i + 1]);
                                assert(pre.expands(p[m + 1 + i]));
                            }
                            assert(pre.dep_path(pre.entries()[p[m]].deps, q));
                            assert(q.last() == k);
                            assert(pre.reaches(pre.entries()[p[m]].deps, k));
                        }
                    }
                }
                assert forall|i: int| 0 <= i < p.len() - 1 implies #[trigger] post.expands(p[i])
                    && post.entries()[p[i]].deps.contains(p[i + 1]) by {
                    assert(pre.expands(p[i]));
                    assert(!n.contains(p[i]));
                    assert(post.entries().contains_key(p[i]));
                    assert(post.entries()[p[i]] == with_executed(pre.entries()[p[i]], post.entries()[p[i]].executed));
                }
                assert(post.dep_path(deps, p));
                assert(post.reaches(deps, k));
                assert(!n.contains(p[p.len() - 1]));
                if post.committed_entry(k) {
                    assert(post.entries()[k] == with_executed(pre.entries()[k], post.entries()[k].executed));
                }
                assert(!post.is_committed(k));
            }
        }
        assert(post.promotable() =~= Set::<CmdId>::empty());
    }

    fn newly_stable(&self) -> (ids: Vec<CmdId>)
        requires
            self.wf(),
        ensures
            ids@.no_duplicates(),
            ids@.to_set() == self.promotable(),
    {
        proof {
            self.entries.lemma_key_seq();
        }
        let keys = self.entries.keys();
        let mut ids: Vec<CmdId> = Vec::new();
        let mut i: usize = 0;
        while i < keys.len()
            invariant
                self.wf(),
                keys@ == self.entries.key_seq(),
                keys@.no_duplicates(),
                forall|k: CmdId| self.entries@.contains_key(k) <==> keys@.contains(k),
                i <= keys@.len(),
                ids@.no_duplicates(),
                forall|j: int| 0 <= j < ids@.len() ==> self.promotable().contains(#[trigger] ids@[j]),
                forall|a: int| 0 <= a < i ==> (self.promotable().contains(#[trigger] keys@[a]) ==> ids@.contains(keys@[a])),
                forall|j: int| 0 <= j < ids@.len() ==> exists|a: int| 0 <= a < i && #[trigger] ids@[j] == keys@[a],
            decreases keys@.len() - i,
        {
            let k = keys[i];
            assert(keys@.contains(k));
            let e = self.entries.get(&k).unwrap();
            assert(self.entries()[k] == e.view());
            if e.phase == Phase::Commit && self.is_deps_closure_committed(&e.deps) {
                let ghost prev = ids@;
                proof {
                    assert(!prev.contains(k)) by {
                        if prev.contains(k) {
                            let j = choose|j: int| 0 <= j < prev.len() && prev[j] == k;
                            let a = choose|a: int| 0 <= a < i && #[trigger] prev[j] == keys@[a];
                        }
                    }
                }
                ids.push(k);
                proof {
                    assert(ids@ == prev.push(k));
                    assert forall|a: int| 0 <= a < i + 1 implies (self.promotable().contains(#[trigger] keys@[a]) ==> ids@.contains(keys@[a])) by {
                        if a < i && self.promotable().contains(keys@[a]) {
                            let j = choose|j: int| 0 <= j < prev.len() && prev[j] == keys@[a];
                            assert(ids@[j] == keys@[a]);
                        }
                        if a == i {
                            assert(ids@[prev.len() as int] == k);
                        }
                    }
                    assert forall|j: int| 0 <= j < ids@.len() implies exists|a: int| 0 <= a < i + 1 && #[trigger] ids@[j] == keys@[a] by {
                        if j < prev.len() {
                            let a = choose|a: int| 0 <= a < i && #[trigger] prev[j] == keys@[a];
                            assert(ids@[j] == keys@[a]);
                        } else {
                            assert(ids@[j] == keys@[i as int]);
                        }
                    }
                }
            }
            i = i + 1;
        }
        proof {
            assert(ids@.to_set() =~= self.promotable()) by {
                assert forall|k: CmdId| self.promotable().contains(k) implies ids@.contains(k) by {
                    assert(keys@.contains(k));
                    let a = choose|a: int| 0 <= a < keys@.len() && keys@[a] == k;
                }
            }
        }
        ids
    }

    /// Promotes every promotable command to stable at `now`, on process `pid`, and
    /// executes what each of them allows.
    fn promote_stable(&mut self, now: usize, pid: Pid) -> (steps: Vec<StableStep>)
        requires
            old(self).wf(),
            old(self).not_after(now),
        ensures
            final(self).submission_order() == old(self).submission_order(),
            final(self).wf(),
            final(self).not_after(now),
            CmdLog::promotes(old(self), final(self), steps@, now, pid),
    {
        let newly = self.newly_stable();
        let ghost pre = old(self).entries();
        let ghost n = old(self).promotable();
        let mut steps: Vec<StableStep> = Vec::new();
        let mut i: usize = 0;
        while i < newly.len()
            invariant
                self.wf(),
                self.submission_order() == old(self).submission_order(),
                pre == old(self).entries(),
                n == old(self).promotable(),
                newly@.no_duplicates(),
                newly@.to_set() == n,
                i <= newly@.len(),
                self.stable() == old(self).stable().union(newly@.take(i as int).to_set()),
                self.entries().dom() == pre.dom().difference(newly@.take(i as int).to_set()),
                forall|k: CmdId| #[trigger] self.entries().contains_key(k) ==> {
                    &&& self.entries()[k] == with_executed(pre[k], self.entries()[k].executed)
                    &&& self.entries()[k].executed == (pre[k].executed
                        || old(self).runs_from(newly@.take(i as int).to_set()).contains(k))
                },
                steps@.map_values(|st: StableStep| st.cmd_id) == newly@.take(i as int),
                forall|j: int| 0 <= j < steps@.len() ==> (#[trigger] steps@[j].executed@).map_values(|c: Command| c.id).no_duplicates(),
                forall|c: Command| (exists|j: int| 0 <= j < steps@.len() && #[trigger] steps@[j].executed@.contains(c))
                    <==> (old(self).runs_from(newly@.take(i as int).to_set()).contains(c.id) && pre.contains_key(c.id)
                        && !pre[c.id].executed && pre[c.id].cmd == Some(c)),
                forall|a: int, b: int, c: Command| 0 <= a < b < steps@.len() && #[trigger] steps@[a].executed@.contains(c)
                    ==> !#[trigger] steps@[b].executed@.contains(c),
                forall|a: int, b: int, x: int, y: int| 0 <= a < b < steps@.len() && 0 <= x < steps@[a].executed@.len()
                    && 0 <= y < steps@[b].executed@.len()
                    ==> !pre[#[trigger] steps@[a].executed@[x].id].deps.contains(#[trigger] steps@[b].executed@[y].id),
                forall|j: int| 0 <= j < steps@.len() ==> step_reported(#[trigger] steps@[j], pre, now, pid),
                forall|j: int| 0 <= j < steps@.len() ==> old(self).dependencies_first(#[trigger] steps@[j].executed@),
                forall|j: int| 0 <= j < steps@.len() ==> old(self).cycles_ascending(#[trigger] steps@[j].executed@),
                forall|k: CmdId| #[trigger] pre.contains_key(k) ==> pre[k].submitted_at <= now,
            decreases newly@.len() - i,
        {
            let id = newly[i];
            let ghost cur = self.entries();
            proof {
                assert(n.contains(id)) by { assert(newly@.to_set().contains(id)); }
                assert(!newly@.take(i as int).to_set().contains(id)) by {
                    if newly@.take(i as int).contains(id) {
                        let j = choose|j: int| 0 <= j < i && newly@.take(i as int)[j] == id;
                        assert(newly@[j] == newly@[i as int]);
                    }
                }
                assert(self.entries().contains_key(id));
            }
            let mut e = self.entries.remove(&id).unwrap();
            let latency = now - e.submitted_at;
            e.phase = Phase::Stable;
            let ghost ev = e.view();
            self.entries.insert(id, e);
            let ghost mid = self.entries();
            assert(mid == cur.insert(id, ev));
            assert(mid.dom() =~= cur.dom());
            let ghost mid_log = *self;
            let ghost ids_i = newly@.take(i as int).to_set();
            proof {
                assert forall|k: CmdId| #[trigger] mid_log.entries().contains_key(k) implies mid_log.entries()[k].deps == pre[k].deps
                    && mid_log.entries()[k].executed == (pre[k].executed || old(self).runs_from(ids_i).contains(k)) by {
                    assert(cur.contains_key(k));
                }
                assert forall|k: CmdId| #[trigger] pre.contains_key(k) && !mid_log.entries().contains_key(k)
                    implies pre[k].executed || old(self).runs_from(ids_i).contains(k) by {
                    assert(ids_i.contains(k));
                    assert(n.contains(k)) by {
                        let q = choose|q: int| 0 <= q < i && newly@.take(i as int)[q] == k;
                        assert(newly@[q] == k);
                        assert(newly@.to_set().contains(k));
                    }
                    old(self).lemma_root_in_closure(k);
                }
                CmdLog::lemma_step_runs(*old(self), mid_log, ids_i, id);
            }
            let executed = self.try_execute(id);
            proof {
                assert forall|k: CmdId| #[trigger] mid_log.entries().contains_key(k) implies mid_log.entries()[k].deps == pre[k].deps
                    && (pre[k].executed ==> mid_log.entries()[k].executed) by {
                    assert(cur.contains_key(k));
                    assert(cur[k] == with_executed(pre[k], cur[k].executed));
                }
                assert forall|q: int| 0 <= q < executed@.len() implies mid_log.entries().contains_key(#[trigger] executed@[q].id) by {
                    assert(executed@.contains(executed@[q]));
                }
                CmdLog::lemma_dependencies_first_earlier(*old(self), mid_log, executed@);
                CmdLog::lemma_cycles_ascending_earlier(*old(self), mid_log, executed@);
            }
            let _ = self.entries.remove(&id);
            self.stable.insert(id, ());
            let ghost prev_steps = steps@;
            steps.push(StableStep { cmd_id: id, latency, own: id.pid == pid, executed });
            proof {
                assert(newly@.take(i + 1) =~= newly@.take(i as int).push(id));
                lemma_push_to_set(newly@.take(i as int), id);
                assert(self.stable() =~= old(self).stable().union(newly@.take(i + 1).to_set()));
                assert(self.entries().dom() =~= cur.dom().remove(id));
                assert(self.entries().dom() =~= pre.dom().difference(newly@.take(i + 1).to_set()));
                assert(steps@.map_values(|st: StableStep| st.cmd_id) =~= newly@.take(i + 1));
                let ids_next = newly@.take(i + 1).to_set();
                assert(ids_next == ids_i.insert(id));
                assert forall|k: CmdId| #[trigger] self.entries().contains_key(k) implies {
                    &&& self.entries()[k] == with_executed(pre[k], self.entries()[k].executed)
                    &&& self.entries()[k].executed == (pre[k].executed || old(self).runs_from(ids_next).contains(k))
                } by {
                    assert(mid.contains_key(k));
                    assert(mid_log.entries().contains_key(k));
                }
                CmdLog::lemma_promote_reports(*old(self), mid_log, ids_i, id, prev_steps, steps@, steps@[prev_steps.len() as int].executed@);
                assert forall|j: int| 0 <= j < steps@.len() implies old(self).dependencies_first(#[trigger] steps@[j].executed@) by {
                    if j < prev_steps.len() {
                        assert(steps@[j] == prev_steps[j]);
                    }
                }
                assert forall|j: int| 0 <= j < steps@.len() implies old(self).cycles_ascending(#[trigger] steps@[j].executed@) by {
                    if j < prev_steps.len() {
                        assert(steps@[j] == prev_steps[j]);
                    }
                }
                assert forall|j: int| 0 <= j < steps@.len() implies step_reported(#[trigger] steps@[j], pre, now, pid) by {
                    if j < prev_steps.len() {
                        assert(steps@[j] == prev_steps[j]);
                    } else {
                        assert(steps@[j].cmd_id == id);
                        assert(cur.contains_key(id));
                        assert(cur[id] == with_executed(pre[id], cur[id].executed));
                        assert(steps@[j].latency == now - pre[id].submitted_at);
                        assert forall|c: Command| steps@[j].executed@.contains(c) implies pre.contains_key(c.id)
                            && !pre[c.id].executed && pre[c.id].cmd == Some(c) by {
                            assert(mid.contains_key(c.id));
                            assert(cur.contains_key(c.id));
                            assert(cur[c.id] == with_executed(pre[c.id], cur[c.id].executed));
                            if c.id == id {
                                assert(mid[id] == ev);
                            } else {
                                assert(mid[c.id] == cur[c.id]);
                            }
                        }
                    }
                }
            }
            i = i + 1;
        }
        proof {
            assert(newly@.take(newly@.len() as int) =~= newly@);
            assert(steps@.map_values(|st: StableStep| st.cmd_id) == newly@);
        }
        steps
    }

    /// What committing `cmd_id` with dependencies `deps` at `now` on process `pid` does
    /// from `pre` to `post`, reporting `steps`. A stable command is ignored. Otherwise
    /// its entry (created if needed) takes the dependencies and the phase Commit, and
    /// then whatever became promotable is promoted.
    pub open spec fn commits(pre: CmdLog, post: CmdLog, cmd_id: CmdId, deps: Seq<CmdId>, now: usize, pid: Pid, steps: Seq<StableStep>) -> bool {
        &&& pre.stable().contains(cmd_id) ==> post.entries() == pre.entries()
            && post.stable() == pre.stable() && steps.len() == 0
        &&& !pre.stable().contains(cmd_id) ==> exists|mid: CmdLog| {
            &&& mid.stable() == pre.stable()
            &&& #[trigger] mid.entries() == pre.entries().insert(cmd_id, EntryView {
                deps,
                phase: Phase::Commit,
                ..(if pre.entries().contains_key(cmd_id) {
                    pre.entries()[cmd_id]
                } else {
                    EntryView { cmd: None, submitted_at: now, deps: Seq::empty(), phase: Phase::Pending, executed: false }
                })
            })
            &&& CmdLog::promotes(&mid, &post, steps, now, pid)
        }
    }

    /// Commits `cmd_id` with dependencies `deps` at `now`, on process `pid`, then
    /// promotes whatever became promotable.
    pub fn commit(&mut self, cmd_id: CmdId, deps: Vec<CmdId>, now: usize, pid: Pid) -> (steps: Vec<StableStep>)
        requires
            old(self).wf(),
            old(self).not_after(now),
        ensures
            final(self).submission_order() == old(self).submission_order(),
            final(self).wf(),
            final(self).not_after(now),
            CmdLog::commits(*old(self), *final(self), cmd_id, deps@, now, pid, steps@),
            !old(self).stable().contains(cmd_id) ==> final(self).promotable() == Set::<CmdId>::empty(),
    {
        if self.stable.contains_key(&cmd_id) {
            return Vec::new();
        }
        let mut e = match self.entries.remove(&cmd_id) {
            Some(e) => e,
            None => Entry { cmd: None, submitted_at: now, deps: Vec::new(), phase: Phase::Pending, executed: false },
        };
        e.deps = deps;
        e.phase = Phase::Commit;
        let ghost ev = e.view();
        self.entries.insert(cmd_id, e);
        let ghost mid_log = *self;
        proof {
            assert(self.entries() =~= old(self).entries().insert(cmd_id, ev));
        }
        let steps = self.promote_stable(now, pid);
        proof {
            CmdLog::lemma_promotion_leaves_nothing_promotable(&mid_log, self, steps@, now, pid);
        }
        steps
    }
}

/// The decision path of one command of a process: whether it was decided on the fast
/// path, and the dependencies it was decided with (none while undecided).
#[derive(Clone)]
pub struct PathRecord {
    pub cmd_id: CmdId,
    pub fast: bool,
    pub deps: Option<Vec<CmdId>>,
}

/// The dependencies of a record as plain values.
pub open spec fn record_deps(r: PathRecord) -> Option<Seq<CmdId>> {
    match r.deps {
        Some(d) => Some(d@),
        None => None,
    }
}

/// The output rows of one record: one per dependency when it was decided with some,
/// otherwise a single row without a dependency. A row holds the command, whether it
/// took the fast path, whether it was decided, and the dependency.
pub open spec fn record_rows(r: PathRecord) -> Seq<(CmdId, bool, bool, Option<CmdId>)> {
    match record_deps(r) {
        Some(d) => if d.len() > 0 {
            d.map_values(|x: CmdId| (r.cmd_id, r.fast, true, Some(x)))
        } else {
            seq![(r.cmd_id, r.fast, true, None)]
        },
        None => seq![(r.cmd_id, r.fast, false, None)],
    }
}

/// The output rows of `records`, record by record.
pub open spec fn all_record_rows(records: Seq<PathRecord>) -> Seq<(CmdId, bool, bool, Option<CmdId>)>
    decreases records.len(),
{
    if records.len() == 0 {
        Seq::empty()
    } else {
        all_record_rows(records.drop_last()) + record_rows(records.last())
    }
}

/// The rows of the decision-path output for `records`, in order (see `record_rows`).
pub fn path_rows(records: &Vec<PathRecord>) -> (rows: Vec<(CmdId, bool, bool, Option<CmdId>)>)
    ensures
        rows@ == all_record_rows(records@),
{
    let mut rows: Vec<(CmdId, bool, bool, Option<CmdId>)> = Vec::new();
    let mut i: usize = 0;
    while i < records.len()
        invariant
            i <= records@.len(),
            rows@ == all_record_rows(records@.take(i as int)),
        decreases records@.len() - i,
    {
        let r = &records[i];
        let ghost before = rows@;
        match &r.deps {
            Some(deps) => {
                if deps.len() == 0 {
                    rows.push((r.cmd_id, r.fast, true, None));
                } else {
                    let mut j: usize = 0;
                    while j < deps.len()
                        invariant
                            j <= deps@.len(),
                            rows@ == before + deps@.take(j as int).map_values(|x: CmdId| (r.cmd_id, r.fast, true, Some(x))),
                        decreases deps@.len() - j,
                    {
                        rows.push((r.cmd_id, r.fast, true, Some(deps[j])));
                        assert(deps@.take(j + 1).map_values(|x: CmdId| (r.cmd_id, r.fast, true, Some(x)))
                            =~= deps@.take(j as int).map_values(|x: CmdId| (r.cmd_id, r.fast, true, Some(x))).push(
                            (r.cmd_id, r.fast, true, Some(deps@[j as int]))));
                        j = j + 1;
                    }
                    assert(deps@.take(deps@.len() as int) =~= deps@);
                }
            },
            None => {
                rows.push((r.cmd_id, r.fast, false, None));
            },
        }
        proof {
            assert(records@.take(i + 1).drop_last() =~= records@.take(i as int));
            assert(records@.take(i + 1).last() == records@[i as int]);
            assert(rows@ =~= all_record_rows(records@.take(i as int)) + record_rows(records@[i as int]));
        }
        i = i + 1;
    }
    assert(records@.take(records@.len() as int) =~= records@);
    rows
}

} // verus!
