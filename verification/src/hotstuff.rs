use vstd::prelude::*;

use crate::client::{create_cmd_for_key, CmdId, Command, Pid};
use crate::cmd_map::{CmdMap, IdMap};

verus! {

/// The vote counter of dscale: it collects values until a threshold is reached.
#[verifier::external_type_specification]
#[verifier::external_body]
#[verifier::reject_recursive_types(T)]
pub struct ExVoteQuorum<T: Sized>(dscale::helpers::Quorum<T>);

/// The values a vote counter has accepted so far (it hands them out when it fires,
/// but keeps counting them).
pub uninterp spec fn quorum_added(q: dscale::helpers::Quorum<()>) -> Seq<()>;

/// The threshold a vote counter was made with.
pub uninterp spec fn quorum_threshold(q: dscale::helpers::Quorum<()>) -> nat;

/// Calls dscale's `Quorum::new(threshold)`: a counter that fires after `threshold`
/// values, with none accepted yet.
#[verifier::external_body]
fn new_vote_quorum(threshold: usize) -> (q: dscale::helpers::Quorum<()>)
    requires
        threshold > 0,
    ensures
        quorum_added(q) == Seq::<()>::empty(),
        quorum_threshold(q) == threshold,
{
    dscale::helpers::Quorum::new(threshold)
}

/// Calls dscale's `Quorum::add(())`: a counter that has reached its threshold
/// ignores the value; otherwise it accepts it, and fires (hands out the values) when
/// this one reaches the threshold.
#[verifier::external_body]
fn add_vote(q: &mut dscale::helpers::Quorum<()>) -> (fired: bool)
    ensures
        quorum_threshold(*final(q)) == quorum_threshold(*old(q)),
        quorum_added(*old(q)).len() >= quorum_threshold(*old(q)) ==> !fired && quorum_added(*final(q)) == quorum_added(*old(q)),
        quorum_added(*old(q)).len() < quorum_threshold(*old(q)) ==> {
            &&& quorum_added(*final(q)) == quorum_added(*old(q)).push(())
            &&& fired == (quorum_added(*old(q)).len() + 1 == quorum_threshold(*old(q)))
        },
{
    q.add(()).is_some()
}

/// Identity of a node.
pub type NodeId = usize;

/// A block of the chain: its parent, its height, and the commands it carries.
pub struct Node {
    pub id: NodeId,
    pub parent: Option<NodeId>,
    pub height: usize,
    pub commands: Vec<Command>,
}

/// A node as plain values.
pub struct NodeView {
    pub id: NodeId,
    pub parent: Option<NodeId>,
    pub height: usize,
    pub commands: Seq<Command>,
}

impl Node {
    /// The node as plain values.
    pub open spec fn view(&self) -> NodeView {
        NodeView { id: self.id, parent: self.parent, height: self.height, commands: self.commands@ }
    }

    /// The genesis node: identity 0, no parent, height 0, no command.
    pub fn genesis() -> (n: Self)
        ensures
            n.view() == (NodeView { id: 0, parent: None, height: 0, commands: Seq::empty() }),
    {
        let n = Node { id: 0, parent: None, height: 0, commands: Vec::new() };
        assert(n.view().commands =~= Seq::<Command>::empty());
        n
    }
}

/// A copy of a node.
pub fn copy_node(n: &Node) -> (out: Node)
    ensures
        out.view() == n.view(),
{
    let mut commands: Vec<Command> = Vec::new();
    let mut i: usize = 0;
    while i < n.commands.len()
        invariant
            i <= n.commands@.len(),
            commands@ == n.commands@.take(i as int),
        decreases n.commands@.len() - i,
    {
        commands.push(n.commands[i]);
        i = i + 1;
        assert(commands@ =~= n.commands@.take(i as int));
    }
    assert(n.commands@.take(n.commands@.len() as int) =~= n.commands@);
    Node { id: n.id, parent: n.parent, height: n.height, commands }
}

/// A message of the protocol: a submitted command, a proposal, or a vote.
pub enum HSMessage {
    Submit(Command),
    Propose(Node),
    Vote(Node),
}

/// Whether `message` submits a command.
pub fn is_command_submission(message: &HSMessage) -> (b: bool)
    ensures
        b == (message is Submit),
{
    match message {
        HSMessage::Submit(_) => true,
        _ => false,
    }
}

/// What a Hotstuff process asks of its environment.
pub enum HotstuffAction {
    /// Send the message to one process.
    Send(Pid, HSMessage),
    /// Send the message to every process.
    Broadcast(HSMessage),
    /// Send the message to each of the processes.
    SendMany(Vec<Pid>, HSMessage),
    /// Arm the submit timer after the delay and hand its identity to
    /// `submit_timer_armed`.
    StartSubmitTimer(usize),
    /// A block was committed, with these commands.
    Commit(Vec<Command>),
}

/// The blocks that committing `n` commits above the height `floor`: its ancestors
/// known in `nodes` down to that height, oldest first, then `n`. The walk stops at
/// a parent not known or not lower.
pub open spec fn chain_to(nodes: Map<NodeId, NodeView>, n: NodeView, floor: nat) -> Seq<NodeView>
    decreases n.height,
{
    if n.height <= floor {
        Seq::empty()
    } else if n.parent is Some && nodes.contains_key(n.parent->0) && nodes[n.parent->0].height < n.height {
        chain_to(nodes, nodes[n.parent->0], floor).push(n)
    } else {
        seq![n]
    }
}

/// The parent of `n` known in `nodes`, if any. A node names its parent by identity
/// and the parent is looked up among the nodes the process keeps, so a parent that the
/// process no longer keeps (see the pruning on a commit) is unknown, even where another
/// holder of that node still has it.
pub open spec fn known_parent(nodes: Map<NodeId, NodeView>, n: NodeView) -> Option<NodeView> {
    if n.parent is Some && nodes.contains_key(n.parent->0) {
        Some(nodes[n.parent->0])
    } else {
        None
    }
}

/// A reference to a node: its identity and height.
pub struct NodeRef {
    pub id: NodeId,
    pub height: usize,
}

/// A chained Hotstuff process (with a rotating leader, or always the first
/// replica): it votes on proposals that extend its locked block or are higher, and
/// the leader proposes a new leaf once a quorum voted. A block is committed when a
/// chain of three descendants is known above it.
pub struct Hotstuff {
    rotating: bool,
    replicas: Vec<Pid>,
    submit_interval: usize,
    submit_limit: usize,
    submitted: usize,
    current_submit_timer_id: usize,
    pending_commands: CmdMap<Command>,
    pending_quorums: IdMap<(usize, dscale::helpers::Quorum<()>)>,
    nodes: IdMap<Node>,
    vheight: usize,
    b_lock: NodeRef,
    b_exec: NodeRef,
    b_leaf: NodeRef,
}

impl Hotstuff {
    /// The nodes known, by identity.
    pub closed spec fn nodes(&self) -> Map<NodeId, NodeView> {
        self.nodes@.map_values(|n: Node| n.view())
    }

    /// The height of the last proposal voted for.
    pub closed spec fn voted_height(&self) -> usize {
        self.vheight
    }

    /// The locked block.
    pub closed spec fn lock(&self) -> NodeRef {
        self.b_lock
    }

    /// The last committed block.
    pub closed spec fn exec(&self) -> NodeRef {
        self.b_exec
    }

    /// The highest leaf.
    pub closed spec fn leaf(&self) -> NodeRef {
        self.b_leaf
    }

    /// The commands submitted and not yet carried by a node.
    pub closed spec fn pending(&self) -> Map<CmdId, Command> {
        self.pending_commands@
    }

    /// The open vote counts, by node: the node's height, the votes counted, and the
    /// quorum.
    pub closed spec fn vote_counts(&self) -> Map<NodeId, (usize, nat, nat)> {
        self.pending_quorums@.map_values(|e: (usize, dscale::helpers::Quorum<()>)| (e.0, quorum_added(e.1).len(), quorum_threshold(e.1)))
    }

    /// The replicas.
    pub closed spec fn pool(&self) -> Seq<Pid> {
        self.replicas@
    }

    /// Whether the leader rotates.
    pub closed spec fn rotates(&self) -> bool {
        self.rotating
    }

    /// How many commands were submitted so far.
    pub closed spec fn submit_count(&self) -> nat {
        self.submitted as nat
    }

    /// How many commands the process submits in all.
    pub closed spec fn limit(&self) -> nat {
        self.submit_limit as nat
    }

    /// The delay between two submissions.
    pub closed spec fn interval(&self) -> usize {
        self.submit_interval
    }

    /// The armed submit timer.
    pub closed spec fn submit_timer(&self) -> usize {
        self.current_submit_timer_id
    }

    /// The maps are well formed, each node is known under its identity, the pool is
    /// not empty, and heights leave room for one more block.
    pub closed spec fn wf(&self) -> bool {
        &&& self.pending_commands.wf()
        &&& self.pending_quorums.wf()
        &&& self.nodes.wf()
        &&& forall|id: NodeId| #[trigger] self.nodes@.contains_key(id) ==> self.nodes@[id].id == id
        &&& self.replicas@.len() > 0
        &&& self.replicas@.len() * 2 <= usize::MAX
        &&& self.b_leaf.height < usize::MAX
    }

    /// A process of the pool `replicas` that knows only the genesis node, which is its
    /// locked, committed and highest block.
    pub fn new(rotating: bool, replicas: Vec<Pid>, submit_interval: usize, submit_limit: usize) -> (h: Self)
        requires
            replicas@.len() > 0,
            replicas@.len() * 2 <= usize::MAX,
        ensures
            h.wf(),
            h.rotates() == rotating,
            h.pool() == replicas@,
            h.interval() == submit_interval,
            h.limit() == submit_limit,
            h.submit_count() == 0,
            h.voted_height() == 0,
            h.lock() == (NodeRef { id: 0, height: 0 }),
            h.exec() == (NodeRef { id: 0, height: 0 }),
            h.leaf() == (NodeRef { id: 0, height: 0 }),
            h.nodes() == Map::<NodeId, NodeView>::empty().insert(0, NodeView { id: 0, parent: None, height: 0, commands: Seq::empty() }),
            h.pending() == Map::<CmdId, Command>::empty(),
            h.vote_counts() == Map::<NodeId, (usize, nat, nat)>::empty(),
    {
        let g = Node::genesis();
        let ghost gv = g.view();
        let mut nodes: IdMap<Node> = IdMap::new();
        nodes.insert(0, g);
        let h = Hotstuff {
            rotating,
            replicas,
            submit_interval,
            submit_limit,
            submitted: 0,
            current_submit_timer_id: 0,
            pending_commands: CmdMap::new(),
            pending_quorums: IdMap::new(),
            nodes,
            vheight: 0,
            b_lock: NodeRef { id: 0, height: 0 },
            b_exec: NodeRef { id: 0, height: 0 },
            b_leaf: NodeRef { id: 0, height: 0 },
        };
        assert(h.nodes() =~= Map::<NodeId, NodeView>::empty().insert(0, gv));
        assert(h.vote_counts() =~= Map::<NodeId, (usize, nat, nat)>::empty());
        h
    }

    /// The next leader: the replica of the voted height (rotating), or the first one.
    pub fn next_leader(&self) -> (p: Pid)
        requires
            self.wf(),
        ensures
            p == if self.rotates() {
                self.pool()[(self.voted_height() as int) % (self.pool().len() as int)]
            } else {
                self.pool()[0]
            },
    {
        if self.rotating {
            self.replicas[self.vheight % self.replicas.len()]
        } else {
            self.replicas[0]
        }
    }

    /// The height of the newest block the process proposed or learned of.
    pub fn leaf_height(&self) -> (h: usize)
        ensures
            h == self.leaf().height,
    {
        self.b_leaf.height
    }

    /// The quorum of votes: more than two thirds of the replicas.
    pub fn quorum_size(&self) -> (q: usize)
        requires
            self.wf(),
        ensures
            q == (self.pool().len() * 2) / 3 + 1,
    {
        (self.replicas.len() * 2) / 3 + 1
    }

    /// Whether `node`'s parent is the locked block.
    pub fn extends(&self, node: &Node) -> (b: bool)
        ensures
            b == (node.parent == Some(self.lock().id)),
    {
        match node.parent {
            Some(p) => p == self.b_lock.id,
            None => false,
        }
    }

    /// The reference to `n`.
    fn node_ref(n: &Node) -> (r: NodeRef)
        ensures
            r == (NodeRef { id: n.id, height: n.height }),
    {
        NodeRef { id: n.id, height: n.height }
    }

    /// The parent of `n` known to the process, if any.
    fn known_parent_of(&self, n: &Node) -> (p: Option<Node>)
        requires
            self.wf(),
        ensures
            match p {
                Some(p) => known_parent(self.nodes(), n.view()) == Some(p.view()),
                None => known_parent(self.nodes(), n.view()) is None,
            },
    {
        match n.parent {
            None => None,
            Some(pid) => match self.nodes.get(&pid) {
                Some(p) => Some(copy_node(p)),
                None => None,
            },
        }
    }

    /// Commits `block`: first its known ancestors above the last committed block,
    /// oldest first (see `chain_to`), then itself, each announced with its commands.
    fn commit(&self, block: &Node, actions: &mut Vec<HotstuffAction>)
        requires
            self.wf(),
        ensures
            final(actions)@.len() == old(actions)@.len() + chain_to(self.nodes(), block.view(), self.exec().height as nat).len(),
            final(actions)@.subrange(0, old(actions)@.len() as int) == old(actions)@,
            forall|i: int| 0 <= i < chain_to(self.nodes(), block.view(), self.exec().height as nat).len()
                ==> ((#[trigger] final(actions)@[old(actions)@.len() + i]) matches HotstuffAction::Commit(cs)
                && cs@ == chain_to(self.nodes(), block.view(), self.exec().height as nat)[i].commands),
        decreases block.height,
    {
        let ghost a0 = actions@;
        if self.b_exec.height < block.height {
            match self.known_parent_of(block) {
                Some(p) => {
                    if p.height < block.height {
                        self.commit(&p, actions);
                    }
                },
                None => {},
            }
            let ghost a1 = actions@;
            let cmds = copy_node(block).commands;
            actions.push(HotstuffAction::Commit(cmds));
            proof {
                let chain = chain_to(self.nodes(), block.view(), self.b_exec.height as nat);
                let kp = known_parent(self.nodes(), block.view());
                if block.parent is Some && self.nodes().contains_key(block.parent->0) && self.nodes()[block.parent->0].height < block.height {
                    let rest = chain_to(self.nodes(), self.nodes()[block.parent->0], self.b_exec.height as nat);
                    assert(chain == rest.push(block.view()));
                    assert forall|i: int| 0 <= i < chain.len() implies ((#[trigger] actions@[a0.len() + i]) matches HotstuffAction::Commit(cs)
                        && cs@ == chain[i].commands) by {
                        if i < rest.len() {
                            assert(actions@[a0.len() + i] == a1[a0.len() + i]);
                        }
                    }
                } else {
                    assert(chain == seq![block.view()]);
                    assert(a1 == a0);
                }
                assert(actions@.subrange(0, a0.len() as int) =~= a0) by {
                    assert(a1.subrange(0, a0.len() as int) == a0);
                    assert forall|k: int| 0 <= k < a0.len() implies actions@[k] == a0[k] by {
                        assert(actions@[k] == a1[k]);
                        assert(a1.subrange(0, a0.len() as int)[k] == a0[k]);
                    }
                }
            }
        } else {
            assert(actions@.subrange(0, a0.len() as int) =~= a0);
        }
    }

    /// Drops the nodes below the committed height and the vote counts not above it.
    fn collect_garbage(&mut self)
        requires
            old(self).wf(),
        ensures
            final(self).wf(),
            forall|id: NodeId| #[trigger] final(self).nodes().contains_key(id) == (old(self).nodes().contains_key(id)
                && old(self).nodes()[id].height >= old(self).exec().height),
            forall|id: NodeId| #[trigger] final(self).nodes().contains_key(id) ==> final(self).nodes()[id] == old(self).nodes()[id],
            forall|id: NodeId| #[trigger] final(self).vote_counts().contains_key(id) == (old(self).vote_counts().contains_key(id)
                && old(self).vote_counts()[id].0 > old(self).exec().height),
            forall|id: NodeId| #[trigger] final(self).vote_counts().contains_key(id) ==> final(self).vote_counts()[id] == old(self).vote_counts()[id],
            final(self).exec() == old(self).exec(),
            final(self).lock() == old(self).lock(),
            final(self).leaf() == old(self).leaf(),
            final(self).voted_height() == old(self).voted_height(),
            final(self).pending() == old(self).pending(),
            final(self).pool() == old(self).pool(),
            final(self).rotates() == old(self).rotates(),
            final(self).submit_count() == old(self).submit_count(),
            final(self).limit() == old(self).limit(),
            final(self).interval() == old(self).interval(),
            final(self).submit_timer() == old(self).submit_timer(),
    {
        let committed = self.b_exec.height;
        let keys = self.nodes.keys();
        let mut i: usize = 0;
        while i < keys.len()
            invariant
                self.nodes.wf(),
                self.pending_quorums == old(self).pending_quorums,
                self.pending_commands == old(self).pending_commands,
                self.replicas == old(self).replicas,
                self.b_exec == old(self).b_exec,
                self.b_lock == old(self).b_lock,
                self.b_leaf == old(self).b_leaf,
                self.vheight == old(self).vheight,
                self.rotating == old(self).rotating,
                self.submitted == old(self).submitted,
                self.submit_limit == old(self).submit_limit,
                self.submit_interval == old(self).submit_interval,
                self.current_submit_timer_id == old(self).current_submit_timer_id,
                committed == old(self).b_exec.height,
                keys@ == old(self).nodes.key_seq(),
                old(self).nodes.wf(),
                i <= keys@.len(),
                forall|id: NodeId| #[trigger] self.nodes@.contains_key(id) ==> old(self).nodes@.contains_key(id)
                    && self.nodes@[id] == old(self).nodes@[id],
                forall|id: NodeId| #[trigger] old(self).nodes@.contains_key(id) && !keys@.take(i as int).contains(id)
                    ==> self.nodes@.contains_key(id),
                forall|j: int| 0 <= j < i ==> (#[trigger] self.nodes@.contains_key(keys@[j]) <==>
                    old(self).nodes@[keys@[j]].height >= committed),
            decreases keys@.len() - i,
        {
            let k = keys[i];
            proof {
                old(self).nodes.lemma_key_seq();
                assert(old(self).nodes.key_seq().contains(k));
                assert(keys@.take(i as int + 1) =~= keys@.take(i as int).push(k));
            }
            proof {
                assert(!keys@.take(i as int).contains(k)) by {
                    old(self).nodes.lemma_key_seq();
                    if keys@.take(i as int).contains(k) {
                        let m = choose|m: int| 0 <= m < i && keys@.take(i as int)[m] == k;
                        assert(keys@[m] == keys@[i as int]);
                    }
                }
                assert(self.nodes@.contains_key(k));
            }
            let drop = match self.nodes.get(&k) {
                Some(n) => n.height < committed,
                None => false,
            };
            let ghost before = self.nodes@;
            if drop {
                self.nodes.remove(&k);
            }
            proof {
                assert forall|id: NodeId| #[trigger] old(self).nodes@.contains_key(id) && !keys@.take(i as int + 1).contains(id)
                    implies self.nodes@.contains_key(id) by {
                    assert(keys@.take(i as int + 1)[i as int] == k);
                    assert(!keys@.take(i as int).contains(id));
                    assert(before.contains_key(id));
                    assert(id != k);
                }
                assert forall|j: int| 0 <= j < i + 1 implies (#[trigger] self.nodes@.contains_key(keys@[j]) <==>
                    old(self).nodes@[keys@[j]].height >= committed) by {
                    if j < i {
                        assert(keys@[j] != k) by {
                            old(self).nodes.lemma_key_seq();
                        }
                    }
                }
            }
            i = i + 1;
        }
        let ghost n1 = self.nodes;
        let qkeys = self.pending_quorums.keys();
        let mut j: usize = 0;
        while j < qkeys.len()
            invariant
                self.pending_quorums.wf(),
                self.nodes == n1,
                self.pending_commands == old(self).pending_commands,
                self.replicas == old(self).replicas,
                self.b_exec == old(self).b_exec,
                self.b_lock == old(self).b_lock,
                self.b_leaf == old(self).b_leaf,
                self.vheight == old(self).vheight,
                self.rotating == old(self).rotating,
                self.submitted == old(self).submitted,
                self.submit_limit == old(self).submit_limit,
                self.submit_interval == old(self).submit_interval,
                self.current_submit_timer_id == old(self).current_submit_timer_id,
                committed == old(self).b_exec.height,
                qkeys@ == old(self).pending_quorums.key_seq(),
                old(self).pending_quorums.wf(),
                j <= qkeys@.len(),
                forall|id: NodeId| #[trigger] self.pending_quorums@.contains_key(id) ==> old(self).pending_quorums@.contains_key(id)
                    && self.pending_quorums@[id] == old(self).pending_quorums@[id],
                forall|id: NodeId| #[trigger] old(self).pending_quorums@.contains_key(id) && !qkeys@.take(j as int).contains(id)
                    ==> self.pending_quorums@.contains_key(id),
                forall|m: int| 0 <= m < j ==> (#[trigger] self.pending_quorums@.contains_key(qkeys@[m]) <==>
                    old(self).pending_quorums@[qkeys@[m]].0 > committed),
            decreases qkeys@.len() - j,
        {
            let k = qkeys[j];
            proof {
                old(self).pending_quorums.lemma_key_seq();
                assert(qkeys@.take(j as int + 1) =~= qkeys@.take(j as int).push(k));
            }
            proof {
                assert(!qkeys@.take(j as int).contains(k)) by {
                    old(self).pending_quorums.lemma_key_seq();
                    if qkeys@.take(j as int).contains(k) {
                        let m = choose|m: int| 0 <= m < j && qkeys@.take(j as int)[m] == k;
                        assert(qkeys@[m] == qkeys@[j as int]);
                    }
                }
                assert(qkeys@[j as int] == k);
                assert(qkeys@.contains(k));
                old(self).pending_quorums.lemma_key_seq();
                assert(old(self).pending_quorums@.contains_key(k));
                assert(self.pending_quorums@.contains_key(k));
            }
            let drop = match self.pending_quorums.get(&k) {
                Some(e) => e.0 <= committed,
                None => false,
            };
            let ghost before = self.pending_quorums@;
            if drop {
                self.pending_quorums.remove(&k);
            }
            proof {
                assert forall|id: NodeId| #[trigger] old(self).pending_quorums@.contains_key(id) && !qkeys@.take(j as int + 1).contains(id)
                    implies self.pending_quorums@.contains_key(id) by {
                    assert(qkeys@.take(j as int + 1)[j as int] == k);
                    assert(!qkeys@.take(j as int).contains(id));
                    assert(before.contains_key(id));
                    assert(id != k);
                }
                assert forall|m: int| 0 <= m < j + 1 implies (#[trigger] self.pending_quorums@.contains_key(qkeys@[m]) <==>
                    old(self).pending_quorums@[qkeys@[m]].0 > committed) by {
                    if m < j {
                        assert(qkeys@[m] != k) by {
                            old(self).pending_quorums.lemma_key_seq();
                        }
                    }
                }
            }
            j = j + 1;
        }
        proof {
            old(self).nodes.lemma_key_seq();
            old(self).pending_quorums.lemma_key_seq();
            assert(keys@.take(keys@.len() as int) =~= keys@);
            assert(qkeys@.take(qkeys@.len() as int) =~= qkeys@);
            assert forall|id: NodeId| #[trigger] self.nodes().contains_key(id) == (old(self).nodes().contains_key(id)
                && old(self).nodes()[id].height >= old(self).exec().height) by {
                if old(self).nodes@.contains_key(id) {
                    let j = choose|j: int| 0 <= j < keys@.len() && keys@[j] == id;
                }
            }
            assert forall|id: NodeId| #[trigger] self.vote_counts().contains_key(id) == (old(self).vote_counts().contains_key(id)
                && old(self).vote_counts()[id].0 > old(self).exec().height) by {
                if old(self).pending_quorums@.contains_key(id) {
                    let j = choose|j: int| 0 <= j < qkeys@.len() && qkeys@[j] == id;
                }
            }
        }
    }

    /// The order in which the pending commands are held.
    pub closed spec fn pending_order(&self) -> Seq<CmdId> {
        self.pending_commands.key_seq()
    }

    /// Updates the chain state with `node`: it becomes the highest leaf if higher; its
    /// grandparent becomes the lock if higher; and its great-grandparent, if known, is
    /// committed (see `commit`), becomes the committed block, and older state is
    /// collected (see `collect_garbage`).
    fn update(&mut self, node: &Node, actions: &mut Vec<HotstuffAction>)
        requires
            old(self).wf(),
            node.height < usize::MAX,
        ensures
            final(self).wf(),
            ({
                let nodes = old(self).nodes();
                let p = known_parent(nodes, node.view());
                let g = match p { Some(pv) => known_parent(nodes, pv), None => None };
                let gg = match g { Some(gv) => known_parent(nodes, gv), None => None };
                &&& final(self).leaf() == if node.height > old(self).leaf().height {
                    NodeRef { id: node.id, height: node.height }
                } else {
                    old(self).leaf()
                }
                &&& final(self).lock() == match g {
                    Some(gv) => if gv.height > old(self).lock().height { NodeRef { id: gv.id, height: gv.height } } else { old(self).lock() },
                    None => old(self).lock(),
                }
                &&& match gg {
                    Some(b) => {
                        let chain = chain_to(nodes, b, old(self).exec().height as nat);
                        &&& final(self).exec() == (NodeRef { id: b.id, height: b.height })
                        &&& final(actions)@.len() == old(actions)@.len() + chain.len()
                        &&& final(actions)@.subrange(0, old(actions)@.len() as int) == old(actions)@
                        &&& forall|i: int| 0 <= i < chain.len() ==> ((#[trigger] final(actions)@[old(actions)@.len() + i])
                            matches HotstuffAction::Commit(cs) && cs@ == chain[i].commands)
                        &&& forall|id: NodeId| #[trigger] final(self).nodes().contains_key(id) == (nodes.contains_key(id)
                            && nodes[id].height >= b.height)
                        &&& forall|id: NodeId| #[trigger] final(self).nodes().contains_key(id) ==> final(self).nodes()[id] == nodes[id]
                    },
                    None => {
                        &&& final(self).exec() == old(self).exec()
                        &&& final(actions)@ == old(actions)@
                        &&& final(self).nodes() == nodes
                        &&& final(self).vote_counts() == old(self).vote_counts()
                    },
                }
            }),
            final(self).voted_height() == old(self).voted_height(),
            final(self).pending() == old(self).pending(),
            final(self).pool() == old(self).pool(),
            final(self).rotates() == old(self).rotates(),
            final(self).submit_count() == old(self).submit_count(),
            final(self).limit() == old(self).limit(),
            final(self).interval() == old(self).interval(),
            final(self).submit_timer() == old(self).submit_timer(),
    {
        let parent = self.known_parent_of(node);
        let grandparent = match &parent {
            Some(p) => self.known_parent_of(p),
            None => None,
        };
        let great_grandparent = match &grandparent {
            Some(g) => self.known_parent_of(g),
            None => None,
        };
        if node.height > self.b_leaf.height {
            self.b_leaf = Self::node_ref(node);
        }
        match &grandparent {
            Some(g) => {
                if g.height > self.b_lock.height {
                    self.b_lock = Self::node_ref(g);
                }
            },
            None => {},
        }
        match great_grandparent {
            Some(block) => {
                self.commit(&block, actions);
                self.b_exec = Self::node_ref(&block);
                self.collect_garbage();
            },
            None => {},
        }
    }

    /// A new leaf with identity `leaf_id` on the highest leaf, carrying the pending
    /// commands, which it takes; the process knows it.
    fn create_leaf(&mut self, leaf_id: NodeId) -> (leaf: Node)
        requires
            old(self).wf(),
            old(self).leaf().height + 1 < usize::MAX,
        ensures
            final(self).wf(),
            leaf.view() == (NodeView {
                id: leaf_id,
                parent: Some(old(self).leaf().id),
                height: (old(self).leaf().height + 1) as usize,
                commands: old(self).pending_order().map_values(|k: CmdId| old(self).pending()[k]),
            }),
            final(self).nodes() == old(self).nodes().insert(leaf_id, leaf.view()),
            final(self).pending() == Map::<CmdId, Command>::empty(),
            final(self).leaf() == old(self).leaf(),
            final(self).lock() == old(self).lock(),
            final(self).exec() == old(self).exec(),
            final(self).voted_height() == old(self).voted_height(),
            final(self).vote_counts() == old(self).vote_counts(),
            final(self).pool() == old(self).pool(),
            final(self).rotates() == old(self).rotates(),
            final(self).submit_count() == old(self).submit_count(),
            final(self).limit() == old(self).limit(),
            final(self).interval() == old(self).interval(),
            final(self).submit_timer() == old(self).submit_timer(),
    {
        let commands = self.pending_commands.values();
        self.pending_commands = CmdMap::new();
        let leaf = Node { id: leaf_id, parent: Some(self.b_leaf.id), height: self.b_leaf.height + 1, commands };
        let copy = copy_node(&leaf);
        let ghost lv = leaf.view();
        self.nodes.insert(leaf_id, copy);
        assert(self.nodes() =~= old(self).nodes().insert(leaf_id, lv));
        leaf
    }

    /// Records `timer_id` as the armed submit timer.
    pub fn submit_timer_armed(&mut self, timer_id: usize)
        requires
            old(self).wf(),
        ensures
            final(self).wf(),
            final(self).submit_timer() == timer_id,
            final(self).nodes() == old(self).nodes(),
            final(self).submit_count() == old(self).submit_count(),
    {
        self.current_submit_timer_id = timer_id;
    }

    /// Starts the process `self_pid`: gives the delay of the first submit timer (when
    /// it has commands to submit), and process 0 proposes a first leaf `leaf_id`.
    pub fn on_start(&mut self, self_pid: Pid, leaf_id: NodeId, actions: &mut Vec<HotstuffAction>) -> (delay: Option<usize>)
        requires
            old(self).wf(),
            old(self).leaf().height + 2 < usize::MAX,
        ensures
            final(self).wf(),
            delay == if old(self).limit() != 0 { Some(old(self).interval()) } else { None::<usize> },
            self_pid != 0 ==> *final(self) == *old(self) && final(actions)@ == old(actions)@,
            self_pid == 0 ==> final(actions)@.len() > old(actions)@.len(),
            self_pid == 0 ==> (final(actions)@.last() matches HotstuffAction::Broadcast(HSMessage::Propose(n))
                && n.id == leaf_id && n.parent == Some(old(self).leaf().id) && n.height == old(self).leaf().height + 1),
    {
        let delay = if self.submit_limit != 0 { Some(self.submit_interval) } else { None };
        if self_pid == 0 {
            let leaf = self.create_leaf(leaf_id);
            actions.push(HotstuffAction::Broadcast(HSMessage::Propose(leaf)));
        }
        delay
    }

    /// Handles the submit timer `timer_id` on process `self_pid`: a new command on key
    /// 0 under `cmd_number` is kept pending and sent to the other replicas, and while
    /// the limit is not reached the next submit timer is asked for.
    pub fn on_timer(&mut self, timer_id: usize, self_pid: Pid, cmd_number: usize, actions: &mut Vec<HotstuffAction>)
        requires
            old(self).wf(),
            timer_id == old(self).submit_timer(),
            old(self).submit_count() < usize::MAX,
        ensures
            final(self).wf(),
            ({
                let cmd = Command { id: CmdId { pid: self_pid, id: cmd_number }, key: 0 };
                let others = old(self).pool().filter(|p: Pid| p != self_pid);
                &&& final(self).pending() == old(self).pending().insert(cmd.id, cmd)
                &&& final(self).submit_count() == old(self).submit_count() + 1
                &&& final(actions)@.len() == old(actions)@.len() + if old(self).submit_count() + 1 < old(self).limit() { 2int } else { 1int }
                &&& final(actions)@.subrange(0, old(actions)@.len() as int) == old(actions)@
                &&& final(actions)@[old(actions)@.len() as int] matches HotstuffAction::SendMany(to, HSMessage::Submit(c))
                    && to@ == others && c == cmd
                &&& old(self).submit_count() + 1 < old(self).limit() ==> final(actions)@.last() == HotstuffAction::StartSubmitTimer(old(self).interval())
            }),
            final(self).nodes() == old(self).nodes(),
            final(self).lock() == old(self).lock(),
            final(self).exec() == old(self).exec(),
            final(self).leaf() == old(self).leaf(),
            final(self).voted_height() == old(self).voted_height(),
            final(self).limit() == old(self).limit(),
    {
        let cmd = create_cmd_for_key(0, self_pid, cmd_number);
        self.pending_commands.insert(cmd.id, cmd);
        let mut remotes: Vec<Pid> = Vec::new();
        let mut i: usize = 0;
        while i < self.replicas.len()
            invariant
                i <= self.replicas@.len(),
                remotes@ == self.replicas@.take(i as int).filter(|p: Pid| p != self_pid),
            decreases self.replicas@.len() - i,
        {
            proof {
                assert(self.replicas@.take(i as int + 1).drop_last() =~= self.replicas@.take(i as int));
                reveal(Seq::filter);
            }
            if self.replicas[i] != self_pid {
                remotes.push(self.replicas[i]);
            }
            i = i + 1;
        }
        proof {
            assert(self.replicas@.take(self.replicas@.len() as int) =~= self.replicas@);
        }
        let ghost a0 = actions@;
        actions.push(HotstuffAction::SendMany(remotes, HSMessage::Submit(cmd)));
        self.submitted = self.submitted + 1;
        if self.submitted < self.submit_limit {
            actions.push(HotstuffAction::StartSubmitTimer(self.submit_interval));
        }
        assert(actions@.subrange(0, a0.len() as int) =~= a0);
    }

    /// The leader that a vote on a proposal of height `height` goes to.
    pub open spec fn leader_for(&self, height: usize) -> Pid {
        if self.rotates() {
            self.pool()[(height as int) % (self.pool().len() as int)]
        } else {
            self.pool()[0]
        }
    }

    /// Handles `message`, with `leaf_id` the identity a new leaf would take. A
    /// submitted command is kept pending (unless one of its identity is). A proposal
    /// higher than the last one voted for, and extending the lock or higher than it,
    /// is voted for (the vote goes to the next leader), its commands are no longer
    /// pending, and it updates the chain: it becomes the leaf when higher, its
    /// grandparent becomes the lock when higher, and its great-grandparent is
    /// committed, with the uncommitted nodes leading to it, oldest first. A vote on a
    /// node above the committed one is counted; when its count reaches the quorum
    /// the node becomes the highest leaf and a new leaf on it, carrying every pending
    /// command, is proposed to all, after the chain is updated from that new leaf as
    /// it is from a proposal.
    pub fn on_message(&mut self, message: &HSMessage, leaf_id: NodeId, actions: &mut Vec<HotstuffAction>)
        requires
            old(self).wf(),
            old(self).leaf().height + 2 < usize::MAX,
            *message matches HSMessage::Propose(n) ==> n.height + 2 < usize::MAX,
            *message matches HSMessage::Vote(n) ==> n.height + 2 < usize::MAX,
        ensures
            final(self).wf(),
            final(self).pool() == old(self).pool(),
            final(self).rotates() == old(self).rotates(),
            final(self).submit_count() == old(self).submit_count(),
            final(self).limit() == old(self).limit(),
            final(self).submit_timer() == old(self).submit_timer(),
            final(actions)@.len() >= old(actions)@.len(),
            final(actions)@.subrange(0, old(actions)@.len() as int) == old(actions)@,
            final(self).voted_height() >= old(self).voted_height(),
            final(self).lock().height >= old(self).lock().height,
            match *message {
                HSMessage::Submit(c) => {
                    &&& final(self).pending() == if old(self).pending().contains_key(c.id) {
                        old(self).pending()
                    } else {
                        old(self).pending().insert(c.id, c)
                    }
                    &&& final(self).nodes() == old(self).nodes()
                    &&& final(self).voted_height() == old(self).voted_height()
                    &&& final(self).lock() == old(self).lock()
                    &&& final(self).exec() == old(self).exec()
                    &&& final(self).leaf() == old(self).leaf()
                    &&& final(self).vote_counts() == old(self).vote_counts()
                    &&& final(actions)@ == old(actions)@
                },
                HSMessage::Propose(n) => {
                    let accepted = n.height > old(self).voted_height()
                        && (n.parent == Some(old(self).lock().id) || n.height > old(self).lock().height);
                    &&& !accepted ==> *final(self) == *old(self) && final(actions)@ == old(actions)@
                    &&& accepted ==> {
                        &&& final(self).voted_height() == n.height
                        &&& final(actions)@.len() > old(actions)@.len()
                        &&& final(actions)@[old(actions)@.len() as int] matches HotstuffAction::Send(to, HSMessage::Vote(v))
                            && to == old(self).leader_for(n.height) && v.view() == n.view()
                        &&& forall|id: CmdId| #[trigger] final(self).pending().contains_key(id) == (old(self).pending().contains_key(id)
                            && !exists|k: int| 0 <= k < n.commands@.len() && n.commands@[k].id == id)
                        &&& ({
                            let nodes = old(self).nodes().insert(n.id, n.view());
                            let p = known_parent(nodes, n.view());
                            let g = match p { Some(pv) => known_parent(nodes, pv), None => None };
                            let gg = match g { Some(gv) => known_parent(nodes, gv), None => None };
                            &&& final(self).leaf() == if n.height > old(self).leaf().height {
                                NodeRef { id: n.id, height: n.height }
                            } else {
                                old(self).leaf()
                            }
                            &&& final(self).lock() == match g {
                                Some(gv) => if gv.height > old(self).lock().height {
                                    NodeRef { id: gv.id, height: gv.height }
                                } else {
                                    old(self).lock()
                                },
                                None => old(self).lock(),
                            }
                            &&& match gg {
                                Some(b) => {
                                    let chain = chain_to(nodes, b, old(self).exec().height as nat);
                                    &&& final(self).exec() == (NodeRef { id: b.id, height: b.height })
                                    &&& final(actions)@.len() == old(actions)@.len() + 1 + chain.len()
                                    &&& forall|i: int| 0 <= i < chain.len() ==> ((#[trigger] final(actions)@[old(actions)@.len() + 1 + i])
                                        matches HotstuffAction::Commit(cs) && cs@ == chain[i].commands)
                                    &&& forall|id: NodeId| #[trigger] final(self).nodes().contains_key(id) == (nodes.contains_key(id)
                                        && nodes[id].height >= b.height)
                                    &&& forall|id: NodeId| #[trigger] final(self).nodes().contains_key(id) ==> final(self).nodes()[id] == nodes[id]
                                },
                                None => {
                                    &&& final(self).exec() == old(self).exec()
                                    &&& final(actions)@.len() == old(actions)@.len() + 1
                                    &&& final(self).nodes() == nodes
                                },
                            }
                        })
                    }
                },
                HSMessage::Vote(n) => {
                    let (h, count, thr) = if old(self).vote_counts().contains_key(n.id) {
                        old(self).vote_counts()[n.id]
                    } else {
                        (n.height, 0nat, ((old(self).pool().len() * 2) / 3 + 1) as nat)
                    };
                    let fires = count < thr && count + 1 == thr;
                    &&& n.height <= old(self).exec().height ==> *final(self) == *old(self) && final(actions)@ == old(actions)@
                    &&& n.height > old(self).exec().height && !fires ==> {
                        &&& final(self).vote_counts() == old(self).vote_counts().insert(n.id, (h, if count < thr { count + 1 } else { count }, thr))
                        &&& final(self).nodes() == old(self).nodes()
                        &&& final(self).leaf() == old(self).leaf()
                        &&& final(self).lock() == old(self).lock()
                        &&& final(self).exec() == old(self).exec()
                        &&& final(self).voted_height() == old(self).voted_height()
                        &&& final(self).pending() == old(self).pending()
                        &&& final(actions)@ == old(actions)@
                    }
                    &&& n.height > old(self).exec().height && fires ==> {
                        &&& final(actions)@.len() > old(actions)@.len()
                        &&& final(actions)@.last() matches HotstuffAction::Broadcast(HSMessage::Propose(leaf))
                            && leaf.id == leaf_id && leaf.parent == Some(n.id) && leaf.height == n.height + 1
                            && leaf.commands@ == old(self).pending_order().map_values(|k: CmdId| old(self).pending()[k])
                        &&& final(self).pending() == Map::<CmdId, Command>::empty()
                        &&& final(self).leaf() == (NodeRef { id: leaf_id, height: (n.height + 1) as usize })
                        &&& final(self).voted_height() == old(self).voted_height()
                        &&& ({
                            let leaf = NodeView {
                                id: leaf_id,
                                parent: Some(n.id),
                                height: (n.height + 1) as usize,
                                commands: old(self).pending_order().map_values(|k: CmdId| old(self).pending()[k]),
                            };
                            let nodes = old(self).nodes().insert(n.id, n.view()).insert(leaf_id, leaf);
                            let p = known_parent(nodes, leaf);
                            let g = match p { Some(pv) => known_parent(nodes, pv), None => None };
                            let gg = match g { Some(gv) => known_parent(nodes, gv), None => None };
                            &&& final(self).lock() == match g {
                                Some(gv) => if gv.height > old(self).lock().height {
                                    NodeRef { id: gv.id, height: gv.height }
                                } else {
                                    old(self).lock()
                                },
                                None => old(self).lock(),
                            }
                            &&& match gg {
                                Some(b) => {
                                    let chain = chain_to(nodes, b, old(self).exec().height as nat);
                                    &&& final(self).exec() == (NodeRef { id: b.id, height: b.height })
                                    &&& final(actions)@.len() == old(actions)@.len() + chain.len() + 1
                                    &&& forall|i: int| 0 <= i < chain.len() ==> ((#[trigger] final(actions)@[old(actions)@.len() + i])
                                        matches HotstuffAction::Commit(cs) && cs@ == chain[i].commands)
                                    &&& forall|id: NodeId| #[trigger] final(self).nodes().contains_key(id) == (nodes.contains_key(id)
                                        && nodes[id].height >= b.height)
                                    &&& forall|id: NodeId| #[trigger] final(self).nodes().contains_key(id) ==> final(self).nodes()[id] == nodes[id]
                                },
                                None => {
                                    &&& final(self).exec() == old(self).exec()
                                    &&& final(actions)@.len() == old(actions)@.len() + 1
                                    &&& final(self).nodes() == nodes
                                },
                            }
                        })
                    }
                },
            },
    {
        match message {
            HSMessage::Submit(c) => {
                if !self.pending_commands.contains_key(&c.id) {
                    self.pending_commands.insert(c.id, *c);
                }
                assert(actions@.subrange(0, actions@.len() as int) =~= actions@);
            },
            HSMessage::Propose(node) => {
                if node.height > self.vheight && (self.extends(node) || node.height > self.b_lock.height) {
                    let mut k: usize = 0;
                    while k < node.commands.len()
                        invariant
                            self.wf(),
                            self.nodes == old(self).nodes,
                            self.pending_quorums == old(self).pending_quorums,
                            self.replicas == old(self).replicas,
                            self.b_exec == old(self).b_exec,
                            self.b_lock == old(self).b_lock,
                            self.b_leaf == old(self).b_leaf,
                            self.vheight == old(self).vheight,
                            self.rotating == old(self).rotating,
                            self.submitted == old(self).submitted,
                            self.submit_limit == old(self).submit_limit,
                            self.submit_interval == old(self).submit_interval,
                            self.current_submit_timer_id == old(self).current_submit_timer_id,
                            k <= node.commands@.len(),
                            forall|id: CmdId| #[trigger] self.pending().contains_key(id) == (old(self).pending().contains_key(id)
                                && !exists|j: int| 0 <= j < k && node.commands@[j].id == id),
                        decreases node.commands@.len() - k,
                    {
                        let ghost before = self.pending();
                        self.pending_commands.remove(&node.commands[k].id);
                        proof {
                            assert forall|id: CmdId| #[trigger] self.pending().contains_key(id) == (old(self).pending().contains_key(id)
                                && !exists|j: int| 0 <= j < k + 1 && node.commands@[j].id == id) by {
                                if id == node.commands@[k as int].id {
                                } else {
                                    if exists|j: int| 0 <= j < k + 1 && node.commands@[j].id == id {
                                        let j = choose|j: int| 0 <= j < k + 1 && node.commands@[j].id == id;
                                        assert(j < k);
                                    }
                                }
                            }
                        }
                        k = k + 1;
                    }
                    let ghost pend = self.pending();
                    let copy = copy_node(node);
                    self.nodes.insert(node.id, copy);
                    self.vheight = node.height;
                    let to = self.next_leader();
                    let ghost a0 = actions@;
                    actions.push(HotstuffAction::Send(to, HSMessage::Vote(copy_node(node))));
                    let ghost a1 = actions@;
                    let ghost mid = *self;
                    proof {
                        assert(mid.nodes() =~= old(self).nodes().insert(node.id, node.view()));
                        assert(a1.len() == old(actions)@.len() + 1);
                    }
                    self.update(node, actions);
                    proof {
                        assert(a1.subrange(0, a0.len() as int) =~= a0);
                        assert(a1[a0.len() as int] == actions@[a0.len() as int]) by {
                            if actions@ != a1 {
                                assert(actions@.subrange(0, a1.len() as int)[a0.len() as int] == a1[a0.len() as int]);
                            }
                        }
                        assert(actions@.subrange(0, a0.len() as int) =~= a0) by {
                            assert forall|i: int| 0 <= i < a0.len() implies actions@[i] == a0[i] by {
                                if actions@ != a1 {
                                    assert(actions@.subrange(0, a1.len() as int)[i] == a1[i]);
                                }
                            }
                        }
                    }
                } else {
                    assert(actions@.subrange(0, actions@.len() as int) =~= actions@);
                }
            },
            HSMessage::Vote(node) => {
                if node.height <= self.b_exec.height {
                    assert(actions@.subrange(0, actions@.len() as int) =~= actions@);
                    return;
                }
                let qs = self.quorum_size();
                let (h, mut q) = match self.pending_quorums.remove(&node.id) {
                    Some(e) => e,
                    None => (node.height, new_vote_quorum(qs)),
                };
                let fired = add_vote(&mut q);
                let ghost qv = (h, quorum_added(q).len(), quorum_threshold(q));
                self.pending_quorums.insert(node.id, (h, q));
                proof {
                    assert(self.vote_counts() =~= old(self).vote_counts().insert(node.id, qv));
                }
                if fired {
                    let copy = copy_node(node);
                    self.nodes.insert(node.id, copy);
                    self.b_leaf = Self::node_ref(node);
                    let ghost before_leaf = *self;
                    let leaf = self.create_leaf(leaf_id);
                    let ghost a0 = actions@;
                    proof {
                        assert(before_leaf.nodes() =~= old(self).nodes().insert(node.id, node.view()));
                    }
                    self.update(&leaf, actions);
                    actions.push(HotstuffAction::Broadcast(HSMessage::Propose(leaf)));
                    proof {
                        assert(actions@.subrange(0, old(actions)@.len() as int) =~= old(actions)@) by {
                            assert forall|i: int| 0 <= i < old(actions)@.len() implies actions@[i] == old(actions)@[i] by {
                                assert(actions@[i] == actions@.drop_last()[i]);
                                if actions@.drop_last() != a0 {
                                    assert(actions@.drop_last().subrange(0, a0.len() as int)[i] == a0[i]);
                                }
                            }
                        }
                    }
                } else {
                    assert(actions@.subrange(0, actions@.len() as int) =~= actions@);
                }
            },
        }
    }
}

} // verus!
