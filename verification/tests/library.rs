use blsmr::blsmr::dds::{union_deps, Announce, AnnounceStatus, Res, DDS};
use blsmr::blsmr::log::{path_rows, CmdLog, PathRecord};
use blsmr::blsmr::pbft::{committee_from_keys, committee_quorum, hashed_committee, Commit as PbftCommit, Pbft, PbftMsg, PbftStatus, PrePrepare, Prepare};
use blsmr::blsmr::process::BLSMR;
use blsmr::blsmr::quorum::{QuorumMsg, QuorumStatus, Response, SlowPath};
use blsmr::blsmr::BLSMRProtocol;
use blsmr::bullshark::consistent_broadcast::{BCBMessage, ByzantineConsistentBroadcast};
use blsmr::bullshark::dag_utils::{RoundBasedDAG, Vertex, VertexMessage, VertexType};
use blsmr::bullshark::{Bullshark, BullsharkAction};
use blsmr::client::{create_cmd, create_cmd_for_key, CmdId, Command};
use blsmr::hotstuff::{HSMessage, Hotstuff, HotstuffAction, Node};
use blsmr::ordering::sort_dedup_ids;
use blsmr::quorum::grid::isqrt;
use blsmr::quorum::QuorumSystem;
use blsmr::sims::{
    configs, conflict_rate_sweep, csv_path, selected_configs, sweep, Config, ConflictRateParams,
    LatencyParams, NetworkTopology, Protocol,
};
use dscale::rand::rngs::SmallRng;
use dscale::rand::SeedableRng;

fn id(pid: usize, n: usize) -> CmdId {
    CmdId { pid, id: n }
}

fn vertex(round: usize, source: usize, creation_time: usize, edges: Vec<(usize, usize)>) -> Vertex {
    Vertex { round, source, creation_time, strong_edges: edges, commands: Vec::new() }
}

#[test]
fn commands_conflict_on_the_same_key() {
    let a = create_cmd_for_key(7, 1, 10);
    let b = create_cmd_for_key(7, 2, 11);
    let c = create_cmd_for_key(8, 3, 12);
    assert_eq!(a.id, id(1, 10));
    assert!(a.conflicts_with(&b));
    assert!(!a.conflicts_with(&c));
}

#[test]
fn created_commands_draw_a_key_in_range() {
    let mut rng = SmallRng::seed_from_u64(42);
    for n in 0..50 {
        let cmd = create_cmd(&mut rng, 5, 3, n);
        assert!(cmd.key < 5);
        assert_eq!(cmd.id, id(3, n));
    }
}

#[test]
fn dissemination_quorums_are_two_thirds() {
    let qs = QuorumSystem::new_dissemination(vec![0, 1, 2, 3]);
    assert_eq!(qs.size(), 3);
    assert!(qs.is_quorum(&[0, 1, 2]));
    assert!(!qs.is_quorum(&[0, 1]));
}

#[test]
fn witnessing_quorum_size() {
    let qs = QuorumSystem::new_witnessing(vec![0, 1, 2, 3, 4, 5]);
    assert_eq!(qs.size(), 7);
    let qs = QuorumSystem::new_witnessing(vec![0, 1, 2, 3, 4, 5, 6, 7, 8, 9, 10]);
    assert_eq!(qs.size(), 11);
}

#[test]
fn random_quorums_are_quorums() {
    let mut rng = SmallRng::seed_from_u64(7);
    let mut qs = QuorumSystem::new_dissemination((0..10).collect());
    for _ in 0..20 {
        let q = qs.choose_random_quorum(&mut rng);
        assert_eq!(q.len(), qs.size());
        assert!(qs.is_quorum(&q));
    }
    let mut grid = QuorumSystem::new_witnessing_grid((0..25).collect());
    for _ in 0..20 {
        let q = grid.choose_random_quorum(&mut rng);
        assert!(grid.is_quorum(&q));
        assert!(q.iter().all(|p| *p < 25));
    }
}

#[test]
fn grid_committee_follows_the_faults() {
    let qs = QuorumSystem::new_witnessing_grid_with_faults((0..25).collect(), 1);
    assert_eq!(qs.consensus_committee_size(), 4);
    let qs = QuorumSystem::new_witnessing_grid_with_faults((0..9).collect(), 5);
    assert_eq!(qs.consensus_committee_size(), 9);
}

#[test]
fn integer_square_roots() {
    assert_eq!(isqrt(0), 0);
    assert_eq!(isqrt(10), 3);
    assert_eq!(isqrt(16), 4);
    assert_eq!(isqrt(1_000_000), 1_000);
}

#[test]
fn committee_quorum_sizes() {
    assert_eq!(committee_quorum(1), 1);
    assert_eq!(committee_quorum(4), 3);
    assert_eq!(committee_quorum(7), 5);
}

#[test]
fn identities_are_sorted_once() {
    let out = sort_dedup_ids(&vec![id(2, 0), id(1, 5), id(2, 0), id(1, 3)]);
    assert_eq!(out, vec![id(1, 3), id(1, 5), id(2, 0)]);
}

#[test]
fn union_of_reported_conflicts() {
    let quorum = vec![
        Res { pid: 0, id: id(0, 9), conflicts: vec![id(0, 1), id(1, 3)] },
        Res { pid: 1, id: id(0, 9), conflicts: vec![id(1, 3), id(0, 2)] },
    ];
    assert_eq!(union_deps(&quorum), vec![id(0, 1), id(0, 2), id(1, 3)]);
}

#[test]
fn log_reports_conflicts_and_executes_in_dependency_order() {
    let mut log = CmdLog::new();
    let a = Command { id: id(0, 1), key: 7 };
    let b = Command { id: id(1, 1), key: 7 };
    assert!(log.submit(a, 5).is_empty());
    assert_eq!(log.submit(b, 6), vec![a.id]);
    let steps = log.commit(b.id, vec![a.id], 10, 0);
    assert!(steps.is_empty());
    let steps = log.commit(a.id, vec![], 12, 0);
    assert_eq!(steps.len(), 2);
    let first = steps.iter().find(|s| s.cmd_id == a.id).unwrap();
    assert_eq!(first.latency, 7);
    assert!(first.own);
    let second = steps.iter().find(|s| s.cmd_id == b.id).unwrap();
    assert_eq!(second.latency, 6);
    assert!(!second.own);
    let executed: Vec<CmdId> = steps.iter().flat_map(|s| s.executed.iter().map(|c| c.id)).collect();
    assert_eq!(executed, vec![a.id, b.id]);
    assert!(log.submit(Command { id: id(2, 1), key: 7 }, 13).is_empty());
}

#[test]
fn stable_commands_are_ignored() {
    let mut log = CmdLog::new();
    let a = Command { id: id(0, 1), key: 7 };
    log.submit(a, 1);
    assert_eq!(log.commit(a.id, vec![], 4, 0).len(), 1);
    assert!(log.commit(a.id, vec![], 5, 0).is_empty());
    assert!(log.submit(a, 6).is_empty());
}

fn res(pid: usize, cmd: CmdId, conflicts: Vec<CmdId>) -> Announce {
    Announce::Res(Res { pid, id: cmd, conflicts })
}

#[test]
fn wintermute_hands_over_full_reports_once() {
    let qs = QuorumSystem::new_dissemination(vec![0, 1]);
    let mut dds = DDS::new(SmallRng::seed_from_u64(1), BLSMRProtocol::Wintermute, 2, qs, 100);
    let cmd = Command { id: id(0, 1), key: 3 };
    let out = dds.announce(cmd, 0);
    assert!(out.recipients.is_none());
    assert_eq!(out.force_after, Some(100));
    let h = dds.on_message(1, &res(1, cmd.id, vec![id(1, 4)]), 0, 1);
    assert!(matches!(h.status, AnnounceStatus::DoNothing));
    let h = dds.on_message(0, &res(0, cmd.id, vec![id(1, 4)]), 0, 2);
    match h.status {
        AnnounceStatus::QuorumReady(r) => {
            assert_eq!(r.quorum.len(), 2);
            assert!(r.allow_fastpath);
        },
        AnnounceStatus::DoNothing => panic!("reports not handed over"),
    }
    let h = dds.on_message(1, &res(1, cmd.id, vec![]), 0, 3);
    assert!(matches!(h.status, AnnounceStatus::DoNothing));
}

#[test]
fn differing_reports_take_the_slow_path() {
    let qs = QuorumSystem::new_dissemination(vec![0, 1]);
    let mut dds = DDS::new(SmallRng::seed_from_u64(1), BLSMRProtocol::Wintermute, 2, qs, 100);
    let cmd = Command { id: id(0, 1), key: 3 };
    dds.announce(cmd, 0);
    dds.on_message(1, &res(1, cmd.id, vec![id(1, 4)]), 0, 1);
    let h = dds.on_message(0, &res(0, cmd.id, vec![]), 0, 2);
    match h.status {
        AnnounceStatus::QuorumReady(r) => assert!(!r.allow_fastpath),
        AnnounceStatus::DoNothing => panic!("reports not handed over"),
    }
}

#[test]
fn requests_are_answered_with_conflicts() {
    let qs = QuorumSystem::new_dissemination(vec![0, 1]);
    let mut dds = DDS::new(SmallRng::seed_from_u64(1), BLSMRProtocol::EPaxos, 2, qs, 100);
    let a = Command { id: id(1, 1), key: 3 };
    let b = Command { id: id(1, 2), key: 3 };
    dds.on_message(1, &Announce::Req(blsmr::blsmr::dds::Req { cmd: a }), 0, 1);
    let h = dds.on_message(1, &Announce::Req(blsmr::blsmr::dds::Req { cmd: b }), 0, 2);
    let (to, reply) = h.reply.unwrap();
    assert_eq!(to, 1);
    assert_eq!(reply.pid, 0);
    assert_eq!(reply.id, b.id);
    assert_eq!(reply.conflicts, vec![a.id]);
}

#[test]
fn blsmr_first_submit_delay_is_within_the_interval() {
    for seed in 0..20 {
        let qs = QuorumSystem::new_dissemination(vec![0, 1, 2]);
        let dds = DDS::new(SmallRng::seed_from_u64(seed), BLSMRProtocol::Wintermute, 3, qs, 100);
        let slow = SlowPath::new(BLSMRProtocol::Wintermute, QuorumSystem::new_dissemination(vec![0, 1, 2]));
        let mut p = BLSMR::new(SmallRng::seed_from_u64(seed), 100, 2, 16, false, dds, slow);
        let delay = p.on_start().unwrap();
        assert!(50 <= delay && delay <= 100);
        let out = p.on_submit_timer(0, 77, 5);
        assert_eq!(out.cmd.id, id(0, 77));
        assert!(out.cmd.key < 16);
        assert!(out.next_delay.is_some());
        let out = p.on_submit_timer(0, 78, 6);
        assert!(out.next_delay.is_none());
        assert_eq!(p.submitted(), 2);
    }
}

#[test]
fn dag_paths_and_ordering() {
    let mut dag = RoundBasedDAG::new();
    dag.set_round_size(4);
    for s in 0..4 {
        dag.add_vertex(vertex(0, s, 0, vec![]));
    }
    let v1 = vertex(1, 0, 4, vec![(0, 0), (0, 1), (0, 2)]);
    dag.add_vertex(vertex(1, 0, 4, vec![(0, 0), (0, 1), (0, 2)]));
    assert!(dag.path_exists(&v1, &vertex(0, 1, 0, vec![])));
    assert!(!dag.path_exists(&v1, &vertex(0, 3, 0, vec![])));
    assert!(dag.path_exists(&v1, &v1));
    let outside = vertex(1, 3, 4, vec![(0, 2)]);
    assert!(dag.path_exists(&outside, &vertex(0, 2, 0, vec![])));
    assert!(!dag.path_exists(&outside, &vertex(0, 1, 0, vec![])));
    assert_eq!(dag.current_max_allocated_round(), 1);
    let lats = dag.order_from(&v1, 0, 10);
    assert_eq!(lats, vec![6]);
    let lats = dag.order_from(&v1, 0, 11);
    assert!(lats.is_empty());
    dag.gc(5);
    assert_eq!(dag.min_round(), 1);
}

#[test]
fn consistent_broadcast_certifies_after_a_quorum_of_signatures() {
    let mut sender = ByzantineConsistentBroadcast::new();
    sender.on_start(4);
    assert_eq!(sender.quorum_size(), 3);
    let msg = VertexMessage { proc_num: 4, typ: VertexType::Genesis(vertex(0, 0, 0, vec![])) };
    let init = sender.reliably_broadcast(msg, 0);
    let mid = match &init {
        BCBMessage::Initiate(m, _) => *m,
        _ => panic!("not an initiation"),
    };
    assert!(sender.on_message(1, &BCBMessage::Signature(mid), 0).broadcast.is_none());
    assert!(sender.on_message(2, &BCBMessage::Signature(mid), 0).broadcast.is_none());
    let out = sender.on_message(3, &BCBMessage::Signature(mid), 0);
    assert!(matches!(out.broadcast, Some(BCBMessage::Certificate(4, m)) if m == mid));
    assert!(sender.on_message(1, &BCBMessage::Certificate(4, mid), 0).deliver.is_some());
    assert!(sender.on_message(2, &BCBMessage::Certificate(4, mid), 0).deliver.is_none());
    assert!(sender.on_message(1, &init, 0).deliver.is_none());

    let mut receiver = ByzantineConsistentBroadcast::new();
    receiver.on_start(4);
    let out = receiver.on_message(0, &BCBMessage::Certificate(4, mid), 1);
    assert!(out.deliver.is_none());
    let out = receiver.on_message(0, &init, 1);
    assert!(out.deliver.is_some());
    assert!(out.reply.is_none());
    let again = receiver.on_message(0, &init, 1);
    assert!(again.deliver.is_none());

    let mut other = ByzantineConsistentBroadcast::new();
    other.on_start(4);
    assert!(other.on_message(0, &init, 2).deliver.is_none());
    assert!(other.on_message(0, &BCBMessage::Certificate(4, mid), 2).deliver.is_some());
    assert!(other.on_message(0, &BCBMessage::Certificate(4, mid), 2).deliver.is_none());
}

#[test]
fn bullshark_thresholds_and_leaders() {
    let mut b = Bullshark::new(100, 0);
    let (delay, genesis) = b.on_start(0, 4, 0);
    assert!(delay.is_none());
    assert!(matches!(genesis, BCBMessage::Initiate(_, VertexMessage { proc_num: 4, typ: VertexType::Genesis(_) })));
    assert_eq!(b.adversary_threshold(), 1);
    assert_eq!(b.quorum_size(), 3);
    assert_eq!(b.direct_commit_threshold(), 2);
    assert_eq!(b.get_leader_id(5), 2);
    let mut actions: Vec<BullsharkAction> = Vec::new();
    b.on_timer(12345, 0, 1, 0, &mut actions);
    assert!(actions.is_empty());
}

#[test]
fn bullshark_moves_to_round_one_after_a_quorum_of_genesis_vertices() {
    let mut b = Bullshark::new(100, 0);
    b.on_start(0, 4, 0);
    let mut actions: Vec<BullsharkAction> = Vec::new();
    for s in 1..4 {
        let msg = VertexMessage { proc_num: 4, typ: VertexType::Genesis(vertex(0, s, 0, vec![])) };
        b.on_message(s, &BCBMessage::Certificate(4, id(s, 0)), 0, 5, &mut actions);
        b.on_message(s, &BCBMessage::Initiate(id(s, 0), msg), 0, 5, &mut actions);
    }
    assert!(actions.iter().any(|a| matches!(a, BullsharkAction::StartRoundTimer)));
    assert!(actions.iter().any(|a| matches!(a, BullsharkAction::Broadcast(BCBMessage::Initiate(_, VertexMessage { typ: VertexType::Vertex(v), .. })) if v.round == 1)));
}

#[test]
fn hotstuff_leader_proposes_after_a_quorum_of_votes() {
    let mut h = Hotstuff::new(true, vec![0, 1, 2, 3], 10, 0);
    assert_eq!(h.quorum_size(), 3);
    assert_eq!(h.next_leader(), 0);
    let node = Node { id: 5, parent: Some(0), height: 1, commands: vec![] };
    let copy = || Node { id: 5, parent: Some(0), height: 1, commands: vec![] };
    let mut actions: Vec<HotstuffAction> = Vec::new();
    h.on_message(&HSMessage::Vote(copy()), 9, &mut actions);
    h.on_message(&HSMessage::Vote(copy()), 9, &mut actions);
    assert!(actions.is_empty());
    h.on_message(&HSMessage::Vote(node), 9, &mut actions);
    match actions.last() {
        Some(HotstuffAction::Broadcast(HSMessage::Propose(leaf))) => {
            assert_eq!(leaf.id, 9);
            assert_eq!(leaf.parent, Some(5));
            assert_eq!(leaf.height, 2);
        },
        _ => panic!("no proposal"),
    }
}

#[test]
fn hotstuff_commits_the_great_grandparent() {
    let mut h = Hotstuff::new(true, vec![0, 1, 2, 3], 10, 0);
    let mut actions: Vec<HotstuffAction> = Vec::new();
    let cmd = Command { id: id(2, 2), key: 0 };
    for (n, parent) in [(1usize, 0usize), (2, 1), (3, 2), (4, 3)] {
        let commands = if n == 1 { vec![cmd] } else { vec![] };
        h.on_message(&HSMessage::Propose(Node { id: n, parent: Some(parent), height: n, commands }), 100 + n, &mut actions);
    }
    let commits: Vec<&Vec<Command>> = actions.iter().filter_map(|a| match a { HotstuffAction::Commit(c) => Some(c), _ => None }).collect();
    assert_eq!(commits.len(), 1);
    assert_eq!(commits[0], &vec![cmd]);
    match &actions[0] {
        HotstuffAction::Send(to, HSMessage::Vote(v)) => {
            assert_eq!(*to, 1);
            assert_eq!(v.id, 1);
        },
        _ => panic!("no vote"),
    }
}

#[test]
fn scalability_runs() {
    let all = configs();
    assert_eq!(all.len(), 41);
    assert_eq!(all[0], Config { nodes: 4, protocol: Protocol::Bullshark });
    assert_eq!(all[1], Config { nodes: 4, protocol: Protocol::Hotstuff });
    assert_eq!(all[18], Config { nodes: 6, protocol: Protocol::Wintermute });
    assert_eq!(all[40], Config { nodes: 1024, protocol: Protocol::ThreeJaneMaxFaults });
    let some = selected_configs(Some(64));
    assert_eq!(some.len(), 5);
    assert!(some.iter().all(|c| c.nodes == 64));
    assert_eq!(selected_configs(None).len(), 41);
    assert!(selected_configs(Some(5)).is_empty());
    assert_eq!(Protocol::ThreeJaneMaxFaults.name(), "3Jane*");
    assert_eq!(NetworkTopology::Terrestrial.name(), "terrestrial");
    assert_eq!(csv_path(), "crates/sims/src/bin/latency_cdf/latency_cdf.csv");
}

#[test]
fn sweeps() {
    let s = sweep();
    assert_eq!(s.len(), 270);
    assert_eq!(s[0], LatencyParams { key_count: 1, submit_interval: 1, announce_timeout: 20, latency_low: 20, latency_high: 20 });
    assert_eq!(s[6], LatencyParams { key_count: 1, submit_interval: 2, announce_timeout: 50, latency_low: 20, latency_high: 20 });
    assert_eq!(s[269], LatencyParams { key_count: 65535, submit_interval: 500, announce_timeout: 500, latency_low: 20, latency_high: 20 });
    let c = conflict_rate_sweep();
    assert_eq!(c.len(), 55);
    assert_eq!(c[6], ConflictRateParams { submit_interval: 19, seed: 43 });
    assert_eq!(c[54], ConflictRateParams { submit_interval: 20000, seed: 46 });
}

#[test]
fn log_runs_a_dependency_cycle_in_identity_order() {
    let mut log = CmdLog::new();
    let a = Command { id: id(0, 1), key: 3 };
    let b = Command { id: id(1, 1), key: 3 };
    log.submit(b, 1);
    log.submit(a, 2);
    assert!(log.commit(b.id, vec![a.id], 5, 0).is_empty());
    let steps = log.commit(a.id, vec![b.id], 6, 0);
    assert_eq!(steps.len(), 2);
    let executed: Vec<CmdId> = steps.iter().flat_map(|s| s.executed.iter().map(|c| c.id)).collect();
    assert_eq!(executed, vec![a.id, b.id]);
}

#[test]
fn log_runs_a_chain_dependencies_first() {
    let mut log = CmdLog::new();
    let a = Command { id: id(2, 1), key: 1 };
    let b = Command { id: id(1, 1), key: 1 };
    let c = Command { id: id(0, 1), key: 1 };
    log.submit(a, 1);
    log.submit(b, 2);
    log.submit(c, 3);
    assert!(log.commit(c.id, vec![b.id], 4, 0).is_empty());
    assert!(log.commit(b.id, vec![a.id], 5, 0).is_empty());
    let steps = log.commit(a.id, vec![], 6, 0);
    assert_eq!(steps.len(), 3);
    let executed: Vec<CmdId> = steps.iter().flat_map(|s| s.executed.iter().map(|c| c.id)).collect();
    assert_eq!(executed, vec![a.id, b.id, c.id]);
}

#[test]
fn bullshark_answers_an_initiation_with_a_signature() {
    let mut b = Bullshark::new(100, 0);
    b.on_start(0, 4, 0);
    let mut actions: Vec<BullsharkAction> = Vec::new();
    let msg = VertexMessage { proc_num: 4, typ: VertexType::Genesis(vertex(0, 2, 0, vec![])) };
    b.on_message(2, &BCBMessage::Initiate(id(2, 0), msg), 0, 5, &mut actions);
    assert_eq!(actions.len(), 1);
    assert!(matches!(actions[0], BullsharkAction::Send(2, BCBMessage::Signature(m)) if m == id(2, 0)));
}

#[test]
fn bullshark_refuses_vertices_without_a_quorum_of_edges_or_from_elsewhere() {
    let mut b = Bullshark::new(100, 0);
    b.on_start(0, 4, 0);
    let mut actions: Vec<BullsharkAction> = Vec::new();
    let thin = VertexMessage { proc_num: 4, typ: VertexType::Vertex(vertex(1, 2, 0, vec![(0, 1)])) };
    b.on_message(2, &BCBMessage::Certificate(4, id(2, 1)), 0, 5, &mut actions);
    b.on_message(2, &BCBMessage::Initiate(id(2, 1), thin), 0, 5, &mut actions);
    assert!(actions.is_empty());
    let forged = VertexMessage { proc_num: 4, typ: VertexType::Vertex(vertex(1, 3, 0, vec![(0, 1), (0, 2), (0, 3)])) };
    b.on_message(2, &BCBMessage::Certificate(4, id(2, 2)), 0, 5, &mut actions);
    b.on_message(2, &BCBMessage::Initiate(id(2, 2), forged), 0, 5, &mut actions);
    assert!(actions.is_empty());
}

#[test]
fn slow_path_decides_once() {
    let mut slow = SlowPath::new(BLSMRProtocol::Wintermute, QuorumSystem::new_dissemination(vec![0, 1, 2]));
    let cmd = id(0, 5);
    let (replicas, _) = slow.propose(cmd, vec![id(1, 1)], &vec![0, 1, 2]);
    assert!(!replicas.is_empty());
    let mut decided = 0;
    for &r in replicas.iter() {
        let (status, reply) = slow.on_message(r, &QuorumMsg::Response(Response { cmd_id: cmd, deps: vec![id(1, 1)] }));
        assert!(reply.is_none());
        if let QuorumStatus::Decided(c, deps) = status {
            assert_eq!(c, cmd);
            assert_eq!(deps, vec![id(1, 1)]);
            decided += 1;
        }
    }
    assert_eq!(decided, 1);
    let (status, _) = slow.on_message(replicas[0], &QuorumMsg::Response(Response { cmd_id: cmd, deps: vec![id(1, 1)] }));
    assert!(matches!(status, QuorumStatus::DoNothing));
}

#[test]
fn force_timer_after_settled_reports_settles_nothing() {
    let qs = QuorumSystem::new_dissemination(vec![0, 1]);
    let mut dds = DDS::new(SmallRng::seed_from_u64(1), BLSMRProtocol::Wintermute, 2, qs, 100);
    let cmd = Command { id: id(0, 1), key: 3 };
    dds.announce(cmd, 0);
    dds.register_force_timer(7, cmd.id);
    dds.on_message(1, &res(1, cmd.id, vec![]), 0, 1);
    let h = dds.on_message(0, &res(0, cmd.id, vec![]), 0, 2);
    assert!(matches!(h.status, AnnounceStatus::QuorumReady(_)));
    assert!(dds.is_my_timer(7));
    assert!(matches!(dds.on_timer(7), AnnounceStatus::DoNothing));
}

#[test]
fn reports_after_the_force_timer_settled_are_dropped() {
    let qs = QuorumSystem::new_dissemination(vec![0, 1, 2, 3]);
    let mut dds = DDS::new(SmallRng::seed_from_u64(1), BLSMRProtocol::Wintermute, 4, qs, 100);
    let cmd = Command { id: id(0, 1), key: 3 };
    dds.announce(cmd, 0);
    dds.register_force_timer(9, cmd.id);
    for p in 1..4 {
        let h = dds.on_message(p, &res(p, cmd.id, vec![]), 0, p);
        assert!(matches!(h.status, AnnounceStatus::DoNothing));
    }
    assert!(matches!(dds.on_timer(9), AnnounceStatus::QuorumReady(_)));
    let h = dds.on_message(0, &res(0, cmd.id, vec![]), 0, 3);
    assert!(matches!(h.status, AnnounceStatus::DoNothing));
}

#[test]
fn three_jane_committee_decides_once() {
    let committee = vec![0, 1, 2, 3];
    let mut pbft = Pbft::new(BLSMRProtocol::ThreeJane, QuorumSystem::new_dissemination(committee.clone()));
    let cmd = id(0, 9);
    let deps = vec![id(1, 1)];
    let (status, out) = pbft.on_message(0, &PbftMsg::PrePrepare(PrePrepare { cmd_id: cmd, deps: deps.clone(), committee: committee.clone() }));
    assert!(matches!(status, PbftStatus::DoNothing));
    assert!(matches!(out, Some(PbftMsg::Prepare(_))));
    let mut commit_sent = false;
    for from in 0..3 {
        let (status, out) = pbft.on_message(from, &PbftMsg::Prepare(Prepare { cmd_id: cmd, deps: deps.clone(), committee: committee.clone() }));
        assert!(matches!(status, PbftStatus::DoNothing));
        commit_sent |= matches!(out, Some(PbftMsg::Commit(_)));
    }
    assert!(commit_sent);
    let mut decided = 0;
    for from in 0..4 {
        let (status, _) = pbft.on_message(from, &PbftMsg::Commit(PbftCommit { cmd_id: cmd, deps: deps.clone(), committee: committee.clone() }));
        if let PbftStatus::Decided(c, d, leader) = status {
            assert_eq!(c, cmd);
            assert_eq!(d, deps);
            assert_eq!(leader, 0);
            decided += 1;
        }
    }
    assert_eq!(decided, 1);
    let (status, out) = pbft.on_message(1, &PbftMsg::PrePrepare(PrePrepare { cmd_id: cmd, deps: deps.clone(), committee: committee.clone() }));
    assert!(matches!(status, PbftStatus::DoNothing));
    assert!(out.is_none());
}

#[test]
fn committees_follow_the_keys_stably() {
    let pool: Vec<usize> = vec![10, 11, 12, 13, 14];
    let keys: Vec<u64> = vec![7, 3, 7, 1, 3];
    assert_eq!(committee_from_keys(&keys, &pool, 3), vec![13, 11, 14]);
    assert_eq!(committee_from_keys(&keys, &pool, 9), vec![13, 11, 14, 10, 12]);
    assert_eq!(committee_from_keys(&keys, &pool, 0), Vec::<usize>::new());
    let hashed = hashed_committee(id(1, 4), &pool, 3);
    assert_eq!(hashed.len(), 3);
    assert!(hashed.iter().all(|p| pool.contains(p)));
    assert_eq!(hashed, hashed_committee(id(1, 4), &pool, 3));
}

fn deliver(b: &mut Bullshark, v: Vertex, now: usize, actions: &mut Vec<BullsharkAction>) {
    let s = v.source;
    let mid = id(s, v.round + 1);
    let msg = VertexMessage { proc_num: 4, typ: VertexType::Vertex(v) };
    b.on_message(s, &BCBMessage::Certificate(4, mid), 0, now, actions);
    b.on_message(s, &BCBMessage::Initiate(mid, msg), 0, now, actions);
}

#[test]
fn bullshark_commits_an_anchor_and_records_own_latencies() {
    let mut b = Bullshark::new(100, 0);
    b.on_start(0, 4, 0);
    let mut actions: Vec<BullsharkAction> = Vec::new();
    for s in 1..4 {
        let msg = VertexMessage { proc_num: 4, typ: VertexType::Genesis(vertex(0, s, 0, vec![])) };
        b.on_message(s, &BCBMessage::Certificate(4, id(s, 0)), 0, 5, &mut actions);
        b.on_message(s, &BCBMessage::Initiate(id(s, 0), msg), 0, 5, &mut actions);
    }
    for s in 1..4 {
        deliver(&mut b, vertex(1, s, 1, vec![(0, 1), (0, 2), (0, 3)]), 5, &mut actions);
    }
    for s in 1..4 {
        deliver(&mut b, vertex(2, s, 2, vec![(1, 0), (1, 1), (1, 2)]), 5, &mut actions);
    }
    for s in 1..4 {
        deliver(&mut b, vertex(3, s, 3, vec![(2, 1), (2, 2), (2, 3)]), 5, &mut actions);
    }
    assert!(!actions.iter().any(|a| matches!(a, BullsharkAction::RecordLatency(_))));
    let mut commit: Vec<BullsharkAction> = Vec::new();
    deliver(&mut b, vertex(4, 1, 4, vec![(3, 1), (3, 2), (3, 3)]), 20, &mut commit);
    let latencies: Vec<usize> = commit
        .iter()
        .filter_map(|a| match a {
            BullsharkAction::RecordLatency(l) => Some(*l),
            _ => None,
        })
        .collect();
    assert_eq!(latencies, vec![18]);
}

#[test]
fn three_jane_proposal_without_committee_is_answered_to_nobody() {
    let mut pbft = Pbft::new(BLSMRProtocol::ThreeJane, QuorumSystem::new_dissemination(vec![0, 1, 2, 3]));
    let cmd = id(2, 3);
    let (status, out) = pbft.on_message(2, &PbftMsg::PrePrepare(PrePrepare { cmd_id: cmd, deps: vec![], committee: vec![] }));
    assert!(matches!(status, PbftStatus::DoNothing));
    match out {
        Some(PbftMsg::Prepare(p)) => {
            assert_eq!(p.cmd_id, cmd);
            assert!(p.committee.is_empty());
        },
        _ => panic!("no prepare vote"),
    }
}

#[test]
fn path_rows_list_each_dependency() {
    let records = vec![
        PathRecord { cmd_id: id(1, 1), fast: true, deps: Some(vec![id(2, 1), id(3, 4)]) },
        PathRecord { cmd_id: id(1, 2), fast: false, deps: Some(vec![]) },
        PathRecord { cmd_id: id(1, 3), fast: false, deps: None },
    ];
    assert_eq!(
        path_rows(&records),
        vec![
            (id(1, 1), true, true, Some(id(2, 1))),
            (id(1, 1), true, true, Some(id(3, 4))),
            (id(1, 2), false, true, None),
            (id(1, 3), false, false, None),
        ]
    );
}

#[test]
fn conflicts_come_in_submission_order() {
    let mut log = CmdLog::new();
    let a = Command { id: id(0, 1), key: 7 };
    let b = Command { id: id(1, 1), key: 7 };
    let other = Command { id: id(2, 1), key: 8 };
    assert!(log.submit(a, 1).is_empty());
    assert!(log.submit(other, 2).is_empty());
    assert_eq!(log.submit(b, 3), vec![a.id]);
    let steps = log.commit(a.id, vec![b.id], 4, 0);
    assert!(steps.is_empty());
    assert_eq!(log.submit(Command { id: id(3, 1), key: 7 }, 5), vec![a.id, b.id]);
    assert_eq!(log.submit(Command { id: id(4, 1), key: 8 }, 6), vec![other.id]);
}
