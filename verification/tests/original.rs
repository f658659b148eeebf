use blsmr::blsmr::log::ConflictTracker;
use blsmr::blsmr::pbft::accepts_sender;
use blsmr::blsmr::quorum::Instance;
use blsmr::blsmr::BLSMRProtocol;
use blsmr::client::CmdId;

fn cmd(id: usize) -> CmdId {
    CmdId { pid: 0, id }
}

fn percentage(tracker: &ConflictTracker) -> f64 {
    if tracker.executed_commands() == 0 {
        0.0
    } else {
        100.0 * tracker.conflicting_commands() as f64 / tracker.executed_commands() as f64
    }
}

#[test]
fn conflict_is_counted_once_on_first_execution() {
    let mut tracker = ConflictTracker::new(2);
    tracker.record_arrival(cmd(1), 7);
    tracker.record_arrival(cmd(2), 7);

    tracker.record_execution(0, cmd(1), 7);
    tracker.record_execution(1, cmd(1), 7);

    assert_eq!(tracker.executed_commands(), 1);
    assert_eq!(tracker.conflicting_commands(), 1);
    assert_eq!(percentage(&tracker), 100.0);
}

#[test]
fn fully_executed_commands_stop_conflicting() {
    let mut tracker = ConflictTracker::new(2);
    tracker.record_arrival(cmd(1), 7);
    tracker.record_arrival(cmd(2), 7);

    tracker.record_execution(0, cmd(1), 7);
    tracker.record_execution(1, cmd(1), 7);
    tracker.record_execution(0, cmd(2), 7);

    assert_eq!(tracker.executed_commands(), 2);
    assert_eq!(tracker.conflicting_commands(), 1);
    assert_eq!(percentage(&tracker), 50.0);
}

#[test]
fn different_keys_do_not_conflict() {
    let mut tracker = ConflictTracker::new(2);
    tracker.record_arrival(cmd(1), 7);
    tracker.record_arrival(cmd(2), 8);

    tracker.record_execution(0, cmd(1), 7);
    tracker.record_execution(0, cmd(2), 8);

    assert_eq!(tracker.executed_commands(), 2);
    assert_eq!(tracker.conflicting_commands(), 0);
    assert_eq!(percentage(&tracker), 0.0);
}

#[test]
fn wintermute_accepts_sender_without_committee() {
    assert!(accepts_sender(&BLSMRProtocol::Wintermute, &[], 7));
}

#[test]
fn three_jane_accepts_only_committee_members() {
    assert!(accepts_sender(&BLSMRProtocol::ThreeJane, &[1, 2], 2));
    assert!(!accepts_sender(&BLSMRProtocol::ThreeJane, &[1, 2], 3));
}

#[test]
fn decides_after_identical_responses_from_every_replica() {
    let deps: Vec<CmdId> = vec![CmdId { pid: 0, id: 1 }];
    let mut instance = Instance::new(deps.clone(), vec![1, 2]);

    assert!(!instance.accept(1, &deps));
    assert!(!instance.accept(1, &deps));
    assert!(!instance.accept(3, &deps));
    assert!(instance.accept(2, &deps));
}
