use irokle::crypto::Ed25519Signer;
use irokle::ids::Id32;
use irokle::node::{Irokle, NodeConfig};
use irokle::status::{StatusBook, SyncPeerState};
use irokle::transport::AttemptOutcome;

fn id(seed: u8) -> Id32 {
    Id32::from_bytes([seed; 32])
}

#[test]
fn attempts_count_once_and_set_the_state() {
    let mut book = StatusBook::new();
    let (peer, topic) = (id(1), id(2));
    let first = book.record_attempt_result(peer, topic, (1, 1), &AttemptOutcome::Complete, true, 100, 0);
    assert_eq!(first.state, SyncPeerState::Healthy);
    assert_eq!(first.successful_attempts, 1);
    assert_eq!(first.last_success_ms, Some(100));
    assert_eq!(first.attempt, Some((1, 1)));

    // A repeat of the same completion returns the stored record unchanged.
    let again = book.record_attempt_result(peer, topic, (1, 1), &AttemptOutcome::Failed("late".to_string()), false, 200, 3);
    assert_eq!(again.state, SyncPeerState::Healthy);
    assert_eq!(again.failed_attempts, 0);
    assert_eq!(again.last_attempt_ms, Some(100));

    // A failure counts, keeps the last success and names its error.
    let failed = book.record_attempt_result(peer, topic, (1, 2), &AttemptOutcome::Failed("reset".to_string()), true, 300, 2);
    assert_eq!(failed.state, SyncPeerState::Failed);
    assert_eq!(failed.failed_attempts, 1);
    assert_eq!(failed.successful_attempts, 1);
    assert_eq!(failed.last_success_ms, Some(100));
    assert_eq!(failed.last_error.as_deref(), Some("reset"));
    assert_eq!(failed.pending_obligations, 2);

    // A blocked attempt leaves the peer behind; an advanced one clears the error.
    let blocked = book.record_attempt_result(peer, topic, (1, 3), &AttemptOutcome::Blocked("idle".to_string()), true, 400, 2);
    assert_eq!(blocked.state, SyncPeerState::Behind);
    let advanced = book.record_attempt_result(peer, topic, (1, 4), &AttemptOutcome::Advanced, true, 500, 1);
    assert_eq!(advanced.state, SyncPeerState::Behind);
    assert_eq!(advanced.last_error, None);
    assert_eq!(advanced.successful_attempts, 2);
}

#[test]
fn status_lists_recorded_and_owing_peers() {
    let mut book = StatusBook::new();
    let topic = id(9);
    book.record_attempt_result(id(3), topic, (1, 1), &AttemptOutcome::Complete, true, 10, 0);
    book.record_attempt_result(id(5), topic, (1, 1), &AttemptOutcome::Complete, true, 10, 0);
    book.record_attempt_result(id(4), id(8), (1, 1), &AttemptOutcome::Complete, true, 10, 0);

    // Peer 5 still owes two ops, peer 7 has no record yet.
    let statuses = book.sync_status(topic, &vec![(id(5), 2), (id(7), 1)]);
    let peers: Vec<Id32> = statuses.iter().map(|s| s.peer_id).collect();
    assert_eq!(peers, vec![id(3), id(5), id(7)]);
    assert_eq!(statuses[0].state, SyncPeerState::Healthy);
    assert_eq!(statuses[0].pending_obligations, 0);
    assert_eq!(statuses[1].state, SyncPeerState::Behind);
    assert_eq!(statuses[1].pending_obligations, 2);
    assert_eq!(statuses[2].state, SyncPeerState::Behind);
    assert_eq!(statuses[2].successful_attempts, 0);
}

#[test]
fn node_counts_peers_by_state() {
    let mut node = Irokle::new(NodeConfig::new(Ed25519Signer::from_bytes([21; 32])));
    let topic = id(30);
    node.record_attempt_result(id(31), topic, (1, 1), &AttemptOutcome::Complete, true, 0);
    node.record_attempt_result(id(32), topic, (1, 1), &AttemptOutcome::Failed("gone".to_string()), true, 0);
    let counts = node.sync_state_counts(topic, &vec![(id(33), 4)]);
    assert_eq!(counts.healthy, 1);
    assert_eq!(counts.behind, 1);
    assert_eq!(counts.failed, 1);
    assert_eq!(node.sync_status(topic, &Vec::new()).len(), 2);
}
