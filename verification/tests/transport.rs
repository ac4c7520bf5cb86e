use irokle::transport::{attempt_outcome, no_progress_message, AttemptError, AttemptOutcome};
use irokle::crypto::Ed25519Signer;
use irokle::node::builder::IrokleBuilder;
use irokle::node::NodeConfig;
use irokle::idmap::IdMap;
use irokle::idset::IdSet;
use irokle::storage::{ControlKey, MembershipControl, TopicState};
use irokle::topic::ReplicationPolicy;
use irokle::transport::peer_may_open_topic;
use irokle::transport::{ReceiptLog, MAX_BOOTSTRAP_RECEIPTS};
use irokle::node::bootstrap::StagedTopic;
use irokle::clock::ActorClock;
use irokle::ids::Id32;
use irokle::transport::{
    covered, extend_alpns, initial_full_sweep_delay, sync_alpn, GoalProgress, StreamError, StreamLimits,
    SyncReadLimits, TopicGoal, MAX_SYNC_MESSAGES_PER_STREAM, MAX_SYNC_STREAM_BYTES,
};

#[test]
fn stream_counts_frames_until_a_bound() {
    let limits = StreamLimits { bytes: 20, messages: 2, batch_messages: 1, inbound_bytes: 20 };
    let mut stream = SyncReadLimits::new(limits);
    assert_eq!(stream.observe_frame(4), Ok(0));
    assert_eq!(stream.bytes, 8);
    assert_eq!(stream.observe_frame(4), Ok(1));
    assert_eq!(stream.observe_frame(0), Err(StreamError::TooManyMessages));
    assert_eq!(stream.messages, 2);

    let mut long = SyncReadLimits::new(limits);
    assert_eq!(long.observe_frame(17), Err(StreamError::TooLong));
    assert_eq!(long.bytes, 21, "the refused frame stays counted");
    assert_eq!(long.messages, 0);

    let mut full = SyncReadLimits { limits, messages: 0, bytes: usize::MAX - 3 };
    assert_eq!(full.observe_frame(1), Err(StreamError::ByteOverflow));
    assert_eq!(full.bytes, usize::MAX - 3);
}

#[test]
fn default_stream_limits() {
    let limits = StreamLimits::default();
    assert_eq!(limits.messages, MAX_SYNC_MESSAGES_PER_STREAM);
    assert_eq!(limits.bytes, MAX_SYNC_STREAM_BYTES);
    assert_eq!(limits.batch_messages, MAX_SYNC_MESSAGES_PER_STREAM / 2);
}

#[test]
fn sync_protocol_is_offered_once() {
    assert_eq!(sync_alpn(), b"irokle/sync/2".to_vec());
    let other = b"other/1".to_vec();
    let extended = extend_alpns(vec![other.clone()]);
    assert_eq!(extended, vec![other.clone(), b"irokle/sync/2".to_vec()]);
    assert_eq!(extend_alpns(extended.clone()), extended);
    assert_eq!(extend_alpns(Vec::new()), vec![b"irokle/sync/2".to_vec()]);
}

fn clock(entries: &[(u8, u64)]) -> ActorClock {
    let mut clock = ActorClock::new();
    for (actor, seq) in entries {
        clock.observe(Id32::from_bytes([*actor; 32]), *seq);
    }
    clock
}

#[test]
fn covered_sums_shared_positions() {
    let have = clock(&[(1, 3), (2, 10)]);
    let target = clock(&[(1, 5), (2, 4), (3, 7)]);
    assert_eq!(covered(&have, &target), 3 + 4);
    assert_eq!(covered(&target, &target), 16);
    assert_eq!(covered(&have, &ActorClock::new()), 0);
}

#[test]
fn goal_progress_reaches_and_advances() {
    let goal = TopicGoal {
        pull: false,
        genesis: None,
        replaces: None,
        inbound: clock(&[(1, 2)]),
        outbound: clock(&[(2, 3)]),
    };
    let before = GoalProgress { inbound: 1, outbound: 3, holes: 1, staged: 0 };
    assert!(!before.reached(&goal));
    let after = GoalProgress { inbound: 2, outbound: 3, holes: 0, staged: 0 };
    assert!(after.reached(&goal));
    assert!(after.advanced_from(&before));
    assert!(!before.advanced_from(&before));
    let staged = GoalProgress { staged: 1, ..before };
    assert!(staged.advanced_from(&before));
}

#[test]
fn full_sweep_waits_for_time_of_day() {
    let hour: u64 = 3_600;
    let day_ms: u64 = 24 * hour * 1_000;
    assert_eq!(initial_full_sweep_delay(5_000, 0, 123), 5_000);
    let day_start: u64 = 1_700_000_000 - 1_700_000_000 % (24 * hour);
    assert_eq!(initial_full_sweep_delay(day_ms, 3 * hour * 1_000, day_start + 2 * hour), hour * 1_000);
    assert_eq!(initial_full_sweep_delay(day_ms, 3 * hour * 1_000, day_start + 4 * hour), 23 * hour * 1_000);
    assert_eq!(initial_full_sweep_delay(day_ms, 3 * hour * 1_000, day_start + 3 * hour), 24 * hour * 1_000);
}

#[test]
fn members_and_removed_peers_may_open() {
    let member = Id32::from_bytes([1; 32]);
    let removed = Id32::from_bytes([2; 32]);
    let stranger = Id32::from_bytes([3; 32]);
    let mut controls = IdMap::new();
    let key = ControlKey { generation: 1, actor_id: Id32::from_bytes([8; 32]), actor_seq: 2, op_id: Id32::from_bytes([9; 32]) };
    controls.insert(removed, MembershipControl { key, is_member: false });
    let state = TopicState {
        topic_id: Id32::from_bytes([4; 32]),
        event_type_id: "t".into(),
        genesis: Id32::from_bytes([5; 32]),
        heads: IdSet::new(),
        members: IdSet::from_slice(&[member]),
        replication_policy: ReplicationPolicy::all(),
        membership_controls: controls,
        replication_policy_key: None,
    };
    assert!(peer_may_open_topic(&state, member));
    assert!(peer_may_open_topic(&state, removed));
    assert!(!peer_may_open_topic(&state, stranger));
}

fn receipt(bytes: u64) -> StagedTopic {
    let mut r = StagedTopic::empty();
    r.bytes = bytes;
    r
}

#[test]
fn receipt_log_keeps_newest_and_drops_oldest() {
    let peer = Id32::from_bytes([1; 32]);
    let mut log = ReceiptLog::new();
    log.record(peer, Id32::from_bytes([2; 32]), receipt(10));
    log.record(peer, Id32::from_bytes([2; 32]), receipt(20));
    assert_eq!(log.get(&peer, &Id32::from_bytes([2; 32])).unwrap().bytes, 20);
    log.clear(&peer, &Id32::from_bytes([2; 32]));
    assert!(log.get(&peer, &Id32::from_bytes([2; 32])).is_none());

    for index in 0..=MAX_BOOTSTRAP_RECEIPTS {
        let mut bytes = [0u8; 32];
        bytes[0] = (index % 256) as u8;
        bytes[1] = (index / 256) as u8;
        log.record(peer, Id32::from_bytes(bytes), receipt(index as u64));
    }
    assert!(log.get(&peer, &Id32::from_bytes([0; 32])).is_none(), "the oldest key is dropped");
    let mut newest = [0u8; 32];
    newest[0] = (MAX_BOOTSTRAP_RECEIPTS % 256) as u8;
    newest[1] = (MAX_BOOTSTRAP_RECEIPTS / 256) as u8;
    assert_eq!(log.get(&peer, &Id32::from_bytes(newest)).unwrap().bytes, MAX_BOOTSTRAP_RECEIPTS as u64);
}

#[test]
fn attempt_without_progress_is_blocked() {
    assert_eq!(attempt_outcome(Ok(()), true), AttemptOutcome::Advanced);
    assert_eq!(attempt_outcome(Ok(()), false), AttemptOutcome::Complete);
    let stalled = AttemptError { invalid_data: true, message: no_progress_message() };
    assert_eq!(attempt_outcome(Err(stalled), false), AttemptOutcome::Blocked("sync exchange made no progress".to_string()));
    let other_kind = AttemptError { invalid_data: false, message: no_progress_message() };
    assert_eq!(attempt_outcome(Err(other_kind), false), AttemptOutcome::Failed("sync exchange made no progress".to_string()));
    let broken = AttemptError { invalid_data: true, message: "bad frame".to_string() };
    assert_eq!(attempt_outcome(Err(broken), true), AttemptOutcome::Failed("bad frame".to_string()));
}

#[test]
fn builder_adds_each_protocol_once() {
    let builder = IrokleBuilder::new(NodeConfig::new(Ed25519Signer::from_bytes([7u8; 32])))
        .with_alpn(b"custom/1".to_vec())
        .with_alpn(b"custom/1".to_vec())
        .with_alpns(vec![b"custom/1".to_vec(), b"other/1".to_vec(), b"other/1".to_vec()]);
    let start = builder.alpns().len();
    assert_eq!(builder.alpns()[start - 2..].to_vec(), vec![b"custom/1".to_vec(), b"other/1".to_vec()]);
    let again = builder.with_alpn(b"other/1".to_vec());
    assert_eq!(again.alpns().len(), start);
}
