use irokle::crypto::Ed25519Signer;
use irokle::error::Error;
use irokle::history::HistoryOrder;
use irokle::idset::IdSet;
use irokle::node::{Irokle, NodeConfig, PublishOptions, WriteConcern};
use irokle::node::builder::IrokleBuilder;
use irokle::node::sync::{ReceiveOutcome, SyncData};
use irokle::oplog::topology::topological;
use irokle::topic::{EventEnvelope, TopicConfig};

fn node(seed: u8) -> Irokle {
    Irokle::new(NodeConfig::new(Ed25519Signer::from_bytes([seed; 32])))
}

fn chat(text: &str) -> EventEnvelope {
    EventEnvelope { type_id: "example.chat.message".to_string(), payload: text.as_bytes().to_vec() }
}

fn chat_type() -> String {
    "example.chat.message".to_string()
}

#[test]
fn readme_sync_roundtrip() {
    let mut alice = node(1);
    let mut bob = node(2);
    let mut config = TopicConfig::new();
    config.initial_peers.insert(bob.peer_id());
    let topic = alice.create_topic(config, chat_type()).unwrap();
    topic.publish(&mut alice, chat("hello")).unwrap();

    let bob_summary = bob.sync_summary(topic.id());
    assert!(bob_summary.genesis.is_none());
    let data = alice.plan_sync_data(bob.peer_id(), &bob_summary).unwrap();
    assert_eq!(data.ops.len(), 2);
    let (ack, evictions) = bob.receive_sync_data_from(alice.peer_id(), data).unwrap();
    assert!(evictions.is_empty());
    assert_eq!(ack.accepted.len(), 2);
    alice.apply_sync_ack(&ack).unwrap();

    let bob_topic = bob.open_topic(topic.id(), &chat_type()).unwrap();
    let history = bob_topic.history(&bob, HistoryOrder::OldestFirst).unwrap();
    assert_eq!(history.len(), 1);
    assert_eq!(history[0].event.payload, b"hello".to_vec());
    let newest = history[0].meta.op_id;
    assert!(alice.peer_reached_op(bob.peer_id(), newest));
    assert_eq!(alice.peers_reached_op(newest).len(), 1);
}

#[test]
fn creator_is_always_member() {
    let mut alice = node(3);
    let topic = alice.create_topic(TopicConfig::new(), chat_type()).unwrap();
    let state = alice.storage().topic_state(&topic.id()).unwrap();
    assert!(state.members.contains(&alice.peer_id()));
    assert_eq!(state.members.len(), 1);
}

#[test]
fn open_topic_checks_type_and_membership() {
    let mut alice = node(4);
    let topic = alice.create_topic(TopicConfig::new(), chat_type()).unwrap();
    match alice.open_topic(topic.id(), &"other.type".to_string()) {
        Err(Error::EventTypeMismatch { .. }) => {},
        other => panic!("unexpected {:?}", other.map(|t| t.id())),
    }
    let missing = irokle::ids::Id32::from_bytes([9; 32]);
    assert!(matches!(alice.open_topic(missing, &chat_type()), Err(Error::TopicNotFound)));
    alice.open_topic(topic.id(), &chat_type()).unwrap();
}

#[test]
fn removed_member_cannot_publish() {
    let mut alice = node(5);
    let bob = node(6);
    let mut config = TopicConfig::new();
    config.initial_peers.insert(bob.peer_id());
    let topic = alice.create_topic(config, chat_type()).unwrap();
    topic.leave(&mut alice).unwrap();
    assert!(matches!(topic.publish(&mut alice, chat("late")), Err(Error::NotTopicMember)));
    assert!(matches!(alice.reject_topic(topic.id()), Err(Error::NotTopicMember)));
}

#[test]
fn async_replication_needs_transport() {
    let mut alice = node(7);
    let topic = alice.create_topic(TopicConfig::new(), chat_type()).unwrap();
    let options = PublishOptions { write_concern: WriteConcern::AsyncReplication };
    assert!(matches!(topic.publish_with(&mut alice, chat("x"), options), Err(Error::ReplicationUnavailable)));
    topic.publish_with(&mut alice, chat("y"), PublishOptions::local()).unwrap();
}

#[test]
fn unknown_topic_without_proof_is_staged() {
    let mut alice = node(8);
    let mut carol = node(9);
    let topic = alice.create_topic(TopicConfig::new(), chat_type()).unwrap();
    let ops = topological(alice.storage(), &topic.id()).unwrap();
    let outcome = carol.receive_sync_outcome(alice.peer_id(), SyncData { topic_id: topic.id(), ops }).unwrap();
    assert!(matches!(outcome, ReceiveOutcome::Staged(_)));
    assert!(carol.list_topics().is_empty());
}

#[test]
fn history_newest_first_reverses() {
    let mut alice = node(10);
    let topic = alice.create_topic(TopicConfig::new(), chat_type()).unwrap();
    for text in ["a", "b", "c"] {
        topic.publish(&mut alice, chat(text)).unwrap();
    }
    let oldest = topic.history(&alice, HistoryOrder::OldestFirst).unwrap();
    let newest = topic.history(&alice, HistoryOrder::NewestFirst).unwrap();
    assert_eq!(oldest.len(), 3);
    for (a, b) in oldest.iter().zip(newest.iter().rev()) {
        assert!(a.meta.op_id.same(&b.meta.op_id));
    }
    assert_eq!(oldest[0].event.payload, b"a".to_vec());
    let cursor = topic.history_cursor(&alice).unwrap();
    topic.publish(&mut alice, chat("d")).unwrap();
    let after = topic.history_after(&alice, &cursor, HistoryOrder::OldestFirst).unwrap();
    assert_eq!(after.len(), 1);
    assert_eq!(after[0].event.payload, b"d".to_vec());
}

#[test]
fn whitelist_updates() {
    let mut alice = node(11);
    let bob = node(12);
    assert!(alice.peer_whitelist().unwrap().is_empty());
    assert!(!alice.peer_allowed(&bob.peer_id()));
    alice.add_peer_to_whitelist(bob.peer_id());
    assert!(alice.peer_allowed(&bob.peer_id()));
    alice.set_peer_whitelist(None);
    assert!(alice.peer_whitelist().is_none());
    let mut more = IdSet::new();
    more.insert(bob.peer_id());
    alice.add_peers_to_whitelist(&more);
    assert_eq!(alice.peer_whitelist().unwrap().len(), 1);
}

#[test]
fn builder_sets_parts() {
    let signer = Ed25519Signer::from_bytes([13; 32]);
    let peer = signer.peer_id();
    let node = IrokleBuilder::new(NodeConfig::new(Ed25519Signer::from_bytes([14; 32])))
        .with_signer(signer)
        .without_peer_whitelist()
        .with_alpn(b"custom/1".to_vec())
        .without_auto_accept()
        .build();
    assert!(node.peer_id().same(&peer));
    assert!(node.peer_whitelist().is_none());
    assert_eq!(node.iroh_runtime_config().connect_timeout_ms, 30000);
}

#[test]
fn seal_and_clear() {
    let mut alice = node(15);
    let topic = alice.create_topic(TopicConfig::new(), chat_type()).unwrap();
    assert!(alice.seal_topic(topic.id()));
    assert!(alice.unseal_topic(topic.id()));
    assert!(!alice.seal_topic(irokle::ids::Id32::from_bytes([1; 32])));
    assert!(alice.pending_evictions().is_empty());
}

#[test]
fn invitation_history_activates_staging() {
    let mut alice = node(40);
    let mut carol = node(41);
    let topic = alice.create_topic(TopicConfig::new(), chat_type()).unwrap();
    topic.publish(&mut alice, chat("before")).unwrap();
    let first = topological(alice.storage(), &topic.id()).unwrap();
    // The genesis does not name carol: the fragment is staged, nothing is visible.
    let outcome = carol.receive_sync_outcome(alice.peer_id(), SyncData { topic_id: topic.id(), ops: first }).unwrap();
    match outcome {
        ReceiveOutcome::Staged(receipt) => {
            assert!(receipt.genesis.is_some());
            assert!(receipt.bytes > 0);
        }
        ReceiveOutcome::Acked { .. } => panic!("an unproven fragment was acked"),
    }
    assert!(carol.list_topics().is_empty());
    assert!(carol.staged_topic(alice.peer_id(), topic.id()).is_some());
    assert!(!carol.finish_bootstrap(alice.peer_id(), topic.id()));

    // The invitation proves membership: the whole staged history becomes the topic.
    topic.add_peer(&mut alice, carol.peer_id()).unwrap();
    let all = topological(alice.storage(), &topic.id()).unwrap();
    let outcome = carol.receive_sync_outcome(alice.peer_id(), SyncData { topic_id: topic.id(), ops: all }).unwrap();
    match outcome {
        ReceiveOutcome::Acked { ack, .. } => assert_eq!(ack.accepted.len(), 3),
        ReceiveOutcome::Staged(_) => panic!("the proven history stayed staged"),
    }
    assert_eq!(carol.list_topics().len(), 1);
    assert!(carol.staged_topic(alice.peer_id(), topic.id()).is_none());
    let opened = carol.open_topic(topic.id(), &chat_type()).unwrap();
    assert_eq!(opened.history(&carol, HistoryOrder::OldestFirst).unwrap().len(), 1);
    assert!(carol.finish_bootstrap(alice.peer_id(), topic.id()));
}

#[test]
fn fragment_without_genesis_is_not_staged() {
    let mut alice = node(42);
    let mut carol = node(43);
    let topic = alice.create_topic(TopicConfig::new(), chat_type()).unwrap();
    topic.publish(&mut alice, chat("x")).unwrap();
    let ops = topological(alice.storage(), &topic.id()).unwrap();
    let tail: Vec<_> = ops[1..].iter().map(|op| op.duplicate()).collect();
    let outcome = carol.receive_sync_outcome(alice.peer_id(), SyncData { topic_id: topic.id(), ops: tail }).unwrap();
    match outcome {
        ReceiveOutcome::Staged(receipt) => {
            assert!(receipt.genesis.is_none());
            assert_eq!(receipt.bytes, 0);
        }
        ReceiveOutcome::Acked { .. } => panic!("a fragment without genesis was acked"),
    }
    assert!(carol.staged_topic(alice.peer_id(), topic.id()).is_none());
    let err = carol.receive_sync_data_from(alice.peer_id(), SyncData { topic_id: topic.id(), ops });
    assert!(matches!(err, Err(Error::BootstrapPending { .. })));
    assert!(carol.list_topics().is_empty());
}

#[test]
fn idle_stagings_expire() {
    let mut alice = node(44);
    let mut carol = node(45);
    let topic = alice.create_topic(TopicConfig::new(), chat_type()).unwrap();
    let ops = topological(alice.storage(), &topic.id()).unwrap();
    carol.set_now(1_000);
    carol.receive_sync_outcome(alice.peer_id(), SyncData { topic_id: topic.id(), ops }).unwrap();
    assert!(carol.staged_topic(alice.peer_id(), topic.id()).is_some());
    carol.expire_bootstraps(1_000 + irokle::node::bootstrap::MAX_STAGED_IDLE_MS);
    assert!(carol.staged_topic(alice.peer_id(), topic.id()).is_some());
    carol.expire_bootstraps(1_001 + irokle::node::bootstrap::MAX_STAGED_IDLE_MS);
    assert!(carol.staged_topic(alice.peer_id(), topic.id()).is_none());
}

#[derive(Default)]
struct Transcript;

impl irokle::reducer::Reducer for Transcript {
    type State = Vec<String>;
    type Error = Error;

    fn apply(&mut self, state: &mut Vec<String>, record: &irokle::reducer::EventRecord) -> Result<(), Error> {
        state.push(String::from_utf8_lossy(&record.event.payload).into_owned());
        Ok(())
    }
}

#[test]
fn reducer_follows_history() {
    let mut alice = node(46);
    let mut reduced = alice
        .create_topic_with_reducer::<Transcript>(TopicConfig::new(), chat_type())
        .unwrap();
    reduced.publish(&mut alice, chat("one")).unwrap();
    reduced.publish(&mut alice, chat("two")).unwrap();
    assert_eq!(reduced.state(), &vec!["one".to_string(), "two".to_string()]);
    let rebuilt = reduced.reduce_now(&alice, HistoryOrder::NewestFirst).unwrap();
    assert_eq!(rebuilt, &vec!["two".to_string(), "one".to_string()]);
    let events = reduced.topic().events(&alice).unwrap();
    assert_eq!(events.len(), 2);
    let reopened = alice.open_topic_with_reducer::<Transcript>(reduced.id(), &chat_type()).unwrap();
    assert!(reopened.state().is_empty());
}

#[test]
fn later_membership_control_decides() {
    let mut alice = node(41);
    let carol = node(43);
    let topic = alice.create_topic(TopicConfig::new(), chat_type()).unwrap();
    topic.add_peer(&mut alice, carol.peer_id()).unwrap();
    assert!(alice.storage().topic_state(&topic.id()).unwrap().members.contains(&carol.peer_id()));
    topic.remove_peer(&mut alice, carol.peer_id()).unwrap();
    assert!(!alice.storage().topic_state(&topic.id()).unwrap().members.contains(&carol.peer_id()));
    topic.add_peer(&mut alice, carol.peer_id()).unwrap();
    assert!(alice.storage().topic_state(&topic.id()).unwrap().members.contains(&carol.peer_id()));
}

#[test]
fn a_fresh_op_of_a_held_topic_is_acked() {
    let mut alice = node(44);
    let mut bob = node(45);
    let mut config = TopicConfig::new();
    config.initial_peers.insert(bob.peer_id());
    let topic = alice.create_topic(config, chat_type()).unwrap();
    let data = alice.plan_sync_data(bob.peer_id(), &bob.sync_summary(topic.id())).unwrap();
    bob.receive_sync_data_from(alice.peer_id(), data).unwrap();
    // One new event, causally ready at bob's side.
    let record = topic.publish(&mut alice, chat("next")).unwrap();
    let op = alice.storage().get_op(&record.meta.op_id).unwrap().duplicate();
    let data = SyncData { topic_id: topic.id(), ops: vec![op] };
    let (ack, _) = bob.receive_sync_data_from(alice.peer_id(), data).unwrap();
    assert!(ack.accepted.contains(&record.meta.op_id));
    assert!(bob.storage().get_op(&record.meta.op_id).is_some());
}

#[test]
fn an_opened_topic_is_owed_to_a_member() {
    let mut alice = node(46);
    let topic = alice.create_topic(TopicConfig::new(), chat_type()).unwrap();
    let opened = alice.open_topic(topic.id(), &chat_type()).unwrap();
    assert_eq!(opened.id(), topic.id());
    match alice.open_topic(topic.id(), &"other.type".to_string()) {
        Err(Error::EventTypeMismatch { expected, actual }) => {
            assert_eq!(expected, "other.type");
            assert_eq!(actual, chat_type());
        }
        _ => panic!("expected a type mismatch"),
    }
}
