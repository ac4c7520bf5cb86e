use irokle::crypto::{actor_id_for, Ed25519Signer};
use irokle::error::Error;
use irokle::ids::{Id32, TopicId};
use irokle::idset::IdSet;
use irokle::node::sync::{ReceiveOutcome, SyncData};
use irokle::node::{Irokle, NodeConfig};
use irokle::op::Op;
use irokle::oplog::Oplog;
use irokle::topic::{ReplicationPolicy, TopicGenesis};

fn signer(seed: u8) -> Ed25519Signer {
    Ed25519Signer::from_bytes([seed; 32])
}

fn genesis_of(topic_id: TopicId, author: &Ed25519Signer, peers: &[Id32]) -> (Oplog, Op) {
    let mut log = Oplog::new();
    let genesis = TopicGenesis {
        event_type_id: "test.genesis".to_string(),
        initial_peers: IdSet::from_slice(peers),
        replication_policy: ReplicationPolicy::all(),
    };
    let op = log
        .create_topic_genesis(topic_id, actor_id_for(topic_id, author.peer_id()), genesis, author)
        .unwrap();
    (log, op)
}

/// Two members open one topic at once with the same initial peers: both
/// replicas keep the smaller genesis, whichever arrives first, and the loser
/// reports what it discarded.
#[test]
fn concurrent_genesis_same_choice() {
    let alice = signer(50);
    let bob = signer(51);
    let topic_id = Id32::hash(b"shared topic");
    let (mut at_alice, from_alice) = genesis_of(topic_id, &alice, &[bob.peer_id()]);
    let (mut at_bob, from_bob) = genesis_of(topic_id, &bob, &[alice.peer_id()]);
    let smaller = if from_alice.id.lt(&from_bob.id) { from_alice.id } else { from_bob.id };

    at_alice.receive_ops(vec![from_bob.duplicate()]).unwrap();
    at_bob.receive_ops(vec![from_alice.duplicate()]).unwrap();
    let left = at_alice.storage().topic_state(&topic_id).unwrap().genesis;
    let right = at_bob.storage().topic_state(&topic_id).unwrap().genesis;
    assert_eq!(left, smaller);
    assert_eq!(right, smaller);
    let evicted = at_alice.storage().pending_evictions().len() + at_bob.storage().pending_evictions().len();
    assert_eq!(evicted, 1);
}

/// A genesis naming other initial peers never replaces the held one.
#[test]
fn foreign_genesis_refused() {
    let alice = signer(52);
    let bob = signer(53);
    let carol = signer(54);
    let topic_id = Id32::hash(b"guarded topic");
    let (mut at_alice, held) = genesis_of(topic_id, &alice, &[bob.peer_id()]);
    let (_, other) = genesis_of(topic_id, &carol, &[bob.peer_id()]);
    let _ = at_alice.receive_ops(vec![other.duplicate()]);
    assert_eq!(at_alice.storage().topic_state(&topic_id).unwrap().genesis, held.id);
}

/// A staging follows the smaller genesis a source sends and refuses a larger one.
#[test]
fn staging_keeps_smaller_genesis() {
    let alice = signer(55);
    let bob = signer(56);
    let carol_signer = signer(57);
    let mut carol = Irokle::new(NodeConfig::new(signer(57)));
    let topic_id = Id32::hash(b"staged topic");
    let (_, first) = genesis_of(topic_id, &alice, &[bob.peer_id()]);
    let (_, second) = genesis_of(topic_id, &bob, &[alice.peer_id()]);
    let (small, large) = if first.id.lt(&second.id) { (first, second) } else { (second, first) };
    assert!(!carol_signer.peer_id().same(&alice.peer_id()));

    let data = SyncData { topic_id, ops: vec![large.duplicate()] };
    match carol.receive_sync_outcome(alice.peer_id(), data).unwrap() {
        ReceiveOutcome::Staged(receipt) => assert_eq!(receipt.genesis, Some(large.id)),
        ReceiveOutcome::Acked { .. } => panic!("an unproven genesis was acked"),
    }
    let data = SyncData { topic_id, ops: vec![small.duplicate()] };
    match carol.receive_sync_outcome(alice.peer_id(), data).unwrap() {
        ReceiveOutcome::Staged(receipt) => assert_eq!(receipt.genesis, Some(small.id)),
        ReceiveOutcome::Acked { .. } => panic!("an unproven genesis was acked"),
    }
    let data = SyncData { topic_id, ops: vec![large.duplicate()] };
    assert!(matches!(carol.receive_sync_outcome(alice.peer_id(), data), Err(Error::StaleIncarnation)));
    assert!(carol.list_topics().is_empty());
}
