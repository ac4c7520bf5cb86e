use irokle::crypto::Ed25519Signer;
use irokle::node::bootstrap::Bootstrap;
use irokle::node::{Irokle, NodeConfig};
use irokle::oplog::topology::topological;
use irokle::topic::TopicConfig;
use irokle::staging::reclaim_count;

#[test]
fn reclaim_counts() {
    // Limit 100 with 50 held by the incoming staging and 5 and 35 by weaker ones.
    assert_eq!(reclaim_count(90, 10, 100, &[5, 35]), Some(0));
    assert_eq!(reclaim_count(90, 15, 100, &[5, 35]), Some(1));
    assert_eq!(reclaim_count(90, 30, 100, &[5, 35]), Some(2));
    assert_eq!(reclaim_count(90, 51, 100, &[5, 35]), None);
    assert_eq!(reclaim_count(90, 40, 100, &[35, 5]), Some(1));
    assert_eq!(reclaim_count(u64::MAX, 1, u64::MAX, &[0]), None);
}

#[test]
fn reclaim_nothing_needed_when_room() {
    assert_eq!(reclaim_count(0, 0, 0, &[]), Some(0));
    assert_eq!(reclaim_count(10, 1, 10, &[]), None);
    assert_eq!(reclaim_count(10, 1, 10, &[20]), Some(1));
}

#[test]
fn a_genesis_relayed_by_a_stranger_is_staged() {
    let node = |seed: u8| Irokle::new(NodeConfig::new(Ed25519Signer::from_bytes([seed; 32])));
    let mut alice = node(91);
    let mut bob = node(92);
    let carol = node(93);
    let mut config = TopicConfig::new();
    config.initial_peers.insert(bob.peer_id());
    let topic = alice.create_topic(config, "test.note".to_string()).unwrap();
    let ops = topological(alice.storage(), &topic.id()).unwrap();
    let genesis = ops[0].id;
    let data = vec![ops[0].duplicate()];
    match bob.bootstrap_unknown(carol.peer_id(), topic.id(), &data).unwrap() {
        Bootstrap::Staged(staged) => assert_eq!(staged.genesis, Some(genesis)),
        _ => panic!("a genesis relayed by a non-member must be staged"),
    }
    assert!(bob.storage().topic_state(&topic.id()).is_none());
}
