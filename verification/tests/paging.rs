use irokle::frame::MAX_SYNC_DATA_OPS_PER_MESSAGE;
use irokle::oplog::topology::topological;
use irokle::crypto::Ed25519Signer;
use irokle::error::Error;
use irokle::node::{Irokle, NodeConfig};
use irokle::paging::sync_data_page;
use irokle::topic::{EventEnvelope, TopicConfig};

fn peer(seed: u8) -> Irokle {
    Irokle::new(NodeConfig::new(Ed25519Signer::from_bytes([seed; 32])))
}

fn note(text: &str) -> EventEnvelope {
    EventEnvelope { type_id: "example.note".to_string(), payload: text.as_bytes().to_vec() }
}

#[test]
fn pages_keep_history_order_within_budget() {
    let mut alice = peer(61);
    let bob = peer(62);
    let mut config = TopicConfig::new();
    config.initial_peers.insert(bob.peer_id());
    let topic = alice.create_topic(config, "example.note".to_string()).unwrap();
    for i in 0..5u8 {
        topic.publish(&mut alice, note(&format!("note {i}"))).unwrap();
    }
    let summary = bob.sync_summary(topic.id());
    let all = alice.plan_sync_data(bob.peer_id(), &summary).unwrap();
    assert_eq!(all.ops.len(), 6);

    // Unbounded: one message with every op.
    let page = alice.plan_data_page(bob.peer_id(), &summary, 10, usize::MAX).unwrap();
    assert!(!page.cut);
    assert_eq!(page.messages.len(), 1);
    assert_eq!(page.messages[0].ops.len(), 6);

    // One message's worth of bytes for two ops: the first two, in order, and cut.
    let two: usize = 41 + all.ops[..2].iter().map(|op| 4 + op.encoded_len()).sum::<usize>();
    let page = alice.plan_data_page(bob.peer_id(), &summary, 10, two).unwrap();
    assert!(page.cut);
    assert_eq!(page.messages.len(), 1);
    assert_eq!(page.messages[0].ops.len(), 2);
    assert_eq!(page.messages[0].ops[0].id, all.ops[0].id);
    assert_eq!(page.messages[0].ops[1].id, all.ops[1].id);

    // No message allowed: nothing is sent.
    let page = alice.plan_data_page(bob.peer_id(), &summary, 0, usize::MAX).unwrap();
    assert!(page.cut);
    assert!(page.messages.is_empty());

    // A stranger is owed nothing.
    let carol = peer(63);
    assert!(matches!(alice.plan_data_page(carol.peer_id(), &summary, 10, usize::MAX), Err(Error::NotTopicMember)));
}

#[test]
fn empty_page_is_not_cut() {
    let page = sync_data_page(irokle::ids::Id32::from_bytes([1; 32]), Vec::new(), 4, 100).unwrap();
    assert!(!page.cut);
    assert!(page.messages.is_empty());
}

#[test]
fn page_fits_messages() {
    let mut node = peer(63);
    let topic = node.create_topic(TopicConfig::new(), "example.note".to_string()).unwrap();
    for _ in 0..(3 * MAX_SYNC_DATA_OPS_PER_MESSAGE) {
        topic.publish(&mut node, note("ping")).unwrap();
    }
    let ops = topological(node.storage(), &topic.id()).unwrap();
    let copy = |ops: &Vec<irokle::op::Op>| ops.iter().map(|op| op.duplicate()).collect::<Vec<_>>();
    let whole = sync_data_page(topic.id(), copy(&ops), 8, usize::MAX).unwrap();
    assert!(!whole.cut);
    assert_eq!(whole.messages.len(), 4);

    let cut = sync_data_page(topic.id(), copy(&ops), 2, usize::MAX).unwrap();
    assert!(cut.cut, "a cut page must report the rest");
    assert!(cut.messages.len() <= 2);
    let sent = cut.messages.iter().flat_map(|message| message.ops.iter().map(|op| op.id)).collect::<Vec<_>>();
    assert!(!sent.is_empty());
    let prefix = ops[..sent.len()].iter().map(|op| op.id).collect::<Vec<_>>();
    assert_eq!(sent, prefix, "the kept part is a prefix");
}
