use irokle::crypto::Ed25519Signer;
use irokle::error::Error;
use irokle::idmap::IdMap;
use irokle::idset::IdSet;
use irokle::node::{Irokle, NodeConfig};
use irokle::session::SyncMessage;
use irokle::topic::{EventEnvelope, TopicConfig};
use irokle::transport::ReceiptLog;

fn member(seed: u8) -> Irokle {
    Irokle::new(NodeConfig::new(Ed25519Signer::from_bytes([seed; 32])))
}

fn line(text: &str) -> EventEnvelope {
    EventEnvelope { type_id: "example.line".to_string(), payload: text.as_bytes().to_vec() }
}

#[test]
fn messages_are_answered_by_kind() {
    let mut alice = member(71);
    let mut bob = member(72);
    let carol = member(73);
    let mut config = TopicConfig::new();
    config.initial_peers.insert(bob.peer_id());
    let topic = alice.create_topic(config, "example.line".to_string()).unwrap();
    topic.publish(&mut alice, line("one")).unwrap();

    // An open from a member is answered with a summary, one from a stranger with nothing.
    let replies = alice.handle_message(bob.peer_id(), SyncMessage::Open(topic.id())).unwrap();
    assert!(matches!(&replies[..], [SyncMessage::Summary(s)] if s.topic_id == topic.id()));
    assert!(alice.handle_message(carol.peer_id(), SyncMessage::Open(topic.id())).unwrap().is_empty());

    // Bob holds nothing: his summary asks alice for nothing; hers makes bob ask.
    let bob_summary = bob.sync_summary(topic.id());
    assert!(alice.handle_message(bob.peer_id(), SyncMessage::Summary(bob_summary)).unwrap().is_empty());
    let alice_summary = alice.sync_summary(topic.id());
    let asked = bob.handle_message(alice.peer_id(), SyncMessage::Summary(alice_summary)).unwrap();
    let request = match asked.into_iter().next() {
        Some(SyncMessage::Request(request)) => request,
        other => panic!("expected a request, got {other:?}"),
    };

    // Alice serves the request; bob, who trusts her to introduce topics, acks the data.
    bob.add_peer_to_whitelist(alice.peer_id());
    let data = alice.plan_sync_data(bob.peer_id(), &request).unwrap();
    assert_eq!(data.ops.len(), 2);
    let replies = bob.handle_message(alice.peer_id(), SyncMessage::Data(data)).unwrap();
    let ack = match replies.into_iter().next() {
        Some(SyncMessage::Ack(ack)) => ack,
        other => panic!("expected an ack, got {other:?}"),
    };
    assert_eq!(ack.accepted.len(), 2);

    // Acks are the session's to collect.
    assert!(matches!(alice.handle_message(bob.peer_id(), SyncMessage::Ack(ack)), Err(Error::UnexpectedMessage)));
}

#[test]
fn batch_replies_settle_owed_acks() {
    let mut alice = member(74);
    let mut bob = member(75);
    let mut config = TopicConfig::new();
    config.initial_peers.insert(bob.peer_id());
    let topic = alice.create_topic(config, "example.line".to_string()).unwrap();
    let data = alice.plan_sync_data(bob.peer_id(), &bob.sync_summary(topic.id())).unwrap();
    let (ack, _) = bob.receive_sync_data_from(alice.peer_id(), data).unwrap();

    let mut group = IdSet::new();
    group.insert(topic.id());
    let mut owed = IdSet::new();
    owed.insert(topic.id());
    let mut receipts = ReceiptLog::new();
    let replies = alice.batch_replies(bob.peer_id(), &group, &IdMap::<irokle::ids::Id32>::new(), vec![SyncMessage::Ack(ack)], owed,
        IdSet::new(), &mut receipts, 8, 1 << 20);
    assert_eq!(replies.acks.len(), 1);
    assert!(replies.owed.is_empty());
    assert!(!replies.unexpected);

    // A response for a topic outside the group stops the batch.
    let stray = SyncMessage::Open(topic.id());
    let replies = alice.batch_replies(bob.peer_id(), &group, &IdMap::<irokle::ids::Id32>::new(), vec![stray], IdSet::new(),
        IdSet::new(), &mut receipts, 8, 1 << 20);
    assert!(replies.unexpected);
}

#[test]
fn topic_messages_open_then_carry_what_the_peer_lacks() {
    let mut alice = member(76);
    let bob = member(77);
    let mut carol = member(78);
    let mut config = TopicConfig::new();
    config.initial_peers.insert(bob.peer_id());
    let topic = alice.create_topic(config, "example.line".to_string()).unwrap();
    topic.publish(&mut alice, line("one")).unwrap();
    let summary = bob.sync_summary(topic.id());

    let messages = alice.plan_topic_messages(bob.peer_id(), &summary, 4, usize::MAX).unwrap().unwrap();
    assert_eq!(messages.len(), 2);
    assert!(matches!(&messages[0], SyncMessage::Open(t) if *t == topic.id()));
    assert!(matches!(&messages[1], SyncMessage::Data(d) if d.ops.len() == 2 && d.topic_id == topic.id()));

    // With no room for data, the open goes alone.
    let messages = alice.plan_topic_messages(bob.peer_id(), &summary, 0, usize::MAX).unwrap().unwrap();
    assert_eq!(messages.len(), 1);

    assert!(matches!(alice.plan_topic_messages(carol.peer_id(), &summary, 4, usize::MAX), Err(Error::NotTopicMember)));

    // A peer that holds the topic whole needs nothing.
    let whole = alice.sync_summary(topic.id());
    assert!(alice.plan_topic_messages(bob.peer_id(), &whole, 4, usize::MAX).unwrap().is_none());

    // A topic not held here is pulled with a request naming nothing held, from a
    // peer the whitelist names.
    assert!(matches!(carol.plan_topic_messages(alice.peer_id(), &whole, 4, usize::MAX), Err(Error::PeerNotWhitelisted(_))));
    carol.add_peer_to_whitelist(alice.peer_id());
    let pull = carol.plan_topic_messages(alice.peer_id(), &whole, 4, usize::MAX).unwrap().unwrap();
    assert_eq!(pull.len(), 2);
    assert!(matches!(&pull[0], SyncMessage::Open(t) if *t == topic.id()));
    assert!(matches!(&pull[1], SyncMessage::Request(q) if q.topic_id == topic.id() && q.genesis.is_none()));
    // Nothing to pull when the peer names no branch either.
    assert!(carol.plan_topic_messages(alice.peer_id(), &summary, 4, usize::MAX).unwrap().is_none());
}

#[test]
fn data_of_an_unknown_topic_needs_a_whitelisted_introducer() {
    let mut alice = member(79);
    let mut bob = member(80);
    let mut config = TopicConfig::new();
    config.initial_peers.insert(bob.peer_id());
    let topic = alice.create_topic(config, "example.line".to_string()).unwrap();
    let data = alice.plan_sync_data(bob.peer_id(), &bob.sync_summary(topic.id())).unwrap();

    // The whitelist starts empty: alice may not introduce the topic.
    let refused = bob.handle_message(alice.peer_id(), SyncMessage::Data(data));
    assert!(matches!(refused, Err(Error::PeerNotWhitelisted(p)) if p == alice.peer_id()));
    assert!(bob.list_topics().is_empty());

    // Once she is on it, her data is received and acked.
    bob.add_peer_to_whitelist(alice.peer_id());
    let data = alice.plan_sync_data(bob.peer_id(), &bob.sync_summary(topic.id())).unwrap();
    let replies = bob.handle_message(alice.peer_id(), SyncMessage::Data(data)).unwrap();
    assert!(matches!(&replies[..], [SyncMessage::Ack(a)] if a.topic_id == topic.id()));
}
