use irokle::crypto::Ed25519Signer;
use irokle::error::Error;
use irokle::history::{HistoryCursor, HistoryOrder};
use irokle::node::{Irokle, NodeConfig};
use irokle::reducer::HistoryEntry;
use irokle::topic::{EventEnvelope, TopicConfig};

fn node(seed: u8) -> Irokle {
    Irokle::new(NodeConfig::new(Ed25519Signer::from_bytes([seed; 32])))
}

fn chat(text: &str) -> EventEnvelope {
    EventEnvelope { type_id: "example.chat.message".to_string(), payload: text.as_bytes().to_vec() }
}

fn payloads(entries: &[HistoryEntry]) -> Vec<Vec<u8>> {
    entries
        .iter()
        .map(|entry| match entry {
            HistoryEntry::Event(record) => record.event.payload.clone(),
            HistoryEntry::Undecodable { .. } => panic!("every entry decodes"),
        })
        .collect()
}

/// Pages read after a cursor return the next events in history order, each
/// page's cursor covering exactly what it returned.
#[test]
fn pages_cover_history_in_turn() {
    let mut alice = node(11);
    let topic = alice.create_topic(TopicConfig::new(), "example.chat.message".to_string()).unwrap();
    let start = topic.history_cursor(&alice).unwrap();
    for text in ["one", "two", "three"] {
        topic.publish(&mut alice, chat(text)).unwrap();
    }

    // The start cursor covers the genesis, so pages begin at the first event.
    let first = topic.history_page(&alice, &start, Some(2)).unwrap();
    assert_eq!(payloads(&first.entries), vec![b"one".to_vec(), b"two".to_vec()]);
    let second = topic.history_page(&alice, &first.cursor, Some(2)).unwrap();
    assert_eq!(payloads(&second.entries), vec![b"three".to_vec()]);
    let rest = topic.history_page(&alice, &second.cursor, None).unwrap();
    assert!(rest.entries.is_empty());
    let actor = topic.history(&alice, HistoryOrder::OldestFirst).unwrap()[0].meta.actor_id;
    assert_eq!(first.cursor.clock.get(&actor), 3);
    assert_eq!(second.cursor.clock.get(&actor), 4);
    assert_eq!(rest.cursor.clock.get(&actor), 4);

    // A limit of zero still reads one op.
    let single = topic.history_page(&alice, &start, Some(0)).unwrap();
    assert_eq!(payloads(&single.entries), vec![b"one".to_vec()]);
    let after = topic.history_page(&alice, &single.cursor, Some(0)).unwrap();
    assert_eq!(payloads(&after.entries), vec![b"two".to_vec()]);

    // The whole history after the start, in one page, matches the history read.
    let whole = topic.history_page(&alice, &start, None).unwrap();
    let history = topic.history(&alice, HistoryOrder::OldestFirst).unwrap();
    assert_eq!(
        payloads(&whole.entries),
        history.iter().map(|record| record.event.payload.clone()).collect::<Vec<_>>()
    );
    assert_eq!(whole.cursor.clock.len(), topic.history_cursor(&alice).unwrap().clock.len());
}

#[test]
fn page_of_replaced_genesis_is_stale() {
    let mut alice = node(12);
    let topic = alice.create_topic(TopicConfig::new(), "example.chat.message".to_string()).unwrap();
    let cursor = topic.history_cursor(&alice).unwrap();
    let stale = HistoryCursor { genesis: irokle::ids::Id32::from_bytes([7; 32]), clock: cursor.clock };
    assert!(matches!(topic.history_page(&alice, &stale, None), Err(Error::StaleIncarnation)));
    let missing = irokle::ids::Id32::from_bytes([8; 32]);
    let fresh = topic.history_cursor(&alice).unwrap();
    assert!(matches!(alice.history_page(missing, &fresh, None), Err(Error::TopicNotFound)));
}

#[test]
fn entries_follow_history_order() {
    let mut alice = node(13);
    let topic = alice.create_topic(TopicConfig::new(), "example.chat.message".to_string()).unwrap();
    topic.publish(&mut alice, chat("a")).unwrap();
    topic.publish(&mut alice, chat("b")).unwrap();
    let oldest = topic.history_entries(&alice, HistoryOrder::OldestFirst).unwrap();
    assert_eq!(payloads(&oldest), vec![b"a".to_vec(), b"b".to_vec()]);
    let newest = topic.history_entries(&alice, HistoryOrder::NewestFirst).unwrap();
    assert_eq!(payloads(&newest), vec![b"b".to_vec(), b"a".to_vec()]);
    let record = match newest.into_iter().next().unwrap() {
        HistoryEntry::Event(record) => record,
        HistoryEntry::Undecodable { .. } => unreachable!(),
    };
    assert_eq!(record.meta.actor_seq, 3);
}
