use irokle::crypto::Ed25519Signer;
use irokle::history::HistoryOrder;
use irokle::node::dag::DagQuery;
use irokle::node::{Irokle, NodeConfig};
use irokle::topic::{EventEnvelope, TopicConfig};

fn node(seed: u8) -> Irokle {
    Irokle::new(NodeConfig::new(Ed25519Signer::from_bytes([seed; 32])))
}

fn chat(text: &str) -> EventEnvelope {
    EventEnvelope { type_id: "example.chat.message".to_string(), payload: text.as_bytes().to_vec() }
}

#[test]
fn dag_queries_walk_from_heads() {
    let mut alice = node(21);
    let topic = alice.create_topic(TopicConfig::new(), "example.chat.message".to_string()).unwrap();
    let first = topic.publish(&mut alice, chat("first")).unwrap().meta.op_id;
    let second = topic.publish(&mut alice, chat("second")).unwrap().meta.op_id;

    let all = topic.dag(&alice, &DagQuery::new()).unwrap();
    assert_eq!(all.len(), 3);
    assert_eq!(all[1].id, first);
    assert_eq!(all[2].id, second);
    let genesis = all[0].id;

    let newest = DagQuery { heads: Vec::new(), include_heads: true, order: HistoryOrder::NewestFirst, limit: Some(1) };
    let page = topic.dag(&alice, &newest).unwrap();
    assert_eq!(page.len(), 1);
    assert_eq!(page[0].id, second);

    let ancestors = DagQuery { heads: Vec::new(), include_heads: false, order: HistoryOrder::OldestFirst, limit: None };
    let before = topic.dag(&alice, &ancestors).unwrap();
    assert_eq!(before.iter().map(|op| op.id).collect::<Vec<_>>(), vec![genesis, first]);

    let from_first = DagQuery { heads: vec![first], include_heads: true, order: HistoryOrder::OldestFirst, limit: None };
    let upto = topic.dag(&alice, &from_first).unwrap();
    assert_eq!(upto.iter().map(|op| op.id).collect::<Vec<_>>(), vec![genesis, first]);

    let none = DagQuery { heads: Vec::new(), include_heads: true, order: HistoryOrder::OldestFirst, limit: Some(0) };
    assert!(topic.dag(&alice, &none).unwrap().is_empty());

    let raw = alice.raw_topic(topic.id());
    assert_eq!(raw.dag(&alice, &DagQuery::new()).unwrap().len(), 3);
}
