use irokle::followup::group_followups;
use irokle::ids::Id32;
use irokle::node::sync::SyncData;
use irokle::session::SyncMessage;

fn id(seed: u8) -> Id32 {
    Id32::from_bytes([seed; 32])
}

fn reply(t: Id32) -> SyncMessage {
    SyncMessage::Open(t)
}

#[test]
fn followups_share_sends_until_data_or_the_limit() {
    let data = SyncMessage::Data(SyncData { topic_id: id(3), ops: Vec::new() });
    let followups = vec![
        (id(1), vec![reply(id(1))]),
        (id(2), vec![reply(id(2))]),
        (id(9), Vec::new()),
        (id(3), vec![data]),
        (id(4), vec![reply(id(4)), reply(id(4))]),
    ];
    let groups = group_followups(followups, 4);
    // Topics 1 and 2 share a send; data goes alone; topic 4 would pass the limit of
    // the send holding data, so it starts its own; topic 9 has nothing to send.
    assert_eq!(groups.len(), 3);
    assert_eq!(groups[0].len(), 4);
    assert_eq!(groups[1].len(), 2);
    assert!(matches!(groups[1][1], SyncMessage::Data(_)));
    assert_eq!(groups[2].len(), 3);
    for g in &groups {
        assert!(matches!(g[0], SyncMessage::Open(_)));
    }
}

#[test]
fn followups_split_at_the_message_limit() {
    let followups = vec![
        (id(1), vec![reply(id(1))]),
        (id(2), vec![reply(id(2))]),
    ];
    let groups = group_followups(followups, 3);
    assert_eq!(groups.len(), 2);
}
