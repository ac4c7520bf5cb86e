use irokle::crypto::Ed25519Signer;
use irokle::idset::IdSet;
use irokle::ids::{Id32, OpId, TopicId};
use irokle::node::{Irokle, NodeConfig};
use irokle::node::topic::Topic;
use irokle::node::sync::SyncData;
use irokle::op::Op;
use irokle::oplog::Oplog;
use irokle::oplog::integrity::{scan_step, Cursor, Inspections, Integrity, ListedOp, ListedPosition, Listing, TopicView, listing_of};
use irokle::oplog::topology::topological;
use irokle::topic::{EventEnvelope, TopicConfig};

fn node(seed: u8) -> Irokle {
    Irokle::new(NodeConfig::new(Ed25519Signer::from_bytes([seed; 32])))
}

fn note(text: &str) -> EventEnvelope {
    EventEnvelope { type_id: "test.note".to_string(), payload: text.as_bytes().to_vec() }
}

fn copies(ops: &[Op]) -> Vec<Op> {
    ops.iter().map(|op| op.duplicate()).collect()
}

/// A topic of `events` notes whose first `stored` ops a fresh oplog holds, with every op of the source.
fn seeded(events: usize, stored: usize) -> (Oplog, TopicId, Vec<Op>) {
    let mut source = node(71);
    let topic = source.create_topic(TopicConfig::new(), "test.note".to_string()).unwrap();
    for index in 0..events {
        topic.publish(&mut source, note(&index.to_string())).unwrap();
    }
    let ops = topological(source.storage(), &topic.id()).unwrap();
    let mut log = Oplog::new();
    log.receive_ops(copies(&ops[..stored])).unwrap();
    (log, topic.id(), ops)
}

fn id(byte: u8) -> OpId {
    Id32::from_bytes([byte; 32])
}

/// The listing ends within a step whose reads run out before its last id: the
/// step is not the end of the scan, and the next one reads that id.
#[test]
fn tail_ids_scanned() {
    let (first, lost, last) = (id(1), id(2), id(3));
    let fixed = Listing::new(
        vec![
            ListedOp { id: first, position: Some(ListedPosition { generation: 2, deps: vec![id(10), id(11)] }) },
            ListedOp { id: lost, position: None },
            ListedOp { id: last, position: Some(ListedPosition { generation: 3, deps: vec![id(10)] }) },
        ],
        IdSet::from_slice(&[first, id(10), id(11)]),
    );
    let step = scan_step(&fixed, Cursor::start(), 4);
    assert!(!step.done, "the step ended before reading every listed id");
    assert_eq!(step.holes.len(), 1);
    assert_eq!(step.holes.get(&lost), Some(&None));
    let step = scan_step(&fixed, step.cursor, 4);
    assert!(step.done);
    assert_eq!(step.holes.len(), 1);
    assert_eq!(step.holes.get(&last), Some(&Some(3)));
}

fn fixed_view(epoch: u64) -> TopicView {
    TopicView {
        topic_id: Id32::hash(b"fixed"),
        genesis: Id32::hash(b"fixed genesis"),
        epoch,
        pending_missing: IdSet::new(),
    }
}

/// Twenty lost records found by a complete scan, then all stored. Each question
/// checks at most one step's reads of cached holes, resumes where the last one
/// stopped, and the questions reach a whole verdict once no hole is left.
#[test]
fn rechecks_stay_bounded() {
    let listed = |stored: &[OpId]| {
        Listing::new(
            (1..=20).map(|byte| ListedOp { id: id(byte), position: Some(ListedPosition { generation: 1, deps: Vec::new() }) }).collect(),
            IdSet::from_slice(stored),
        )
    };
    let lost = listed(&[]);
    let mut inspections = Inspections::new();
    inspections.set_reads(4);
    let view = fixed_view(1);
    let mut integrity = Integrity::Unknown;
    for _ in 0..100 {
        integrity = inspections.step(&lost, &view);
        if integrity.is_complete() {
            break;
        }
    }
    assert_eq!(integrity.holes().map(|holes| holes.len()), Some(20));
    let all: Vec<OpId> = (1..=20).map(id).collect();
    let stored = listed(&all);
    let mut questions = 0;
    while !inspections.step(&stored, &view).is_whole() {
        questions += 1;
        let checked = inspections.last_checks();
        assert!(checked <= 4, "{checked} presence checks in one question");
        assert!(questions <= 6, "the rechecks never reached every hole");
    }
}

/// A buffered op waiting on a missing dependency keeps the topic uncertified
/// although its scan is whole, until the dependency arrives.
#[test]
fn memory_pending_counts() {
    let (mut log, topic_id, ops) = seeded(6, 4);
    log.receive_ops(vec![ops[5].duplicate()]).unwrap();
    let (view, integrity) = log.inspect(&topic_id).unwrap();
    assert!(integrity.is_whole());
    assert!(!integrity.certifies(&view.pending_missing));
    let missing = IdSet::singleton(ops[4].id);
    assert!(log.topic_unresolved(&topic_id).set_eq(&missing));
    assert!(!log.whole_view(&topic_id).unwrap().1);
    log.receive_ops(vec![ops[4].duplicate()]).unwrap();
    assert!(log.topic_unresolved(&topic_id).is_empty());
    assert!(log.whole_view(&topic_id).unwrap().1);
}

/// A topic whose newest op depends on `width` concurrent ops of as many members.
fn wide_topic(width: u8) -> (Oplog, TopicId, Vec<Op>, Op) {
    let mut source = node(81);
    let mut members: Vec<Irokle> = (0..width).map(|seed| node(100 + seed)).collect();
    let mut config = TopicConfig::new();
    for member in &members {
        config.initial_peers.insert(member.peer_id());
    }
    let topic = source.create_topic(config, "test.note".to_string()).unwrap();
    let topic_id = topic.id();
    let genesis = topological(source.storage(), &topic_id).unwrap();
    let mut concurrent = Vec::new();
    for member in members.iter_mut() {
        let data = SyncData { topic_id, ops: copies(&genesis) };
        member.receive_sync_data_from(source.peer_id(), data).unwrap();
        let record: Topic = member.open_topic(topic_id, &"test.note".to_string()).unwrap();
        let op_id = record.publish(member, note("side")).unwrap().meta.op_id;
        let op = member.storage().get_op(&op_id).unwrap().duplicate();
        let data = SyncData { topic_id, ops: vec![op.duplicate()] };
        source.receive_sync_data_from(member.peer_id(), data).unwrap();
        concurrent.push(op);
    }
    let op_id = topic.publish(&mut source, note("merge")).unwrap().meta.op_id;
    let wide = source.storage().get_op(&op_id).unwrap().duplicate();
    assert!(wide.signed.body.deps.len() >= width as usize);
    let mut log = Oplog::new();
    let ops = topological(source.storage(), &topic_id).unwrap();
    log.receive_ops(ops).unwrap();
    (log, topic_id, concurrent, wide)
}

/// Steps of four reads end inside the dependencies of an op that has ten, and
/// the next step goes on from that offset. A lost dependency is still found.
#[test]
fn memory_wide_resumes() {
    let (mut log, topic_id, concurrent, wide) = wide_topic(10);
    log.storage_mut().drop_op_record(&concurrent[3].id);
    log.storage_mut().drop_meta(&concurrent[3].id);
    let listing = listing_of(log.storage(), &topic_id);
    let mut cursor = Cursor::start();
    let mut holes: Vec<(OpId, Option<u64>)> = Vec::new();
    let mut inside = 0;
    for _ in 0..100 {
        let step = scan_step(&listing, cursor, 4);
        for key in step.holes.keys() {
            let at = *step.holes.get(&key).unwrap();
            if !holes.iter().any(|(known, _)| known.same(&key)) {
                holes.push((key, at));
            }
        }
        if let Some((open, from)) = step.cursor.open {
            if open.same(&wide.id) {
                inside += usize::from(from.offset > 0);
            }
        }
        if step.done {
            assert!(inside > 0, "no step resumed inside the dependencies");
            assert_eq!(holes.len(), 1);
            assert!(holes[0].0.same(&concurrent[3].id));
            assert_eq!(holes[0].1, None);
            return;
        }
        cursor = step.cursor;
    }
    panic!("the scan never completed");
}

/// One lost record is found; receiving it again repairs it, and receiving it
/// once more changes nothing.
fn assert_repair_visible(drop_record: bool) {
    let (mut log, topic_id, ops) = seeded(12, 13);
    let lost = ops[6].duplicate();
    if drop_record {
        log.storage_mut().drop_op_record(&lost.id);
    } else {
        log.storage_mut().drop_meta(&lost.id);
    }
    assert!(log.topic_unresolved(&topic_id).set_eq(&IdSet::singleton(lost.id)));
    log.receive_ops(vec![lost.duplicate()]).unwrap();
    assert!(log.storage().dep_resolvable(&lost.id));
    let unresolved = log.topic_unresolved(&topic_id);
    assert!(unresolved.is_empty(), "kept {:?} missing", unresolved);
    log.receive_ops(vec![lost.duplicate()]).unwrap();
    assert!(log.topic_unresolved(&topic_id).is_empty());
}

#[test]
fn memory_body_repaired() {
    assert_repair_visible(true);
}

#[test]
fn memory_meta_repaired() {
    assert_repair_visible(false);
}

/// Scanning one read at a time, step after step, finds every hole of the
/// listing exactly once overall, and nothing else.
#[test]
fn single_read_steps_find_every_hole() {
    let listing = Listing::new(
        vec![
            ListedOp { id: id(1), position: Some(ListedPosition { generation: 1, deps: vec![id(20), id(21), id(22)] }) },
            ListedOp { id: id(2), position: None },
            ListedOp { id: id(3), position: Some(ListedPosition { generation: 2, deps: vec![id(1), id(23)] }) },
            ListedOp { id: id(4), position: Some(ListedPosition { generation: 3, deps: vec![id(3)] }) },
        ],
        IdSet::from_slice(&[id(1), id(3), id(21), id(23)]),
    );
    let mut cursor = Cursor::start();
    let mut found: Vec<OpId> = Vec::new();
    let mut steps = 0;
    loop {
        let step = scan_step(&listing, cursor, 1);
        steps += 1;
        for index in 0..step.holes.len() {
            let hole = step.holes.key_at(index);
            if !found.contains(&hole) {
                found.push(hole);
            }
        }
        cursor = step.cursor;
        if step.done {
            break;
        }
        assert!(steps < 100, "the scan must end");
    }
    found.sort();
    let mut expected = vec![id(20), id(22), id(2), id(4)];
    expected.sort();
    assert_eq!(found, expected);
}

#[test]
fn quarantine_evicts_the_op_no_head_reaches() {
    let mut source = node(81);
    let topic = source.create_topic(TopicConfig::new(), "test.note".to_string()).unwrap();
    topic.publish(&mut source, note("kept")).unwrap();
    topic.publish(&mut source, note("orphan")).unwrap();
    let ops = topological(source.storage(), &topic.id()).unwrap();
    assert_eq!(ops.len(), 3);
    let mut log = Oplog::new();
    log.receive_ops(copies(&ops[..2])).unwrap();
    // The newest op is stored beside the chain, and no head reaches it.
    let stored = source.storage().get_meta(&ops[2].id).unwrap();
    let meta = irokle::storage::OpMeta {
        id: stored.id,
        topic_id: stored.topic_id,
        author: stored.author,
        actor_id: stored.actor_id,
        actor_seq: stored.actor_seq,
        actor_prev: stored.actor_prev,
        deps: stored.deps.duplicate(),
        generation: stored.generation,
        observed_clock: stored.observed_clock.duplicate(),
    };
    let heads = log.storage().heads(&topic.id());
    log.storage_mut().put_admitted(ops[2].duplicate(), meta, heads, None);
    let eviction = log.quarantine_orphans(&topic.id()).unwrap().expect("an orphan to evict");
    assert_eq!(eviction.evicted.len(), 1);
    assert_eq!(eviction.evicted[0].op_id, ops[2].id);
    assert!(log.storage().get_op(&ops[2].id).is_none());
    assert!(log.storage().get_op(&ops[1].id).is_some());
    // Nothing is left to quarantine.
    assert!(log.quarantine_orphans(&topic.id()).unwrap().is_none());
}

/// Asks until a scan is complete; returns the verdict and the steps taken.
fn finish(log: &mut Oplog, topic_id: &TopicId) -> (Integrity, usize) {
    let mut steps = 0;
    loop {
        let (_, integrity) = log.ask(topic_id).unwrap();
        steps += 1;
        assert!(steps <= 1000, "the scan never completed");
        if integrity.is_complete() {
            return (integrity, steps);
        }
    }
}

fn holes_of(integrity: &Integrity) -> Vec<(OpId, Option<u64>)> {
    match integrity {
        Integrity::Incomplete(holes) | Integrity::Scanning(holes) => {
            (0..holes.len()).map(|i| (holes.key_at(i), *holes.value_at(i))).collect()
        }
        _ => Vec::new(),
    }
}

/// A cold scan in steps of eight reads takes several steps, and the verdict names
/// both kinds of loss. Asking again keeps the verdict, and admission heals it.
#[test]
fn memory_steps_resume() {
    let (mut log, topic_id, ops) = seeded(40, 41);
    log.storage_mut().drop_op_record(&ops[10].id);
    log.storage_mut().drop_meta(&ops[20].id);
    log.set_step_reads(8);
    let (integrity, steps) = finish(&mut log, &topic_id);
    assert!(steps >= 41 / 8, "{steps} steps");
    let generation = ops[10].signed.body.generation;
    let mut expected = vec![(ops[10].id, Some(generation)), (ops[20].id, None)];
    expected.sort();
    assert!(matches!(integrity, Integrity::Incomplete(_)));
    assert_eq!(holes_of(&integrity), expected);
    assert!(matches!(log.ask(&topic_id).unwrap().1, Integrity::Incomplete(_)));

    // A repair fills one hole, the other stays until it arrives too.
    log.receive_ops(copies(&ops[10..11])).unwrap();
    let (_, integrity) = log.ask(&topic_id).unwrap();
    assert_eq!(holes_of(&integrity), vec![(ops[20].id, None)]);
    log.receive_ops(copies(&ops[20..21])).unwrap();
    assert!(matches!(log.ask(&topic_id).unwrap().1, Integrity::Whole));
    assert!(log.topic_unresolved(&topic_id).is_empty());
    // Receiving the repaired op again changes nothing.
    log.receive_ops(copies(&ops[20..21])).unwrap();
    assert!(matches!(log.ask(&topic_id).unwrap().1, Integrity::Whole));
}

/// Ops admitted while a scan is under way do not restart it: it completes whole.
#[test]
fn memory_appends_continue() {
    let (mut log, topic_id, ops) = seeded(60, 41);
    log.set_step_reads(8);
    assert!(matches!(log.ask(&topic_id).unwrap().1, Integrity::Scanning(_)));
    log.receive_ops(copies(&ops[41..])).unwrap();
    let (integrity, steps) = finish(&mut log, &topic_id);
    assert!(matches!(integrity, Integrity::Whole));
    assert!(steps >= 2, "{steps} steps");
}

/// A reset between steps changes the data epoch, so the next step starts the scan
/// over under the new epoch instead of resuming the old one.
#[test]
fn memory_reset_restarts() {
    let (mut log, topic_id, ops) = seeded(41, 41);
    log.set_step_reads(8);
    assert!(matches!(log.ask(&topic_id).unwrap().1, Integrity::Scanning(_)));
    let before = log.topic_view(&topic_id).unwrap().epoch;
    // The newest op, stored beside the chain but reached by no head, which
    // quarantine removes with a reset.
    let mut full = Oplog::new();
    full.receive_ops(copies(&ops)).unwrap();
    let orphan = ops.last().unwrap();
    let stored = full.storage().get_meta(&orphan.id).unwrap();
    let meta = irokle::storage::OpMeta {
        id: stored.id,
        topic_id: stored.topic_id,
        author: stored.author,
        actor_id: stored.actor_id,
        actor_seq: stored.actor_seq,
        actor_prev: stored.actor_prev,
        deps: stored.deps.duplicate(),
        generation: stored.generation,
        observed_clock: stored.observed_clock.duplicate(),
    };
    let heads = log.storage().heads(&topic_id);
    log.storage_mut().put_admitted(orphan.duplicate(), meta, heads, None);
    assert!(log.quarantine_orphans(&topic_id).unwrap().is_some());
    let after = log.topic_view(&topic_id).unwrap().epoch;
    assert!(after > before);

    let (view, integrity) = log.ask(&topic_id).unwrap();
    assert!(matches!(integrity, Integrity::Scanning(_)));
    assert_eq!(view.epoch, after);
    assert!(matches!(log.inspect(&topic_id).unwrap().1, Integrity::Whole));
}
