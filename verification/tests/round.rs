use irokle::clock::ActorClock;
use irokle::error::Error;
use irokle::idmap::IdMap;
use irokle::ids::Id32;
use irokle::idset::IdSet;
use irokle::node::sync::SyncSummary;
use irokle::resync::MAX_TOPICS_PER_RESYNC_BATCH;
use irokle::round::{
    batch_deadline_ms, exchange_outcome, fingerprint_round, partition_claims, plan_group, ExchangeOutcome, PlannedSize,
    RoundResponse,
};
use irokle::transport::{GoalProgress, TopicGoal};

fn topic(seed: u8) -> Id32 {
    Id32::from_bytes([seed; 32])
}

fn summary(seed: u8) -> SyncSummary {
    SyncSummary { topic_id: topic(seed), genesis: None, heads: IdSet::new(), clock: ActorClock::new() }
}

fn sent(entries: &[(u8, u8)]) -> IdMap<[u8; 32]> {
    let mut map = IdMap::new();
    for (t, f) in entries {
        map.insert(topic(*t), [*f; 32]);
    }
    map
}

#[test]
fn fingerprint_round_sorts_responses() {
    let sent = sent(&[(1, 10), (2, 20), (3, 30), (4, 40)]);
    let responses = vec![
        RoundResponse::Fingerprint(topic(1), [10; 32]),
        RoundResponse::Fingerprint(topic(2), [99; 32]),
        RoundResponse::Summary(summary(2)),
        RoundResponse::Summary(summary(3)),
        RoundResponse::Failure(topic(3)),
    ];
    let round = fingerprint_round(&sent, responses);
    assert!(!round.unexpected);
    assert_eq!(round.matching.len(), 1);
    assert_eq!(round.matching.get(&topic(1)), Some(&[10; 32]));
    assert!(round.summaries.contains_key(&topic(2)));
    assert!(!round.summaries.contains_key(&topic(3)), "a failure drops the summary");
    assert!(round.failed.contains(&topic(3)));
    assert_eq!(round.unanswered.to_vec(), vec![topic(4)]);
}

#[test]
fn fingerprint_round_stops_at_an_unexpected_response() {
    let sent = sent(&[(1, 10), (2, 20)]);
    let responses = vec![
        RoundResponse::Failure(topic(2)),
        RoundResponse::Summary(summary(9)),
        RoundResponse::Fingerprint(topic(1), [10; 32]),
    ];
    let round = fingerprint_round(&sent, responses);
    assert!(round.unexpected);
    assert_eq!(round.matching.len(), 0, "nothing after the stray summary counts");
    assert_eq!(round.unanswered.to_vec(), vec![topic(1)]);
    let round = fingerprint_round(&sent, vec![RoundResponse::Other]);
    assert!(round.unexpected);
    assert_eq!(round.unanswered.len(), 2);
}

fn clock(entries: &[(u8, u64)]) -> ActorClock {
    let mut clock = ActorClock::new();
    for (actor, seq) in entries {
        clock.observe(Id32::from_bytes([*actor; 32]), *seq);
    }
    clock
}

#[test]
fn exchange_outcome_by_goal_and_progress() {
    let goal = TopicGoal { pull: false, genesis: None, replaces: None, inbound: clock(&[(1, 2)]), outbound: clock(&[(2, 3)]) };
    let before = GoalProgress { inbound: 1, outbound: 1, holes: 0, staged: 0 };
    let reached = GoalProgress { inbound: 2, outbound: 3, holes: 0, staged: 0 };
    assert_eq!(exchange_outcome(&before, &reached, &goal, false, false), ExchangeOutcome::Done);
    assert_eq!(exchange_outcome(&before, &reached, &goal, true, false), ExchangeOutcome::Advanced);
    assert_eq!(exchange_outcome(&before, &before, &goal, false, false), ExchangeOutcome::NoProgress);
    assert_eq!(exchange_outcome(&before, &reached, &goal, false, true), ExchangeOutcome::AckMissing);
}

#[test]
fn claims_split_into_attempts_clean_and_failed() {
    let mut decisions = Vec::new();
    for i in 0..(MAX_TOPICS_PER_RESYNC_BATCH + 2) {
        let seed = [(i % 256) as u8, (i / 256) as u8, 1, 1, 1, 1, 1, 1, 1, 1, 1, 1, 1, 1, 1, 1, 1, 1, 1, 1, 1, 1, 1, 1, 1, 1, 1, 1, 1, 1, 1, 1];
        decisions.push((Id32::from_bytes(seed), Ok(true)));
    }
    decisions.push((topic(200), Ok(false)));
    decisions.push((topic(201), Err(Error::TopicNotFound)));
    let plan = partition_claims(decisions);
    assert_eq!(plan.chunks.len(), 2);
    assert_eq!(plan.chunks[0].len(), MAX_TOPICS_PER_RESYNC_BATCH);
    assert_eq!(plan.chunks[1].len(), 2);
    assert_eq!(plan.clean, vec![topic(200)]);
    assert_eq!(plan.failed.len(), 1);
    assert_eq!(plan.failed[0].0, topic(201));
    assert!(matches!(plan.failed[0].1, Error::TopicNotFound));
    assert!(partition_claims(Vec::new()).chunks.is_empty());
}

#[test]
fn batch_deadline_saturates() {
    assert_eq!(batch_deadline_ms(1_000, 2_000), 12_000);
    assert_eq!(batch_deadline_ms(u64::MAX, 1), u64::MAX);
    assert_eq!(batch_deadline_ms(u64::MAX / 2, 0), u64::MAX);
}

fn planned(seed: u8, bytes: usize, messages: usize, responses: usize) -> PlannedSize {
    PlannedSize { topic_id: topic(seed), bytes, messages, responses }
}

#[test]
fn groups_fit_the_stream_budget() {
    let plans = vec![planned(1, 400, 2, 3), planned(2, 2_000, 1, 1), planned(3, 500, 2, 3), planned(4, 200, 1, 1)];
    let plan = plan_group(&plans, 1_000, 10);
    let group = plan.group.iter().map(|p| p.topic_id).collect::<Vec<_>>();
    assert_eq!(group, vec![topic(1), topic(3)]);
    assert_eq!(plan.oversized.len(), 1);
    assert_eq!(plan.oversized[0].topic_id, topic(2));
    assert_eq!(plan.next, Some(3), "the next plan would pass the byte budget");

    // The first plan that fits opens a group even past the message limit.
    let plan = plan_group(&vec![planned(1, 10, 20, 20), planned(2, 10, 1, 1)], 1_000, 10);
    assert_eq!(plan.group.len(), 1);
    assert_eq!(plan.next, Some(1));

    let plan = plan_group(&vec![planned(1, 10, 1, 1), planned(2, 10, 1, 1)], 1_000, 10);
    assert_eq!(plan.group.len(), 2);
    assert_eq!(plan.next, None);
}
