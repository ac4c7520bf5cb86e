use irokle::batch::{batch_step, BatchAction, BatchEvent, BatchState, RoundReplies};
use irokle::ids::Id32;
use irokle::idset::IdSet;

fn topics(seeds: &[u8]) -> IdSet {
    let mut set = IdSet::new();
    for seed in seeds {
        set.insert(Id32::from_bytes([*seed; 32]));
    }
    set
}

#[test]
fn batch_settles_acked_topics_and_requeues_the_rest() {
    let mut state = BatchState::new(topics(&[1, 2, 3]), 5);
    let group = match state.next_action(2) {
        BatchAction::Exchange(group) => group,
        BatchAction::Finish => panic!("expected an exchange"),
    };
    assert_eq!(group.len(), 2);
    assert_eq!(state.rounds_left, 4);
    let first = Id32::from_bytes([1; 32]);
    let second = Id32::from_bytes([2; 32]);
    // The first topic is acked, the second has more to exchange.
    let replies = RoundReplies { acked: topics(&[1]), more: topics(&[2]), failed: IdSet::new() };
    state.record_round(&replies);
    assert!(state.settled.contains(&first));
    assert!(state.queue.contains(&second));
    // The settled topic is never sent again.
    loop {
        match state.next_action(8) {
            BatchAction::Exchange(group) => {
                assert!(!group.contains(&first));
                let replies = RoundReplies { acked: group.duplicate(), more: IdSet::new(), failed: IdSet::new() };
                state.record_round(&replies);
            }
            BatchAction::Finish => break,
        }
    }
    assert_eq!(state.settled.len(), 3);
    assert!(state.failed.is_empty());
}

#[test]
fn batch_stops_when_rounds_run_out() {
    let mut state = BatchState::new(topics(&[4, 5]), 1);
    assert!(matches!(state.next_action(1), BatchAction::Exchange(_)));
    // No reply names the topic: it failed.
    state.record_round(&RoundReplies { acked: IdSet::new(), more: IdSet::new(), failed: IdSet::new() });
    assert_eq!(state.failed.len(), 1);
    assert!(matches!(state.next_action(1), BatchAction::Finish));
    assert_eq!(state.queue.len(), 1);
}

#[test]
fn batch_step_runs_a_batch_to_its_end() {
    let state = BatchState::new(topics(&[7, 8]), 3);
    let (state, action) = batch_step(state, BatchEvent::Start, 1);
    let first = match action {
        BatchAction::Exchange(group) => group,
        BatchAction::Finish => panic!("expected an exchange"),
    };
    assert_eq!(first.len(), 1);
    assert_eq!(state.rounds_left, 2);
    let replies = RoundReplies { acked: first.duplicate(), more: IdSet::new(), failed: IdSet::new() };
    let (state, action) = batch_step(state, BatchEvent::Round(replies), 1);
    let second = match action {
        BatchAction::Exchange(group) => group,
        BatchAction::Finish => panic!("expected an exchange"),
    };
    assert_eq!(state.settled.len(), 1);
    assert!(!second.contains(&first.get(0)));
    let replies = RoundReplies { acked: IdSet::new(), more: IdSet::new(), failed: second.duplicate() };
    let (state, action) = batch_step(state, BatchEvent::Round(replies), 1);
    assert!(matches!(action, BatchAction::Finish));
    assert_eq!(state.failed.len(), 1);
    assert_eq!(state.rounds_left, 1);
}
