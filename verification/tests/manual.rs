use irokle::ids::Id32;
use irokle::idset::IdSet;
use irokle::manual::{manual_results, manual_sync_start, manual_sync_step, ManualAction, ManualResult};

fn id(seed: u8) -> Id32 {
    Id32::from_bytes([seed; 32])
}

fn set(seeds: &[u8]) -> IdSet {
    let mut s = IdSet::new();
    for seed in seeds {
        s.insert(id(*seed));
    }
    s
}

#[test]
fn manual_sync_pages_while_topics_advance() {
    let (state, action) = manual_sync_start(set(&[1, 2, 3]), 2);
    assert!(matches!(action, ManualAction::Page(ref p) if p.len() == 3));
    // Topic 1 advanced, topic 2 is done, topic 3 failed.
    let outcomes = vec![(id(1), true, true), (id(2), true, false), (id(3), false, false)];
    let (state, action) = manual_sync_step(state, &outcomes);
    match action {
        ManualAction::Page(p) => {
            assert_eq!(p.len(), 1);
            assert!(p.contains(&id(1)));
        }
        ManualAction::Done => panic!("topic 1 still advances"),
    }
    // Topic 1 advances again, but the budget is spent: more work is pending.
    let (state, action) = manual_sync_step(state, &vec![(id(1), true, true)]);
    assert!(matches!(action, ManualAction::Done));
    let results = manual_results(&state);
    assert_eq!(results, vec![(id(1), ManualResult::WouldBlock), (id(2), ManualResult::Synced), (id(3), ManualResult::Failed)]);
}

#[test]
fn manual_sync_settles_when_nothing_advances() {
    let (state, _) = manual_sync_start(set(&[4]), 5);
    // An outcome that names no paged topic leaves it in sync.
    let (state, action) = manual_sync_step(state, &Vec::new());
    assert!(matches!(action, ManualAction::Done));
    assert_eq!(state.pages_left, 4);
    assert_eq!(manual_results(&state), vec![(id(4), ManualResult::Synced)]);
}
