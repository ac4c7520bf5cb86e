use irokle::ids::{Id32, PeerId, TopicId};
use irokle::resync::{
    backoff_after, ResyncScheduler, ResyncTarget, ResyncTargetKey, MAX_RESYNC_PEER_CONCURRENCY,
    MAX_TOPICS_PER_RESYNC_BATCH, RESYNC_PROGRESS_TURN_MS,
};

/// Wide enough that the second backoff step cannot be mistaken for the first.
const BACKOFF: u64 = 60_000;
const SECOND: u64 = 1_000;
const TEN_MINUTES: u64 = 600_000;
const NOW: u64 = 1_000_000;

fn peer(byte: u8) -> PeerId {
    Id32::from_bytes([byte; 32])
}

fn topic(byte: u8) -> TopicId {
    Id32::from_bytes([byte; 32])
}

/// A claim for the single due target of one peer.
fn one_claim(scheduler: &mut ResyncScheduler) -> ResyncTarget {
    let mut due = scheduler.due_targets_by_peer(NOW, 8, 8);
    assert_eq!(due.len(), 1);
    let targets = due.remove(0).1;
    assert_eq!(targets.len(), 1);
    targets[0]
}

#[test]
fn scheduler_deduplicates_targets() {
    let mut scheduler = ResyncScheduler::new();
    scheduler.schedule_now(peer(1), topic(2), NOW, false);
    scheduler.schedule_now(peer(1), topic(2), NOW, false);

    let due = scheduler.due_targets_by_peer(NOW, 8, 8);

    assert_eq!(due.len(), 1);
    let (peer_id, targets) = &due[0];
    assert_eq!(*peer_id, peer(1));
    assert_eq!(targets.len(), 1);
    assert_eq!(targets[0].key.topic_id, topic(2));
    scheduler.complete_clean(targets[0], NOW);
    assert!(scheduler.next_due().is_none());
}

#[test]
fn scheduler_groups_due_targets_by_peer() {
    let mut scheduler = ResyncScheduler::new();
    scheduler.schedule_now(peer(1), topic(1), NOW, false);
    scheduler.schedule_now(peer(1), topic(2), NOW, false);
    scheduler.schedule_now(peer(1), topic(3), NOW, false);
    scheduler.schedule_now(peer(2), topic(1), NOW, false);

    let due = scheduler.due_targets_by_peer(NOW, 8, 2);

    assert_eq!(due.len(), 2);
    let (first_peer, first_targets) = &due[0];
    assert_eq!(*first_peer, peer(1));
    assert_eq!(first_targets.len(), 2);
    let (second_peer, second_targets) = &due[1];
    assert_eq!(*second_peer, peer(2));
    assert_eq!(second_targets.len(), 1);

    // Targets handed out stay in flight until completed, and a peer taking
    // its turn is not given a second one.
    assert!(scheduler.due_targets_by_peer(NOW, 8, 8).is_empty());
}

#[test]
fn scheduler_uses_capped_failure_backoff() {
    let mut scheduler = ResyncScheduler::new();
    let peer_id = peer(3);
    let topic_id = topic(4);
    scheduler.schedule_now(peer_id, topic_id, NOW, false);
    let mut due = scheduler.due_targets_by_peer(NOW, 8, 8);
    assert_eq!(due.len(), 1);

    scheduler.complete_failed(due.remove(0).1[0], NOW, SECOND, TEN_MINUTES);
    let first_delay = scheduler.next_due().unwrap().saturating_sub(NOW);
    assert!(first_delay <= SECOND);

    for _ in 0..16 {
        // Each failure needs its own claim: a completion must own one.
        scheduler.schedule_now(peer_id, topic_id, NOW, true);
        let mut due = scheduler.due_targets_by_peer(NOW, 8, 8);
        assert_eq!(due.len(), 1);
        scheduler.complete_failed(due.remove(0).1[0], NOW, SECOND, TEN_MINUTES);
    }
    let capped_delay = scheduler.next_due().unwrap().saturating_sub(NOW);
    assert!(capped_delay <= TEN_MINUTES);
}

/// A peer waiting behind a full set of slots is served as soon as one
/// frees, and peers still taking a turn are never claimed twice.
#[test]
fn free_slot_serves_waiter() {
    let mut scheduler = ResyncScheduler::new();
    let waiting = MAX_RESYNC_PEER_CONCURRENCY + 1;
    for index in 0..waiting {
        scheduler.schedule_now(peer(50 + index as u8), topic(60), NOW, false);
    }

    let first = scheduler.due_targets_by_peer(NOW, MAX_RESYNC_PEER_CONCURRENCY, MAX_TOPICS_PER_RESYNC_BATCH);
    assert_eq!(first.len(), MAX_RESYNC_PEER_CONCURRENCY, "every slot is filled");
    assert!(
        scheduler.due_targets_by_peer(NOW, 0, MAX_TOPICS_PER_RESYNC_BATCH).is_empty(),
        "no slot is free, so nothing more is claimed"
    );

    // The first peer finishes; the waiting peer takes the freed slot.
    let (done_peer, claims) = first.into_iter().next().expect("one claimed peer");
    for claim in claims {
        scheduler.complete_clean(claim, NOW);
    }
    let next = scheduler.due_targets_by_peer(NOW, 1, MAX_TOPICS_PER_RESYNC_BATCH);
    assert_eq!(next.len(), 1, "the freed slot is refilled at once");
    assert_ne!(next[0].0, done_peer, "the finished peer is not reclaimed for work it completed");
    assert_eq!(
        next[0].0,
        peer(50 + MAX_RESYNC_PEER_CONCURRENCY as u8),
        "the peer that was waiting is the one served"
    );
}

/// Work that arrives while an attempt is in flight must survive that
/// attempt's clean completion, and repeated reevaluation must not keep
/// inventing work revisions.
#[test]
fn publish_survives_clean() {
    let mut scheduler = ResyncScheduler::new();
    scheduler.schedule_now(peer(41), topic(42), NOW, false);
    let claim = one_claim(&mut scheduler);

    // Reevaluating the same evidence adds no work.
    for _ in 0..8 {
        scheduler.reconsider(peer(41), topic(42), NOW);
    }
    // A publish during the attempt does.
    scheduler.schedule_now(peer(41), topic(42), NOW, false);
    scheduler.complete_clean(claim, NOW);

    let (active, failures, _) = scheduler
        .target_state(peer(41), topic(42))
        .expect("work from mid-attempt must survive a clean completion");
    assert!(active.is_none(), "the attempt is finished");
    assert_eq!(failures, 0, "surviving work is not a failure");

    // The next dispatch serves it, and completing that removes the target.
    let again = one_claim(&mut scheduler);
    assert_eq!(again.key.topic_id, topic(42));
    scheduler.complete_clean(again, NOW);
    assert!(
        scheduler.target_state(peer(41), topic(42)).is_none(),
        "a completion covering the newest request clears the target"
    );
}

/// A topic settled during a batch leaves the lease, so the batch deadline
/// recovers only the claims still unfinished. A completed topic keeps its
/// one terminal result instead of being reinserted as a forced retry.
#[test]
fn timeout_spares_settled() {
    let mut scheduler = ResyncScheduler::new();
    scheduler.schedule_now(peer(31), topic(32), NOW, false);
    scheduler.schedule_now(peer(31), topic(33), NOW, false);
    let mut due = scheduler.due_targets_by_peer(NOW, 8, 8);
    assert_eq!(due.len(), 1);
    let claims = due.remove(0).1;
    assert_eq!(claims.len(), 2);
    let mut lease = scheduler.lease(claims, BACKOFF);

    // The first topic finishes cleanly inside the batch.
    let done = lease
        .take_claim(&ResyncTargetKey { peer_id: peer(31), topic_id: topic(32) })
        .expect("first claim");
    scheduler.complete_clean(done, NOW);
    assert!(
        scheduler.target_state(peer(31), topic(32)).is_none(),
        "a clean completion removes the target"
    );

    // The deadline then expires while the second topic is still in flight.
    let timed_out_claims = lease.drain_claims();
    assert_eq!(timed_out_claims.len(), 1, "only unfinished work is recovered");
    assert_eq!(timed_out_claims[0].key.topic_id, topic(33));
    let mut recovered = timed_out_claims;
    scheduler.complete_failed(recovered.remove(0), NOW, BACKOFF, TEN_MINUTES);
    assert!(
        scheduler.target_state(peer(31), topic(32)).is_none(),
        "the settled topic must not be reinserted by the timeout"
    );
    let (_, failures, force) = scheduler.target_state(peer(31), topic(33)).unwrap();
    assert_eq!(failures, 1);
    assert!(force.is_some(), "the unfinished topic retries");
}

/// A bounded page that really advanced is served again after a short turn.
/// It must not grow the network backoff or count as a failed attempt.
#[test]
fn progress_keeps_backoff() {
    let mut scheduler = ResyncScheduler::new();
    scheduler.schedule_now(peer(21), topic(22), NOW, false);
    let advancing = one_claim(&mut scheduler);
    scheduler.complete_dirty(advancing, NOW, RESYNC_PROGRESS_TURN_MS);
    let (active, failures, _) = scheduler.target_state(peer(21), topic(22)).unwrap();
    assert!(active.is_none(), "the attempt is finished");
    assert_eq!(failures, 0, "progress must not grow the network backoff");

    // A no-progress exchange does back off, so repeats cannot spin.
    let mut blocked_scheduler = ResyncScheduler::new();
    blocked_scheduler.schedule_now(peer(23), topic(24), NOW, false);
    let blocked = one_claim(&mut blocked_scheduler);
    blocked_scheduler.complete_failed(blocked, NOW, BACKOFF, TEN_MINUTES);
    let (_, failures, _) = blocked_scheduler.target_state(peer(23), topic(24)).unwrap();
    assert_eq!(failures, 1, "a no-progress exchange must back off");
}

#[test]
fn keeps_force_request() {
    let mut scheduler = ResyncScheduler::new();
    scheduler.schedule_now(peer(5), topic(6), NOW, false);
    let claim = one_claim(&mut scheduler);

    // A force request that arrives during the attempt is not covered by it.
    scheduler.schedule_now(peer(5), topic(6), NOW, true);
    scheduler.complete_clean(claim, NOW);

    assert!(scheduler.next_due().is_some());
    let (active, _, force) = scheduler.target_state(peer(5), topic(6)).unwrap();
    assert_eq!(active, None);
    assert!(force.is_some());
}

#[test]
fn ignores_stale_failure() {
    let mut scheduler = ResyncScheduler::new();
    scheduler.schedule_now(peer(7), topic(8), NOW, false);
    let claim = one_claim(&mut scheduler);

    scheduler.complete_clean(claim, NOW);
    scheduler.complete_failed(claim, NOW, SECOND, TEN_MINUTES);

    assert!(scheduler.next_due().is_none());
    assert_eq!(scheduler.target_state(peer(7), topic(8)), None);
}

#[test]
fn ignores_stale_completion() {
    let mut scheduler = ResyncScheduler::new();
    scheduler.schedule_now(peer(9), topic(10), NOW, false);
    let stale = one_claim(&mut scheduler);
    scheduler.complete_clean(stale, NOW);
    scheduler.schedule_now(peer(9), topic(10), NOW, true);
    let live = one_claim(&mut scheduler);

    scheduler.complete_dirty(stale, NOW, 5 * SECOND);
    scheduler.complete_clean(stale, NOW);
    scheduler.complete_failed(stale, NOW, SECOND, TEN_MINUTES);

    assert!(scheduler.due_targets_by_peer(NOW, 8, 8).is_empty());
    assert!(scheduler.next_due().is_none());
    let (active, failures, force) = scheduler.target_state(peer(9), topic(10)).unwrap();
    assert_eq!(active, Some(live.attempt));
    assert_eq!(failures, 0);
    assert_eq!(force, live.force);
}

#[test]
fn timeout_spares_completed() {
    let mut scheduler = ResyncScheduler::new();
    scheduler.schedule_now(peer(15), topic(1), NOW, false);
    scheduler.schedule_now(peer(15), topic(2), NOW, false);
    let mut due = scheduler.due_targets_by_peer(NOW, 8, 8);
    assert_eq!(due.len(), 1);
    let mut lease = scheduler.lease(due.remove(0).1, 0);
    let done = lease
        .take_claim(&ResyncTargetKey { peer_id: peer(15), topic_id: topic(1) })
        .unwrap();
    scheduler.complete_clean(done, NOW);

    let unfinished = lease.drain_claims();

    assert_eq!(unfinished.len(), 1);
    assert_eq!(unfinished[0].key.topic_id, topic(2));
    for claim in unfinished {
        scheduler.complete_failed(claim, NOW, SECOND, TEN_MINUTES);
    }
    assert_eq!(scheduler.target_state(peer(15), topic(1)), None);
    let (active, failures, _) = scheduler.target_state(peer(15), topic(2)).unwrap();
    assert_eq!(active, None);
    assert_eq!(failures, 1);
}

/// A lease that ends without recording its claims hands them back, so the
/// target is dispatchable again under a fresh attempt.
#[test]
fn released_lease_returns_claims() {
    let mut scheduler = ResyncScheduler::new();
    scheduler.schedule_now(peer(13), topic(14), NOW, false);
    let claim = one_claim(&mut scheduler);
    let lease = scheduler.lease(vec![claim], 0);
    lease.release(&mut scheduler, NOW);

    let released = one_claim(&mut scheduler);
    assert_ne!(released.attempt, claim.attempt);
}

/// A drained lease holds nothing more, so releasing it afterwards changes
/// nothing the drained claims still own.
#[test]
fn drained_lease_releases_nothing() {
    let mut scheduler = ResyncScheduler::new();
    scheduler.schedule_now(peer(73), topic(74), NOW, false);
    scheduler.schedule_now(peer(73), topic(75), NOW, false);
    let mut due = scheduler.due_targets_by_peer(NOW, 8, 8);
    let claims = due.remove(0).1;
    assert_eq!(claims.len(), 2);
    let mut lease = scheduler.lease(claims, BACKOFF);
    let drained = lease.drain_claims();
    assert_eq!(drained.len(), 2);
    assert!(lease.targets().is_empty());
    lease.release(&mut scheduler, NOW);
    for topic_id in [topic(74), topic(75)] {
        let (active, _, _) = scheduler.target_state(peer(73), topic_id).expect("target survives");
        assert!(active.is_some(), "the drained claims still own their targets");
    }
    for claim in drained {
        scheduler.release_claim(claim, NOW, BACKOFF);
    }
    for topic_id in [topic(74), topic(75)] {
        let (active, _, _) = scheduler.target_state(peer(73), topic_id).expect("target survives");
        assert!(active.is_none(), "every drained claim is handed back");
    }
    assert_eq!(scheduler.next_due(), Some(NOW + BACKOFF));
}

#[test]
fn backoff_doubles_then_caps() {
    assert_eq!(backoff_after(0, SECOND, TEN_MINUTES), SECOND);
    assert_eq!(backoff_after(1, SECOND, TEN_MINUTES), SECOND);
    assert_eq!(backoff_after(2, SECOND, TEN_MINUTES), 2 * SECOND);
    assert_eq!(backoff_after(4, SECOND, TEN_MINUTES), 8 * SECOND);
    assert_eq!(backoff_after(17, SECOND, TEN_MINUTES), TEN_MINUTES);
    assert_eq!(backoff_after(u32::MAX, u64::MAX, u64::MAX), u64::MAX);
}

#[test]
fn lease_keeps_later_duplicate() {
    let scheduler = ResyncScheduler::new();
    let key = ResyncTargetKey { peer_id: peer(1), topic_id: topic(2) };
    let first = ResyncTarget { key, attempt: 1, covered: 1, force: None };
    let second = ResyncTarget { key, attempt: 2, covered: 1, force: None };
    let mut lease = scheduler.lease(vec![first, second], 0);
    assert_eq!(lease.targets().len(), 1);
    assert_eq!(lease.take_claim(&key), Some(second));
    assert_eq!(lease.take_claim(&key), None);
}
