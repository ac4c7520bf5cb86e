//! Resync scheduling: which peer and topic pairs are due for a sync attempt,
//! the attempts that own them, their work revisions and failure backoff, and
//! peer-fair turns. The transport runs the attempts and reports how each ended;
//! the scheduler decides what is due next.
use vstd::prelude::*;
use crate::ids::{Id32, PeerId, TopicId};
use crate::idset::IdSet;
use crate::idmap::IdMap;
use crate::order::{SortKey, key_lt};

verus! {

/// Peers one dispatch serves at once.
pub const MAX_RESYNC_PEER_CONCURRENCY: usize = 8;
/// Topics one peer's turn may carry.
pub const MAX_TOPICS_PER_RESYNC_BATCH: usize = 1024;
/// Delay before a topic that advanced but still owes work is served again.
pub const RESYNC_PROGRESS_TURN_MS: u64 = 0;
/// Backoff doublings after which failures stop growing the delay.
pub const MAX_BACKOFF_DOUBLINGS: u32 = 20;

/// A peer and topic pair that can be due for a sync attempt.
#[derive(Clone, Copy, Debug, PartialEq, Eq)]
pub struct ResyncTargetKey {
    pub peer_id: PeerId,
    pub topic_id: TopicId,
}

/// One claimed target: the attempt that owns it, plus the requested work
/// revision and force request that attempt covers.
#[derive(Clone, Copy, Debug, PartialEq, Eq)]
pub struct ResyncTarget {
    pub key: ResyncTargetKey,
    pub attempt: u64,
    pub covered: u64,
    pub force: Option<u64>,
}

/// The schedule of one target.
#[derive(Clone, Copy, Debug, PartialEq, Eq)]
pub struct ScheduledResync {
    /// When the target is due, in milliseconds.
    pub next_due: u64,
    /// Consecutive failed attempts.
    pub failures: u32,
    /// Bumped by every work invalidation, including during an attempt.
    pub requested: u64,
    /// The attempt that owns the target, if one does.
    pub active: Option<u64>,
    /// Requested revision of the newest force request still to be covered.
    pub force: Option<u64>,
}

/// An attempt started for a target and not yet recorded or released.
#[derive(Clone, Copy, Debug)]
pub struct LiveAttempt {
    pub key: ResyncTargetKey,
    pub attempt: u64,
}

/// The peer, topic and attempt of a live attempt.
pub open spec fn live_triple(x: LiveAttempt) -> (PeerId, TopicId, u64) {
    (x.key.peer_id, x.key.topic_id, x.attempt)
}

/// The attempts listed in `s`.
pub open spec fn live_of(s: Seq<LiveAttempt>) -> Set<(PeerId, TopicId, u64)>
    decreases s.len(),
{
    if s.len() == 0 { Set::empty() } else { live_of(s.drop_last()).insert(live_triple(s.last())) }
}

/// Listing one more attempt adds it to the set listed.
pub proof fn lemma_live_push(s: Seq<LiveAttempt>, x: LiveAttempt)
    ensures live_of(s.push(x)) == live_of(s).insert(live_triple(x)),
{
    assert(s.push(x).drop_last() =~= s);
}

/// `a + b`, or `u64::MAX` when that does not fit.
pub open spec fn sat_add(a: u64, b: u64) -> u64 {
    if a + b > u64::MAX { u64::MAX } else { (a + b) as u64 }
}

/// The schedule of `peer` and `topic` in `t`, if any.
pub open spec fn target_of(t: Map<PeerId, Map<TopicId, ScheduledResync>>, peer: PeerId, topic: TopicId) -> Option<ScheduledResync> {
    if t.contains_key(peer) && t[peer].contains_key(topic) { Some(t[peer][topic]) } else { None }
}

/// `t` with the schedule of `peer` and `topic` set to `s`.
pub open spec fn set_target(t: Map<PeerId, Map<TopicId, ScheduledResync>>, peer: PeerId, topic: TopicId, s: ScheduledResync)
    -> Map<PeerId, Map<TopicId, ScheduledResync>> {
    t.insert(peer, (if t.contains_key(peer) { t[peer] } else { Map::empty() }).insert(topic, s))
}

/// `t` without a schedule for `peer` and `topic`.
pub open spec fn unset_target(t: Map<PeerId, Map<TopicId, ScheduledResync>>, peer: PeerId, topic: TopicId)
    -> Map<PeerId, Map<TopicId, ScheduledResync>> {
    if t.contains_key(peer) { t.insert(peer, t[peer].remove(topic)) } else { t }
}

/// Setting one pair's schedule changes only that pair's.
pub proof fn lemma_set_target(t: Map<PeerId, Map<TopicId, ScheduledResync>>, peer: PeerId, topic: TopicId, s: ScheduledResync)
    ensures
        forall|p: PeerId, q: TopicId| #[trigger] target_of(set_target(t, peer, topic, s), p, q)
            == (if p == peer && q == topic { Some(s) } else { target_of(t, p, q) }),
{
}

/// Whether `t` and `u` hold the same schedule for every pair.
pub open spec fn same_targets(t: Map<PeerId, Map<TopicId, ScheduledResync>>, u: Map<PeerId, Map<TopicId, ScheduledResync>>) -> bool {
    forall|p: PeerId, q: TopicId| #[trigger] target_of(t, p, q) == target_of(u, p, q)
}

/// The schedule after new work for a target that had `old`: a claimed target
/// keeps its attempt and only gains the revision; an idle one becomes due by
/// `next_due` unless its failures back it off and the work is not forced.
pub open spec fn scheduled(old: Option<ScheduledResync>, next_due: u64, force: bool) -> ScheduledResync {
    match old {
        Some(t) => {
            let requested = sat_add(t.requested, 1);
            ScheduledResync {
                next_due: if t.active is None && (t.failures == 0 || force) && next_due < t.next_due { next_due } else { t.next_due },
                failures: t.failures,
                requested,
                active: t.active,
                force: if force { Some(requested) } else { t.force },
            }
        },
        None => ScheduledResync { next_due, failures: 0, requested: 1, active: None, force: if force { Some(1) } else { None } },
    }
}

/// The delay after `failures` consecutive failures: `initial` doubled once per
/// failure after the first, at most `MAX_BACKOFF_DOUBLINGS` times, capped at `max`.
pub open spec fn backoff_ms(failures: u32, initial: u64, max: u64) -> u64 {
    let doublings: nat = if failures == 0 { 0 } else if failures - 1 < MAX_BACKOFF_DOUBLINGS { (failures - 1) as nat } else { MAX_BACKOFF_DOUBLINGS as nat };
    let grown = initial * pow2(doublings);
    if grown > max { max } else { grown as u64 }
}

/// Two to the power `n`.
pub open spec fn pow2(n: nat) -> nat
    decreases n,
{
    if n == 0 { 1 } else { 2 * pow2((n - 1) as nat) }
}

/// Due targets per peer, their schedules, and the attempts under way.
#[derive(Debug)]
pub struct ResyncScheduler {
    by_peer: IdMap<IdMap<ScheduledResync>>,
    live: Vec<LiveAttempt>,
    next_attempt: u64,
}

impl ResyncScheduler {
    /// Every target's schedule, by peer and topic.
    pub closed spec fn targets(&self) -> Map<PeerId, Map<TopicId, ScheduledResync>> {
        self.by_peer@.map_values(|m: IdMap<ScheduledResync>| m@)
    }

    /// The attempts under way, by target.
    pub closed spec fn live(&self) -> Set<(PeerId, TopicId, u64)> {
        live_of(self.live@)
    }

    /// The id the next claimed attempt gets.
    pub closed spec fn spec_next_attempt(&self) -> u64 {
        self.next_attempt
    }

    /// An empty schedule.
    pub fn new() -> (r: ResyncScheduler)
        ensures
            r.targets() == Map::<PeerId, Map<TopicId, ScheduledResync>>::empty(),
            r.live() == Set::<(PeerId, TopicId, u64)>::empty(),
            r.spec_next_attempt() == 1,
    {
        let r = ResyncScheduler { by_peer: IdMap::new(), live: Vec::new(), next_attempt: 1 };
        assert(r.targets() =~= Map::<PeerId, Map<TopicId, ScheduledResync>>::empty());
        assert(r.live() =~= Set::<(PeerId, TopicId, u64)>::empty());
        r
    }

    /// The schedule of `key`, if any.
    pub fn get_target(&self, key: &ResyncTargetKey) -> (r: Option<ScheduledResync>)
        ensures r == target_of(self.targets(), key.peer_id, key.topic_id),
    {
        match self.by_peer.get(&key.peer_id) {
            Some(topics) => match topics.get(&key.topic_id) {
                Some(s) => Some(*s),
                None => None,
            },
            None => None,
        }
    }

    /// Sets the schedule of `key` to `s`.
    fn put_target(&mut self, key: &ResyncTargetKey, s: ScheduledResync)
        ensures
            final(self).targets() == set_target(old(self).targets(), key.peer_id, key.topic_id, s),
            final(self).live() == old(self).live(),
            final(self).spec_next_attempt() == old(self).spec_next_attempt(),
    {
        let taken = self.by_peer.remove(&key.peer_id);
        let mut topics = match taken {
            Some(topics) => topics,
            None => IdMap::new(),
        };
        topics.insert(key.topic_id, s);
        self.by_peer.insert(key.peer_id, topics);
        proof {
            assert(self.targets() =~= set_target(old(self).targets(), key.peer_id, key.topic_id, s));
            assert(self.live() =~= old(self).live());
        }
    }

    /// Removes the schedule of `key`.
    fn drop_target(&mut self, key: &ResyncTargetKey)
        ensures
            final(self).targets() == unset_target(old(self).targets(), key.peer_id, key.topic_id),
            final(self).live() == old(self).live(),
            final(self).spec_next_attempt() == old(self).spec_next_attempt(),
    {
        let taken = self.by_peer.remove(&key.peer_id);
        match taken {
            Some(mut topics) => {
                let _ = topics.remove(&key.topic_id);
                self.by_peer.insert(key.peer_id, topics);
                proof { assert(self.targets() =~= unset_target(old(self).targets(), key.peer_id, key.topic_id)); }
            },
            None => {
                proof { assert(self.by_peer@ =~= old(self).by_peer@); }
            },
        }
        proof { assert(self.live() =~= old(self).live()); }
    }

    /// Records new work for the target of `peer_id` and `topic_id`, due
    /// `after_ms` after `now_ms`; see [`scheduled`].
    pub fn schedule_after(&mut self, peer_id: PeerId, topic_id: TopicId, now_ms: u64, after_ms: u64, force: bool)
        ensures
            final(self).targets() == set_target(old(self).targets(), peer_id, topic_id,
                scheduled(target_of(old(self).targets(), peer_id, topic_id), sat_add(now_ms, after_ms), force)),
            final(self).live() == old(self).live(),
            final(self).spec_next_attempt() == old(self).spec_next_attempt(),
    {
        let key = ResyncTargetKey { peer_id, topic_id };
        let next_due = now_ms.saturating_add(after_ms);
        let next = match self.get_target(&key) {
            Some(t) => {
                let requested = t.requested.saturating_add(1);
                ScheduledResync {
                    next_due: if t.active.is_none() && (t.failures == 0 || force) && next_due < t.next_due { next_due } else { t.next_due },
                    failures: t.failures,
                    requested,
                    active: t.active,
                    force: if force { Some(requested) } else { t.force },
                }
            },
            None => ScheduledResync { next_due, failures: 0, requested: 1, active: None, force: if force { Some(1) } else { None } },
        };
        self.put_target(&key, next);
    }

    /// Records new work for the target due now.
    pub fn schedule_now(&mut self, peer_id: PeerId, topic_id: TopicId, now_ms: u64, force: bool)
        ensures
            final(self).targets() == set_target(old(self).targets(), peer_id, topic_id,
                scheduled(target_of(old(self).targets(), peer_id, topic_id), now_ms, force)),
            final(self).live() == old(self).live(),
            final(self).spec_next_attempt() == old(self).spec_next_attempt(),
    {
        self.schedule_after(peer_id, topic_id, now_ms, 0, force);
    }

    /// Re-arms a target after peer evidence changed what it needs. A claimed
    /// target is left to its owner, and the failure backoff is kept.
    pub fn reconsider(&mut self, peer_id: PeerId, topic_id: TopicId, now_ms: u64)
        ensures
            final(self).targets() == (match target_of(old(self).targets(), peer_id, topic_id) {
                Some(t) => if t.active is None && t.failures == 0 && now_ms < t.next_due {
                    set_target(old(self).targets(), peer_id, topic_id, ScheduledResync { next_due: now_ms, ..t })
                } else {
                    old(self).targets()
                },
                None => set_target(old(self).targets(), peer_id, topic_id,
                    ScheduledResync { next_due: now_ms, failures: 0, requested: 1, active: None, force: None }),
            }),
            final(self).live() == old(self).live(),
            final(self).spec_next_attempt() == old(self).spec_next_attempt(),
    {
        let key = ResyncTargetKey { peer_id, topic_id };
        match self.get_target(&key) {
            Some(t) => {
                if t.active.is_none() && t.failures == 0 && now_ms < t.next_due {
                    self.put_target(&key, ScheduledResync { next_due: now_ms, ..t });
                }
            },
            None => {
                self.put_target(&key, ScheduledResync { next_due: now_ms, failures: 0, requested: 1, active: None, force: None });
            },
        }
    }

    /// Ends the claim of a clean attempt. The target goes only when the attempt
    /// covered the newest requested work; work that arrived meanwhile makes it
    /// due now. A claim that no longer owns its target changes nothing.
    pub fn complete_clean(&mut self, claim: ResyncTarget, now_ms: u64)
        ensures
            final(self).targets() == (match target_of(old(self).targets(), claim.key.peer_id, claim.key.topic_id) {
                Some(t) => if t.active != Some(claim.attempt) {
                    old(self).targets()
                } else if t.requested != claim.covered || t.force != claim.force {
                    set_target(old(self).targets(), claim.key.peer_id, claim.key.topic_id,
                        ScheduledResync { active: None, failures: 0, next_due: now_ms, ..t })
                } else {
                    unset_target(old(self).targets(), claim.key.peer_id, claim.key.topic_id)
                },
                None => old(self).targets(),
            }),
            final(self).live() == old(self).live(),
            final(self).spec_next_attempt() == old(self).spec_next_attempt(),
    {
        let key = claim.key;
        match self.get_target(&key) {
            Some(t) => {
                if t.active != Some(claim.attempt) {
                    return;
                }
                if t.requested != claim.covered || t.force != claim.force {
                    self.put_target(&key, ScheduledResync { active: None, failures: 0, next_due: now_ms, ..t });
                } else {
                    self.drop_target(&key);
                }
            },
            None => {},
        }
    }

    /// Ends the claim of an attempt that advanced but may owe more: due
    /// `after_ms` later when nothing new arrived meanwhile, now otherwise; the
    /// force request it covered is served.
    pub fn complete_dirty(&mut self, claim: ResyncTarget, now_ms: u64, after_ms: u64)
        ensures
            final(self).targets() == (match target_of(old(self).targets(), claim.key.peer_id, claim.key.topic_id) {
                Some(t) => if t.active != Some(claim.attempt) {
                    old(self).targets()
                } else {
                    set_target(old(self).targets(), claim.key.peer_id, claim.key.topic_id, ScheduledResync {
                        active: None,
                        failures: 0,
                        next_due: if t.requested == claim.covered { sat_add(now_ms, after_ms) } else { now_ms },
                        force: if t.force == claim.force { None } else { t.force },
                        ..t
                    })
                },
                None => old(self).targets(),
            }),
            final(self).live() == old(self).live(),
            final(self).spec_next_attempt() == old(self).spec_next_attempt(),
    {
        let key = claim.key;
        match self.get_target(&key) {
            Some(t) => {
                if t.active != Some(claim.attempt) {
                    return;
                }
                let next_due = if t.requested == claim.covered { now_ms.saturating_add(after_ms) } else { now_ms };
                let force = if t.force == claim.force { None } else { t.force };
                self.put_target(&key, ScheduledResync { active: None, failures: 0, next_due, force, ..t });
            },
            None => {},
        }
    }

    /// Ends the claim of a failed attempt: one more failure, due after the
    /// backoff, and forced, since a failed exchange retries even when local
    /// evidence reads clean.
    pub fn complete_failed(&mut self, claim: ResyncTarget, now_ms: u64, initial_ms: u64, max_ms: u64)
        ensures
            final(self).targets() == (match target_of(old(self).targets(), claim.key.peer_id, claim.key.topic_id) {
                Some(t) => if t.active != Some(claim.attempt) {
                    old(self).targets()
                } else {
                    let failures = if t.failures == u32::MAX { u32::MAX } else { (t.failures + 1) as u32 };
                    set_target(old(self).targets(), claim.key.peer_id, claim.key.topic_id, ScheduledResync {
                        active: None,
                        failures,
                        next_due: sat_add(now_ms, backoff_ms(failures, initial_ms, max_ms)),
                        force: Some(t.requested),
                        ..t
                    })
                },
                None => old(self).targets(),
            }),
            final(self).live() == old(self).live(),
            final(self).spec_next_attempt() == old(self).spec_next_attempt(),
    {
        let key = claim.key;
        match self.get_target(&key) {
            Some(t) => {
                if t.active != Some(claim.attempt) {
                    return;
                }
                let failures = t.failures.saturating_add(1);
                let backoff = backoff_after(failures, initial_ms, max_ms);
                self.put_target(&key, ScheduledResync {
                    active: None,
                    failures,
                    next_due: now_ms.saturating_add(backoff),
                    force: Some(t.requested),
                    ..t
                });
            },
            None => {},
        }
    }

    /// Ownership, failures and pending force of a target, if it is scheduled.
    pub fn target_state(&self, peer_id: PeerId, topic_id: TopicId) -> (r: Option<(Option<u64>, u32, Option<u64>)>)
        ensures
            r == (match target_of(self.targets(), peer_id, topic_id) {
                Some(t) => Some((t.active, t.failures, t.force)),
                None => None,
            }),
    {
        match self.get_target(&ResyncTargetKey { peer_id, topic_id }) {
            Some(t) => Some((t.active, t.failures, t.force)),
            None => None,
        }
    }
}

/// The backoff after `failures` consecutive failures; see [`backoff_ms`].
pub fn backoff_after(failures: u32, initial_ms: u64, max_ms: u64) -> (r: u64)
    ensures r == backoff_ms(failures, initial_ms, max_ms),
{
    let doublings: u32 = if failures == 0 { 0 } else if failures - 1 < MAX_BACKOFF_DOUBLINGS { failures - 1 } else { MAX_BACKOFF_DOUBLINGS };
    assert(pow2(0) == 1);
    assert(initial_ms * pow2(0) == initial_ms);
    let mut capped = initial_ms > max_ms;
    let mut grown: u64 = initial_ms;
    let mut i: u32 = 0;
    while i < doublings
        invariant
            i <= doublings <= MAX_BACKOFF_DOUBLINGS,
            capped == (initial_ms * pow2(i as nat) > max_ms),
            !capped ==> grown == initial_ms * pow2(i as nat),
        decreases doublings - i,
    {
        proof {
            assert(pow2((i + 1) as nat) == 2 * pow2(i as nat));
            assert(initial_ms * pow2((i + 1) as nat) == 2 * (initial_ms * pow2(i as nat))) by (nonlinear_arith)
                requires pow2((i + 1) as nat) == 2 * pow2(i as nat);
        }
        if !capped {
            if grown > max_ms - grown {
                capped = true;
            } else {
                grown = grown * 2;
            }
        }
        i += 1;
    }
    if capped { max_ms } else { grown }
}

/// Whether `peer` owns a claimed target in `t`: a peer takes one turn at a time.
pub open spec fn peer_busy(t: Map<PeerId, Map<TopicId, ScheduledResync>>, peer: PeerId) -> bool {
    exists|q: TopicId| #[trigger] target_of(t, peer, q) matches Some(s) && s.active is Some
}

/// Whether the target of `peer` and `topic` waits for a turn: scheduled,
/// unclaimed, and its peer not taking a turn.
pub open spec fn waiting(t: Map<PeerId, Map<TopicId, ScheduledResync>>, peer: PeerId, topic: TopicId) -> bool {
    &&& target_of(t, peer, topic) matches Some(s) && s.active is None
    &&& !peer_busy(t, peer)
}

/// A peer's topics after it was reached: failures cleared, and an unclaimed
/// target backed off by them due now.
pub open spec fn reached_schedule(s: ScheduledResync, now_ms: u64) -> ScheduledResync {
    if s.failures > 0 {
        ScheduledResync { failures: 0, next_due: if s.active is None && s.next_due > now_ms { now_ms } else { s.next_due }, ..s }
    } else {
        s
    }
}

impl ResyncScheduler {
    /// Ends attempt `attempt` of `key`; returns whether it was under way, so
    /// only its first completion counts.
    pub fn end_attempt(&mut self, key: ResyncTargetKey, attempt: u64) -> (r: bool)
        ensures
            r == old(self).live().contains((key.peer_id, key.topic_id, attempt)),
            final(self).live() == old(self).live().remove((key.peer_id, key.topic_id, attempt)),
            final(self).targets() == old(self).targets(),
            final(self).spec_next_attempt() == old(self).spec_next_attempt(),
    {
        let ghost target = (key.peer_id, key.topic_id, attempt);
        let mut rest: Vec<LiveAttempt> = Vec::new();
        std::mem::swap(&mut rest, &mut self.live);
        let ghost orig = rest@;
        let mut kept: Vec<LiveAttempt> = Vec::new();
        let mut found = false;
        let mut i: usize = 0;
        proof { assert(live_of(orig.take(0)) =~= Set::<(PeerId, TopicId, u64)>::empty()); assert(live_of(kept@) =~= Set::<(PeerId, TopicId, u64)>::empty()); }
        while i < rest.len()
            invariant
                i <= rest@.len(),
                rest@ == orig,
                target == (key.peer_id, key.topic_id, attempt),
                found == live_of(orig.take(i as int)).contains(target),
                live_of(kept@) == live_of(orig.take(i as int)).remove(target),
            decreases rest@.len() - i,
        {
            let x = rest[i];
            proof {
                assert(orig.take(i as int + 1) =~= orig.take(i as int).push(x));
                lemma_live_push(orig.take(i as int), x);
            }
            let hit = x.key.peer_id.same(&key.peer_id) && x.key.topic_id.same(&key.topic_id) && x.attempt == attempt;
            proof {
                if hit {
                    assert(x.key.peer_id == key.peer_id && x.key.topic_id == key.topic_id && x.attempt == attempt);
                    assert(live_triple(x) == target);
                } else {
                    assert(live_triple(x) != target);
                }
            }
            if hit {
                found = true;
                proof {
                    assert(live_of(kept@) =~= live_of(orig.take(i as int + 1)).remove(target));
                }
            } else {
                let ghost before = kept@;
                kept.push(x);
                proof {
                    lemma_live_push(before, x);
                    assert(live_of(kept@) =~= live_of(orig.take(i as int + 1)).remove(target));
                }
            }
            i += 1;
        }
        self.live = kept;
        proof {
            assert(orig.take(i as int) =~= orig);
        }
        found
    }

    /// Hands a claim back without judging the peer: the attempt ends, and a
    /// target it still owns is due `after_ms` later.
    pub fn release_claim(&mut self, claim: ResyncTarget, now_ms: u64, after_ms: u64)
        ensures
            final(self).live() == old(self).live().remove((claim.key.peer_id, claim.key.topic_id, claim.attempt)),
            final(self).targets() == (match target_of(old(self).targets(), claim.key.peer_id, claim.key.topic_id) {
                Some(t) => if t.active != Some(claim.attempt) {
                    old(self).targets()
                } else {
                    set_target(old(self).targets(), claim.key.peer_id, claim.key.topic_id,
                        ScheduledResync { active: None, next_due: sat_add(now_ms, after_ms), ..t })
                },
                None => old(self).targets(),
            }),
            final(self).spec_next_attempt() == old(self).spec_next_attempt(),
    {
        let _ = self.end_attempt(claim.key, claim.attempt);
        let key = claim.key;
        match self.get_target(&key) {
            Some(t) => {
                if t.active != Some(claim.attempt) {
                    return;
                }
                self.put_target(&key, ScheduledResync { active: None, next_due: now_ms.saturating_add(after_ms), ..t });
            },
            None => {},
        }
    }

    /// Clears the failures of every target of `peer_id` once it was reached;
    /// see [`reached_schedule`]. Returns whether any target had failures.
    pub fn peer_reachable(&mut self, peer_id: PeerId, now_ms: u64) -> (r: bool)
        ensures
            forall|p: PeerId, q: TopicId| #[trigger] target_of(final(self).targets(), p, q) == (
                if p == peer_id {
                    match target_of(old(self).targets(), p, q) { Some(s) => Some(reached_schedule(s, now_ms)), None => None }
                } else {
                    target_of(old(self).targets(), p, q)
                }),
            r == exists|q: TopicId| #[trigger] target_of(old(self).targets(), peer_id, q) matches Some(s) && s.failures > 0,
            final(self).live() == old(self).live(),
            final(self).spec_next_attempt() == old(self).spec_next_attempt(),
    {
        let taken = self.by_peer.remove(&peer_id);
        let mut topics = match taken {
            Some(topics) => topics,
            None => {
                proof {
                    assert(self.by_peer@ =~= old(self).by_peer@);
                    assert(self.live() =~= old(self).live());
                }
                return false;
            },
        };
        let ghost orig = topics@;
        let keys = topics.keys();
        let mut changed = false;
        let mut i: usize = 0;
        while i < keys.len()
            invariant
                i <= keys@.len(),
                keys@.to_set() == orig.dom(),
                keys@.no_duplicates(),
                topics@.dom() == orig.dom(),
                forall|q: TopicId| #[trigger] topics@.contains_key(q) ==> topics@[q] == (
                    if keys@.take(i as int).contains(q) { reached_schedule(orig[q], now_ms) } else { orig[q] }),
                changed == exists|q: TopicId| #[trigger] keys@.take(i as int).contains(q) && orig[q].failures > 0,
            decreases keys@.len() - i,
        {
            let q = keys[i];
            proof {
                assert(keys@.to_set().contains(q));
                assert(keys@.take(i as int + 1) =~= keys@.take(i as int).push(q));
                assert(!keys@.take(i as int).contains(q)) by {
                    if keys@.take(i as int).contains(q) {
                        let w = choose|w: int| 0 <= w < i && #[trigger] keys@.take(i as int)[w] == q;
                        assert(keys@[w] == keys@[i as int]);
                    }
                }
            }
            let s = match topics.get(&q) {
                Some(s) => *s,
                None => { proof { assert(false); } return false; },
            };
            let ghost was = changed;
            if s.failures > 0 {
                let next_due = if s.active.is_none() && s.next_due > now_ms { now_ms } else { s.next_due };
                topics.insert(q, ScheduledResync { failures: 0, next_due, ..s });
                changed = true;
            }
            i += 1;
            proof {
                assert forall|y: TopicId| y != q implies keys@.take(i as int).contains(y) == keys@.take(i - 1).contains(y) by {
                    if keys@.take(i as int).contains(y) {
                        let w = choose|w: int| 0 <= w < i && #[trigger] keys@.take(i as int)[w] == y;
                        assert(w < i - 1);
                        assert(keys@.take(i - 1)[w] == y);
                    }
                    if keys@.take(i - 1).contains(y) {
                        let w = choose|w: int| 0 <= w < i - 1 && #[trigger] keys@.take(i - 1)[w] == y;
                        assert(keys@.take(i as int)[w] == y);
                    }
                }
                assert(keys@.take(i as int).contains(q)) by { assert(keys@.take(i as int)[i - 1] == q); }
                assert(topics@.dom() =~= orig.dom());
                assert(s == orig[q]);
                if s.failures > 0 {
                    assert(keys@.take(i as int).contains(q) && orig[q].failures > 0);
                } else {
                    assert((exists|y: TopicId| #[trigger] keys@.take(i as int).contains(y) && orig[y].failures > 0)
                        == (exists|y: TopicId| #[trigger] keys@.take(i - 1).contains(y) && orig[y].failures > 0)) by {
                        if exists|y: TopicId| #[trigger] keys@.take(i as int).contains(y) && orig[y].failures > 0 {
                            let y = choose|y: TopicId| #[trigger] keys@.take(i as int).contains(y) && orig[y].failures > 0;
                            assert(y != q);
                            assert(keys@.take(i - 1).contains(y));
                        }
                        if exists|y: TopicId| #[trigger] keys@.take(i - 1).contains(y) && orig[y].failures > 0 {
                            let y = choose|y: TopicId| #[trigger] keys@.take(i - 1).contains(y) && orig[y].failures > 0;
                            if y != q { assert(keys@.take(i as int).contains(y)); }
                        }
                    }
                }
            }
        }
        self.by_peer.insert(peer_id, topics);
        proof {
            assert(keys@.take(i as int) =~= keys@);
            assert forall|q: TopicId| keys@.contains(q) <==> orig.contains_key(q) by {
                assert(keys@.to_set().contains(q) == orig.dom().contains(q));
            }
            assert forall|p: PeerId, q: TopicId| #[trigger] target_of(self.targets(), p, q) == (
                if p == peer_id {
                    match target_of(old(self).targets(), p, q) { Some(s) => Some(reached_schedule(s, now_ms)), None => None }
                } else {
                    target_of(old(self).targets(), p, q)
                }) by {
                if p == peer_id {
                    assert(old(self).targets()[p] == orig);
                }
            }
            assert(self.live() =~= old(self).live());
            if changed {
                let q = choose|q: TopicId| #[trigger] keys@.take(i as int).contains(q) && orig[q].failures > 0;
                assert(target_of(old(self).targets(), peer_id, q) == Some(orig[q]));
            }
            if exists|q: TopicId| #[trigger] target_of(old(self).targets(), peer_id, q) matches Some(s) && s.failures > 0 {
                let q = choose|q: TopicId| #[trigger] target_of(old(self).targets(), peer_id, q) matches Some(s) && s.failures > 0;
                assert(orig.contains_key(q));
                assert(keys@.take(i as int).contains(q));
            }
        }
        changed
    }

    /// Up to `limit` topics scheduled for `peer_id`, in ascending order.
    pub fn peer_topics(&self, peer_id: PeerId, limit: usize) -> (r: Vec<TopicId>)
        ensures
            !self.targets().contains_key(peer_id) ==> r@.len() == 0,
            self.targets().contains_key(peer_id) ==> r@ == crate::node::peers::sorted_of(self.targets()[peer_id].dom()).take(
                if limit < self.targets()[peer_id].dom().len() { limit as int } else { self.targets()[peer_id].dom().len() as int }),
    {
        match self.by_peer.get(&peer_id) {
            None => Vec::new(),
            Some(topics) => {
                let keys = topics.keys();
                proof {
                    crate::node::peers::lemma_sorted_of(keys@);
                    keys@.unique_seq_to_set();
                    assert(self.targets()[peer_id] == topics@);
                    assert(keys@.to_set() == topics@.dom());
                }
                let mut out: Vec<TopicId> = Vec::new();
                let mut i: usize = 0;
                while i < keys.len() && i < limit
                    invariant
                        i <= keys@.len(),
                        i <= limit,
                        out@ == keys@.take(i as int),
                    decreases keys@.len() - i,
                {
                    out.push(keys[i]);
                    i += 1;
                    proof { assert(out@ =~= keys@.take(i as int)); }
                }
                out
            },
        }
    }
}

/// Whether some target of `topics` is claimed.
fn any_claimed(topics: &IdMap<ScheduledResync>) -> (r: bool)
    ensures r == exists|q: TopicId| #[trigger] topics@.contains_key(q) && topics@[q].active is Some,
{
    let keys = topics.keys();
    let mut i: usize = 0;
    while i < keys.len()
        invariant
            i <= keys@.len(),
            keys@.to_set() == topics@.dom(),
            forall|j: int| 0 <= j < i ==> (#[trigger] topics@[keys@[j]]).active is None,
        decreases keys@.len() - i,
    {
        match topics.get(&keys[i]) {
            Some(t) => { if t.active.is_some() { proof { assert(keys@.to_set().contains(keys@[i as int])); } return true; } },
            None => { proof { assert(keys@.to_set().contains(keys@[i as int])); } },
        }
        i += 1;
    }
    proof {
        assert forall|q: TopicId| #[trigger] topics@.contains_key(q) implies topics@[q].active is None by {
            assert(keys@.to_set().contains(q));
            let j = choose|j: int| 0 <= j < keys@.len() && keys@[j] == q;
        }
    }
    false
}

/// The earliest due time of an unclaimed target of `topics`.
fn min_unclaimed_due(topics: &IdMap<ScheduledResync>) -> (r: Option<u64>)
    ensures
        r is None <==> !(exists|q: TopicId| #[trigger] topics@.contains_key(q) && topics@[q].active is None),
        r matches Some(d) ==> (exists|q: TopicId| #[trigger] topics@.contains_key(q) && topics@[q].active is None && topics@[q].next_due == d)
            && (forall|q: TopicId| #[trigger] topics@.contains_key(q) && topics@[q].active is None ==> d <= topics@[q].next_due),
{
    let keys = topics.keys();
    let mut best: Option<u64> = None;
    let mut k: usize = 0;
    while k < keys.len()
        invariant
            k <= keys@.len(),
            keys@.to_set() == topics@.dom(),
            best is None <==> !(exists|j: int| 0 <= j < k && (#[trigger] topics@[keys@[j]]).active is None),
            best matches Some(d) ==> (exists|j: int| 0 <= j < k && (#[trigger] topics@[keys@[j]]).active is None && topics@[keys@[j]].next_due == d)
                && (forall|j: int| 0 <= j < k && (#[trigger] topics@[keys@[j]]).active is None ==> d <= topics@[keys@[j]].next_due),
        decreases keys@.len() - k,
    {
        let q = keys[k];
        proof { assert(keys@.to_set().contains(q)); }
        let s = match topics.get(&q) { Some(x) => *x, None => { proof { assert(false); } return None; } };
        if s.active.is_none() {
            best = match best {
                Some(d) => if s.next_due < d { Some(s.next_due) } else { Some(d) },
                None => Some(s.next_due),
            };
        }
        k += 1;
    }
    proof {
        assert forall|q: TopicId| #[trigger] topics@.contains_key(q) implies exists|j: int| 0 <= j < k && keys@[j] == q by {
            assert(keys@.to_set().contains(q));
        }
        if best is Some {
            let j = choose|j: int| 0 <= j < k && (#[trigger] topics@[keys@[j]]).active is None && topics@[keys@[j]].next_due == best->Some_0;
            assert(keys@.to_set().contains(keys@[j]));
            assert(topics@.contains_key(keys@[j]));
        }
        if exists|q: TopicId| #[trigger] topics@.contains_key(q) && topics@[q].active is None {
            let q = choose|q: TopicId| #[trigger] topics@.contains_key(q) && topics@[q].active is None;
            let j = choose|j: int| 0 <= j < k && keys@[j] == q;
            assert(topics@[keys@[j]].active is None);
        }
    }
    best
}

impl ResyncScheduler {
    /// The peers that own a claimed target.
    pub fn busy_peers(&self) -> (r: IdSet)
        ensures forall|p: PeerId| #[trigger] r@.contains(p) <==> peer_busy(self.targets(), p),
    {
        let peers = self.by_peer.keys();
        let mut busy = IdSet::new();
        let mut i: usize = 0;
        while i < peers.len()
            invariant
                i <= peers@.len(),
                peers@.to_set() == self.by_peer@.dom(),
                peers@.no_duplicates(),
                forall|p: PeerId| #[trigger] busy@.contains(p) <==> peers@.take(i as int).contains(p) && peer_busy(self.targets(), p),
            decreases peers@.len() - i,
        {
            let p = peers[i];
            proof { assert(peers@.to_set().contains(p)); }
            let topics = match self.by_peer.get(&p) { Some(t) => t, None => { proof { assert(false); } return busy; } };
            let claimed = any_claimed(topics);
            proof {
                assert(self.targets()[p] == topics@);
                if claimed {
                    let q = choose|q: TopicId| #[trigger] topics@.contains_key(q) && topics@[q].active is Some;
                    assert(target_of(self.targets(), p, q) == Some(topics@[q]));
                } else {
                    assert forall|q: TopicId| !(#[trigger] target_of(self.targets(), p, q) matches Some(s) && s.active is Some) by {
                        if target_of(self.targets(), p, q) is Some { assert(topics@.contains_key(q)); }
                    }
                }
                assert(peers@.take(i as int + 1) =~= peers@.take(i as int).push(p));
                assert forall|y: PeerId| #[trigger] peers@.take(i as int + 1).contains(y) <==> peers@.take(i as int).contains(y) || y == p by {
                    if peers@.take(i as int + 1).contains(y) {
                        let w = choose|w: int| 0 <= w < i + 1 && #[trigger] peers@.take(i as int + 1)[w] == y;
                        if w < i { assert(peers@.take(i as int)[w] == y); }
                    }
                    if peers@.take(i as int).contains(y) {
                        let w = choose|w: int| 0 <= w < i && #[trigger] peers@.take(i as int)[w] == y;
                        assert(peers@.take(i as int + 1)[w] == y);
                    }
                    if y == p { assert(peers@.take(i as int + 1)[i as int] == y); }
                }
                assert(claimed == peer_busy(self.targets(), p));
            }
            if claimed {
                busy.insert(p);
            }
            i += 1;
        }
        proof {
            assert(peers@.take(i as int) =~= peers@);
            assert forall|p: PeerId| peer_busy(self.targets(), p) implies peers@.contains(p) by {
                let q = choose|q: TopicId| #[trigger] target_of(self.targets(), p, q) matches Some(s) && s.active is Some;
                assert(self.by_peer@.dom().contains(p));
                assert(peers@.to_set().contains(p));
            }
        }
        busy
    }

    /// The earliest due time of a waiting target; see [`waiting`]. A peer
    /// taking its turn is skipped, so an expired deadline behind that turn
    /// cannot spin a wake loop.
    pub fn next_due(&self) -> (r: Option<u64>)
        ensures
            r is None <==> !(exists|p: PeerId, q: TopicId| #[trigger] waiting(self.targets(), p, q)),
            r matches Some(d) ==> (exists|p: PeerId, q: TopicId| #[trigger] waiting(self.targets(), p, q)
                    && target_of(self.targets(), p, q)->Some_0.next_due == d)
                && (forall|p: PeerId, q: TopicId| #[trigger] waiting(self.targets(), p, q)
                    ==> d <= target_of(self.targets(), p, q)->Some_0.next_due),
    {
        let ghost t = self.targets();
        let busy = self.busy_peers();
        let peers = self.by_peer.keys();
        let mut best: Option<u64> = None;
        let mut i: usize = 0;
        while i < peers.len()
            invariant
                i <= peers@.len(),
                t == self.targets(),
                peers@.to_set() == self.by_peer@.dom(),
                peers@.no_duplicates(),
                forall|p: PeerId| #[trigger] busy@.contains(p) <==> peer_busy(t, p),
                best is None <==> !(exists|j: int, q: TopicId| 0 <= j < i && #[trigger] waiting(t, peers@[j], q)),
                best matches Some(d) ==> (exists|j: int, q: TopicId| 0 <= j < i && #[trigger] waiting(t, peers@[j], q)
                        && target_of(t, peers@[j], q)->Some_0.next_due == d)
                    && (forall|j: int, q: TopicId| 0 <= j < i && #[trigger] waiting(t, peers@[j], q)
                        ==> d <= target_of(t, peers@[j], q)->Some_0.next_due),
            decreases peers@.len() - i,
        {
            let p = peers[i];
            proof { assert(peers@.to_set().contains(p)); }
            let topics = match self.by_peer.get(&p) { Some(x) => x, None => { proof { assert(false); } return None; } };
            proof { assert(t[p] == topics@); }
            let is_busy = busy.contains(&p);
            let here = if is_busy { None } else { min_unclaimed_due(topics) };
            proof {
                if is_busy {
                    assert forall|q: TopicId| !#[trigger] waiting(t, p, q) by {}
                } else {
                    assert forall|q: TopicId| #[trigger] waiting(t, p, q) <==> topics@.contains_key(q) && topics@[q].active is None by {}
                }
            }
            let ghost prev = best;
            best = match (best, here) {
                (Some(a), Some(b)) => if b < a { Some(b) } else { Some(a) },
                (Some(a), None) => Some(a),
                (None, x) => x,
            };
            proof {
                assert(peers@[i as int] == p);
                assert forall|q: TopicId| #[trigger] waiting(t, p, q) <==> (!is_busy && topics@.contains_key(q) && topics@[q].active is None) by {}
                assert forall|j: int, q: TopicId| 0 <= j < i + 1 && #[trigger] waiting(t, peers@[j], q)
                    implies best is Some && best->Some_0 <= target_of(t, peers@[j], q)->Some_0.next_due by {
                    if j == i {
                        assert(topics@.contains_key(q) && topics@[q].active is None);
                        assert(target_of(t, p, q) == Some(topics@[q]));
                    }
                }
                if best is Some {
                    let d = best->Some_0;
                    if prev is Some && prev->Some_0 == d {
                        let (j, q) = choose|j: int, q: TopicId| 0 <= j < i && #[trigger] waiting(t, peers@[j], q)
                            && target_of(t, peers@[j], q)->Some_0.next_due == prev->Some_0;
                        assert(0 <= j < i + 1 && waiting(t, peers@[j], q));
                    } else {
                        assert(here == Some(d));
                        let q = choose|q: TopicId| #[trigger] topics@.contains_key(q) && topics@[q].active is None && topics@[q].next_due == d;
                        assert(waiting(t, peers@[i as int], q));
                        assert(target_of(t, p, q) == Some(topics@[q]));
                    }
                } else {
                    assert(prev is None && here is None);
                    assert forall|j: int, q: TopicId| !(0 <= j < i + 1 && #[trigger] waiting(t, peers@[j], q)) by {
                        if 0 <= j < i + 1 && waiting(t, peers@[j], q) {
                            if j == i {
                                assert(topics@.contains_key(q) && topics@[q].active is None);
                            }
                        }
                    }
                }
            }
            i += 1;
        }
        proof {
            assert forall|p: PeerId, q: TopicId| #[trigger] waiting(t, p, q) implies exists|j: int| 0 <= j < i && peers@[j] == p by {
                assert(t.contains_key(p));
                assert(peers@.to_set().contains(p));
            }
        }
        best
    }

    /// Registers `attempt` as under way for every target of `keys`.
    pub fn begin_attempts(&mut self, keys: &[ResyncTargetKey], attempt: u64)
        ensures
            forall|x: (PeerId, TopicId, u64)| #[trigger] final(self).live().contains(x) <==> old(self).live().contains(x)
                || (x.2 == attempt && exists|k: int| 0 <= k < keys@.len() && #[trigger] keys@[k].peer_id == x.0 && keys@[k].topic_id == x.1),
            final(self).targets() == old(self).targets(),
            final(self).spec_next_attempt() == old(self).spec_next_attempt(),
    {
        let mut i: usize = 0;
        while i < keys.len()
            invariant
                i <= keys@.len(),
                self.targets() == old(self).targets(),
                self.spec_next_attempt() == old(self).spec_next_attempt(),
                forall|x: (PeerId, TopicId, u64)| #[trigger] self.live().contains(x) <==> old(self).live().contains(x)
                    || (x.2 == attempt && exists|k: int| 0 <= k < i && #[trigger] keys@[k].peer_id == x.0 && keys@[k].topic_id == x.1),
            decreases keys@.len() - i,
        {
            let ghost before = self.live@;
            let ghost before_set = self.live();
            let entry = LiveAttempt { key: keys[i], attempt };
            self.live.push(entry);
            proof {
                lemma_live_push(before, entry);
                assert(entry.key == keys@[i as int]);
                assert(self.live@ == before.push(entry));
                assert(self.live() == live_of(before).insert(live_triple(entry)));
                assert forall|x: (PeerId, TopicId, u64)| #[trigger] self.live().contains(x) <==> old(self).live().contains(x)
                    || (x.2 == attempt && exists|k: int| 0 <= k < i + 1 && #[trigger] keys@[k].peer_id == x.0 && keys@[k].topic_id == x.1) by {
                    let old_side = old(self).live().contains(x)
                        || (x.2 == attempt && exists|k: int| 0 <= k < i && #[trigger] keys@[k].peer_id == x.0 && keys@[k].topic_id == x.1);
                    assert(before_set.contains(x) == old_side);
                    assert(live_of(before) == before_set);
                    if x.2 == attempt && exists|k: int| 0 <= k < i + 1 && #[trigger] keys@[k].peer_id == x.0 && keys@[k].topic_id == x.1 {
                        let k = choose|k: int| 0 <= k < i + 1 && #[trigger] keys@[k].peer_id == x.0 && keys@[k].topic_id == x.1;
                        if k == i {
                            assert(x == live_triple(entry));
                        } else {
                            assert(old_side);
                        }
                    }
                    if x == live_triple(entry) {
                        assert(keys@[i as int].peer_id == x.0 && keys@[i as int].topic_id == x.1);
                    }
                    if old_side {
                        if !old(self).live().contains(x) {
                            let k = choose|k: int| 0 <= k < i && #[trigger] keys@[k].peer_id == x.0 && keys@[k].topic_id == x.1;
                            assert(keys@[k].peer_id == x.0);
                        }
                    }
                }
            }
            i += 1;
        }
    }

    /// The id for the next attempt, or `None` once ids are exhausted: ids are
    /// never reused, so a completion from a finished attempt cannot match a live one.
    pub fn next_attempt_id(&mut self) -> (r: Option<u64>)
        ensures
            old(self).spec_next_attempt() == u64::MAX <==> r is None,
            r matches Some(a) ==> a == old(self).spec_next_attempt() && final(self).spec_next_attempt() == a + 1,
            r is None ==> final(self).spec_next_attempt() == old(self).spec_next_attempt(),
            final(self).targets() == old(self).targets(),
            final(self).live() == old(self).live(),
    {
        if self.next_attempt == u64::MAX {
            return None;
        }
        let a = self.next_attempt;
        self.next_attempt = a + 1;
        Some(a)
    }
}

/// The rank of a waiting target: due time, then peer, then topic.
pub open spec fn due_key(peer: PeerId, topic: TopicId, s: ScheduledResync) -> SortKey {
    SortKey { major: s.next_due, actor: peer, minor: 0, id: topic }
}

/// The ranks of the targets waiting in `t` and due by `now_ms`.
pub open spec fn due_keys(t: Map<PeerId, Map<TopicId, ScheduledResync>>, now_ms: u64) -> Set<SortKey> {
    Set::new(|k: SortKey| waiting(t, k.actor, k.id) && target_of(t, k.actor, k.id)->Some_0.next_due <= now_ms
        && k == due_key(k.actor, k.id, target_of(t, k.actor, k.id)->Some_0))
}

/// Due targets grouped by peer in rank order: a peer's first target opens its
/// group while fewer than `max_peers` groups are open, and later ones join it
/// while it holds fewer than `max_per_peer`.
pub open spec fn group_due(ready: Seq<SortKey>, max_peers: int, max_per_peer: int) -> Map<PeerId, Seq<TopicId>>
    decreases ready.len(),
{
    if ready.len() == 0 {
        Map::empty()
    } else {
        let g = group_due(ready.drop_last(), max_peers, max_per_peer);
        let k = ready.last();
        if g.contains_key(k.actor) {
            if g[k.actor].len() < max_per_peer { g.insert(k.actor, g[k.actor].push(k.id)) } else { g }
        } else if g.dom().len() < max_peers {
            g.insert(k.actor, seq![k.id])
        } else {
            g
        }
    }
}

/// The groups of `groups`, each as the sequence of its topics.
pub open spec fn group_view(groups: Map<PeerId, Vec<TopicId>>) -> Map<PeerId, Seq<TopicId>> {
    groups.map_values(|v: Vec<TopicId>| v@)
}

proof fn lemma_group_due_finite(ready: Seq<SortKey>, max_peers: int, max_per_peer: int)
    ensures
        group_due(ready, max_peers, max_per_peer).dom().finite(),
        forall|p: PeerId| #[trigger] group_due(ready, max_peers, max_per_peer).contains_key(p)
            ==> group_due(ready, max_peers, max_per_peer)[p].len() > 0,
    decreases ready.len(),
{
    if ready.len() > 0 {
        lemma_group_due_finite(ready.drop_last(), max_peers, max_per_peer);
    }
}

impl ResyncScheduler {
    /// The ranks of the targets waiting and due by `now_ms`.
    fn due_ranks(&self, now_ms: u64) -> (r: Vec<SortKey>)
        ensures
            r@.to_set() == due_keys(self.targets(), now_ms),
            r@.no_duplicates(),
    {
        let ghost t = self.targets();
        let busy = self.busy_peers();
        let peers = self.by_peer.keys();
        let mut ready: Vec<SortKey> = Vec::new();
        let mut i: usize = 0;
        while i < peers.len()
            invariant
                i <= peers@.len(),
                t == self.targets(),
                peers@.to_set() == self.by_peer@.dom(),
                peers@.no_duplicates(),
                forall|p: PeerId| #[trigger] busy@.contains(p) <==> peer_busy(t, p),
                ready@.no_duplicates(),
                forall|k: SortKey| #[trigger] ready@.contains(k) <==> due_keys(t, now_ms).contains(k) && peers@.take(i as int).contains(k.actor),
            decreases peers@.len() - i,
        {
            let p = peers[i];
            proof {
                assert(peers@.to_set().contains(p));
                assert(peers@[i as int] == p);
                assert forall|y: PeerId| #[trigger] peers@.take(i as int + 1).contains(y) <==> peers@.take(i as int).contains(y) || y == p by {
                    if peers@.take(i as int + 1).contains(y) {
                        let w = choose|w: int| 0 <= w < i + 1 && #[trigger] peers@.take(i as int + 1)[w] == y;
                        if w < i { assert(peers@.take(i as int)[w] == y); }
                    }
                    if peers@.take(i as int).contains(y) {
                        let w = choose|w: int| 0 <= w < i && #[trigger] peers@.take(i as int)[w] == y;
                        assert(peers@.take(i as int + 1)[w] == y);
                    }
                    if y == p { assert(peers@.take(i as int + 1)[i as int] == y); }
                }
                assert(!peers@.take(i as int).contains(p)) by {
                    if peers@.take(i as int).contains(p) {
                        let w = choose|w: int| 0 <= w < i && #[trigger] peers@.take(i as int)[w] == p;
                        assert(peers@[w] == peers@[i as int]);
                    }
                }
            }
            let is_busy = busy.contains(&p);
            if !is_busy {
                let topics = match self.by_peer.get(&p) { Some(x) => x, None => { proof { assert(false); } return ready; } };
                proof { assert(t[p] == topics@); }
                let keys = topics.keys();
                let mut k: usize = 0;
                while k < keys.len()
                    invariant
                        k <= keys@.len(),
                        t == self.targets(),
                        t.contains_key(p),
                        t[p] == topics@,
                        !peer_busy(t, p),
                        keys@.to_set() == topics@.dom(),
                        keys@.no_duplicates(),
                        !peers@.take(i as int).contains(p),
                        forall|y: PeerId| #[trigger] peers@.take(i as int + 1).contains(y) <==> peers@.take(i as int).contains(y) || y == p,
                        ready@.no_duplicates(),
                        forall|x: SortKey| #[trigger] ready@.contains(x) <==> due_keys(t, now_ms).contains(x)
                            && (peers@.take(i as int).contains(x.actor) || (x.actor == p && keys@.take(k as int).contains(x.id))),
                    decreases keys@.len() - k,
                {
                    let q = keys[k];
                    proof {
                        assert(keys@.to_set().contains(q));
                        assert(keys@[k as int] == q);
                        assert forall|y: TopicId| #[trigger] keys@.take(k as int + 1).contains(y) <==> keys@.take(k as int).contains(y) || y == q by {
                            if keys@.take(k as int + 1).contains(y) {
                                let w = choose|w: int| 0 <= w < k + 1 && #[trigger] keys@.take(k as int + 1)[w] == y;
                                if w < k { assert(keys@.take(k as int)[w] == y); }
                            }
                            if keys@.take(k as int).contains(y) {
                                let w = choose|w: int| 0 <= w < k && #[trigger] keys@.take(k as int)[w] == y;
                                assert(keys@.take(k as int + 1)[w] == y);
                            }
                            if y == q { assert(keys@.take(k as int + 1)[k as int] == y); }
                        }
                        assert(!keys@.take(k as int).contains(q)) by {
                            if keys@.take(k as int).contains(q) {
                                let w = choose|w: int| 0 <= w < k && #[trigger] keys@.take(k as int)[w] == q;
                                assert(keys@[w] == keys@[k as int]);
                            }
                        }
                    }
                    let s = match topics.get(&q) { Some(x) => *x, None => { proof { assert(false); } return ready; } };
                    let key = SortKey { major: s.next_due, actor: p, minor: 0, id: q };
                    proof {
                        assert(target_of(t, p, q) == Some(s));
                        assert(due_keys(t, now_ms).contains(key) == (s.active is None && s.next_due <= now_ms));
                    }
                    let ghost before = ready@;
                    if s.active.is_none() && s.next_due <= now_ms {
                        ready.push(key);
                        proof {
                            assert(!before.contains(key));
                            assert forall|x: SortKey| #[trigger] ready@.contains(x) <==> before.contains(x) || x == key by {
                                if ready@.contains(x) {
                                    let w = choose|w: int| 0 <= w < ready@.len() && ready@[w] == x;
                                    if w < before.len() { assert(before[w] == x); }
                                }
                                if before.contains(x) {
                                    let w = choose|w: int| 0 <= w < before.len() && before[w] == x;
                                    assert(ready@[w] == x);
                                }
                                if x == key { assert(ready@[before.len() as int] == x); }
                            }
                        }
                    }
                    proof {
                        assert forall|x: SortKey| #[trigger] ready@.contains(x) <==> due_keys(t, now_ms).contains(x)
                            && (peers@.take(i as int).contains(x.actor) || (x.actor == p && keys@.take(k as int + 1).contains(x.id))) by {
                            if due_keys(t, now_ms).contains(x) && x.actor == p && x.id == q {
                                assert(x == key);
                            }
                        }
                    }
                    k += 1;
                }
                proof {
                    assert(keys@.take(k as int) =~= keys@);
                    assert forall|x: SortKey| #[trigger] ready@.contains(x) <==> due_keys(t, now_ms).contains(x)
                        && peers@.take(i as int + 1).contains(x.actor) by {
                        if due_keys(t, now_ms).contains(x) && x.actor == p {
                            assert(topics@.contains_key(x.id));
                            assert(keys@.to_set().contains(x.id));
                        }
                    }
                }
            } else {
                proof {
                    assert forall|x: SortKey| #[trigger] ready@.contains(x) <==> due_keys(t, now_ms).contains(x)
                        && peers@.take(i as int + 1).contains(x.actor) by {
                        if due_keys(t, now_ms).contains(x) && x.actor == p {
                            assert(peer_busy(t, p));
                        }
                    }
                }
            }
            i += 1;
        }
        proof {
            assert(peers@.take(i as int) =~= peers@);
            assert forall|x: SortKey| #[trigger] ready@.to_set().contains(x) <==> due_keys(t, now_ms).contains(x) by {
                if due_keys(t, now_ms).contains(x) {
                    assert(t.contains_key(x.actor));
                    assert(peers@.to_set().contains(x.actor));
                }
            }
            assert(ready@.to_set() =~= due_keys(t, now_ms));
        }
        ready
    }
}

/// Whether some rank of `ready` is of `peer` and `topic`.
pub open spec fn from_ready(ready: Seq<SortKey>, peer: PeerId, topic: TopicId) -> bool {
    exists|a: int| 0 <= a < ready.len() && ready[a].actor == peer && ready[a].id == topic
}

/// What `group_due` holds comes from `ready`, each target once.
proof fn lemma_group_due_from(ready: Seq<SortKey>, max_peers: int, max_per_peer: int)
    requires
        forall|a: int, b: int| 0 <= a < ready.len() && 0 <= b < ready.len() && a != b
            ==> !(ready[a].actor == ready[b].actor && ready[a].id == ready[b].id),
    ensures ({
        let g = group_due(ready, max_peers, max_per_peer);
        &&& forall|p: PeerId| #[trigger] g.contains_key(p) ==> g[p].no_duplicates()
        &&& forall|p: PeerId, j: int| g.contains_key(p) && 0 <= j < g[p].len() ==> #[trigger] from_ready(ready, p, g[p][j])
    }),
    decreases ready.len(),
{
    if ready.len() > 0 {
        let r0 = ready.drop_last();
        assert forall|a: int, b: int| 0 <= a < r0.len() && 0 <= b < r0.len() && a != b
            implies !(r0[a].actor == r0[b].actor && r0[a].id == r0[b].id) by {
            assert(r0[a] == ready[a] && r0[b] == ready[b]);
        }
        lemma_group_due_from(r0, max_peers, max_per_peer);
        let g0 = group_due(r0, max_peers, max_per_peer);
        let g = group_due(ready, max_peers, max_per_peer);
        let k = ready.last();
        assert forall|p: PeerId, j: int| g.contains_key(p) && 0 <= j < g[p].len() implies #[trigger] from_ready(ready, p, g[p][j]) by {
            if g0.contains_key(p) && j < g0[p].len() && g[p][j] == g0[p][j] {
                assert(from_ready(r0, p, g0[p][j]));
                let a = choose|a: int| 0 <= a < r0.len() && r0[a].actor == p && r0[a].id == g0[p][j];
                assert(ready[a] == r0[a]);
            } else {
                assert(ready[ready.len() - 1] == k);
                assert(k.actor == p && k.id == g[p][j]);
            }
        }
        if g0.contains_key(k.actor) && g0[k.actor].len() < max_per_peer {
            assert(!g0[k.actor].contains(k.id)) by {
                if g0[k.actor].contains(k.id) {
                    let j = choose|j: int| 0 <= j < g0[k.actor].len() && g0[k.actor][j] == k.id;
                    assert(from_ready(r0, k.actor, g0[k.actor][j]));
                    let a = choose|a: int| 0 <= a < r0.len() && r0[a].actor == k.actor && r0[a].id == g0[k.actor][j];
                    assert(ready[a] == r0[a]);
                    assert(a != ready.len() - 1);
                }
            }
            let e = g0[k.actor].push(k.id);
            assert(e.no_duplicates()) by {
                assert forall|a: int, b: int| 0 <= a < e.len() && 0 <= b < e.len() && a != b implies e[a] != e[b] by {
                    if a < e.len() - 1 && b < e.len() - 1 {
                        assert(e[a] == g0[k.actor][a] && e[b] == g0[k.actor][b]);
                    } else if a == e.len() - 1 {
                        assert(g0[k.actor].contains(e[b]) || b == a);
                    } else {
                        assert(g0[k.actor].contains(e[a]));
                    }
                }
            }
        }
        assert forall|p: PeerId| #[trigger] g.contains_key(p) implies g[p].no_duplicates() by {
            if p != k.actor {
                assert(g0.contains_key(p));
            } else if !g0.contains_key(p) {
                assert(g[p] == seq![k.id]);
            }
        }
    }
}

/// Groups `sorted` by peer; see [`group_due`].
fn group_ranks(sorted: &Vec<SortKey>, max_peers: usize, max_per_peer: usize) -> (r: IdMap<Vec<TopicId>>)
    ensures group_view(r@) == group_due(sorted@, max_peers as int, max_per_peer as int),
{
    let mut groups: IdMap<Vec<TopicId>> = IdMap::new();
    let mut i: usize = 0;
    proof { assert(group_view(groups@) =~= group_due(sorted@.take(0), max_peers as int, max_per_peer as int)); }
    while i < sorted.len()
        invariant
            i <= sorted@.len(),
            group_view(groups@) == group_due(sorted@.take(i as int), max_peers as int, max_per_peer as int),
        decreases sorted@.len() - i,
    {
        let k = sorted[i];
        let ghost g0 = group_view(groups@);
        proof {
            assert(sorted@.take(i as int + 1).drop_last() =~= sorted@.take(i as int));
            assert(sorted@.take(i as int + 1).last() == k);
            lemma_group_due_finite(sorted@.take(i as int), max_peers as int, max_per_peer as int);
            assert(g0.dom() == groups@.dom());
        }
        let n = groups.len();
        let current = groups.remove(&k.actor);
        match current {
            Some(mut topics) => {
                if topics.len() < max_per_peer {
                    topics.push(k.id);
                }
                groups.insert(k.actor, topics);
            },
            None => {
                if n < max_peers {
                    let mut topics: Vec<TopicId> = Vec::new();
                    topics.push(k.id);
                    groups.insert(k.actor, topics);
                }
            },
        }
        proof {
            let g1 = group_due(sorted@.take(i as int + 1), max_peers as int, max_per_peer as int);
            assert(group_view(groups@) =~= g1);
        }
        i += 1;
    }
    proof { assert(sorted@.take(i as int) =~= sorted@); }
    groups
}

/// The claim of `topic` of `peer` by attempt `attempt`, covering the work and
/// force request `t` holds for it.
pub open spec fn claim_of(t: Map<PeerId, Map<TopicId, ScheduledResync>>, peer: PeerId, topic: TopicId, attempt: int) -> ResyncTarget {
    ResyncTarget {
        key: ResyncTargetKey { peer_id: peer, topic_id: topic },
        attempt: attempt as u64,
        covered: target_of(t, peer, topic)->Some_0.requested,
        force: target_of(t, peer, topic)->Some_0.force,
    }
}

/// The schedule `s` claimed by `attempt`.
pub open spec fn claimed(s: ScheduledResync, attempt: u64) -> ScheduledResync {
    ScheduledResync { active: Some(attempt), ..s }
}

/// The number of topics in the groups of `peers`.
pub open spec fn group_total(g: Map<PeerId, Seq<TopicId>>, peers: Seq<PeerId>) -> int
    decreases peers.len(),
{
    if peers.len() == 0 { 0 } else { group_total(g, peers.drop_last()) + g[peers.last()].len() }
}

/// The claims of the groups of `peers`, peer by peer, attempts numbered from `base`.
pub open spec fn claims_of(t: Map<PeerId, Map<TopicId, ScheduledResync>>, g: Map<PeerId, Seq<TopicId>>, peers: Seq<PeerId>, base: int)
    -> Seq<(PeerId, Seq<ResyncTarget>)>
    decreases peers.len(),
{
    if peers.len() == 0 {
        Seq::empty()
    } else {
        let p = peers.last();
        let start = base + group_total(g, peers.drop_last());
        claims_of(t, g, peers.drop_last(), base).push((p, Seq::new(g[p].len(), |j: int| claim_of(t, p, g[p][j], start + j))))
    }
}

/// The groups of a prefix of `peers` hold no more topics than the groups of all of them.
proof fn lemma_group_total_prefix(g: Map<PeerId, Seq<TopicId>>, peers: Seq<PeerId>, n: int)
    requires 0 <= n <= peers.len(),
    ensures group_total(g, peers.take(n)) <= group_total(g, peers),
    decreases peers.len(),
{
    if n < peers.len() {
        assert(peers.drop_last().take(n) =~= peers.take(n));
        lemma_group_total_prefix(g, peers.drop_last(), n);
    } else {
        assert(peers.take(n) =~= peers);
    }
}

/// Each batch of `r` with its claims as a sequence.
pub open spec fn batches_view(r: Seq<(PeerId, Vec<ResyncTarget>)>) -> Seq<(PeerId, Seq<ResyncTarget>)> {
    r.map_values(|x: (PeerId, Vec<ResyncTarget>)| (x.0, x.1@))
}

impl ResyncScheduler {
    /// Claims the targets `topics` of `peer`, numbering attempts from the next id.
    fn claim_group(&mut self, peer: PeerId, topics: &Vec<TopicId>) -> (r: Vec<ResyncTarget>)
        requires
            topics@.no_duplicates(),
            forall|j: int| 0 <= j < topics@.len() ==> target_of(old(self).targets(), peer, #[trigger] topics@[j]) is Some,
            old(self).spec_next_attempt() + topics@.len() <= u64::MAX,
        ensures
            r@.len() == topics@.len(),
            forall|j: int| 0 <= j < topics@.len() ==> #[trigger] r@[j]
                == claim_of(old(self).targets(), peer, topics@[j], old(self).spec_next_attempt() + j),
            final(self).spec_next_attempt() == old(self).spec_next_attempt() + topics@.len(),
            forall|j: int| 0 <= j < topics@.len() ==> target_of(final(self).targets(), peer, #[trigger] topics@[j])
                == Some(claimed(target_of(old(self).targets(), peer, topics@[j])->Some_0, r@[j].attempt)),
            forall|p: PeerId, q: TopicId| !(p == peer && topics@.contains(q))
                ==> #[trigger] target_of(final(self).targets(), p, q) == target_of(old(self).targets(), p, q),
            forall|x: (PeerId, TopicId, u64)| #[trigger] final(self).live().contains(x) <==> old(self).live().contains(x)
                || exists|j: int| 0 <= j < topics@.len() && x == (peer, #[trigger] topics@[j], r@[j].attempt),
    {
        let ghost t0 = self.targets();
        let ghost base = self.next_attempt as int;
        let mut out: Vec<ResyncTarget> = Vec::new();
        let mut j: usize = 0;
        while j < topics.len()
            invariant
                j <= topics@.len(),
                topics@.no_duplicates(),
                forall|k: int| 0 <= k < topics@.len() ==> target_of(t0, peer, #[trigger] topics@[k]) is Some,
                base + topics@.len() <= u64::MAX,
                self.next_attempt == base + j,
                out@.len() == j,
                forall|k: int| 0 <= k < j ==> #[trigger] out@[k] == claim_of(t0, peer, topics@[k], base + k),
                forall|k: int| 0 <= k < j ==> target_of(self.targets(), peer, #[trigger] topics@[k])
                    == Some(claimed(target_of(t0, peer, topics@[k])->Some_0, out@[k].attempt)),
                forall|p: PeerId, q: TopicId| !(p == peer && topics@.take(j as int).contains(q))
                    ==> #[trigger] target_of(self.targets(), p, q) == target_of(t0, p, q),
                forall|x: (PeerId, TopicId, u64)| #[trigger] self.live().contains(x) <==> old(self).live().contains(x)
                    || exists|k: int| 0 <= k < j && x == (peer, #[trigger] topics@[k], out@[k].attempt),
            decreases topics@.len() - j,
        {
            let ghost live_head = self.live();
            let q = topics[j];
            let key = ResyncTargetKey { peer_id: peer, topic_id: q };
            proof {
                assert(target_of(t0, peer, topics@[j as int]) is Some);
                assert(!topics@.take(j as int).contains(q)) by {
                    if topics@.take(j as int).contains(q) {
                        let w = choose|w: int| 0 <= w < j && #[trigger] topics@.take(j as int)[w] == q;
                        assert(topics@[w] == topics@[j as int]);
                    }
                }
            }
            let s = match self.get_target(&key) { Some(s) => s, None => { proof { assert(false); } return out; } };
            let attempt = self.next_attempt;
            self.next_attempt = attempt + 1;
            let ghost live_before = self.live();
            let ghost targets_before = self.targets();
            self.put_target(&key, ScheduledResync { active: Some(attempt), ..s });
            proof { lemma_set_target(targets_before, peer, q, ScheduledResync { active: Some(attempt), ..s }); }
            let entry = LiveAttempt { key, attempt };
            let ghost lv = self.live@;
            self.live.push(entry);
            let claim = ResyncTarget { key, attempt, covered: s.requested, force: s.force };
            out.push(claim);
            proof {
                lemma_live_push(lv, entry);
                assert(live_of(lv) == live_before);
                assert(live_before == live_head);
                assert forall|y: TopicId| #[trigger] topics@.take(j as int + 1).contains(y) <==> topics@.take(j as int).contains(y) || y == q by {
                    if topics@.take(j as int + 1).contains(y) {
                        let w = choose|w: int| 0 <= w < j + 1 && #[trigger] topics@.take(j as int + 1)[w] == y;
                        if w < j { assert(topics@.take(j as int)[w] == y); }
                    }
                    if topics@.take(j as int).contains(y) {
                        let w = choose|w: int| 0 <= w < j && #[trigger] topics@.take(j as int)[w] == y;
                        assert(topics@.take(j as int + 1)[w] == y);
                    }
                    if y == q { assert(topics@.take(j as int + 1)[j as int] == y); }
                }
                assert(s == target_of(t0, peer, q)->Some_0);
                assert(claim == claim_of(t0, peer, topics@[j as int], base + j));
                assert forall|k: int| 0 <= k < j + 1 implies target_of(self.targets(), peer, #[trigger] topics@[k])
                    == Some(claimed(target_of(t0, peer, topics@[k])->Some_0, out@[k].attempt)) by {
                    if k < j {
                        assert(topics@[k] != q);
                    }
                }
                assert forall|x: (PeerId, TopicId, u64)| #[trigger] self.live().contains(x) <==> old(self).live().contains(x)
                    || exists|k: int| 0 <= k < j + 1 && x == (peer, #[trigger] topics@[k], out@[k].attempt) by {
                    if x == live_triple(entry) {
                        assert(x == (peer, topics@[j as int], out@[j as int].attempt));
                    }
                    if live_head.contains(x) && !old(self).live().contains(x) {
                        let k = choose|k: int| 0 <= k < j && x == (peer, #[trigger] topics@[k], out@[k].attempt);
                        assert(0 <= k < j + 1 && x == (peer, topics@[k], out@[k].attempt));
                    }
                    if exists|k: int| 0 <= k < j + 1 && x == (peer, #[trigger] topics@[k], out@[k].attempt) {
                        let k = choose|k: int| 0 <= k < j + 1 && x == (peer, #[trigger] topics@[k], out@[k].attempt);
                        if k == j { assert(x == live_triple(entry)); }
                        else { assert(live_head.contains(x)); }
                    }
                }
            }
            j += 1;
        }
        proof { assert(topics@.take(j as int) =~= topics@); }
        out
    }
}

/// The groups due by `now_ms` in `t`, at most `max_peers` peers and
/// `max_per_peer` topics each; see [`group_due`].
pub open spec fn due_groups(t: Map<PeerId, Map<TopicId, ScheduledResync>>, now_ms: u64, max_peers: int, max_per_peer: int)
    -> Map<PeerId, Seq<TopicId>> {
    group_due(crate::order::sorted_keys_of(due_keys(t, now_ms)), max_peers, max_per_peer)
}

impl ResyncScheduler {
    /// Claims the targets due by `now_ms`: waiting targets in order of due
    /// time, then peer, then topic, grouped by peer; at most `max_peers` peers,
    /// at most `max_targets_per_peer` topics each, and no peer already taking a
    /// turn. Each claim gets a fresh attempt id, peer by peer in ascending peer
    /// order; claimed targets stay in flight until completed or released.
    pub fn due_targets_by_peer(&mut self, now_ms: u64, max_peers: usize, max_targets_per_peer: usize)
        -> (r: Vec<(PeerId, Vec<ResyncTarget>)>)
        ensures ({
            let t = old(self).targets();
            let g = due_groups(t, now_ms, max_peers as int, max_targets_per_peer as int);
            let peers = crate::node::peers::sorted_of(g.dom());
            let base = old(self).spec_next_attempt() as int;
            base + group_total(g, peers) <= u64::MAX ==> {
                &&& batches_view(r@) == claims_of(t, g, peers, base)
                &&& final(self).spec_next_attempt() == base + group_total(g, peers)
                &&& forall|i: int, j: int| 0 <= i < r@.len() && 0 <= j < r@[i].1@.len()
                    ==> target_of(final(self).targets(), r@[i].0, #[trigger] r@[i].1@[j].key.topic_id)
                        == Some(claimed(target_of(t, r@[i].0, r@[i].1@[j].key.topic_id)->Some_0, r@[i].1@[j].attempt))
                &&& forall|p: PeerId, q: TopicId| !(g.contains_key(p) && g[p].contains(q))
                    ==> #[trigger] target_of(final(self).targets(), p, q) == target_of(t, p, q)
                &&& forall|x: (PeerId, TopicId, u64)| #[trigger] final(self).live().contains(x) <==> old(self).live().contains(x)
                    || exists|i: int, j: int| 0 <= i < r@.len() && 0 <= j < r@[i].1@.len()
                        && x == (r@[i].0, #[trigger] r@[i].1@[j].key.topic_id, r@[i].1@[j].attempt)
            }
        }),
    {
        let ghost t0 = self.targets();
        let ghost base = self.next_attempt as int;
        let ready = self.due_ranks(now_ms);
        let sorted = crate::order::sort_keys(&ready);
        proof {
            crate::order::lemma_sorted_keys_of(sorted@);
            assert(sorted@.to_set() == due_keys(t0, now_ms));
        }
        let groups = group_ranks(&sorted, max_peers, max_targets_per_peer);
        let ghost g = due_groups(t0, now_ms, max_peers as int, max_targets_per_peer as int);
        proof {
            assert(group_view(groups@) == g);
            assert forall|a: int, b: int| 0 <= a < sorted@.len() && 0 <= b < sorted@.len() && a != b
                implies !(sorted@[a].actor == sorted@[b].actor && sorted@[a].id == sorted@[b].id) by {
                assert(sorted@.to_set().contains(sorted@[a]) && sorted@.to_set().contains(sorted@[b]));
                if sorted@[a].actor == sorted@[b].actor && sorted@[a].id == sorted@[b].id {
                    assert(sorted@[a] == sorted@[b]);
                }
            }
            lemma_group_due_from(sorted@, max_peers as int, max_targets_per_peer as int);
        }
        let peers = groups.keys();
        proof {
            assert(groups@.dom() == g.dom());
            crate::node::peers::lemma_sorted_of(peers@);
        }
        let mut out: Vec<(PeerId, Vec<ResyncTarget>)> = Vec::new();
        let mut i: usize = 0;
        while i < peers.len()
            invariant
                i <= peers@.len(),
                t0 == old(self).targets(),
                base == old(self).spec_next_attempt(),
                g == due_groups(t0, now_ms, max_peers as int, max_targets_per_peer as int),
                peers@ == crate::node::peers::sorted_of(g.dom()),
                peers@.to_set() == g.dom(),
                peers@.no_duplicates(),
                group_view(groups@) == g,
                forall|p: PeerId| #[trigger] g.contains_key(p) ==> g[p].no_duplicates(),
                forall|p: PeerId, j: int| g.contains_key(p) && 0 <= j < g[p].len() ==> #[trigger] from_ready(sorted@, p, g[p][j]),
                sorted@.to_set() == due_keys(t0, now_ms),
                self.next_attempt as int == base + group_total(g, peers@.take(i as int)),
                base + group_total(g, peers@) <= u64::MAX ==> batches_view(out@) == claims_of(t0, g, peers@.take(i as int), base),
                forall|p: PeerId, q: TopicId| !(peers@.take(i as int).contains(p) && g[p].contains(q))
                    ==> #[trigger] target_of(self.targets(), p, q) == target_of(t0, p, q),
                forall|a: int, j: int| 0 <= a < out@.len() && 0 <= j < out@[a].1@.len()
                    ==> target_of(self.targets(), out@[a].0, #[trigger] out@[a].1@[j].key.topic_id)
                        == Some(claimed(target_of(t0, out@[a].0, out@[a].1@[j].key.topic_id)->Some_0, out@[a].1@[j].attempt)),
                out@.len() == i,
                forall|a: int| 0 <= a < out@.len() ==> #[trigger] out@[a].0 == peers@[a],
                forall|a: int, j: int| 0 <= a < out@.len() && 0 <= j < out@[a].1@.len()
                    ==> g[out@[a].0].contains(#[trigger] out@[a].1@[j].key.topic_id),
                forall|x: (PeerId, TopicId, u64)| #[trigger] self.live().contains(x) <==> old(self).live().contains(x)
                    || exists|a: int, j: int| 0 <= a < out@.len() && 0 <= j < out@[a].1@.len()
                        && x == (out@[a].0, #[trigger] out@[a].1@[j].key.topic_id, out@[a].1@[j].attempt),
            decreases peers@.len() - i,
        {
            let p = peers[i];
            proof {
                assert(peers@.to_set().contains(p));
                assert(peers@.take(i as int + 1).drop_last() =~= peers@.take(i as int));
                assert(peers@.take(i as int + 1).last() == p);
            }
            let topics = match groups.get(&p) { Some(x) => x, None => { proof { assert(false); } return out; } };
            proof {
                assert(topics@ == g[p]);
                assert(!peers@.take(i as int).contains(p)) by {
                    if peers@.take(i as int).contains(p) {
                        let w = choose|w: int| 0 <= w < i && #[trigger] peers@.take(i as int)[w] == p;
                        assert(peers@[w] == peers@[i as int]);
                    }
                }
                assert forall|j: int| 0 <= j < topics@.len() implies target_of(self.targets(), p, #[trigger] topics@[j]) is Some by {
                    assert(from_ready(sorted@, p, g[p][j]));
                    let a = choose|a: int| 0 <= a < sorted@.len() && sorted@[a].actor == p && sorted@[a].id == g[p][j];
                    assert(sorted@.to_set().contains(sorted@[a]));
                    assert(due_keys(t0, now_ms).contains(sorted@[a]));
                    assert(target_of(self.targets(), p, topics@[j]) == target_of(t0, p, topics@[j]));
                }
                assert forall|y: PeerId| #[trigger] peers@.take(i as int + 1).contains(y) <==> peers@.take(i as int).contains(y) || y == p by {
                    if peers@.take(i as int + 1).contains(y) {
                        let w = choose|w: int| 0 <= w < i + 1 && #[trigger] peers@.take(i as int + 1)[w] == y;
                        if w < i { assert(peers@.take(i as int)[w] == y); }
                    }
                    if peers@.take(i as int).contains(y) {
                        let w = choose|w: int| 0 <= w < i && #[trigger] peers@.take(i as int)[w] == y;
                        assert(peers@.take(i as int + 1)[w] == y);
                    }
                    if y == p { assert(peers@.take(i as int + 1)[i as int] == y); }
                }
                lemma_group_total_prefix(g, peers@, i as int + 1);
            }
            let room: u64 = u64::MAX - self.next_attempt;
            let n: usize = topics.len();
            if (n as u64) > room {
                // Attempt ids run out inside this group: claim what they still number, and stop.
                let mut part: Vec<TopicId> = Vec::new();
                let mut k: usize = 0;
                while k < n && (k as u64) < room
                    invariant
                        k <= n,
                        k <= room,
                        n == topics@.len(),
                        part@ == topics@.take(k as int),
                    decreases n - k,
                {
                    part.push(topics[k]);
                    k += 1;
                    proof { assert(part@ =~= topics@.take(k as int)); }
                }
                proof {
                    assert(part@.no_duplicates()) by {
                        assert forall|a: int, b: int| 0 <= a < part@.len() && 0 <= b < part@.len() && a != b implies part@[a] != part@[b] by {
                            assert(part@[a] == topics@[a] && part@[b] == topics@[b]);
                        }
                    }
                    assert forall|j: int| 0 <= j < part@.len() implies target_of(self.targets(), p, #[trigger] part@[j]) is Some by {
                        assert(part@[j] == topics@[j]);
                    }
                }
                proof {
                    assert(group_total(g, peers@.take(i as int + 1)) == group_total(g, peers@.take(i as int)) + g[p].len());
                    assert(base + group_total(g, peers@) > u64::MAX);
                }
                let batch = self.claim_group(p, &part);
                if batch.len() > 0 {
                    out.push((p, batch));
                }
                return out;
            }
            let ghost out_before = out@;
            let ghost live_head = self.live();
            let ghost targets_head = self.targets();
            let batch = self.claim_group(p, topics);
            let ghost bv = batch@;
            out.push((p, batch));
            proof {
                assert(out@ == out_before.push((p, batch)));
                assert(peers@.take(i as int + 1).drop_last() =~= peers@.take(i as int));
                assert(peers@.take(i as int + 1).last() == p);
                if base + group_total(g, peers@) <= u64::MAX {
                    let start = base + group_total(g, peers@.take(i as int));
                    assert(bv =~= Seq::new(g[p].len(), |j: int| claim_of(t0, p, g[p][j], start + j))) by {
                        assert forall|j: int| 0 <= j < bv.len() implies bv[j] == claim_of(t0, p, g[p][j], start + j) by {
                            assert(target_of(targets_head, p, topics@[j]) == target_of(t0, p, topics@[j]));
                        }
                    }
                    assert(batches_view(out@) =~= batches_view(out_before).push((p, bv)));
                }
                assert forall|q2: PeerId, q: TopicId| !(peers@.take(i as int + 1).contains(q2) && g[q2].contains(q))
                    implies #[trigger] target_of(self.targets(), q2, q) == target_of(t0, q2, q) by {
                    assert(!(q2 == p && topics@.contains(q)));
                    assert(target_of(self.targets(), q2, q) == target_of(targets_head, q2, q));
                }
                assert forall|a: int, j: int| 0 <= a < out@.len() && 0 <= j < out@[a].1@.len()
                    implies target_of(self.targets(), out@[a].0, #[trigger] out@[a].1@[j].key.topic_id)
                        == Some(claimed(target_of(t0, out@[a].0, out@[a].1@[j].key.topic_id)->Some_0, out@[a].1@[j].attempt)) by {
                    if a < out_before.len() {
                        assert(out@[a] == out_before[a]);
                        assert(out@[a].0 == peers@[a]);
                        assert(out@[a].0 != p);
                        assert(target_of(self.targets(), out@[a].0, out@[a].1@[j].key.topic_id)
                            == target_of(targets_head, out@[a].0, out@[a].1@[j].key.topic_id));
                    } else {
                        assert(out@[a].1@ == bv);
                        assert(bv[j].key.topic_id == topics@[j]);
                        assert(target_of(targets_head, p, topics@[j]) == target_of(t0, p, topics@[j]));
                    }
                }
                assert forall|a: int, j: int| 0 <= a < out@.len() && 0 <= j < out@[a].1@.len()
                    implies g[out@[a].0].contains(#[trigger] out@[a].1@[j].key.topic_id) by {
                    if a < out_before.len() {
                        assert(out@[a] == out_before[a]);
                        let q = out_before[a].1@[j].key.topic_id;
                        assert(g[out_before[a].0].contains(q));
                    } else {
                        assert(out@[a].0 == p);
                        assert(out@[a].1@ == bv);
                        assert(bv[j].key.topic_id == topics@[j]);
                        assert(g[p][j] == topics@[j]);
                    }
                }
                assert forall|a: int| 0 <= a < out@.len() implies #[trigger] out@[a].0 == peers@[a] by {
                    if a < out_before.len() {
                        assert(out@[a] == out_before[a]);
                    }
                }
                assert forall|x: (PeerId, TopicId, u64)| #[trigger] self.live().contains(x) <==> old(self).live().contains(x)
                    || exists|a: int, j: int| 0 <= a < out@.len() && 0 <= j < out@[a].1@.len()
                        && x == (out@[a].0, #[trigger] out@[a].1@[j].key.topic_id, out@[a].1@[j].attempt) by {
                    if live_head.contains(x) && !old(self).live().contains(x) {
                        let (a, j) = choose|a: int, j: int| 0 <= a < out_before.len() && 0 <= j < out_before[a].1@.len()
                            && x == (out_before[a].0, #[trigger] out_before[a].1@[j].key.topic_id, out_before[a].1@[j].attempt);
                        assert(out@[a] == out_before[a]);
                        assert(x == (out@[a].0, out@[a].1@[j].key.topic_id, out@[a].1@[j].attempt));
                    }
                    if exists|j: int| 0 <= j < topics@.len() && x == (p, #[trigger] topics@[j], bv[j].attempt) {
                        let j = choose|j: int| 0 <= j < topics@.len() && x == (p, #[trigger] topics@[j], bv[j].attempt);
                        let a = out_before.len() as int;
                        assert(out@[a].1@ == bv);
                        assert(bv[j].key.topic_id == topics@[j]);
                        assert(x == (out@[a].0, out@[a].1@[j].key.topic_id, out@[a].1@[j].attempt));
                    }
                    if exists|a: int, j: int| 0 <= a < out@.len() && 0 <= j < out@[a].1@.len()
                        && x == (out@[a].0, #[trigger] out@[a].1@[j].key.topic_id, out@[a].1@[j].attempt) {
                        let (a, j) = choose|a: int, j: int| 0 <= a < out@.len() && 0 <= j < out@[a].1@.len()
                            && x == (out@[a].0, #[trigger] out@[a].1@[j].key.topic_id, out@[a].1@[j].attempt);
                        if a < out_before.len() {
                            assert(out@[a] == out_before[a]);
                            assert(live_head.contains(x));
                        } else {
                            assert(out@[a].1@ == bv);
                            assert(bv[j].key.topic_id == topics@[j]);
                            assert(x == (p, topics@[j], bv[j].attempt));
                        }
                    }
                }
            }
            let ghost before = i as int;
            i += 1;
            proof {
                assert(peers@.take(i as int) == peers@.take(before + 1));
            }
        }
        proof { assert(peers@.take(i as int) =~= peers@); }
        out
    }
}


/// The claims of `s` by target; a later claim for a target replaces an earlier one.
pub open spec fn claims_map(s: Seq<ResyncTarget>) -> Map<ResyncTargetKey, ResyncTarget>
    decreases s.len(),
{
    if s.len() == 0 {
        Map::empty()
    } else {
        claims_map(s.drop_last()).insert(s.last().key, s.last())
    }
}

/// No two claims of `s` are for the same target.
pub open spec fn distinct_keys(s: Seq<ResyncTarget>) -> bool {
    forall|i: int, j: int| 0 <= i < s.len() && 0 <= j < s.len() && i != j ==> #[trigger] s[i].key != #[trigger] s[j].key
}

/// With distinct targets, the map holds exactly the claims of `s`, each under its target.
pub proof fn lemma_claims_map_distinct(s: Seq<ResyncTarget>)
    requires distinct_keys(s),
    ensures
        forall|i: int| 0 <= i < s.len() ==> #[trigger] claims_map(s).contains_key(s[i].key) && claims_map(s)[s[i].key] == s[i],
        forall|k: ResyncTargetKey| #[trigger] claims_map(s).contains_key(k) ==> exists|i: int| 0 <= i < s.len() && s[i].key == k,
    decreases s.len(),
{
    if s.len() > 0 {
        let t = s.drop_last();
        assert(distinct_keys(t)) by {
            assert forall|i: int, j: int| 0 <= i < t.len() && 0 <= j < t.len() && i != j implies #[trigger] t[i].key != #[trigger] t[j].key by {
                assert(t[i] == s[i] && t[j] == s[j]);
            }
        }
        lemma_claims_map_distinct(t);
        assert forall|i: int| 0 <= i < s.len() implies #[trigger] claims_map(s).contains_key(s[i].key) && claims_map(s)[s[i].key] == s[i] by {
            assert(claims_map(s) == claims_map(t).insert(s.last().key, s.last()));
            if i < s.len() - 1 {
                assert(t[i] == s[i]);
                assert(claims_map(t).contains_key(t[i].key) && claims_map(t)[t[i].key] == t[i]);
                assert(s[i].key != s[s.len() - 1].key);
            }
        }
        assert forall|k: ResyncTargetKey| #[trigger] claims_map(s).contains_key(k) implies exists|i: int| 0 <= i < s.len() && s[i].key == k by {
            if k != s.last().key {
                assert(claims_map(t).contains_key(k));
                let i = choose|i: int| 0 <= i < t.len() && t[i].key == k;
                assert(s[i] == t[i]);
            } else {
                assert(s[s.len() - 1].key == k);
            }
        }
    }
}

/// The map of claims with distinct targets, as the claims determine it.
proof fn lemma_claims_map_same(s: Seq<ResyncTarget>, m: Map<ResyncTargetKey, ResyncTarget>)
    requires
        distinct_keys(s),
        forall|i: int| 0 <= i < s.len() ==> #[trigger] m.contains_key(s[i].key) && m[s[i].key] == s[i],
        forall|k: ResyncTargetKey| #[trigger] m.contains_key(k) ==> exists|i: int| 0 <= i < s.len() && s[i].key == k,
    ensures claims_map(s) == m,
{
    lemma_claims_map_distinct(s);
    assert forall|k: ResyncTargetKey| #[trigger] claims_map(s).contains_key(k) <==> m.contains_key(k) by {
        if m.contains_key(k) {
            let i = choose|i: int| 0 <= i < s.len() && s[i].key == k;
            assert(claims_map(s).contains_key(s[i].key));
        }
        if claims_map(s).contains_key(k) {
            let i = choose|i: int| 0 <= i < s.len() && s[i].key == k;
            assert(m.contains_key(s[i].key));
        }
    }
    assert forall|k: ResyncTargetKey| #[trigger] claims_map(s).contains_key(k) implies claims_map(s)[k] == m[k] by {
        let i = choose|i: int| 0 <= i < s.len() && s[i].key == k;
        assert(claims_map(s)[s[i].key] == s[i]);
        assert(m[s[i].key] == s[i]);
    }
    assert(claims_map(s) =~= m);
}

/// Whether two target keys are the same.
fn same_key(a: &ResyncTargetKey, b: &ResyncTargetKey) -> (r: bool)
    ensures r == (*a == *b),
{
    a.peer_id.same(&b.peer_id) && a.topic_id.same(&b.topic_id)
}

/// The position in `claims` of the claim for `key`, if there is one.
fn claim_index(claims: &Vec<ResyncTarget>, key: &ResyncTargetKey) -> (r: Option<usize>)
    ensures
        match r {
            Some(i) => i < claims@.len() && claims@[i as int].key == *key,
            None => forall|i: int| 0 <= i < claims@.len() ==> #[trigger] claims@[i].key != *key,
        },
{
    let mut i: usize = 0;
    while i < claims.len()
        invariant
            i <= claims@.len(),
            forall|j: int| 0 <= j < i ==> #[trigger] claims@[j].key != *key,
        decreases claims@.len() - i,
    {
        if same_key(&claims[i].key, key) {
            return Some(i);
        }
        i += 1;
    }
    None
}

/// What handing `c` back does to the schedule `s` of its target.
pub open spec fn released(s: Option<ScheduledResync>, c: ResyncTarget, now_ms: u64, after_ms: u64) -> Option<ScheduledResync> {
    match s {
        Some(t) => if t.active != Some(c.attempt) {
            Some(t)
        } else {
            Some(ScheduledResync { active: None, next_due: sat_add(now_ms, after_ms), ..t })
        },
        None => None,
    }
}

/// Handing `c` back changes the schedule of its own target only, as [`released`] says.
proof fn lemma_release_targets(t: Map<PeerId, Map<TopicId, ScheduledResync>>, c: ResyncTarget, now_ms: u64, after_ms: u64,
    u: Map<PeerId, Map<TopicId, ScheduledResync>>)
    requires
        u == (match target_of(t, c.key.peer_id, c.key.topic_id) {
            Some(x) => if x.active != Some(c.attempt) {
                t
            } else {
                set_target(t, c.key.peer_id, c.key.topic_id,
                    ScheduledResync { active: None, next_due: sat_add(now_ms, after_ms), ..x })
            },
            None => t,
        }),
    ensures
        forall|p: PeerId, q: TopicId| #[trigger] target_of(u, p, q) == (if p == c.key.peer_id && q == c.key.topic_id {
            released(target_of(t, p, q), c, now_ms, after_ms)
        } else {
            target_of(t, p, q)
        }),
{
    match target_of(t, c.key.peer_id, c.key.topic_id) {
        Some(x) => {
            if x.active == Some(c.attempt) {
                lemma_set_target(t, c.key.peer_id, c.key.topic_id,
                    ScheduledResync { active: None, next_due: sat_add(now_ms, after_ms), ..x });
            }
        },
        None => {},
    }
}

/// The claims one batch of attempts owns, at most one per target. A claim
/// taken out is recorded by its taker; [`ResyncLease::release`] hands every
/// claim still held back to the scheduler when the batch ends without
/// recording it.
#[derive(Debug)]
pub struct ResyncLease {
    retry_after_ms: u64,
    claims: Vec<ResyncTarget>,
}

impl View for ResyncLease {
    type V = Map<ResyncTargetKey, ResyncTarget>;

    closed spec fn view(&self) -> Map<ResyncTargetKey, ResyncTarget> {
        claims_map(self.claims@)
    }
}

impl ResyncLease {
    /// No two held claims are for the same target.
    pub closed spec fn wf(&self) -> bool {
        distinct_keys(self.claims@)
    }

    /// How long after `now` a claim handed back is due again.
    pub closed spec fn spec_retry_after(&self) -> u64 {
        self.retry_after_ms
    }

    /// A lease over `claims`; of two claims for one target the later is kept.
    pub fn new(claims: Vec<ResyncTarget>, retry_after_ms: u64) -> (r: ResyncLease)
        ensures
            r.wf(),
            r@ == claims_map(claims@),
            r.spec_retry_after() == retry_after_ms,
    {
        let mut held: Vec<ResyncTarget> = Vec::new();
        let mut k: usize = 0;
        while k < claims.len()
            invariant
                k <= claims@.len(),
                distinct_keys(held@),
                claims_map(held@) == claims_map(claims@.take(k as int)),
            decreases claims@.len() - k,
        {
            let c = claims[k];
            proof {
                assert(claims@.take(k as int + 1).drop_last() =~= claims@.take(k as int));
                lemma_claims_map_distinct(held@);
            }
            match claim_index(&held, &c.key) {
                Some(j) => {
                    let ghost before = held@;
                    held.set(j, c);
                    proof {
                        lemma_claims_map_distinct(before);
                        assert forall|a: int, b: int| 0 <= a < held@.len() && 0 <= b < held@.len() && a != b
                            implies #[trigger] held@[a].key != #[trigger] held@[b].key by {
                            assert(before[a].key == held@[a].key && before[b].key == held@[b].key);
                        }
                        let m = claims_map(before).insert(c.key, c);
                        assert forall|i: int| 0 <= i < held@.len() implies #[trigger] m.contains_key(held@[i].key) && m[held@[i].key] == held@[i] by {
                            if i != j {
                                assert(held@[i] == before[i]);
                                assert(before[i].key != before[j as int].key);
                                assert(claims_map(before).contains_key(before[i].key) && claims_map(before)[before[i].key] == before[i]);
                            } else {
                                assert(held@[i] == c);
                            }
                        }
                        assert forall|key: ResyncTargetKey| #[trigger] m.contains_key(key) implies exists|i: int| 0 <= i < held@.len() && held@[i].key == key by {
                            if key != c.key {
                                let i = choose|i: int| 0 <= i < before.len() && before[i].key == key;
                                assert(held@[i].key == key);
                            } else {
                                assert(held@[j as int].key == key);
                            }
                        }
                        lemma_claims_map_same(held@, m);
                    }
                },
                None => {
                    let ghost before = held@;
                    held.push(c);
                    proof {
                        assert(held@.drop_last() =~= before);
                        assert forall|a: int, b: int| 0 <= a < held@.len() && 0 <= b < held@.len() && a != b
                            implies #[trigger] held@[a].key != #[trigger] held@[b].key by {
                            if a < before.len() && b < before.len() {
                                assert(before[a] == held@[a] && before[b] == held@[b]);
                            } else if a < before.len() {
                                assert(before[a] == held@[a]);
                            } else {
                                assert(before[b] == held@[b]);
                            }
                        }
                    }
                },
            }
            k += 1;
        }
        proof { assert(claims@.take(claims@.len() as int) =~= claims@); }
        ResyncLease { retry_after_ms, claims: held }
    }

    /// The claims still held, one per target.
    pub fn targets(&self) -> (r: Vec<ResyncTarget>)
        requires self.wf(),
        ensures
            distinct_keys(r@),
            claims_map(r@) == self@,
    {
        let mut out: Vec<ResyncTarget> = Vec::new();
        let mut i: usize = 0;
        while i < self.claims.len()
            invariant
                i <= self.claims@.len(),
                out@ == self.claims@.take(i as int),
            decreases self.claims@.len() - i,
        {
            out.push(self.claims[i]);
            i += 1;
            proof { assert(out@ =~= self.claims@.take(i as int)); }
        }
        proof { assert(out@ =~= self.claims@); }
        out
    }

    /// Takes the claim for `key` out of the lease, if it holds one, so its
    /// result is recorded once, by the taker.
    pub fn take_claim(&mut self, key: &ResyncTargetKey) -> (r: Option<ResyncTarget>)
        requires old(self).wf(),
        ensures
            final(self).wf(),
            r == (if old(self)@.contains_key(*key) { Some(old(self)@[*key]) } else { None::<ResyncTarget> }),
            final(self)@ == old(self)@.remove(*key),
            final(self).spec_retry_after() == old(self).spec_retry_after(),
    {
        proof { lemma_claims_map_distinct(self.claims@); }
        match claim_index(&self.claims, key) {
            Some(j) => {
                let ghost before = self.claims@;
                let c = self.claims.remove(j);
                proof {
                    lemma_claims_map_distinct(before);
                    let after = self.claims@;
                    assert(after =~= before.remove(j as int));
                    assert forall|a: int, b: int| 0 <= a < after.len() && 0 <= b < after.len() && a != b
                        implies #[trigger] after[a].key != #[trigger] after[b].key by {
                        let a2 = if a < j { a } else { a + 1 };
                        let b2 = if b < j { b } else { b + 1 };
                        assert(after[a] == before[a2] && after[b] == before[b2]);
                    }
                    let m = claims_map(before).remove(*key);
                    assert forall|i: int| 0 <= i < after.len() implies #[trigger] m.contains_key(after[i].key) && m[after[i].key] == after[i] by {
                        let i2 = if i < j { i } else { i + 1 };
                        assert(0 <= i2 < before.len());
                        assert(after[i] == before[i2]);
                        assert(before[i2].key != before[j as int].key);
                        assert(claims_map(before).contains_key(before[i2].key));
                        assert(claims_map(before)[before[i2].key] == before[i2]);
                    }
                    assert forall|k: ResyncTargetKey| #[trigger] m.contains_key(k) implies exists|i: int| 0 <= i < after.len() && after[i].key == k by {
                        let i = choose|i: int| 0 <= i < before.len() && before[i].key == k;
                        assert(i != j);
                        if i < j {
                            assert(after[i] == before[i]);
                        } else {
                            assert(after[i - 1] == before[i]);
                        }
                    }
                    lemma_claims_map_same(after, m);
                }
                Some(c)
            },
            None => {
                proof {
                    assert(!self@.contains_key(*key)) by {
                        if self@.contains_key(*key) {
                            let i = choose|i: int| 0 <= i < self.claims@.len() && self.claims@[i].key == *key;
                            assert(self.claims@[i].key != *key);
                        }
                    }
                    assert(self@.remove(*key) =~= self@);
                }
                None
            },
        }
    }

    /// Takes every claim still held, for a batch deadline to record; the
    /// lease is left empty.
    pub fn drain_claims(&mut self) -> (r: Vec<ResyncTarget>)
        requires old(self).wf(),
        ensures
            final(self).wf(),
            distinct_keys(r@),
            claims_map(r@) == old(self)@,
            final(self)@ == Map::<ResyncTargetKey, ResyncTarget>::empty(),
            final(self).spec_retry_after() == old(self).spec_retry_after(),
    {
        let out = self.targets();
        self.claims = Vec::new();
        proof { assert(self@ =~= Map::<ResyncTargetKey, ResyncTarget>::empty()); }
        out
    }

    /// Hands every claim still held back to `scheduler`: each attempt ends,
    /// and a target its claim still owns is due `retry_after` after `now_ms`.
    pub fn release(self, scheduler: &mut ResyncScheduler, now_ms: u64)
        requires self.wf(),
        ensures
            forall|x: (PeerId, TopicId, u64)| #[trigger] final(scheduler).live().contains(x) <==>
                old(scheduler).live().contains(x) && !({
                    let k = ResyncTargetKey { peer_id: x.0, topic_id: x.1 };
                    self@.contains_key(k) && self@[k].attempt == x.2
                }),
            forall|p: PeerId, q: TopicId| #[trigger] target_of(final(scheduler).targets(), p, q) == ({
                let k = ResyncTargetKey { peer_id: p, topic_id: q };
                if self@.contains_key(k) {
                    released(target_of(old(scheduler).targets(), p, q), self@[k], now_ms, self.spec_retry_after())
                } else {
                    target_of(old(scheduler).targets(), p, q)
                }
            }),
            final(scheduler).spec_next_attempt() == old(scheduler).spec_next_attempt(),
    {
        let ghost s = self.claims@;
        let ghost t0 = scheduler.targets();
        let ghost l0 = scheduler.live();
        let after = self.retry_after_ms;
        proof { lemma_claims_map_distinct(s); }
        let mut i: usize = 0;
        while i < self.claims.len()
            invariant
                i <= s.len(),
                s == self.claims@,
                distinct_keys(s),
                after == self.retry_after_ms,
                scheduler.spec_next_attempt() == old(scheduler).spec_next_attempt(),
                t0 == old(scheduler).targets(),
                l0 == old(scheduler).live(),
                forall|x: (PeerId, TopicId, u64)| #[trigger] scheduler.live().contains(x) <==>
                    l0.contains(x) && !(exists|j: int| 0 <= j < i && x == (s[j].key.peer_id, #[trigger] s[j].key.topic_id, s[j].attempt)),
                forall|p: PeerId, q: TopicId| #[trigger] target_of(scheduler.targets(), p, q) == (
                    if exists|j: int| 0 <= j < i && #[trigger] s[j].key == (ResyncTargetKey { peer_id: p, topic_id: q }) {
                        released(target_of(t0, p, q), s[choose|j: int| 0 <= j < i && #[trigger] s[j].key == (ResyncTargetKey { peer_id: p, topic_id: q })], now_ms, after)
                    } else {
                        target_of(t0, p, q)
                    }),
            decreases s.len() - i,
        {
            let c = self.claims[i];
            let ghost mid_t = scheduler.targets();
            let ghost mid_l = scheduler.live();
            scheduler.release_claim(c, now_ms, after);
            proof {
                assert(c == s[i as int]);
                let kc = ResyncTargetKey { peer_id: c.key.peer_id, topic_id: c.key.topic_id };
                assert(kc == c.key);
                assert(!(exists|j: int| 0 <= j < i && #[trigger] s[j].key == kc)) by {
                    if exists|j: int| 0 <= j < i && #[trigger] s[j].key == kc {
                        let j = choose|j: int| 0 <= j < i && #[trigger] s[j].key == kc;
                        assert(s[j].key != s[i as int].key);
                    }
                }
                assert(target_of(mid_t, c.key.peer_id, c.key.topic_id) == target_of(t0, c.key.peer_id, c.key.topic_id));
                assert forall|p: PeerId, q: TopicId| #[trigger] target_of(scheduler.targets(), p, q) == (
                    if exists|j: int| 0 <= j < i + 1 && #[trigger] s[j].key == (ResyncTargetKey { peer_id: p, topic_id: q }) {
                        released(target_of(t0, p, q), s[choose|j: int| 0 <= j < i + 1 && #[trigger] s[j].key == (ResyncTargetKey { peer_id: p, topic_id: q })], now_ms, after)
                    } else {
                        target_of(t0, p, q)
                    }) by {
                    let k = ResyncTargetKey { peer_id: p, topic_id: q };
                    if k == c.key {
                        assert(s[i as int].key == k);
                        let j = choose|j: int| 0 <= j < i + 1 && #[trigger] s[j].key == k;
                        assert(j == i) by {
                            if j != i { assert(s[j].key != s[i as int].key); }
                        }
                        lemma_release_targets(mid_t, c, now_ms, after, scheduler.targets());
                    } else {
                        lemma_release_targets(mid_t, c, now_ms, after, scheduler.targets());
                        assert(target_of(scheduler.targets(), p, q) == target_of(mid_t, p, q));
                        if exists|j: int| 0 <= j < i + 1 && #[trigger] s[j].key == k {
                            let j = choose|j: int| 0 <= j < i + 1 && #[trigger] s[j].key == k;
                            assert(j != i);
                            assert(exists|j: int| 0 <= j < i && #[trigger] s[j].key == k);
                            let j2 = choose|j: int| 0 <= j < i && #[trigger] s[j].key == k;
                            assert(j == j2) by {
                                if j != j2 { assert(s[j].key != s[j2].key); }
                            }
                        }
                    }
                }
                assert forall|x: (PeerId, TopicId, u64)| #[trigger] scheduler.live().contains(x) <==>
                    l0.contains(x) && !(exists|j: int| 0 <= j < i + 1 && x == (s[j].key.peer_id, #[trigger] s[j].key.topic_id, s[j].attempt)) by {
                    if exists|j: int| 0 <= j < i + 1 && x == (s[j].key.peer_id, #[trigger] s[j].key.topic_id, s[j].attempt) {
                        let j = choose|j: int| 0 <= j < i + 1 && x == (s[j].key.peer_id, #[trigger] s[j].key.topic_id, s[j].attempt);
                        if j < i {
                            assert(!mid_l.contains(x));
                        }
                    }
                    if l0.contains(x) && !(exists|j: int| 0 <= j < i && x == (s[j].key.peer_id, #[trigger] s[j].key.topic_id, s[j].attempt))
                        && x != (c.key.peer_id, c.key.topic_id, c.attempt) {
                        assert(mid_l.contains(x));
                    }
                }
            }
            i += 1;
        }
        proof {
            assert forall|x: (PeerId, TopicId, u64)| #[trigger] scheduler.live().contains(x) <==>
                old(scheduler).live().contains(x) && !({
                    let k = ResyncTargetKey { peer_id: x.0, topic_id: x.1 };
                    self@.contains_key(k) && self@[k].attempt == x.2
                }) by {
                let k = ResyncTargetKey { peer_id: x.0, topic_id: x.1 };
                if self@.contains_key(k) && self@[k].attempt == x.2 {
                    let j = choose|j: int| 0 <= j < s.len() && s[j].key == k;
                    assert(claims_map(s)[s[j].key] == s[j]);
                    assert(x == (s[j].key.peer_id, s[j].key.topic_id, s[j].attempt));
                }
                if exists|j: int| 0 <= j < s.len() && x == (s[j].key.peer_id, #[trigger] s[j].key.topic_id, s[j].attempt) {
                    let j = choose|j: int| 0 <= j < s.len() && x == (s[j].key.peer_id, #[trigger] s[j].key.topic_id, s[j].attempt);
                    assert(s[j].key == k);
                    assert(claims_map(s).contains_key(s[j].key));
                }
            }
            assert forall|p: PeerId, q: TopicId| #[trigger] target_of(scheduler.targets(), p, q) == ({
                let k = ResyncTargetKey { peer_id: p, topic_id: q };
                if self@.contains_key(k) {
                    released(target_of(old(scheduler).targets(), p, q), self@[k], now_ms, self.spec_retry_after())
                } else {
                    target_of(old(scheduler).targets(), p, q)
                }
            }) by {
                let k = ResyncTargetKey { peer_id: p, topic_id: q };
                if self@.contains_key(k) {
                    let j = choose|j: int| 0 <= j < s.len() && s[j].key == k;
                    assert(claims_map(s)[s[j].key] == s[j]);
                    assert(exists|j: int| 0 <= j < s.len() && #[trigger] s[j].key == k);
                    let j2 = choose|j: int| 0 <= j < s.len() && #[trigger] s[j].key == k;
                    assert(j == j2) by {
                        if j != j2 { assert(s[j].key != s[j2].key); }
                    }
                } else {
                    if exists|j: int| 0 <= j < s.len() && #[trigger] s[j].key == k {
                        let j = choose|j: int| 0 <= j < s.len() && #[trigger] s[j].key == k;
                        assert(claims_map(s).contains_key(s[j].key));
                    }
                }
            }
        }
    }
}

impl ResyncScheduler {
    /// A lease over `claims`, handing them back `retry_after_ms` after they are released.
    pub fn lease(&self, claims: Vec<ResyncTarget>, retry_after_ms: u64) -> (r: ResyncLease)
        ensures
            r.wf(),
            r@ == claims_map(claims@),
            r.spec_retry_after() == retry_after_ms,
    {
        ResyncLease::new(claims, retry_after_ms)
    }
}

} // verus!
