//! What a node can tell of its sync with each peer: the state, pending
//! obligations, attempt counters, timestamps, latest attempt and last error of
//! each peer and topic.
use vstd::prelude::*;
use crate::ids::{PeerId, TopicId};
use crate::transport::AttemptOutcome;
use crate::idset::{IdSet, sorted_ids};

verus! {

/// How sync with a peer stands for a topic.
#[derive(Clone, Copy, Debug, PartialEq, Eq, Structural)]
pub enum SyncPeerState {
    /// The last attempt completed and nothing is owed.
    Healthy,
    /// The peer still lacks something, or the last attempt did not complete.
    Behind,
    /// The last attempt failed.
    Failed,
}

/// The sync record of one peer for one topic.
#[derive(Debug)]
pub struct SyncPeerStatus {
    pub peer_id: PeerId,
    pub topic_id: TopicId,
    pub state: SyncPeerState,
    pub pending_obligations: u64,
    pub successful_attempts: u64,
    pub failed_attempts: u64,
    pub last_attempt_ms: Option<u64>,
    pub last_success_ms: Option<u64>,
    pub last_error: Option<String>,
    pub attempt: Option<(u64, u64)>,
}

/// The state an attempt's outcome leaves: a completed attempt is healthy, a failed
/// one failed, any other one behind.
pub open spec fn outcome_state(o: AttemptOutcome) -> SyncPeerState {
    match o {
        AttemptOutcome::Complete => SyncPeerState::Healthy,
        AttemptOutcome::Failed(_) => SyncPeerState::Failed,
        _ => SyncPeerState::Behind,
    }
}

/// Whether an outcome counts as a success: the attempt completed or advanced.
pub open spec fn outcome_advanced(o: AttemptOutcome) -> bool {
    o is Complete || o is Advanced
}

/// The error an outcome reports, if any.
pub open spec fn outcome_error(o: AttemptOutcome) -> Option<Seq<char>> {
    match o {
        AttemptOutcome::Blocked(r) => Some(r@),
        AttemptOutcome::ReopenRequired(r) => Some(r@),
        AttemptOutcome::Failed(r) => Some(r@),
        _ => None,
    }
}

/// The text of an optional error.
pub open spec fn error_view(e: Option<String>) -> Option<Seq<char>> {
    match e { Some(s) => Some(s@), None => None }
}

/// Whether `s` is the record a first attempt `attempt` of `peer` and `topic` that
/// ended in `outcome` at `now_ms`, with `pending` obligations, makes of `before`:
/// one more success or failure, the outcome's state and error, the attempt's time,
/// and its time as the last success when it advanced.
pub open spec fn recorded(before: SyncPeerStatus, s: SyncPeerStatus, attempt: (u64, u64), outcome: AttemptOutcome,
    now_ms: u64, pending: u64) -> bool {
    &&& s.peer_id == before.peer_id && s.topic_id == before.topic_id
    &&& s.state == outcome_state(outcome)
    &&& s.pending_obligations == pending
    &&& s.successful_attempts == (if outcome_advanced(outcome) { sat_inc(before.successful_attempts) } else { before.successful_attempts })
    &&& s.failed_attempts == (if outcome_advanced(outcome) { before.failed_attempts } else { sat_inc(before.failed_attempts) })
    &&& s.last_attempt_ms == Some(now_ms)
    &&& s.last_success_ms == (if outcome_advanced(outcome) { Some(now_ms) } else { before.last_success_ms })
    &&& error_view(s.last_error) == outcome_error(outcome)
    &&& s.attempt == Some(attempt)
}

/// Whether `s` is what a first attempt makes of a fresh record of `peer` and `topic`.
pub open spec fn recorded_fresh(s: SyncPeerStatus, peer: PeerId, topic: TopicId, attempt: (u64, u64), outcome: AttemptOutcome,
    now_ms: u64, pending: u64) -> bool {
    exists|f: SyncPeerStatus| fresh_status(f, peer, topic) && #[trigger] recorded(f, s, attempt, outcome, now_ms, pending)
}

/// `n` plus one, held at the largest `u64`.
pub open spec fn sat_inc(n: u64) -> u64 {
    if n == u64::MAX { n } else { (n + 1) as u64 }
}

/// Whether `s` is the record of `peer` and `topic` before any attempt: behind,
/// with nothing counted.
pub open spec fn fresh_status(s: SyncPeerStatus, peer: PeerId, topic: TopicId) -> bool {
    &&& s.peer_id == peer && s.topic_id == topic
    &&& s.state == SyncPeerState::Behind
    &&& s.pending_obligations == 0 && s.successful_attempts == 0 && s.failed_attempts == 0
    &&& s.last_attempt_ms is None && s.last_success_ms is None && s.last_error is None && s.attempt is None
}

/// Whether the fields of `a` and `b` agree, the text of their errors included.
pub open spec fn same_status(a: SyncPeerStatus, b: SyncPeerStatus) -> bool {
    &&& a.peer_id == b.peer_id && a.topic_id == b.topic_id && a.state == b.state
    &&& a.pending_obligations == b.pending_obligations
    &&& a.successful_attempts == b.successful_attempts && a.failed_attempts == b.failed_attempts
    &&& a.last_attempt_ms == b.last_attempt_ms && a.last_success_ms == b.last_success_ms
    &&& error_view(a.last_error) == error_view(b.last_error)
    &&& a.attempt == b.attempt
}

/// The position of the record of `peer` and `topic` in `entries`, or -1.
pub open spec fn index_of(entries: Seq<SyncPeerStatus>, peer: PeerId, topic: TopicId) -> int {
    if exists|k: int| 0 <= k < entries.len() && (#[trigger] entries[k]).peer_id == peer && entries[k].topic_id == topic {
        choose|k: int| 0 <= k < entries.len() && (#[trigger] entries[k]).peer_id == peer && entries[k].topic_id == topic
    } else {
        -1
    }
}

/// Whether no two records of `entries` are of one peer and topic.
pub open spec fn keys_distinct(entries: Seq<SyncPeerStatus>) -> bool {
    forall|a: int, b: int| 0 <= a < entries.len() && 0 <= b < entries.len() && a != b
        ==> !(#[trigger] entries[a].peer_id == #[trigger] entries[b].peer_id && entries[a].topic_id == entries[b].topic_id)
}

/// The obligations the last entry of `ob` for `peer` names, if one does.
pub open spec fn last_obligation(ob: Seq<(PeerId, u64)>, peer: PeerId) -> Option<u64>
    decreases ob.len(),
{
    if ob.len() == 0 {
        None
    } else if ob.last().0 == peer {
        Some(ob.last().1)
    } else {
        last_obligation(ob.drop_last(), peer)
    }
}

/// The obligations `ob` counts for `peer`: those of its last entry, else none.
pub open spec fn pending_of(ob: Seq<(PeerId, u64)>, peer: PeerId) -> u64 {
    match last_obligation(ob, peer) { Some(c) => c, None => 0 }
}

/// The state reported for a stored state: obligations left keep a healthy peer behind.
pub open spec fn reported_state(stored: SyncPeerState, pending: u64) -> SyncPeerState {
    if pending > 0 && stored == SyncPeerState::Healthy { SyncPeerState::Behind } else { stored }
}

/// Whether `s` is what is reported of `peer` for `topic` from the records `records`
/// and the obligation counts `ob`: the stored record, or a fresh one, with the
/// counted obligations and the state they leave.
pub open spec fn reported(records: Seq<SyncPeerStatus>, ob: Seq<(PeerId, u64)>, topic: TopicId, peer: PeerId, s: SyncPeerStatus) -> bool {
    let i = index_of(records, peer, topic);
    let pend = pending_of(ob, peer);
    &&& s.peer_id == peer && s.topic_id == topic && s.pending_obligations == pend
    &&& i != -1 ==> {
        let st = records[i];
        &&& s.state == reported_state(st.state, pend)
        &&& s.successful_attempts == st.successful_attempts && s.failed_attempts == st.failed_attempts
        &&& s.last_attempt_ms == st.last_attempt_ms && s.last_success_ms == st.last_success_ms
        &&& error_view(s.last_error) == error_view(st.last_error)
        &&& s.attempt == st.attempt
    }
    &&& i == -1 ==> {
        &&& s.state == SyncPeerState::Behind
        &&& s.successful_attempts == 0 && s.failed_attempts == 0
        &&& s.last_attempt_ms is None && s.last_success_ms is None && s.last_error is None && s.attempt is None
    }
}

/// The peers reported for `topic`: those with a record of it, and those `ob` counts.
pub open spec fn reported_peers(records: Seq<SyncPeerStatus>, ob: Seq<(PeerId, u64)>, topic: TopicId) -> Set<PeerId> {
    Set::new(|p: PeerId| (exists|k: int| 0 <= k < records.len() && (#[trigger] records[k]).peer_id == p && records[k].topic_id == topic)
        || (exists|k: int| 0 <= k < ob.len() && (#[trigger] ob[k]).0 == p))
}

/// Whether `v` is the report of `topic` from the records `records` and the
/// obligation counts `ob`: each reported peer once, by ascending id, as [`reported`] says.
pub open spec fn status_report(records: Seq<SyncPeerStatus>, ob: Seq<(PeerId, u64)>, topic: TopicId, v: Seq<SyncPeerStatus>) -> bool {
    &&& forall|i: int| 0 <= i < v.len() ==> reported(records, ob, topic, (#[trigger] v[i]).peer_id, v[i])
    &&& sorted_ids(v.map_values(|s: SyncPeerStatus| s.peer_id))
    &&& v.map_values(|s: SyncPeerStatus| s.peer_id).to_set() == reported_peers(records, ob, topic)
}

fn copy_error(e: &Option<String>) -> (r: Option<String>)
    ensures error_view(r) == error_view(*e),
{
    match e {
        Some(s) => Some(s.clone()),
        None => None,
    }
}

impl SyncPeerStatus {
    /// The record of `peer` and `topic` before any attempt.
    pub fn fresh(peer_id: PeerId, topic_id: TopicId) -> (r: SyncPeerStatus)
        ensures fresh_status(r, peer_id, topic_id),
    {
        SyncPeerStatus {
            peer_id, topic_id, state: SyncPeerState::Behind, pending_obligations: 0, successful_attempts: 0,
            failed_attempts: 0, last_attempt_ms: None, last_success_ms: None, last_error: None, attempt: None,
        }
    }

    /// A copy of this record.
    pub fn duplicate(&self) -> (r: SyncPeerStatus)
        ensures same_status(r, *self),
    {
        SyncPeerStatus {
            peer_id: self.peer_id, topic_id: self.topic_id, state: self.state,
            pending_obligations: self.pending_obligations, successful_attempts: self.successful_attempts,
            failed_attempts: self.failed_attempts, last_attempt_ms: self.last_attempt_ms,
            last_success_ms: self.last_success_ms, last_error: copy_error(&self.last_error), attempt: self.attempt,
        }
    }
}

/// The sync records of a node, one per peer and topic.
#[derive(Debug)]
pub struct StatusBook {
    entries: Vec<SyncPeerStatus>,
}

impl StatusBook {
    /// The records, in the order they were first made.
    pub closed spec fn records(&self) -> Seq<SyncPeerStatus> {
        self.entries@
    }

    /// No two records are of one peer and topic.
    #[verifier::type_invariant]
    spec fn wf(&self) -> bool {
        keys_distinct(self.entries@)
    }

    /// A book with no record.
    pub fn new() -> (r: StatusBook)
        ensures r.records() == Seq::<SyncPeerStatus>::empty(),
    {
        StatusBook { entries: Vec::new() }
    }

    /// Where the record of `peer` and `topic` stands.
    fn find(&self, peer_id: PeerId, topic_id: TopicId) -> (r: Option<usize>)
        ensures
            r matches Some(i) ==> i < self.records().len() && self.records()[i as int].peer_id == peer_id
                && self.records()[i as int].topic_id == topic_id && index_of(self.records(), peer_id, topic_id) == i,
            r is None ==> index_of(self.records(), peer_id, topic_id) == -1,
    {
        proof { use_type_invariant(self); }
        let mut i: usize = 0;
        while i < self.entries.len()
            invariant
                i <= self.entries@.len(),
                keys_distinct(self.entries@),
                forall|k: int| 0 <= k < i ==> !((#[trigger] self.entries@[k]).peer_id == peer_id && self.entries@[k].topic_id == topic_id),
            decreases self.entries@.len() - i,
        {
            if self.entries[i].peer_id.same(&peer_id) && self.entries[i].topic_id.same(&topic_id) {
                proof {
                    let e = self.entries@;
                    assert(e[i as int].peer_id == peer_id && e[i as int].topic_id == topic_id);
                    let c = index_of(e, peer_id, topic_id);
                    assert(0 <= c < e.len() && e[c].peer_id == peer_id && e[c].topic_id == topic_id);
                    if c != i as int {
                        assert(!(e[c].peer_id == e[i as int].peer_id && e[c].topic_id == e[i as int].topic_id));
                    }
                }
                return Some(i);
            }
            i += 1;
        }
        None
    }

    /// The record of `peer_id` and `topic_id`, if one was made.
    pub fn get(&self, peer_id: PeerId, topic_id: TopicId) -> (r: Option<SyncPeerStatus>)
        ensures
            r is Some <==> index_of(self.records(), peer_id, topic_id) != -1,
            r matches Some(s) ==> same_status(s, self.records()[index_of(self.records(), peer_id, topic_id)]),
    {
        match self.find(peer_id, topic_id) {
            Some(i) => Some(self.entries[i].duplicate()),
            None => None,
        }
    }

    /// The obligations `ob` counts for `peer`.
    fn pending_in(ob: &Vec<(PeerId, u64)>, peer: PeerId) -> (r: u64)
        ensures r == pending_of(ob@, peer),
    {
        let mut cur: Option<u64> = None;
        let mut i: usize = 0;
        while i < ob.len()
            invariant
                i <= ob@.len(),
                cur == last_obligation(ob@.take(i as int), peer),
            decreases ob@.len() - i,
        {
            proof { assert(ob@.take(i as int + 1).drop_last() =~= ob@.take(i as int)); }
            let (p, c) = ob[i];
            if p.same(&peer) {
                cur = Some(c);
            }
            i += 1;
        }
        proof { assert(ob@.take(ob@.len() as int) =~= ob@); }
        match cur { Some(c) => c, None => 0 }
    }

    /// What is reported of `peer_id` for `topic_id` given the obligation counts `ob`.
    fn report_one(&self, ob: &Vec<(PeerId, u64)>, topic_id: TopicId, peer_id: PeerId) -> (r: SyncPeerStatus)
        ensures reported(self.records(), ob@, topic_id, peer_id, r),
    {
        let pending = Self::pending_in(ob, peer_id);
        let mut s = match self.find(peer_id, topic_id) {
            Some(i) => self.entries[i].duplicate(),
            None => SyncPeerStatus::fresh(peer_id, topic_id),
        };
        s.pending_obligations = pending;
        if pending > 0 && s.state == SyncPeerState::Healthy {
            s.state = SyncPeerState::Behind;
        }
        s
    }

    /// What this node can tell of each peer's sync of `topic_id`, by ascending peer
    /// id: every peer with a record of the topic or with obligations in `obligations`
    /// once, its stored counters, the obligations counted for it (those of its last
    /// entry there, or none), and its state, held behind while obligations remain.
    pub fn sync_status(&self, topic_id: TopicId, obligations: &Vec<(PeerId, u64)>) -> (r: Vec<SyncPeerStatus>)
        ensures
            forall|i: int| 0 <= i < r@.len() ==> reported(self.records(), obligations@, topic_id, (#[trigger] r@[i]).peer_id, r@[i]),
            sorted_ids(r@.map_values(|s: SyncPeerStatus| s.peer_id)),
            r@.map_values(|s: SyncPeerStatus| s.peer_id).to_set() == reported_peers(self.records(), obligations@, topic_id),
    {
        let mut peers = IdSet::new();
        let mut i: usize = 0;
        while i < self.entries.len()
            invariant
                i <= self.entries@.len(),
                forall|p: PeerId| peers@.contains(p) <==> (exists|k: int| 0 <= k < i && (#[trigger] self.entries@[k]).peer_id == p
                    && self.entries@[k].topic_id == topic_id),
            decreases self.entries@.len() - i,
        {
            if self.entries[i].topic_id.same(&topic_id) {
                peers.insert(self.entries[i].peer_id);
            }
            proof {
                assert forall|p: PeerId| peers@.contains(p) <==> (exists|k: int| 0 <= k < i + 1 && (#[trigger] self.entries@[k]).peer_id == p
                    && self.entries@[k].topic_id == topic_id) by {
                    if peers@.contains(p) && !(exists|k: int| 0 <= k < i && (#[trigger] self.entries@[k]).peer_id == p
                        && self.entries@[k].topic_id == topic_id) {
                        assert(self.entries@[i as int].peer_id == p);
                    }
                }
            }
            i += 1;
        }
        let mut j: usize = 0;
        while j < obligations.len()
            invariant
                j <= obligations@.len(),
                forall|p: PeerId| peers@.contains(p) <==> ((exists|k: int| 0 <= k < self.entries@.len() && (#[trigger] self.entries@[k]).peer_id == p
                    && self.entries@[k].topic_id == topic_id) || (exists|k: int| 0 <= k < j && (#[trigger] obligations@[k]).0 == p)),
            decreases obligations@.len() - j,
        {
            let (p, _) = obligations[j];
            peers.insert(p);
            proof {
                assert forall|q: PeerId| peers@.contains(q) <==> ((exists|k: int| 0 <= k < self.entries@.len() && (#[trigger] self.entries@[k]).peer_id == q
                    && self.entries@[k].topic_id == topic_id) || (exists|k: int| 0 <= k < j + 1 && (#[trigger] obligations@[k]).0 == q)) by {
                    if q == p { assert(obligations@[j as int].0 == q); }
                }
            }
            j += 1;
        }
        proof {
            assert(peers@ =~= reported_peers(self.entries@, obligations@, topic_id));
        }
        let list = peers.to_vec();
        let mut out: Vec<SyncPeerStatus> = Vec::new();
        let mut k: usize = 0;
        while k < list.len()
            invariant
                k <= list@.len(),
                out@.len() == k,
                forall|x: int| 0 <= x < k ==> (#[trigger] out@[x]).peer_id == list@[x]
                    && reported(self.records(), obligations@, topic_id, list@[x], out@[x]),
            decreases list@.len() - k,
        {
            let s = self.report_one(obligations, topic_id, list[k]);
            out.push(s);
            k += 1;
        }
        proof {
            assert(out@.map_values(|s: SyncPeerStatus| s.peer_id) =~= list@);
        }
        out
    }

    /// Records how attempt `attempt` of `peer_id` and `topic_id` ended at `now_ms`,
    /// with `pending` obligations left. Only the attempt's first completion, `first`,
    /// counts: a repeat returns the stored record unchanged (a fresh one, stored, when
    /// none was). A completed or advanced attempt is a success, any other a failure.
    pub fn record_attempt_result(&mut self, peer_id: PeerId, topic_id: TopicId, attempt: (u64, u64),
        outcome: &AttemptOutcome, first: bool, now_ms: u64, pending: u64) -> (r: SyncPeerStatus)
        ensures
            index_of(old(self).records(), peer_id, topic_id) != -1 ==> {
                let before = old(self).records();
                let i = index_of(before, peer_id, topic_id);
                let after = final(self).records();
                &&& after.len() == before.len()
                &&& forall|k: int| 0 <= k < before.len() && k != i ==> #[trigger] after[k] == before[k]
                &&& !first ==> after[i] == before[i] && same_status(r, before[i])
                &&& first ==> recorded(before[i], after[i], attempt, *outcome, now_ms, pending) && same_status(r, after[i])
            },
            index_of(old(self).records(), peer_id, topic_id) == -1 ==> {
                let before = old(self).records();
                let after = final(self).records();
                &&& after.len() == before.len() + 1
                &&& after.take(before.len() as int) == before
                &&& !first ==> fresh_status(after.last(), peer_id, topic_id) && same_status(r, after.last())
                &&& first ==> recorded_fresh(after.last(), peer_id, topic_id, attempt, *outcome, now_ms, pending)
                        && same_status(r, after.last())
            },
    {
        proof { use_type_invariant(&*self); }
        let ghost before = self.entries@;
        let found = self.find(peer_id, topic_id);
        let mut status = match found {
            Some(i) => self.entries[i].duplicate(),
            None => SyncPeerStatus::fresh(peer_id, topic_id),
        };
        let ghost base = status;
        if first {
            let (state, error): (SyncPeerState, Option<String>) = match outcome {
                AttemptOutcome::Complete => (SyncPeerState::Healthy, None),
                AttemptOutcome::Advanced => (SyncPeerState::Behind, None),
                AttemptOutcome::Blocked(reason) => (SyncPeerState::Behind, Some(reason.clone())),
                AttemptOutcome::ReopenRequired(reason) => (SyncPeerState::Behind, Some(reason.clone())),
                AttemptOutcome::Failed(reason) => (SyncPeerState::Failed, Some(reason.clone())),
            };
            let advanced = match outcome {
                AttemptOutcome::Complete | AttemptOutcome::Advanced => true,
                _ => false,
            };
            if advanced {
                status.successful_attempts = status.successful_attempts.saturating_add(1);
                status.last_success_ms = Some(now_ms);
            } else {
                status.failed_attempts = status.failed_attempts.saturating_add(1);
            }
            status.state = state;
            status.pending_obligations = pending;
            status.last_attempt_ms = Some(now_ms);
            status.last_error = error;
            status.attempt = Some(attempt);
        }
        let result = status.duplicate();
        let mut entries: Vec<SyncPeerStatus> = Vec::new();
        std::mem::swap(&mut entries, &mut self.entries);
        match found {
            Some(i) => {
                if first {
                    entries.set(i, status);
                }
                proof {
                    let after = entries@;
                    assert(after.len() == before.len());
                    assert forall|a: int, b: int| 0 <= a < after.len() && 0 <= b < after.len() && a != b
                        implies !(#[trigger] after[a].peer_id == #[trigger] after[b].peer_id && after[a].topic_id == after[b].topic_id) by {
                        assert(before[a].peer_id == after[a].peer_id && before[a].topic_id == after[a].topic_id);
                        assert(before[b].peer_id == after[b].peer_id && before[b].topic_id == after[b].topic_id);
                    }
                }
            },
            None => {
                entries.push(status);
                proof {
                    let after = entries@;
                    assert(after.take(before.len() as int) =~= before);
                    assert forall|a: int, b: int| 0 <= a < after.len() && 0 <= b < after.len() && a != b
                        implies !(#[trigger] after[a].peer_id == #[trigger] after[b].peer_id && after[a].topic_id == after[b].topic_id) by {
                        if a == before.len() && b < before.len() {
                            assert(before[b] == after[b]);
                        } else if b == before.len() && a < before.len() {
                            assert(before[a] == after[a]);
                        } else if a < before.len() && b < before.len() {
                            assert(before[a] == after[a] && before[b] == after[b]);
                        }
                    }
                    if first {
                        assert(recorded(base, after.last(), attempt, *outcome, now_ms, pending));
                    }
                }
            },
        }
        self.entries = entries;
        proof {
            let after = self.entries@;
            if found is None {
                assert(index_of(before, peer_id, topic_id) == -1);
                assert(after.len() == before.len() + 1);
                assert(after.take(before.len() as int) == before);
                assert(same_status(result, after.last()));
                assert(old(self).records() == before);
                assert(self.records() == after);
                if first {
                    assert(fresh_status(base, peer_id, topic_id));
                    assert(recorded(base, after.last(), attempt, *outcome, now_ms, pending));
                } else {
                    assert(fresh_status(after.last(), peer_id, topic_id));
                }
            }
        }
        result
    }
}

/// How many of `statuses` are in `state`.
pub open spec fn count_state(statuses: Seq<SyncPeerStatus>, state: SyncPeerState) -> nat
    decreases statuses.len(),
{
    if statuses.len() == 0 {
        0
    } else {
        count_state(statuses.drop_last(), state) + (if statuses.last().state == state { 1nat } else { 0nat })
    }
}

/// Each status is in exactly one state, so the counts of the three states add up
/// to the number of statuses.
pub proof fn lemma_counts_sum(statuses: Seq<SyncPeerStatus>)
    ensures
        count_state(statuses, SyncPeerState::Healthy) + count_state(statuses, SyncPeerState::Behind)
            + count_state(statuses, SyncPeerState::Failed) == statuses.len(),
    decreases statuses.len(),
{
    if statuses.len() > 0 {
        lemma_counts_sum(statuses.drop_last());
    }
}

/// How many peers are in each state.
#[derive(Debug)]
pub struct StateCounts {
    pub healthy: usize,
    pub behind: usize,
    pub failed: usize,
}

/// Counts the peers of `statuses` by state.
pub fn state_counts(statuses: &Vec<SyncPeerStatus>) -> (r: StateCounts)
    ensures
        r.healthy == count_state(statuses@, SyncPeerState::Healthy),
        r.behind == count_state(statuses@, SyncPeerState::Behind),
        r.failed == count_state(statuses@, SyncPeerState::Failed),
        r.healthy + r.behind + r.failed == statuses@.len(),
{
    let mut r = StateCounts { healthy: 0, behind: 0, failed: 0 };
    let mut i: usize = 0;
    while i < statuses.len()
        invariant
            i <= statuses@.len(),
            r.healthy == count_state(statuses@.take(i as int), SyncPeerState::Healthy),
            r.behind == count_state(statuses@.take(i as int), SyncPeerState::Behind),
            r.failed == count_state(statuses@.take(i as int), SyncPeerState::Failed),
            r.healthy + r.behind + r.failed == i,
        decreases statuses@.len() - i,
    {
        proof {
            assert(statuses@.take(i as int + 1).drop_last() =~= statuses@.take(i as int));
        }
        match statuses[i].state {
            SyncPeerState::Healthy => { r.healthy = r.healthy + 1; },
            SyncPeerState::Behind => { r.behind = r.behind + 1; },
            SyncPeerState::Failed => { r.failed = r.failed + 1; },
        }
        i += 1;
    }
    proof { assert(statuses@.take(statuses@.len() as int) =~= statuses@); }
    r
}

} // verus!
