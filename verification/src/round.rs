//! The decisions of a resync batch between its network round trips: what the
//! fingerprint round settles, how one exchanged topic ended, and which claimed
//! targets a batch attempts, releases clean or fails.
use vstd::prelude::*;
use crate::ids::TopicId;
use crate::idmap::IdMap;
use crate::idset::IdSet;
use crate::error::Error;
use crate::node::sync::SyncSummary;
use crate::transport::{GoalProgress, TopicGoal, covered_total};
use crate::resync::MAX_TOPICS_PER_RESYNC_BATCH;

verus! {

/// A response to the fingerprint round that opens a batch.
#[derive(Debug)]
pub enum RoundResponse {
    /// The fingerprint the peer holds of a topic.
    Fingerprint(TopicId, [u8; 32]),
    /// What the peer holds of a topic whose fingerprint differs.
    Summary(SyncSummary),
    /// The peer could not serve a topic.
    Failure(TopicId),
    /// Any other message, which a fingerprint round does not expect.
    Other,
}

/// What the fingerprint round settled: the topics whose fingerprint matched the
/// one sent, with it; the topics left to plan, with the peer's summary; the topics
/// the peer failed; those that got no answer; and whether an unexpected response
/// ended the round.
#[derive(Debug)]
pub struct FingerprintRound {
    pub matching: IdMap<[u8; 32]>,
    pub summaries: IdMap<SyncSummary>,
    pub failed: IdSet,
    pub unanswered: IdSet,
    pub unexpected: bool,
}

/// The matching fingerprints, summaries, failed topics and whether the round
/// ended early, as a round's responses leave them.
pub type RoundState = (Map<TopicId, [u8; 32]>, Map<TopicId, SyncSummary>, Set<TopicId>, bool);

/// What the response `resp` does to the round state `st` when `sent` holds the
/// fingerprints sent: a fingerprint equal to the one sent for its topic matches
/// it, any other is passed over; a summary of a topic sent is kept, the last one
/// winning; a failure of a topic sent fails it and drops its summary; anything
/// else, or a summary or failure of a topic not sent, ends the round, after which
/// nothing changes.
pub open spec fn round_step(sent: Map<TopicId, [u8; 32]>, st: RoundState, resp: RoundResponse) -> RoundState {
    if st.3 {
        st
    } else {
        match resp {
            RoundResponse::Fingerprint(t, f) => if sent.contains_key(t) && sent[t] == f {
                (st.0.insert(t, f), st.1, st.2, false)
            } else {
                st
            },
            RoundResponse::Summary(s) => if sent.contains_key(s.topic_id) {
                (st.0, st.1.insert(s.topic_id, s), st.2, false)
            } else {
                (st.0, st.1, st.2, true)
            },
            RoundResponse::Failure(t) => if sent.contains_key(t) {
                (st.0, st.1.remove(t), st.2.insert(t), false)
            } else {
                (st.0, st.1, st.2, true)
            },
            RoundResponse::Other => (st.0, st.1, st.2, true),
        }
    }
}

/// The round state after `responses`, taken in order.
pub open spec fn round_after(sent: Map<TopicId, [u8; 32]>, responses: Seq<RoundResponse>) -> RoundState
    decreases responses.len(),
{
    if responses.len() == 0 {
        (Map::empty(), Map::empty(), Set::empty(), false)
    } else {
        round_step(sent, round_after(sent, responses.drop_last()), responses.last())
    }
}

/// The topics sent that the round leaves without an answer: after an unexpected
/// response every topic not failed, else every topic neither matched, nor
/// summarised, nor failed.
pub open spec fn round_unanswered(sent: Set<TopicId>, st: RoundState) -> Set<TopicId> {
    if st.3 {
        sent.difference(st.2)
    } else {
        sent.difference(st.0.dom()).difference(st.1.dom()).difference(st.2)
    }
}

/// Sorts the responses to a batch's fingerprint round, where `sent` holds the
/// fingerprint sent for each topic.
pub fn fingerprint_round(sent: &IdMap<[u8; 32]>, responses: Vec<RoundResponse>) -> (r: FingerprintRound)
    ensures
        (r.matching@, r.summaries@, r.failed@, r.unexpected) == round_after(sent@, responses@),
        r.unanswered@ == round_unanswered(sent@.dom(), round_after(sent@, responses@)),
        forall|t: TopicId| #[trigger] r.matching@.contains_key(t) ==> sent@.contains_key(t) && r.matching@[t] == sent@[t],
        r.summaries@.dom().subset_of(sent@.dom()),
        r.failed@.subset_of(sent@.dom()),
{
    let ghost all = responses@;
    let mut rest = responses;
    let mut matching: IdMap<[u8; 32]> = IdMap::new();
    let mut summaries: IdMap<SyncSummary> = IdMap::new();
    let mut failed = IdSet::new();
    let mut unexpected = false;
    let ghost mut done: int = 0;
    proof { assert(all.take(0) =~= Seq::<RoundResponse>::empty()); }
    while rest.len() > 0
        invariant
            0 <= done <= all.len(),
            rest@ == all.skip(done),
            (matching@, summaries@, failed@, unexpected) == round_after(sent@, all.take(done)),
            forall|t: TopicId| #[trigger] matching@.contains_key(t) ==> sent@.contains_key(t) && matching@[t] == sent@[t],
            summaries@.dom().subset_of(sent@.dom()),
            failed@.subset_of(sent@.dom()),
        decreases rest@.len(),
    {
        let resp = rest.remove(0);
        proof {
            assert(resp == all[done]);
            assert(all.take(done + 1).drop_last() =~= all.take(done));
            assert(all.take(done + 1).last() == resp);
        }
        if !unexpected {
            match resp {
                RoundResponse::Fingerprint(t, f) => {
                    let same = match sent.get(&t) {
                        Some(g) => same_fingerprint(g, &f),
                        None => false,
                    };
                    if same {
                        matching.insert(t, f);
                    }
                },
                RoundResponse::Summary(s) => {
                    if sent.contains_key(&s.topic_id) {
                        let t = s.topic_id;
                        summaries.insert(t, s);
                    } else {
                        unexpected = true;
                    }
                },
                RoundResponse::Failure(t) => {
                    if sent.contains_key(&t) {
                        let _ = summaries.remove(&t);
                        failed.insert(t);
                    } else {
                        unexpected = true;
                    }
                },
                RoundResponse::Other => { unexpected = true; },
            }
        }
        proof {
            done = done + 1;
            assert(rest@ =~= all.skip(done));
            assert(matching@ =~= round_after(sent@, all.take(done)).0);
            assert(summaries@ =~= round_after(sent@, all.take(done)).1);
            assert(failed@ =~= round_after(sent@, all.take(done)).2);
        }
    }
    proof { assert(all.take(done) =~= all); }
    let keys = sent.keys();
    let mut unanswered = IdSet::new();
    let mut i: usize = 0;
    while i < keys.len()
        invariant
            i <= keys@.len(),
            keys@.to_set() == sent@.dom(),
            unanswered@ == round_unanswered(keys@.take(i as int).to_set(), (matching@, summaries@, failed@, unexpected)),
        decreases keys@.len() - i,
    {
        let t = keys[i];
        let open = if unexpected {
            !failed.contains(&t)
        } else {
            !matching.contains_key(&t) && !summaries.contains_key(&t) && !failed.contains(&t)
        };
        if open {
            unanswered.insert(t);
        }
        proof {
            let ta = keys@.take(i as int + 1);
            let tb = keys@.take(i as int);
            let a = ta.to_set();
            let b = tb.to_set();
            assert(a =~= b.insert(t)) by {
                assert forall|y: TopicId| a.contains(y) <==> b.contains(y) || y == t by {
                    if a.contains(y) {
                        let w = choose|w: int| 0 <= w < ta.len() && ta[w] == y;
                        if w < i { assert(tb[w] == y); }
                    }
                    if b.contains(y) {
                        let w = choose|w: int| 0 <= w < tb.len() && tb[w] == y;
                        assert(ta[w] == y);
                    }
                    if y == t { assert(ta[i as int] == y); }
                }
            }
            assert(unanswered@ =~= round_unanswered(a, (matching@, summaries@, failed@, unexpected)));
        }
        i += 1;
    }
    proof { assert(keys@.take(keys@.len() as int) =~= keys@); }
    FingerprintRound { matching, summaries, failed, unanswered, unexpected }
}

/// How one topic of an exchange ended.
#[derive(Debug, PartialEq, Eq)]
pub enum ExchangeOutcome {
    /// The goal is reached and nothing is left to send.
    Done,
    /// The topic moved toward its goal and is served again later.
    Advanced,
    /// The topic did not move toward its goal.
    NoProgress,
    /// The peer omitted an ack this node was owed for the topic's data.
    AckMissing,
}

/// How a topic ends whose ack is still `owed` or not, measured `before` and
/// `after` the exchange against `goal`, with `more` to send or not.
pub open spec fn spec_exchange_outcome(before: GoalProgress, after: GoalProgress, goal: TopicGoal, more: bool, owed: bool)
    -> ExchangeOutcome {
    if owed {
        ExchangeOutcome::AckMissing
    } else if after.inbound == covered_total(goal.inbound@, goal.inbound@, goal.inbound.actors())
        && after.outbound == covered_total(goal.outbound@, goal.outbound@, goal.outbound.actors())
        && after.holes == 0 && !more {
        ExchangeOutcome::Done
    } else if after.inbound > before.inbound || after.outbound > before.outbound
        || after.holes < before.holes || after.staged > before.staged {
        ExchangeOutcome::Advanced
    } else {
        ExchangeOutcome::NoProgress
    }
}

/// How one topic of an exchange ended: a missing ack fails it; a reached goal
/// with nothing more to send completes it; any move toward the goal counts as an
/// advance; anything else made no progress.
pub fn exchange_outcome(before: &GoalProgress, after: &GoalProgress, goal: &TopicGoal, more: bool, owed: bool)
    -> (r: ExchangeOutcome)
    requires
        covered_total(goal.inbound@, goal.inbound@, goal.inbound.actors()) <= u64::MAX,
        covered_total(goal.outbound@, goal.outbound@, goal.outbound.actors()) <= u64::MAX,
    ensures
        r == spec_exchange_outcome(*before, *after, *goal, more, owed),
{
    if owed {
        ExchangeOutcome::AckMissing
    } else if after.reached(goal) && !more {
        ExchangeOutcome::Done
    } else if after.advanced_from(before) {
        ExchangeOutcome::Advanced
    } else {
        ExchangeOutcome::NoProgress
    }
}

/// What a batch does with its claimed targets: the topics to attempt, in chunks
/// of at most [`MAX_TOPICS_PER_RESYNC_BATCH`], those to release as clean, and
/// those whose decision failed, with the error.
#[derive(Debug)]
pub struct ClaimPlan {
    pub chunks: Vec<Vec<TopicId>>,
    pub clean: Vec<TopicId>,
    pub failed: Vec<(TopicId, Error)>,
}

/// The topics of `decisions` whose decision satisfies `keep`, in order.
pub open spec fn decided(decisions: Seq<(TopicId, Result<bool, Error>)>, keep: spec_fn(Result<bool, Error>) -> bool) -> Seq<TopicId>
    decreases decisions.len(),
{
    if decisions.len() == 0 {
        Seq::empty()
    } else {
        decided(decisions.drop_last(), keep) + if keep(decisions.last().1) { seq![decisions.last().0] } else { Seq::empty() }
    }
}

/// The topics of the chunks of `chunks`, one chunk after another.
pub open spec fn chunk_topics(chunks: Seq<Vec<TopicId>>) -> Seq<TopicId>
    decreases chunks.len(),
{
    if chunks.len() == 0 { Seq::empty() } else { chunk_topics(chunks.drop_last()) + chunks.last()@ }
}

proof fn lemma_chunks_push(chunks: Seq<Vec<TopicId>>, c: Vec<TopicId>)
    ensures chunk_topics(chunks.push(c)) == chunk_topics(chunks) + c@,
{
    assert(chunks.push(c).drop_last() =~= chunks);
}

/// Splits the claimed targets of a batch by whether to attempt each: a topic owed
/// an attempt is attempted, in chunks of at most [`MAX_TOPICS_PER_RESYNC_BATCH`]
/// topics, every chunk but the last one full; a topic owed none is released clean;
/// a decision that failed fails its topic with the error.
pub fn partition_claims(decisions: Vec<(TopicId, Result<bool, Error>)>) -> (r: ClaimPlan)
    ensures
        chunk_topics(r.chunks@) == decided(decisions@, |d: Result<bool, Error>| d == Ok::<bool, Error>(true)),
        forall|k: int| 0 <= k < r.chunks@.len() ==> 0 < (#[trigger] r.chunks@[k])@.len() <= MAX_TOPICS_PER_RESYNC_BATCH,
        forall|k: int| 0 <= k < r.chunks@.len() - 1 ==> (#[trigger] r.chunks@[k])@.len() == MAX_TOPICS_PER_RESYNC_BATCH,
        r.clean@ == decided(decisions@, |d: Result<bool, Error>| d == Ok::<bool, Error>(false)),
        r.failed@.map_values(|f: (TopicId, Error)| f.0) == decided(decisions@, |d: Result<bool, Error>| d is Err),
        forall|k: int| #![trigger r.failed@[k]] 0 <= k < r.failed@.len() ==> exists|j: int| 0 <= j < decisions@.len()
            && #[trigger] decisions@[j] == (r.failed@[k].0, Err::<bool, Error>(r.failed@[k].1)),
{
    let ghost all = decisions@;
    let ghost attempt = |d: Result<bool, Error>| d == Ok::<bool, Error>(true);
    let ghost skip = |d: Result<bool, Error>| d == Ok::<bool, Error>(false);
    let ghost fail = |d: Result<bool, Error>| d is Err;
    let mut rest = decisions;
    let mut chunks: Vec<Vec<TopicId>> = Vec::new();
    let mut current: Vec<TopicId> = Vec::new();
    let mut clean: Vec<TopicId> = Vec::new();
    let mut failed: Vec<(TopicId, Error)> = Vec::new();
    let ghost mut done: int = 0;
    proof { assert(all.take(0) =~= Seq::<(TopicId, Result<bool, Error>)>::empty()); }
    while rest.len() > 0
        invariant
            0 <= done <= all.len(),
            rest@ == all.skip(done),
            chunk_topics(chunks@) + current@ == decided(all.take(done), attempt),
            forall|k: int| 0 <= k < chunks@.len() ==> (#[trigger] chunks@[k])@.len() == MAX_TOPICS_PER_RESYNC_BATCH,
            current@.len() < MAX_TOPICS_PER_RESYNC_BATCH,
            clean@ == decided(all.take(done), skip),
            failed@.map_values(|f: (TopicId, Error)| f.0) == decided(all.take(done), fail),
            forall|k: int| #![trigger failed@[k]] 0 <= k < failed@.len() ==> exists|j: int| 0 <= j < all.len()
                && #[trigger] all[j] == (failed@[k].0, Err::<bool, Error>(failed@[k].1)),
            forall|d: Result<bool, Error>| #[trigger] attempt(d) == (d == Ok::<bool, Error>(true)),
            forall|d: Result<bool, Error>| #[trigger] skip(d) == (d == Ok::<bool, Error>(false)),
            forall|d: Result<bool, Error>| #[trigger] fail(d) == (d is Err),
        decreases rest@.len(),
    {
        let (topic_id, decision) = rest.remove(0);
        proof {
            assert(all[done] == (topic_id, decision));
            assert(all.take(done + 1).drop_last() =~= all.take(done));
            assert(all.take(done + 1).last() == (topic_id, decision));
        }
        let ghost fb = failed@;
        match decision {
            Ok(true) => {
                current.push(topic_id);
                if current.len() == MAX_TOPICS_PER_RESYNC_BATCH {
                    let ghost cb = chunks@;
                    let mut full: Vec<TopicId> = Vec::new();
                    std::mem::swap(&mut full, &mut current);
                    chunks.push(full);
                    proof {
                        lemma_chunks_push(cb, full);
                        assert(current@ =~= Seq::<TopicId>::empty());
                        assert forall|k: int| 0 <= k < chunks@.len() implies (#[trigger] chunks@[k])@.len() == MAX_TOPICS_PER_RESYNC_BATCH by {
                            if k < cb.len() { assert(chunks@[k] == cb[k]); }
                        }
                    }
                }
            },
            Ok(false) => { clean.push(topic_id); },
            Err(e) => {
                failed.push((topic_id, e));
                proof {
                    assert forall|k: int| #![trigger failed@[k]] 0 <= k < failed@.len() implies exists|j: int| 0 <= j < all.len()
                        && #[trigger] all[j] == (failed@[k].0, Err::<bool, Error>(failed@[k].1)) by {
                        if k < fb.len() { assert(failed@[k] == fb[k]); } else { assert(all[done] == (failed@[k].0, Err::<bool, Error>(failed@[k].1))); }
                    }
                    assert(failed@.map_values(|f: (TopicId, Error)| f.0) =~= fb.map_values(|f: (TopicId, Error)| f.0).push(topic_id));
                }
            },
        }
        proof {
            done = done + 1;
            assert(rest@ =~= all.skip(done));
            if !(decision is Err) {
                assert(failed@ == fb);
            }
        }
    }
    proof { assert(all.take(done) =~= all); }
    if current.len() > 0 {
        let ghost cb = chunks@;
        chunks.push(current);
        proof {
            lemma_chunks_push(cb, chunks@.last());
        }
    } else {
        proof { assert(chunk_topics(chunks@) + current@ =~= chunk_topics(chunks@)); }
    }
    ClaimPlan { chunks, clean, failed }
}

/// The time a resync batch of one peer may take: four times a connect and an
/// exchange, each addition and the product saturating.
pub fn batch_deadline_ms(connect_timeout_ms: u64, io_timeout_ms: u64) -> (r: u64)
    ensures
        r == (if connect_timeout_ms + io_timeout_ms > u64::MAX { u64::MAX as int }
            else if 4 * (connect_timeout_ms + io_timeout_ms) > u64::MAX { u64::MAX as int }
            else { 4 * (connect_timeout_ms + io_timeout_ms) }),
{
    let both = connect_timeout_ms.saturating_add(io_timeout_ms);
    if both > u64::MAX / 4 { u64::MAX } else { both * 4 }
}

/// Whether two fingerprints are the same bytes.
fn same_fingerprint(a: &[u8; 32], b: &[u8; 32]) -> (r: bool)
    ensures r == (*a == *b),
{
    let mut i: usize = 0;
    while i < 32
        invariant
            i <= 32,
            a@.len() == 32, b@.len() == 32,
            forall|j: int| 0 <= j < i ==> a@[j] == b@[j],
        decreases 32 - i,
    {
        if a[i] != b[i] {
            return false;
        }
        i += 1;
    }
    proof { assert(*a =~= *b); }
    true
}

/// The size of one planned topic exchange: its framed bytes, its messages and the
/// responses it is expected to draw.
#[derive(Clone, Copy, Debug, PartialEq, Eq)]
pub struct PlannedSize {
    pub topic_id: TopicId,
    pub bytes: usize,
    pub messages: usize,
    pub responses: usize,
}

/// One stream's group of planned topics: the topics sent together, those whose
/// plan alone passes the byte limit, and the position of the first planned topic
/// that did not fit, which opens the next group.
#[derive(Debug)]
pub struct GroupPlan {
    pub group: Vec<PlannedSize>,
    pub oversized: Vec<PlannedSize>,
    pub next: Option<usize>,
}

/// Bytes of the plans of `s`.
pub open spec fn total_bytes(s: Seq<PlannedSize>) -> int
    decreases s.len(),
{
    if s.len() == 0 { 0 } else { total_bytes(s.drop_last()) + s.last().bytes }
}

/// Messages of the plans of `s`.
pub open spec fn total_messages(s: Seq<PlannedSize>) -> int
    decreases s.len(),
{
    if s.len() == 0 { 0 } else { total_messages(s.drop_last()) + s.last().messages }
}

/// Expected responses of the plans of `s`.
pub open spec fn total_responses(s: Seq<PlannedSize>) -> int
    decreases s.len(),
{
    if s.len() == 0 { 0 } else { total_responses(s.drop_last()) + s.last().responses }
}

/// Whether `p` joins the group `g` within `max_bytes` bytes and `max_messages`
/// messages and expected responses.
pub open spec fn joins_group(g: Seq<PlannedSize>, p: PlannedSize, max_bytes: usize, max_messages: usize) -> bool {
    &&& total_bytes(g) + p.bytes <= max_bytes
    &&& total_messages(g) + p.messages <= max_messages
    &&& total_responses(g) + p.responses <= max_messages
}

/// Groups the planned topics of `planned`, in order, into one stream of at most
/// `max_bytes` bytes and `max_messages` messages and expected responses: a plan
/// over the byte limit alone is set aside as oversized; the first plan that fits
/// always opens the group; a later one joins it while the group stays within the
/// limits, and the first that does not ends the group and opens the next.
pub fn plan_group(planned: &Vec<PlannedSize>, max_bytes: usize, max_messages: usize) -> (r: GroupPlan)
    ensures
        ({
            let end = match r.next { Some(j) => j as int, None => planned@.len() as int };
            &&& end <= planned@.len()
            &&& r.group@ == planned@.take(end).filter(|p: PlannedSize| p.bytes <= max_bytes)
            &&& r.oversized@ == planned@.take(end).filter(|p: PlannedSize| p.bytes > max_bytes)
        }),
        total_bytes(r.group@) <= max_bytes,
        r.group@.len() > 1 ==> total_messages(r.group@) <= max_messages && total_responses(r.group@) <= max_messages,
        r.next matches Some(j) ==> j < planned@.len() && planned@[j as int].bytes <= max_bytes && r.group@.len() > 0
            && !joins_group(r.group@, planned@[j as int], max_bytes, max_messages),
{
    let ghost fits = |p: PlannedSize| p.bytes <= max_bytes;
    let ghost over = |p: PlannedSize| p.bytes > max_bytes;
    let mut group: Vec<PlannedSize> = Vec::new();
    let mut oversized: Vec<PlannedSize> = Vec::new();
    let mut bytes: usize = 0;
    let mut messages: usize = 0;
    let mut responses: usize = 0;
    let mut i: usize = 0;
    proof { assert(planned@.take(0) =~= Seq::<PlannedSize>::empty()); }
    while i < planned.len()
        invariant
            i <= planned@.len(),
            group@ == planned@.take(i as int).filter(fits),
            oversized@ == planned@.take(i as int).filter(over),
            bytes == total_bytes(group@),
            messages == total_messages(group@),
            responses == total_responses(group@),
            bytes <= max_bytes,
            group@.len() > 1 ==> messages <= max_messages && responses <= max_messages,
            forall|p: PlannedSize| #[trigger] fits(p) == (p.bytes <= max_bytes),
            forall|p: PlannedSize| #[trigger] over(p) == (p.bytes > max_bytes),
        decreases planned@.len() - i,
    {
        let p = planned[i];
        proof {
            assert(planned@.take(i as int + 1).drop_last() =~= planned@.take(i as int));
            assert(planned@.take(i as int + 1).last() == p);
            reveal(Seq::filter);
        }
        if p.bytes > max_bytes {
            oversized.push(p);
            proof {
                assert(planned@.take(i as int + 1).filter(fits) == planned@.take(i as int).filter(fits));
                assert(oversized@ =~= planned@.take(i as int + 1).filter(over));
            }
        } else {
            let joins = p.bytes <= max_bytes - bytes
                && messages <= max_messages && p.messages <= max_messages - messages
                && responses <= max_messages && p.responses <= max_messages - responses;
            if group.len() > 0 && !joins {
                proof {
                    assert(!joins_group(group@, p, max_bytes, max_messages));
                    assert(fits =~= (|q: PlannedSize| q.bytes <= max_bytes));
                    assert(over =~= (|q: PlannedSize| q.bytes > max_bytes));
                }
                return GroupPlan { group, oversized, next: Some(i) };
            }
            let ghost gb = group@;
            let was_empty = group.len() == 0;
            group.push(p);
            proof {
                assert(group@.drop_last() =~= gb);
                assert(planned@.take(i as int + 1).filter(over) == planned@.take(i as int).filter(over));
                assert(group@ =~= planned@.take(i as int + 1).filter(fits));
            }
            bytes = bytes + p.bytes;
            messages = if was_empty { p.messages } else { messages + p.messages };
            responses = if was_empty { p.responses } else { responses + p.responses };
        }
        i += 1;
    }
    proof { assert(planned@.take(i as int) =~= planned@); }
    GroupPlan { group, oversized, next: None }
}

} // verus!
