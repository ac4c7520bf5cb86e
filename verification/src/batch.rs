//! The decisions of one sync batch with a peer: which topics go into the next
//! exchange, and what each exchange's replies settle. The transport runs the
//! exchanges and hands each round's replies back.
use vstd::prelude::*;
use crate::ids::TopicId;
use crate::idset::IdSet;

verus! {

/// Where a batch stands: topics waiting for an exchange, those in the exchange
/// running now, those settled by an ack, those that failed, and the exchanges left.
#[derive(Debug)]
pub struct BatchState {
    pub queue: IdSet,
    pub in_flight: IdSet,
    pub settled: IdSet,
    pub failed: IdSet,
    pub rounds_left: u64,
}

/// What one round reported of the topics in flight: those the peer acked, those
/// with more to exchange, and those that failed.
#[derive(Debug)]
pub struct RoundReplies {
    pub acked: IdSet,
    pub more: IdSet,
    pub failed: IdSet,
}

/// What the transport does next.
#[derive(Debug)]
pub enum BatchAction {
    /// Run an exchange for these topics.
    Exchange(IdSet),
    /// The batch is over.
    Finish,
}

/// Whether no topic is in two of a batch's sets at once.
pub open spec fn batch_wf(queue: Set<TopicId>, in_flight: Set<TopicId>, settled: Set<TopicId>, failed: Set<TopicId>) -> bool {
    &&& queue.disjoint(in_flight)
    &&& queue.disjoint(settled)
    &&& queue.disjoint(failed)
    &&& in_flight.disjoint(settled)
    &&& in_flight.disjoint(failed)
    &&& settled.disjoint(failed)
}

/// Where a topic in flight goes after a round: it fails when the round says so,
/// goes back to the queue when there is more, is settled when acked, and fails
/// when the round says nothing of it.
pub open spec fn settles(t: TopicId, replies_acked: Set<TopicId>, replies_more: Set<TopicId>, replies_failed: Set<TopicId>) -> bool {
    !replies_failed.contains(t) && !replies_more.contains(t) && replies_acked.contains(t)
}

/// Whether `t` of a round goes back to the queue.
pub open spec fn requeued(t: TopicId, replies_more: Set<TopicId>, replies_failed: Set<TopicId>) -> bool {
    !replies_failed.contains(t) && replies_more.contains(t)
}

/// The ids of the first `i + 1` entries of `s` are those of the first `i` and `s[i]`.
proof fn lemma_take_step(s: Seq<TopicId>, i: int)
    requires 0 <= i < s.len(),
    ensures s.take(i + 1).to_set() == s.take(i).to_set().insert(s[i]),
{
    let a = s.take(i + 1);
    let b = s.take(i);
    assert(a =~= b.push(s[i]));
    assert forall|x: TopicId| a.to_set().contains(x) <==> b.to_set().insert(s[i]).contains(x) by {
        if a.contains(x) {
            let j = choose|j: int| 0 <= j < a.len() && #[trigger] a[j] == x;
            if j < i { assert(b[j] == x); assert(b.contains(x)); }
        }
        if b.contains(x) {
            let j = choose|j: int| 0 <= j < b.len() && #[trigger] b[j] == x;
            assert(a[j] == x);
        }
        if x == s[i] { assert(a[i] == x); }
    }
    assert(a.to_set() =~= b.to_set().insert(s[i]));
}

impl BatchState {
    /// A batch over `topics` with at most `rounds` exchanges.
    pub fn new(topics: IdSet, rounds: u64) -> (r: BatchState)
        ensures
            r.queue@ == topics@,
            r.in_flight@ == Set::<TopicId>::empty(),
            r.settled@ == Set::<TopicId>::empty(),
            r.failed@ == Set::<TopicId>::empty(),
            r.rounds_left == rounds,
            batch_wf(r.queue@, r.in_flight@, r.settled@, r.failed@),
    {
        let r = BatchState { queue: topics, in_flight: IdSet::new(), settled: IdSet::new(), failed: IdSet::new(), rounds_left: rounds };
        proof {
            assert(r.queue@.disjoint(r.in_flight@));
            assert(r.queue@.disjoint(r.settled@));
            assert(r.queue@.disjoint(r.failed@));
        }
        r
    }

    /// Files the replies of the round in flight: each topic fails, goes back to the
    /// queue, or is settled, as [`settles`] and [`requeued`] say.
    pub fn record_round(&mut self, replies: &RoundReplies)
        requires batch_wf(old(self).queue@, old(self).in_flight@, old(self).settled@, old(self).failed@),
        ensures
            batch_wf(final(self).queue@, final(self).in_flight@, final(self).settled@, final(self).failed@),
            final(self).in_flight@ == Set::<TopicId>::empty(),
            final(self).rounds_left == old(self).rounds_left,
            final(self).settled@ == old(self).settled@.union(old(self).in_flight@.filter(
                |t: TopicId| settles(t, replies.acked@, replies.more@, replies.failed@))),
            final(self).queue@ == old(self).queue@.union(old(self).in_flight@.filter(
                |t: TopicId| requeued(t, replies.more@, replies.failed@))),
            final(self).failed@ == old(self).failed@.union(old(self).in_flight@.filter(
                |t: TopicId| !settles(t, replies.acked@, replies.more@, replies.failed@) && !requeued(t, replies.more@, replies.failed@))),
    {
        let ghost q0 = self.queue@;
        let ghost s0 = self.settled@;
        let ghost f0 = self.failed@;
        let ghost fl = self.in_flight@;
        let topics = self.in_flight.to_vec();
        let mut i: usize = 0;
        while i < topics.len()
            invariant
                i <= topics@.len(),
                topics@.to_set() == fl,
                topics@.no_duplicates(),
                batch_wf(q0, fl, s0, f0),
                self.in_flight@ == fl,
                self.rounds_left == old(self).rounds_left,
                self.settled@ == s0.union(topics@.take(i as int).to_set().filter(|t: TopicId| settles(t, replies.acked@, replies.more@, replies.failed@))),
                self.queue@ == q0.union(topics@.take(i as int).to_set().filter(|t: TopicId| requeued(t, replies.more@, replies.failed@))),
                self.failed@ == f0.union(topics@.take(i as int).to_set().filter(
                    |t: TopicId| !settles(t, replies.acked@, replies.more@, replies.failed@) && !requeued(t, replies.more@, replies.failed@))),
            decreases topics@.len() - i,
        {
            let t = topics[i];
            proof { lemma_take_step(topics@, i as int); }
            if replies.failed.contains(&t) {
                self.failed.insert(t);
            } else if replies.more.contains(&t) {
                self.queue.insert(t);
            } else if replies.acked.contains(&t) {
                self.settled.insert(t);
            } else {
                self.failed.insert(t);
            }
            proof {
                let sp = |x: TopicId| settles(x, replies.acked@, replies.more@, replies.failed@);
                let rp = |x: TopicId| requeued(x, replies.more@, replies.failed@);
                let fp = |x: TopicId| !settles(x, replies.acked@, replies.more@, replies.failed@) && !requeued(x, replies.more@, replies.failed@);
                let a = topics@.take(i as int).to_set();
                let b = topics@.take(i as int + 1).to_set();
                assert(self.settled@ =~= s0.union(b.filter(sp)));
                assert(self.queue@ =~= q0.union(b.filter(rp)));
                assert(self.failed@ =~= f0.union(b.filter(fp)));
            }
            i += 1;
        }
        proof {
            assert(topics@.take(topics@.len() as int) =~= topics@);
            let sp = |x: TopicId| settles(x, replies.acked@, replies.more@, replies.failed@);
            let rp = |x: TopicId| requeued(x, replies.more@, replies.failed@);
            let fp = |x: TopicId| !settles(x, replies.acked@, replies.more@, replies.failed@) && !requeued(x, replies.more@, replies.failed@);
            assert(self.queue@.disjoint(self.settled@)) by {
                assert forall|t: TopicId| self.queue@.contains(t) implies !self.settled@.contains(t) by {
                    if fl.contains(t) { assert(!q0.contains(t)); assert(!s0.contains(t)); }
                }
            }
            assert(self.queue@.disjoint(self.failed@)) by {
                assert forall|t: TopicId| self.queue@.contains(t) implies !self.failed@.contains(t) by {
                    if fl.contains(t) { assert(!q0.contains(t)); assert(!f0.contains(t)); }
                }
            }
            assert(self.settled@.disjoint(self.failed@)) by {
                assert forall|t: TopicId| self.settled@.contains(t) implies !self.failed@.contains(t) by {
                    if fl.contains(t) { assert(!s0.contains(t)); assert(!f0.contains(t)); }
                }
            }
        }
        self.in_flight = IdSet::new();
        proof {
            assert(self.queue@.disjoint(self.in_flight@));
            assert(self.in_flight@.disjoint(self.settled@));
            assert(self.in_flight@.disjoint(self.failed@));
        }
    }

    /// The next step of the batch: with no exchange left or nothing queued, the batch
    /// is over; else the first `group_size` queued topics (at least one) go into the
    /// next exchange, which uses up one round.
    pub fn next_action(&mut self, group_size: usize) -> (r: BatchAction)
        requires
            batch_wf(old(self).queue@, old(self).in_flight@, old(self).settled@, old(self).failed@),
            old(self).in_flight@ == Set::<TopicId>::empty(),
        ensures
            batch_wf(final(self).queue@, final(self).in_flight@, final(self).settled@, final(self).failed@),
            final(self).settled@ == old(self).settled@,
            final(self).failed@ == old(self).failed@,
            (old(self).rounds_left == 0 || old(self).queue@.len() == 0) <==> r is Finish,
            r is Finish ==> final(self).queue@ == old(self).queue@ && final(self).rounds_left == old(self).rounds_left
                && final(self).in_flight@ == Set::<TopicId>::empty(),
            r matches BatchAction::Exchange(g) ==> {
                &&& g@ == final(self).in_flight@
                &&& g@.len() > 0
                &&& g@.len() <= (if group_size == 0 { 1 } else { group_size })
                &&& g@.subset_of(old(self).queue@)
                &&& final(self).queue@ == old(self).queue@.difference(g@)
                &&& final(self).rounds_left == old(self).rounds_left - 1
                &&& g@.disjoint(old(self).settled@)
            },
    {
        if self.rounds_left == 0 || self.queue.len() == 0 {
            return BatchAction::Finish;
        }
        let limit: usize = if group_size == 0 { 1 } else { group_size };
        let ghost q0 = self.queue@;
        let queued = self.queue.to_vec();
        let mut group = IdSet::new();
        let mut i: usize = 0;
        while i < queued.len() && i < limit
            invariant
                i <= queued@.len(),
                i <= limit,
                queued@.to_set() == q0,
                queued@.no_duplicates(),
                group@ == queued@.take(i as int).to_set(),
                group@.len() == i,
                group@.finite(),
                self.rounds_left > 0,
                self.queue@ == q0,
                self.settled@ == old(self).settled@,
                self.failed@ == old(self).failed@,
                self.in_flight@ == old(self).in_flight@,
                batch_wf(q0, old(self).in_flight@, old(self).settled@, old(self).failed@),
            decreases queued@.len() - i,
        {
            let t = queued[i];
            let ghost gb = group@;
            proof {
                lemma_take_step(queued@, i as int);
                assert(!queued@.take(i as int).contains(t)) by {
                    if queued@.take(i as int).contains(t) {
                        let j = choose|j: int| 0 <= j < i && queued@.take(i as int)[j] == t;
                        assert(queued@[j] == queued@[i as int]);
                    }
                }
            }
            group.insert(t);
            proof {
                assert(!gb.contains(t)) by {
                    if gb.contains(t) {
                        let j = choose|j: int| 0 <= j < i && queued@.take(i as int)[j] == t;
                        assert(queued@[j] == queued@[i as int]);
                    }
                }
                vstd::set::axiom_set_insert_len(gb, t);
            }
            i += 1;
        }
        proof {
            assert(i > 0) by { queued@.unique_seq_to_set(); }
            assert forall|t: TopicId| group@.contains(t) implies q0.contains(t) by {
                let j = choose|j: int| 0 <= j < i && queued@.take(i as int)[j] == t;
                assert(queued@.to_set().contains(queued@[j]));
            }
        }
        let g = group.duplicate();
        let ghost f0 = self.in_flight@;
        let v = group.to_vec();
        let mut k: usize = 0;
        while k < v.len()
            invariant
                k <= v@.len(),
                v@.to_set() == group@,
                self.queue@ == q0.difference(v@.take(k as int).to_set()),
                self.rounds_left > 0,
                self.rounds_left == old(self).rounds_left,
                group@.subset_of(q0),
                self.settled@ == old(self).settled@,
                self.failed@ == old(self).failed@,
                self.in_flight@ == old(self).in_flight@,
                batch_wf(q0, old(self).in_flight@, old(self).settled@, old(self).failed@),
            decreases v@.len() - k,
        {
            let t = v[k];
            self.queue.remove(&t);
            proof {
                lemma_take_step(v@, k as int);
                assert(self.queue@ =~= q0.difference(v@.take(k as int + 1).to_set()));
            }
            k += 1;
        }
        proof { assert(v@.take(v@.len() as int) =~= v@); }
        self.in_flight = group;
        self.rounds_left = self.rounds_left - 1;
        proof {
            assert(self.queue@.disjoint(self.in_flight@));
            assert(self.in_flight@.disjoint(self.settled@)) by {
                assert forall|t: TopicId| self.in_flight@.contains(t) implies !self.settled@.contains(t) by {
                    assert(q0.contains(t));
                }
            }
            assert(self.in_flight@.disjoint(self.failed@)) by {
                assert forall|t: TopicId| self.in_flight@.contains(t) implies !self.failed@.contains(t) by {
                    assert(q0.contains(t));
                }
            }
        }
        BatchAction::Exchange(g)
    }
}

/// What the transport reports to a batch: that it starts, or the replies of the
/// exchange it ran.
#[derive(Debug)]
pub enum BatchEvent {
    Start,
    Round(RoundReplies),
}

/// One step of a batch: files the replies of the exchange in flight, if any, then
/// picks the next exchange of at most `group_size` topics (at least one), or
/// finishes when no exchange is left or nothing is queued.
pub fn batch_step(state: BatchState, event: BatchEvent, group_size: usize) -> (r: (BatchState, BatchAction))
    requires
        batch_wf(state.queue@, state.in_flight@, state.settled@, state.failed@),
        event is Start ==> state.in_flight@ == Set::<TopicId>::empty(),
    ensures
        batch_wf(r.0.queue@, r.0.in_flight@, r.0.settled@, r.0.failed@),
        state.rounds_left == 0 ==> r.1 is Finish,
        r.1 is Finish ==> r.0.rounds_left == state.rounds_left && r.0.in_flight@ == Set::<TopicId>::empty(),
        r.1 matches BatchAction::Exchange(g) ==> {
            &&& r.0.rounds_left == state.rounds_left - 1
            &&& g@ == r.0.in_flight@
            &&& g@.len() > 0
            &&& g@.len() <= (if group_size == 0 { 1 } else { group_size })
            &&& g@.disjoint(r.0.settled@)
            &&& g@.disjoint(r.0.failed@)
            &&& g@.disjoint(r.0.queue@)
        },
        state.settled@.subset_of(r.0.settled@),
        state.failed@.subset_of(r.0.failed@),
        event is Start ==> r.0.settled@ == state.settled@ && r.0.failed@ == state.failed@
            && (r.1 is Finish <==> (state.rounds_left == 0 || state.queue@.len() == 0)),
        event matches BatchEvent::Round(rep) ==> {
            &&& r.0.settled@ == state.settled@.union(state.in_flight@.filter(
                |t: TopicId| settles(t, rep.acked@, rep.more@, rep.failed@)))
            &&& r.0.failed@ == state.failed@.union(state.in_flight@.filter(
                |t: TopicId| !settles(t, rep.acked@, rep.more@, rep.failed@) && !requeued(t, rep.more@, rep.failed@)))
            &&& (r.1 is Finish <==> (state.rounds_left == 0 || state.queue@.union(state.in_flight@.filter(
                |t: TopicId| requeued(t, rep.more@, rep.failed@))).len() == 0))
        },
{
    let mut st = state;
    match event {
        BatchEvent::Start => {},
        BatchEvent::Round(rep) => { st.record_round(&rep); },
    }
    let action = st.next_action(group_size);
    (st, action)
}

} // verus!
