//! Reading a topic's events in history order, from the start or after a cursor, and
//! the clock every member is certified to hold.
use vstd::prelude::*;
use crate::ids::{Id32, OpId, PeerId, TopicId, ActorId};
use crate::idset::IdSet;
use crate::clock::{ActorClock, clock_at};
use crate::op::Op;
use crate::topic::{TopicPayload, EventEnvelope, copy_bytes};
use crate::storage::{MemoryStorage, StoredOp, spec_topic_ids};
use crate::op::same_op;
use crate::oplog::local::held_whole;
use crate::oplog::topology::{history_order, blocked_ok, whole_ok};
use crate::error::Error;
use crate::oplog::local::has_state;
use crate::oplog::inspect::is_hole;
use crate::reducer::{EventRecord, Reducer};
use crate::topic::TopicConfig;
use crate::node::WriteConcern;
use crate::history::{HistoryOrder, HistoryCursor, ordered};
use crate::node::Irokle;
use crate::node::topic::{Topic, RawTopic};
use crate::node::sync::reached;

verus! {

/// Whether the stored op `id` is an event a read after `after` returns: an
/// event at a position `after` does not cover.
pub open spec fn fresh_event(ops: Map<OpId, StoredOp>, id: OpId, after: Option<Map<ActorId, u64>>) -> bool {
    let body = ops[id].op.signed.body;
    &&& body.payload is Event
    &&& (after matches Some(c) ==> clock_at(c, body.actor_id) < body.actor_seq)
}

/// The ids of `order` a read after `after` returns, in order.
pub open spec fn event_ids(ops: Map<OpId, StoredOp>, order: Seq<OpId>, after: Option<Map<ActorId, u64>>) -> Seq<OpId>
    decreases order.len(),
{
    if order.len() == 0 {
        Seq::empty()
    } else {
        let r = event_ids(ops, order.drop_last(), after);
        if fresh_event(ops, order.last(), after) { r.push(order.last()) } else { r }
    }
}

/// Whether `rec` shows the stored event `id`: its op, actor position, event and
/// the clock its position observed.
pub open spec fn shows_event(rec: EventRecord, ops: Map<OpId, StoredOp>, id: OpId) -> bool {
    let body = ops[id].op.signed.body;
    &&& rec.meta.op_id == id
    &&& rec.meta.actor_id == body.actor_id
    &&& rec.meta.actor_seq == body.actor_seq
    &&& (body.payload matches TopicPayload::Event(e) && rec.event.type_id@ == e.type_id@ && rec.event.payload@ == e.payload@)
    &&& rec.meta.observed_clock@ == ops[id].meta.observed_clock@
}

/// Whether `recs` show the events `ids`, in `order`: as listed oldest first,
/// reversed newest first.
pub open spec fn shows_events(recs: Seq<EventRecord>, ops: Map<OpId, StoredOp>, ids: Seq<OpId>, order: HistoryOrder) -> bool {
    &&& recs.len() == listed_in(ids, order).len()
    &&& forall|i: int| 0 <= i < recs.len() ==> #[trigger] shows_event(recs[i], ops, listed_in(ids, order)[i])
}

/// `ids` as a read in `order` lists them.
pub open spec fn listed_in(ids: Seq<OpId>, order: HistoryOrder) -> Seq<OpId> {
    if order == HistoryOrder::OldestFirst { ids } else { ids.reverse() }
}

/// The clock a cursor read is taken after, if any.
pub open spec fn clock_view(after: Option<&ActorClock>) -> Option<Map<ActorId, u64>> {
    match after { Some(c) => Some(c@), None => None }
}

/// The records of the events among `ops`, copies of the stored ops `order`, in
/// their order, with the positions `store` holds.
pub(crate) fn records_of(store: &MemoryStorage, ops: &Vec<Op>, Ghost(order): Ghost<Seq<OpId>>, after: Option<&ActorClock>) -> (r: Vec<EventRecord>)
    requires
        ops@.len() == order.len(),
        forall|k: int| 0 <= k < order.len() ==> same_op(#[trigger] ops@[k], store.ops_map()[order[k]].op)
            && held_whole(store.ops_map(), order[k]),
    ensures
        shows_events(r@, store.ops_map(), event_ids(store.ops_map(), order, clock_view(after)), HistoryOrder::OldestFirst),
{
    let ghost m = store.ops_map();
    let ghost c = clock_view(after);
    let mut out: Vec<EventRecord> = Vec::new();
    let mut i: usize = 0;
    while i < ops.len()
        invariant
            i <= ops@.len(),
            ops@.len() == order.len(),
            m == store.ops_map(),
            c == clock_view(after),
            forall|k: int| 0 <= k < order.len() ==> same_op(#[trigger] ops@[k], m[order[k]].op) && held_whole(m, order[k]),
            out@.len() == event_ids(m, order.take(i as int), c).len(),
            forall|k: int| 0 <= k < out@.len() ==> #[trigger] shows_event(out@[k], m, event_ids(m, order.take(i as int), c)[k]),
        decreases ops@.len() - i,
    {
        let op = &ops[i];
        let ghost id = order[i as int];
        proof {
            assert(same_op(ops@[i as int], m[id].op));
            assert(order.take(i as int + 1).drop_last() =~= order.take(i as int));
            assert(order.take(i as int + 1).last() == id);
        }
        let fresh = match after {
            Some(cl) => !cl.covers(&op.signed.body.actor_id, op.signed.body.actor_seq),
            None => true,
        };
        match &op.signed.body.payload {
            TopicPayload::Event(e) => {
                if fresh {
                    let observed = match store.get_meta(&op.id) {
                        Some(meta) => meta.observed_clock.duplicate(),
                        None => ActorClock::new(),
                    };
                    let event = EventEnvelope { type_id: e.type_id.clone(), payload: copy_bytes(&e.payload) };
                    out.push(EventRecord::new(event, op.id, op.signed.body.actor_id, op.signed.body.actor_seq, observed));
                    proof {
                        assert(fresh_event(m, id, c));
                        let ev = event_ids(m, order.take(i as int + 1), c);
                        assert(ev == event_ids(m, order.take(i as int), c).push(id));
                        assert forall|k: int| 0 <= k < out@.len() implies #[trigger] shows_event(out@[k], m, ev[k]) by {
                            if k < out@.len() - 1 {
                                assert(ev[k] == event_ids(m, order.take(i as int), c)[k]);
                            }
                        }
                    }
                } else {
                    proof {
                        assert(!fresh_event(m, id, c));
                        assert(event_ids(m, order.take(i as int + 1), c) == event_ids(m, order.take(i as int), c));
                    }
                }
            },
            _ => {
                proof {
                    assert(!fresh_event(m, id, c));
                    assert(event_ids(m, order.take(i as int + 1), c) == event_ids(m, order.take(i as int), c));
                }
            },
        }
        i += 1;
    }
    proof { assert(order.take(i as int) =~= order); }
    out
}

/// Records showing events oldest first show them newest first once reversed.
proof fn lemma_ordered_shows(records: Seq<EventRecord>, r: Seq<EventRecord>, ops: Map<OpId, StoredOp>, ids: Seq<OpId>, order: HistoryOrder)
    requires
        shows_events(records, ops, ids, HistoryOrder::OldestFirst),
        order == HistoryOrder::OldestFirst ==> r == records,
        order == HistoryOrder::NewestFirst ==> r == records.reverse(),
    ensures shows_events(r, ops, ids, order),
{
    if order == HistoryOrder::NewestFirst {
        assert(listed_in(ids, HistoryOrder::OldestFirst) == ids);
        assert forall|i: int| 0 <= i < r.len() implies #[trigger] shows_event(r[i], ops, listed_in(ids, order)[i]) by {
            let j = records.len() - 1 - i;
            assert(r[i] == records[j]);
            assert(ids.reverse()[i] == ids[ids.len() - 1 - i]);
            assert(shows_event(records[j], ops, listed_in(ids, HistoryOrder::OldestFirst)[j]));
        }
    }
}

/// A finite set keeps its size after removing a part only when the part is empty.
proof fn lemma_nothing_blocked(ids: Set<OpId>, blocked: Set<OpId>, order: Seq<OpId>)
    requires
        ids.finite(),
        blocked.subset_of(ids),
        order.to_set() == ids.difference(blocked),
        order.no_duplicates(),
        order.len() == ids.len(),
    ensures blocked == Set::<OpId>::empty(),
{
    order.unique_seq_to_set();
    if blocked.len() > 0 {
        let b = blocked.choose();
        assert(blocked.contains(b));
        assert(ids.difference(blocked).subset_of(ids.remove(b)));
        vstd::set_lib::lemma_len_subset(ids.difference(blocked), ids.remove(b));
    }
    assert(blocked =~= Set::<OpId>::empty()) by {
        if blocked.len() == 0 {
            vstd::set_lib::lemma_set_empty_equivalency_len(blocked);
        }
    }
}

/// Two reads of one topic's events, from stores holding the same operations,
/// return the same events in the same order: history order is a function of the
/// set of operations, not of the order they arrived in.
pub proof fn lemma_history_deterministic(ops: Map<OpId, StoredOp>, topic: TopicId, first: Seq<OpId>, second: Seq<OpId>,
    after: Option<Map<ActorId, u64>>)
    requires
        history_order(ops, spec_topic_ids(ops, topic), Set::empty(), first),
        history_order(ops, spec_topic_ids(ops, topic), Set::empty(), second),
    ensures
        first == second,
        event_ids(ops, first, after) == event_ids(ops, second, after),
{
    crate::oplog::topology::lemma_history_order_unique(ops, first, second);
}

/// The lower of two clocks actor by actor, over the actors both hold.
pub open spec fn clock_meet(a: Map<ActorId, u64>, b: Map<ActorId, u64>) -> Map<ActorId, u64> {
    Map::new(|x: ActorId| a.contains_key(x) && b.contains_key(x), |x: ActorId| if a[x] <= b[x] { a[x] } else { b[x] })
}

/// Each actor's admitted position in `topic` held in `s`.
pub open spec fn tips_clock(s: MemoryStorage, topic: TopicId) -> Map<ActorId, u64> {
    Map::new(|a: ActorId| s.topics_map().contains_key(topic) && s.topics_map()[topic].tips@.contains_key(a),
        |a: ActorId| s.topics_map()[topic].tips@[a].seq)
}

/// The clock `own`, met with the acked clock of each of `members` other than `me`
/// on the branch `genesis`; empty once one of them has no ack for that branch.
pub open spec fn observed_of(acks: Seq<crate::storage::PeerAck>, topic: TopicId, genesis: OpId, me: PeerId,
    own: Map<ActorId, u64>, members: Seq<PeerId>) -> Map<ActorId, u64>
    decreases members.len(),
{
    if members.len() == 0 {
        own
    } else {
        let prev = observed_of(acks, topic, genesis, me, own, members.drop_last());
        let p = members.last();
        if p == me {
            prev
        } else {
            match crate::storage::ack_of(acks, p, topic) {
                Some(a) => if a.genesis == genesis { clock_meet(prev, a.clock@) } else { Map::empty() },
                None => Map::empty(),
            }
        }
    }
}

/// Whether `p`, a member other than `me`, holds an ack for `topic` on the branch `genesis`.
pub open spec fn acked_on(acks: Seq<crate::storage::PeerAck>, p: PeerId, topic: TopicId, genesis: OpId) -> bool {
    crate::storage::ack_of(acks, p, topic) matches Some(a) && a.genesis == genesis
}

/// What every member is known to hold: nothing when some member other than this
/// node has no ack for the topic on the current branch; otherwise no actor past
/// this node's own position, nor past what any other member acked.
pub proof fn lemma_observed_bound(acks: Seq<crate::storage::PeerAck>, topic: TopicId, genesis: OpId, me: PeerId,
    own: Map<ActorId, u64>, members: Seq<PeerId>)
    ensures
        (exists|i: int| 0 <= i < members.len() && members[i] != me && !#[trigger] acked_on(acks, members[i], topic, genesis))
            ==> observed_of(acks, topic, genesis, me, own, members) == Map::<ActorId, u64>::empty(),
        forall|x: ActorId| #[trigger] observed_of(acks, topic, genesis, me, own, members).contains_key(x)
            ==> own.contains_key(x) && observed_of(acks, topic, genesis, me, own, members)[x] <= own[x],
        forall|x: ActorId, i: int| 0 <= i < members.len() && members[i] != me
            && #[trigger] observed_of(acks, topic, genesis, me, own, members).contains_key(x)
            ==> crate::storage::ack_of(acks, #[trigger] members[i], topic) is Some
                && crate::storage::ack_of(acks, members[i], topic)->Some_0.clock@.contains_key(x)
                && observed_of(acks, topic, genesis, me, own, members)[x] <= crate::storage::ack_of(acks, members[i], topic)->Some_0.clock@[x],
    decreases members.len(),
{
    if members.len() > 0 {
        let rest = members.drop_last();
        lemma_observed_bound(acks, topic, genesis, me, own, rest);
        let prev = observed_of(acks, topic, genesis, me, own, rest);
        let p = members.last();
        let r = observed_of(acks, topic, genesis, me, own, members);
        assert forall|m: Map<ActorId, u64>| clock_meet(Map::<ActorId, u64>::empty(), m) == Map::<ActorId, u64>::empty() by {
            assert(clock_meet(Map::<ActorId, u64>::empty(), m) =~= Map::<ActorId, u64>::empty());
        }
        if exists|i: int| 0 <= i < members.len() && members[i] != me && !#[trigger] acked_on(acks, members[i], topic, genesis) {
            let i = choose|i: int| 0 <= i < members.len() && members[i] != me && !#[trigger] acked_on(acks, members[i], topic, genesis);
            if i < members.len() - 1 {
                assert(rest[i] == members[i]);
                assert(prev == Map::<ActorId, u64>::empty());
            }
        }
        assert forall|x: ActorId, i: int| 0 <= i < members.len() && members[i] != me
            && #[trigger] r.contains_key(x)
            implies crate::storage::ack_of(acks, #[trigger] members[i], topic) is Some
                && crate::storage::ack_of(acks, members[i], topic)->Some_0.clock@.contains_key(x)
                && r[x] <= crate::storage::ack_of(acks, members[i], topic)->Some_0.clock@[x] by {
            if i < members.len() - 1 {
                assert(rest[i] == members[i]);
                assert(prev.contains_key(x));
            }
        }
    }
}

/// [`lemma_observed_bound`] over the member set of a topic state.
proof fn lemma_observed_members(acks: Seq<crate::storage::PeerAck>, topic: TopicId, genesis: OpId, me: PeerId,
    own: Map<ActorId, u64>, members: IdSet)
    ensures
        (exists|p: PeerId| #[trigger] members@.contains(p) && p != me && !acked_on(acks, p, topic, genesis))
            ==> observed_of(acks, topic, genesis, me, own, members.elems()) == Map::<ActorId, u64>::empty(),
        forall|x: ActorId, p: PeerId| #[trigger] members@.contains(p) && p != me
            && #[trigger] observed_of(acks, topic, genesis, me, own, members.elems()).contains_key(x)
            ==> crate::storage::ack_of(acks, p, topic) is Some
                && crate::storage::ack_of(acks, p, topic)->Some_0.clock@.contains_key(x)
                && observed_of(acks, topic, genesis, me, own, members.elems())[x] <= crate::storage::ack_of(acks, p, topic)->Some_0.clock@[x],
{
    members.lemma_view_elems();
    let e = members.elems();
    lemma_observed_bound(acks, topic, genesis, me, own, e);
    if exists|p: PeerId| #[trigger] members@.contains(p) && p != me && !acked_on(acks, p, topic, genesis) {
        let p = choose|p: PeerId| #[trigger] members@.contains(p) && p != me && !acked_on(acks, p, topic, genesis);
        assert(e.to_set().contains(p));
        let i = choose|i: int| 0 <= i < e.len() && e[i] == p;
        assert(!acked_on(acks, e[i], topic, genesis));
    }
    assert forall|x: ActorId, p: PeerId| #[trigger] members@.contains(p) && p != me
        && #[trigger] observed_of(acks, topic, genesis, me, own, e).contains_key(x)
        implies crate::storage::ack_of(acks, p, topic) is Some
            && crate::storage::ack_of(acks, p, topic)->Some_0.clock@.contains_key(x)
            && observed_of(acks, topic, genesis, me, own, e)[x] <= crate::storage::ack_of(acks, p, topic)->Some_0.clock@[x] by {
        assert(e.to_set().contains(p));
        let i = choose|i: int| 0 <= i < e.len() && e[i] == p;
        assert(e[i] == p);
    }
}

/// Once the meet over a prefix of the members is empty, the meet over all of them is.
proof fn lemma_observed_absorbs(acks: Seq<crate::storage::PeerAck>, topic: TopicId, genesis: OpId, me: PeerId,
    own: Map<ActorId, u64>, members: Seq<PeerId>, k: int)
    requires
        0 <= k <= members.len(),
        observed_of(acks, topic, genesis, me, own, members.take(k)) == Map::<ActorId, u64>::empty(),
    ensures observed_of(acks, topic, genesis, me, own, members) == Map::<ActorId, u64>::empty(),
    decreases members.len(),
{
    if k == members.len() {
        assert(members.take(k) =~= members);
    } else {
        assert(members.drop_last().take(k) =~= members.take(k));
        lemma_observed_absorbs(acks, topic, genesis, me, own, members.drop_last(), k);
        let prev = observed_of(acks, topic, genesis, me, own, members.drop_last());
        assert forall|a: Map<ActorId, u64>| clock_meet(prev, a) == Map::<ActorId, u64>::empty() by {
            assert(clock_meet(prev, a) =~= Map::<ActorId, u64>::empty());
        }
    }
}

/// A topic whose ops can all be ordered has no hole.
pub proof fn lemma_whole_no_hole(ops: Map<OpId, StoredOp>, topic: TopicId)
    requires whole_ok(ops, spec_topic_ids(ops, topic)),
    ensures forall|id: OpId| !is_hole(ops, topic, id),
{
    assert forall|id: OpId| !is_hole(ops, topic, id) by {
        if spec_topic_ids(ops, topic).contains(id) {
            assert(held_whole(ops, id));
        }
        if exists|x: OpId| #[trigger] spec_topic_ids(ops, topic).contains(x) && ops[x].has_meta
            && ops[x].meta.deps@.contains(id) && !crate::storage::spec_resolvable(ops, id) {
            let x = choose|x: OpId| #[trigger] spec_topic_ids(ops, topic).contains(x) && ops[x].has_meta
                && ops[x].meta.deps@.contains(id) && !crate::storage::spec_resolvable(ops, id);
            assert(held_whole(ops, id));
        }
    }
}

impl Irokle {
    /// The topic's events in `order`. A topic with an op that cannot be read yet fails,
    /// so no consumer sees a history with a gap.
    pub fn topic_history(&self, topic_id: TopicId, order: HistoryOrder) -> (r: Result<Vec<EventRecord>, Error>)
        ensures
            (exists|id: OpId| is_hole(self.store().ops_map(), topic_id, id)) ==> r is Err,
            whole_ok(self.store().ops_map(), spec_topic_ids(self.store().ops_map(), topic_id)) ==> r is Ok,
            r matches Ok(v) ==> exists|ids: Seq<OpId>| #[trigger] history_order(self.store().ops_map(),
                spec_topic_ids(self.store().ops_map(), topic_id), Set::empty(), ids)
                && shows_events(v@, self.store().ops_map(), event_ids(self.store().ops_map(), ids, None), order),
    {
        let store = self.storage();
        let ids = store.list_op_ids(&topic_id);
        let ops = crate::oplog::topology::topological_subset(store, &ids)?;
        let ghost m = store.ops_map();
        let ghost (seq_ids, blocked) = choose|o: Seq<OpId>, b: Set<OpId>| #[trigger] blocked_ok(m, ids@, b)
            && #[trigger] history_order(m, ids@, b, o) && ops@.len() == o.len()
            && forall|k: int| 0 <= k < ops@.len() ==> same_op(#[trigger] ops@[k], m[o[k]].op);
        proof {
            if whole_ok(m, ids@) {
                crate::oplog::topology::lemma_whole_nothing_blocked(m, ids@, blocked);
                assert(seq_ids.to_set() =~= ids@);
                seq_ids.unique_seq_to_set();
                lemma_whole_no_hole(m, topic_id);
            }
        }
        if ops.len() != ids.len() || !self.oplog().history_whole(&topic_id) {
            return Err(Error::Storage(String::new()));
        }
        proof { self.lemma_order_whole(ids@, blocked, seq_ids, ops@.len() as int); }
        let records = records_of(store, &ops, Ghost(seq_ids), None);
        let r = ordered(records, order);
        proof {
            assert(history_order(m, spec_topic_ids(m, topic_id), Set::empty(), seq_ids));
            lemma_ordered_shows(records@, r@, m, event_ids(m, seq_ids, None), order);
        }
        Ok(r)
    }

    /// A history order that lists as many ids as the set holds leaves nothing
    /// blocked, and every listed id is held whole.
    pub(crate) proof fn lemma_order_whole(&self, ids: Set<OpId>, blocked: Set<OpId>, order: Seq<OpId>, n: int)
        requires
            ids.finite(),
            n == ids.len(),
            blocked_ok(self.store().ops_map(), ids, blocked),
            history_order(self.store().ops_map(), ids, blocked, order),
            order.len() == n,
        ensures
            blocked == Set::<OpId>::empty(),
            history_order(self.store().ops_map(), ids, Set::empty(), order),
            forall|k: int| 0 <= k < order.len() ==> held_whole(self.store().ops_map(), #[trigger] order[k]),
    {
        lemma_nothing_blocked(ids, blocked, order);
        assert forall|k: int| 0 <= k < order.len() implies held_whole(self.store().ops_map(), #[trigger] order[k]) by {
            assert(order.to_set().contains(order[k]));
            assert(ids.contains(order[k]));
            assert(!blocked.contains(order[k]));
        }
    }

    /// The topic's events not covered by `cursor`, in `order`. A cursor of a replaced
    /// genesis fails with `StaleIncarnation`.
    pub fn history_after_cursor(&self, topic_id: TopicId, cursor: &HistoryCursor, order: HistoryOrder)
        -> (r: Result<Vec<EventRecord>, Error>)
        ensures
            !has_state(self.store(), topic_id) ==> r matches Err(Error::TopicNotFound),
            has_state(self.store(), topic_id) && self.store().topics_map()[topic_id].state.genesis != cursor.genesis
                ==> r matches Err(Error::StaleIncarnation),
            (exists|id: OpId| is_hole(self.store().ops_map(), topic_id, id)) ==> r is Err,
            r matches Ok(v) ==> exists|ids: Seq<OpId>| #[trigger] history_order(self.store().ops_map(),
                spec_topic_ids(self.store().ops_map(), topic_id), Set::empty(), ids)
                && shows_events(v@, self.store().ops_map(), event_ids(self.store().ops_map(), ids, Some(cursor.clock@)), order),
    {
        let store = self.storage();
        let genesis = match store.topic_state(&topic_id) {
            Some(s) => s.genesis,
            None => return Err(Error::TopicNotFound),
        };
        if !genesis.same(&cursor.genesis) {
            return Err(Error::StaleIncarnation);
        }
        if !self.oplog().history_whole(&topic_id) {
            return Err(Error::Storage(String::new()));
        }
        let ids = store.list_op_ids(&topic_id);
        let ops = crate::oplog::topology::topological_subset(store, &ids)?;
        if ops.len() != ids.len() {
            return Err(Error::Storage(String::new()));
        }
        let ghost m = store.ops_map();
        let ghost (seq_ids, blocked) = choose|o: Seq<OpId>, b: Set<OpId>| #[trigger] blocked_ok(m, ids@, b)
            && #[trigger] history_order(m, ids@, b, o) && ops@.len() == o.len()
            && forall|k: int| 0 <= k < ops@.len() ==> same_op(#[trigger] ops@[k], m[o[k]].op);
        proof { self.lemma_order_whole(ids@, blocked, seq_ids, ops@.len() as int); }
        let records = records_of(store, &ops, Ghost(seq_ids), Some(&cursor.clock));
        let r = ordered(records, order);
        proof {
            assert(history_order(m, spec_topic_ids(m, topic_id), Set::empty(), seq_ids));
            lemma_ordered_shows(records@, r@, m, event_ids(m, seq_ids, Some(cursor.clock@)), order);
        }
        Ok(r)
    }

    /// The current branch and actor clock, read together, for a later read after them.
    pub fn topic_history_cursor(&self, topic_id: TopicId) -> (r: Result<HistoryCursor, Error>)
        ensures
            !has_state(self.store(), topic_id) <==> r matches Err(Error::TopicNotFound),
            r is Ok <==> has_state(self.store(), topic_id),
            r matches Ok(c) ==> c.genesis == self.store().topics_map()[topic_id].state.genesis,
            r matches Ok(c) ==> forall|a: ActorId| #[trigger] c.clock@.contains_key(a) <==>
                self.store().topics_map()[topic_id].tips@.contains_key(a),
            r matches Ok(c) ==> forall|a: ActorId| #[trigger] c.clock@.contains_key(a) ==>
                c.clock@[a] == self.store().topics_map()[topic_id].tips@[a].seq,
    {
        let store = self.storage();
        match store.topic_state(&topic_id) {
            Some(s) => Ok(HistoryCursor { genesis: s.genesis, clock: store.actor_clock(&topic_id) }),
            None => Err(Error::TopicNotFound),
        }
    }

    /// The actor clock every other member is certified, by an ack for the branch held
    /// now, to hold; empty when some member has no such ack.
    pub fn topic_observed_clock(&self, topic_id: TopicId) -> (r: Result<ActorClock, Error>)
        ensures
            !has_state(self.store(), topic_id) <==> r matches Err(Error::TopicNotFound),
            r matches Ok(c) ==> c@ == observed_of(self.store().ack_seq(), topic_id,
                self.store().topics_map()[topic_id].state.genesis, self.spec_peer_id(), tips_clock(self.store(), topic_id),
                self.store().topics_map()[topic_id].state.members.elems()),
            r matches Ok(c) ==> forall|a: ActorId| #[trigger] c@.contains_key(a) ==>
                self.store().topics_map()[topic_id].tips@.contains_key(a)
                && c@[a] <= self.store().topics_map()[topic_id].tips@[a].seq,
            (exists|p: PeerId| #[trigger] self.store().topics_map()[topic_id].state.members@.contains(p)
                && p != self.spec_peer_id() && !acked_on(self.store().ack_seq(), p, topic_id, self.store().topics_map()[topic_id].state.genesis))
                ==> (r matches Ok(c) ==> c@ == Map::<ActorId, u64>::empty()),
            r matches Ok(c) ==> forall|x: ActorId, p: PeerId| #[trigger] self.store().topics_map()[topic_id].state.members@.contains(p)
                && p != self.spec_peer_id() && #[trigger] c@.contains_key(x)
                ==> crate::storage::ack_of(self.store().ack_seq(), p, topic_id) is Some
                    && crate::storage::ack_of(self.store().ack_seq(), p, topic_id)->Some_0.clock@.contains_key(x)
                    && c@[x] <= crate::storage::ack_of(self.store().ack_seq(), p, topic_id)->Some_0.clock@[x],
    {
        let store = self.storage();
        let state = match store.topic_state(&topic_id) {
            Some(s) => s,
            None => return Err(Error::TopicNotFound),
        };
        proof {
            lemma_observed_members(self.store().ack_seq(), topic_id, state.genesis, self.spec_peer_id(),
                tips_clock(self.store(), topic_id), state.members);
        }
        let me = self.peer_id();
        let mut clock = store.actor_clock(&topic_id);
        let members = state.members.to_vec();
        let ghost acks = self.store().ack_seq();
        let ghost genesis = state.genesis;
        let ghost own = tips_clock(self.store(), topic_id);
        proof { assert(clock@ =~= own); assert(members@.take(0) =~= Seq::<PeerId>::empty()); }
        let mut i: usize = 0;
        while i < members.len()
            invariant
                i <= members@.len(),
                *store == self.store(),
                has_state(self.store(), topic_id),
                acks == self.store().ack_seq(),
                genesis == self.store().topics_map()[topic_id].state.genesis,
                own == tips_clock(self.store(), topic_id),
                members@ == self.store().topics_map()[topic_id].state.members.elems(),
                me == self.spec_peer_id(),
                *state == self.store().topics_map()[topic_id].state,
                clock@ == observed_of(acks, topic_id, genesis, me, own, members@.take(i as int)),
                forall|a: ActorId| #[trigger] clock@.contains_key(a) ==>
                    self.store().topics_map()[topic_id].tips@.contains_key(a)
                    && clock@[a] <= self.store().topics_map()[topic_id].tips@[a].seq,
            decreases members@.len() - i,
        {
            let peer = members[i];
            let ghost prev = clock@;
            proof {
                assert(members@.take(i as int + 1).drop_last() =~= members@.take(i as int));
                assert(members@.take(i as int + 1).last() == peer);
            }
            if !peer.same(&me) {
                match store.peer_ack(&peer, &topic_id) {
                    Some(ack) => {
                        if ack.genesis.same(&state.genesis) {
                            clock = clock.intersect(&ack.clock);
                            proof { assert(clock@ =~= clock_meet(prev, ack.clock@)); }
                        } else {
                            proof { lemma_observed_absorbs(acks, topic_id, genesis, me, own, members@, i + 1); }
                            return Ok(ActorClock::new());
                        }
                    },
                    None => {
                        proof { lemma_observed_absorbs(acks, topic_id, genesis, me, own, members@, i + 1); }
                        return Ok(ActorClock::new());
                    },
                }
            }
            i += 1;
        }
        proof { assert(members@.take(members@.len() as int) =~= members@); }
        Ok(clock)
    }
}

impl Topic {
    /// The topic's events in `order`.
    pub fn history(&self, node: &Irokle, order: HistoryOrder) -> (r: Result<Vec<EventRecord>, Error>)
        ensures
            (exists|id: OpId| is_hole(node.store().ops_map(), self.spec_topic_id(), id)) ==> r is Err,
            whole_ok(node.store().ops_map(), spec_topic_ids(node.store().ops_map(), self.spec_topic_id())) ==> r is Ok,
            r matches Ok(v) ==> exists|ids: Seq<OpId>| #[trigger] history_order(node.store().ops_map(),
                spec_topic_ids(node.store().ops_map(), self.spec_topic_id()), Set::empty(), ids)
                && shows_events(v@, node.store().ops_map(), event_ids(node.store().ops_map(), ids, None), order),
    {
        node.topic_history(self.id(), order)
    }

    /// The topic's events not covered by `cursor`, in `order`.
    pub fn history_after(&self, node: &Irokle, cursor: &HistoryCursor, order: HistoryOrder) -> (r: Result<Vec<EventRecord>, Error>)
        ensures
            has_state(node.store(), self.spec_topic_id()) && node.store().topics_map()[self.spec_topic_id()].state.genesis != cursor.genesis
                ==> r matches Err(Error::StaleIncarnation),
            r matches Ok(v) ==> exists|ids: Seq<OpId>| #[trigger] history_order(node.store().ops_map(),
                spec_topic_ids(node.store().ops_map(), self.spec_topic_id()), Set::empty(), ids)
                && shows_events(v@, node.store().ops_map(), event_ids(node.store().ops_map(), ids, Some(cursor.clock@)), order),
    {
        node.history_after_cursor(self.id(), cursor, order)
    }

    /// The current branch and actor clock, for a later [`Self::history_after`].
    pub fn history_cursor(&self, node: &Irokle) -> (r: Result<HistoryCursor, Error>)
        ensures
            !has_state(node.store(), self.spec_topic_id()) <==> r matches Err(Error::TopicNotFound),
            r is Ok <==> has_state(node.store(), self.spec_topic_id()),
            r matches Ok(c) ==> c.genesis == node.store().topics_map()[self.spec_topic_id()].state.genesis,
            r matches Ok(c) ==> forall|a: ActorId| #[trigger] c.clock@.contains_key(a) <==>
                node.store().topics_map()[self.spec_topic_id()].tips@.contains_key(a),
            r matches Ok(c) ==> forall|a: ActorId| #[trigger] c.clock@.contains_key(a) ==>
                c.clock@[a] == node.store().topics_map()[self.spec_topic_id()].tips@[a].seq,
    {
        node.topic_history_cursor(self.id())
    }

    /// The clock every other member is certified to hold.
    pub fn observed_clock(&self, node: &Irokle) -> (r: Result<ActorClock, Error>)
        ensures
            !has_state(node.store(), self.spec_topic_id()) <==> r matches Err(Error::TopicNotFound),
            r matches Ok(c) ==> c@ == observed_of(node.store().ack_seq(), self.spec_topic_id(),
                node.store().topics_map()[self.spec_topic_id()].state.genesis, node.spec_peer_id(),
                tips_clock(node.store(), self.spec_topic_id()),
                node.store().topics_map()[self.spec_topic_id()].state.members.elems()),
            (exists|p: PeerId| #[trigger] node.store().topics_map()[self.spec_topic_id()].state.members@.contains(p)
                && p != node.spec_peer_id() && !acked_on(node.store().ack_seq(), p, self.spec_topic_id(), node.store().topics_map()[self.spec_topic_id()].state.genesis))
                ==> (r matches Ok(c) ==> c@ == Map::<ActorId, u64>::empty()),
            r matches Ok(c) ==> forall|x: ActorId, p: PeerId| #[trigger] node.store().topics_map()[self.spec_topic_id()].state.members@.contains(p)
                && p != node.spec_peer_id() && #[trigger] c@.contains_key(x)
                ==> crate::storage::ack_of(node.store().ack_seq(), p, self.spec_topic_id()) is Some
                    && crate::storage::ack_of(node.store().ack_seq(), p, self.spec_topic_id())->Some_0.clock@.contains_key(x)
                    && c@[x] <= crate::storage::ack_of(node.store().ack_seq(), p, self.spec_topic_id())->Some_0.clock@[x],
    {
        node.topic_observed_clock(self.id())
    }

    /// Whether `peer_id` is certified to hold `op_id`, which must be of this topic.
    pub fn peer_reached_op(&self, node: &Irokle, peer_id: PeerId, op_id: OpId) -> (r: Result<bool, Error>)
        ensures
            r matches Ok(b) ==> b == reached(node.store(), peer_id, op_id),
            r is Err <==> (node.store().ops_map().contains_key(op_id) && node.store().ops_map()[op_id].has_meta
                && node.store().ops_map()[op_id].meta.id == op_id && node.store().ops_map()[op_id].meta.topic_id != self.spec_topic_id()),
            r matches Err(e) ==> e is TopicMismatch,
    {
        match node.storage().get_meta(&op_id) {
            Some(m) => if !m.topic_id.same(&self.id()) { return Err(Error::TopicMismatch); },
            None => {},
        }
        Ok(node.peer_reached_op(peer_id, op_id))
    }

    /// The peers certified to hold `op_id`, which must be of this topic.
    pub fn peers_reached_op(&self, node: &Irokle, op_id: OpId) -> (r: Result<Vec<PeerId>, Error>)
        ensures
            r matches Ok(v) ==> forall|p: PeerId| v@.contains(p) <==> reached(node.store(), p, op_id),
            r is Err <==> (node.store().ops_map().contains_key(op_id) && node.store().ops_map()[op_id].has_meta
                && node.store().ops_map()[op_id].meta.id == op_id && node.store().ops_map()[op_id].meta.topic_id != self.spec_topic_id()),
            r matches Err(e) ==> e is TopicMismatch,
    {
        match node.storage().get_meta(&op_id) {
            Some(m) => if !m.topic_id.same(&self.id()) { return Err(Error::TopicMismatch); },
            None => {},
        }
        Ok(node.peers_reached_op(op_id))
    }
}

impl RawTopic {
    /// Whether `peer_id` is certified to hold `op_id`, which must be of this topic.
    pub fn peer_reached_op(&self, node: &Irokle, peer_id: PeerId, op_id: OpId) -> (r: Result<bool, Error>)
        ensures
            r matches Ok(b) ==> b == reached(node.store(), peer_id, op_id),
            r is Err <==> (node.store().ops_map().contains_key(op_id) && node.store().ops_map()[op_id].has_meta
                && node.store().ops_map()[op_id].meta.id == op_id && node.store().ops_map()[op_id].meta.topic_id != self.spec_topic_id()),
            r matches Err(e) ==> e is TopicMismatch,
    {
        match node.storage().get_meta(&op_id) {
            Some(m) => if !m.topic_id.same(&self.id()) { return Err(Error::TopicMismatch); },
            None => {},
        }
        Ok(node.peer_reached_op(peer_id, op_id))
    }

    /// The peers certified to hold `op_id`, which must be of this topic.
    pub fn peers_reached_op(&self, node: &Irokle, op_id: OpId) -> (r: Result<Vec<PeerId>, Error>)
        ensures
            r matches Ok(v) ==> forall|p: PeerId| v@.contains(p) <==> reached(node.store(), p, op_id),
            r is Err <==> (node.store().ops_map().contains_key(op_id) && node.store().ops_map()[op_id].has_meta
                && node.store().ops_map()[op_id].meta.id == op_id && node.store().ops_map()[op_id].meta.topic_id != self.spec_topic_id()),
            r matches Err(e) ==> e is TopicMismatch,
    {
        match node.storage().get_meta(&op_id) {
            Some(m) => if !m.topic_id.same(&self.id()) { return Err(Error::TopicMismatch); },
            None => {},
        }
        Ok(node.peers_reached_op(op_id))
    }
}

impl Topic {
    /// The topic's events, oldest first.
    pub fn events(&self, node: &Irokle) -> (r: Result<Vec<EventRecord>, Error>)
        ensures
            (exists|id: OpId| is_hole(node.store().ops_map(), self.spec_topic_id(), id)) ==> r is Err,
            whole_ok(node.store().ops_map(), spec_topic_ids(node.store().ops_map(), self.spec_topic_id())) ==> r is Ok,
            r matches Ok(v) ==> exists|ids: Seq<OpId>| #[trigger] history_order(node.store().ops_map(),
                spec_topic_ids(node.store().ops_map(), self.spec_topic_id()), Set::empty(), ids)
                && shows_events(v@, node.store().ops_map(), event_ids(node.store().ops_map(), ids, None), HistoryOrder::OldestFirst),
    {
        self.history(node, HistoryOrder::OldestFirst)
    }
}

/// The history of a topic read newest first is its history read oldest first,
/// reversed: the same events, one for one, in the opposite order.
pub proof fn lemma_newest_first_reverses(s: MemoryStorage, topic: TopicId, oldest: Seq<EventRecord>, newest: Seq<EventRecord>)
    requires
        history_records(s, topic, HistoryOrder::OldestFirst, oldest),
        history_records(s, topic, HistoryOrder::NewestFirst, newest),
    ensures
        newest.len() == oldest.len(),
        forall|i: int| 0 <= i < newest.len() ==> (#[trigger] newest[i]).meta.op_id == oldest[oldest.len() - 1 - i].meta.op_id,
{
    let m = s.ops_map();
    let ids = spec_topic_ids(m, topic);
    let a = choose|x: Seq<OpId>| #[trigger] history_order(m, ids, Set::empty(), x)
        && shows_events(oldest, m, event_ids(m, x, None), HistoryOrder::OldestFirst);
    let b = choose|x: Seq<OpId>| #[trigger] history_order(m, ids, Set::empty(), x)
        && shows_events(newest, m, event_ids(m, x, None), HistoryOrder::NewestFirst);
    crate::oplog::topology::lemma_history_order_unique(m, a, b);
    let e = event_ids(m, a, None);
    assert(listed_in(e, HistoryOrder::OldestFirst) == e);
    assert(listed_in(e, HistoryOrder::NewestFirst) == e.reverse());
    assert forall|i: int| 0 <= i < newest.len() implies (#[trigger] newest[i]).meta.op_id == oldest[oldest.len() - 1 - i].meta.op_id by {
        assert(shows_event(newest[i], m, e.reverse()[i]));
        assert(shows_event(oldest[oldest.len() - 1 - i], m, e[oldest.len() - 1 - i]));
    }
}

/// Two reads of one topic's history in one order from one store give the same
/// events, one for one, in the same order.
pub proof fn lemma_history_reads_repeat(s: MemoryStorage, topic: TopicId, order: HistoryOrder, first: Seq<EventRecord>,
    second: Seq<EventRecord>)
    requires
        history_records(s, topic, order, first),
        history_records(s, topic, order, second),
    ensures
        first.len() == second.len(),
        forall|i: int| 0 <= i < first.len() ==> (#[trigger] first[i]).meta.op_id == second[i].meta.op_id
            && first[i].meta.actor_id == second[i].meta.actor_id && first[i].meta.actor_seq == second[i].meta.actor_seq
            && first[i].event.type_id@ == second[i].event.type_id@ && first[i].event.payload@ == second[i].event.payload@
            && first[i].meta.observed_clock@ == second[i].meta.observed_clock@,
{
    let m = s.ops_map();
    let ids = spec_topic_ids(m, topic);
    let a = choose|x: Seq<OpId>| #[trigger] history_order(m, ids, Set::empty(), x)
        && shows_events(first, m, event_ids(m, x, None), order);
    let b = choose|x: Seq<OpId>| #[trigger] history_order(m, ids, Set::empty(), x)
        && shows_events(second, m, event_ids(m, x, None), order);
    crate::oplog::topology::lemma_history_order_unique(m, a, b);
    let e = listed_in(event_ids(m, a, None), order);
    assert forall|i: int| 0 <= i < first.len() implies (#[trigger] first[i]).meta.op_id == second[i].meta.op_id
        && first[i].meta.actor_id == second[i].meta.actor_id && first[i].meta.actor_seq == second[i].meta.actor_seq
        && first[i].event.type_id@ == second[i].event.type_id@ && first[i].event.payload@ == second[i].event.payload@
        && first[i].meta.observed_clock@ == second[i].meta.observed_clock@ by {
        assert(shows_event(first[i], m, e[i]));
        assert(shows_event(second[i], m, e[i]));
    }
}

/// Whether `clock` is the cursor clock of `topic` in `s`: each actor at its tip.
pub open spec fn cursor_clock_of(s: MemoryStorage, topic: TopicId, clock: Map<ActorId, u64>) -> bool {
    &&& s.topics_map().contains_key(topic)
    &&& forall|a: ActorId| #[trigger] clock.contains_key(a) <==> s.topics_map()[topic].tips@.contains_key(a)
    &&& forall|a: ActorId| #[trigger] clock.contains_key(a) ==> clock[a] == s.topics_map()[topic].tips@[a].seq
}

/// An event published after a cursor was taken is among the events a read after
/// that cursor returns: its position passes the cursor's clock for its actor.
pub proof fn lemma_published_after_cursor(s0: MemoryStorage, s1: MemoryStorage, topic: TopicId, actor: ActorId, author: PeerId,
    event: EventEnvelope, rec: EventRecord, clock: Map<ActorId, u64>)
    requires
        cursor_clock_of(s0, topic, clock),
        crate::node::published_event(s0, s1, topic, actor, author, event, rec),
    ensures
        s1.ops_map().contains_key(rec.meta.op_id),
        fresh_event(s1.ops_map(), rec.meta.op_id, Some(clock)),
{
    let op = choose|op: Op| #[trigger] crate::oplog::local::local_valid(s0, op)
        && crate::oplog::local::built_on(op, topic, actor, author, crate::oplog::local::heads_of(s0, topic),
            crate::oplog::local::spec_tip(s0, topic, actor))
        && (op.signed.body.payload matches TopicPayload::Event(e) && e.type_id@ == event.type_id@ && e.payload@ == event.payload@)
        && crate::node::written(s0, s1, op)
        && op.id == rec.meta.op_id && rec.meta.actor_id == op.signed.body.actor_id && rec.meta.actor_seq == op.signed.body.actor_seq
        && rec.event == event;
    assert(s1.ops_map()[op.id].op.signed.body.actor_seq == op.signed.body.actor_seq);
    assert(s1.ops_map()[op.id].op.signed.body.actor_id == actor);
}

/// A topic with an application projection kept beside it.
pub struct ReducerTopic<R: Reducer> {
    topic: Topic,
    reducer: R,
    state: R::State,
    folded: Ghost<Seq<EventRecord>>,
}

/// Whether `v` is the history of `topic` in `s`, in `order`: the events of some
/// causal order of its ops.
pub open spec fn history_records(s: MemoryStorage, topic: TopicId, order: HistoryOrder, v: Seq<EventRecord>) -> bool {
    exists|ids: Seq<OpId>| #[trigger] history_order(s.ops_map(), spec_topic_ids(s.ops_map(), topic), Set::empty(), ids)
        && shows_events(v, s.ops_map(), event_ids(s.ops_map(), ids, None), order)
}

impl<R: Reducer + Default> ReducerTopic<R> where R::State: Default {
    /// The topic handle.
    pub closed spec fn spec_topic(&self) -> Topic {
        self.topic
    }

    /// The projection so far.
    pub closed spec fn spec_state(&self) -> R::State {
        self.state
    }

    /// The records the projection folded since it was last reset, in order.
    pub closed spec fn spec_folded(&self) -> Seq<EventRecord> {
        self.folded@
    }

    /// `topic` with a fresh reducer and an empty projection.
    pub fn new(topic: Topic) -> (r: ReducerTopic<R>)
        ensures r.spec_topic() == topic, r.spec_folded() == Seq::<EventRecord>::empty(),
    {
        ReducerTopic { topic, reducer: R::default(), state: R::State::default(), folded: Ghost(Seq::empty()) }
    }

    /// The topic's id.
    pub fn id(&self) -> (r: TopicId)
        ensures r == self.spec_topic().spec_topic_id(),
    {
        self.topic.id()
    }

    /// The topic handle.
    pub fn topic(&self) -> (r: &Topic)
        ensures *r == self.spec_topic(),
    {
        &self.topic
    }

    /// The projection so far.
    pub fn state(&self) -> (r: &R::State)
        ensures *r == self.spec_state(),
    {
        &self.state
    }

    /// Publishes `event` and folds its record into the projection.
    pub fn publish(&mut self, node: &mut Irokle, event: EventEnvelope) -> (r: Result<EventRecord, R::Error>)
        where R::Error: From<Error>,
        ensures
            final(self).spec_topic() == old(self).spec_topic(),
            r matches Ok(rec) ==> final(node).store().ops_map().contains_key(rec.meta.op_id)
                && final(self).spec_folded() == old(self).spec_folded().push(rec),
            r is Err ==> final(self).spec_folded() == old(self).spec_folded(),
    {
        let record = match self.topic.publish(node, event) {
            Ok(record) => record,
            Err(e) => { return Err(R::Error::from(e)); },
        };
        match self.reducer.apply(&mut self.state, &record) {
            Ok(()) => {},
            Err(e) => { return Err(e); },
        }
        self.folded = Ghost(self.folded@.push(record));
        Ok(record)
    }

    /// Rebuilds the projection from the topic's whole history in `order`.
    pub fn reduce_now(&mut self, node: &Irokle, order: HistoryOrder) -> (r: Result<&R::State, R::Error>)
        where R::Error: From<Error>,
        ensures
            final(self).spec_topic() == old(self).spec_topic(),
            (exists|id: OpId| is_hole(node.store().ops_map(), old(self).spec_topic().spec_topic_id(), id)) ==> r is Err,
            (exists|id: OpId| is_hole(node.store().ops_map(), old(self).spec_topic().spec_topic_id(), id))
                ==> final(self).spec_folded().len() == 0 && (r matches Err(x)
                    && (<R::Error as vstd::std_specs::convert::FromSpec<Error>>::obeys_from_spec()
                        ==> exists|e: Error| x == <R::Error as vstd::std_specs::convert::FromSpec<Error>>::from_spec(e))),
            whole_ok(node.store().ops_map(), spec_topic_ids(node.store().ops_map(), old(self).spec_topic().spec_topic_id()))
                ==> exists|v: Seq<EventRecord>| #[trigger] history_records(node.store(), old(self).spec_topic().spec_topic_id(), order, v)
                    && final(self).spec_folded() == v.take(final(self).spec_folded().len() as int)
                    && (r is Ok <==> final(self).spec_folded().len() == v.len()),
            r is Ok ==> history_records(node.store(), old(self).spec_topic().spec_topic_id(), order, final(self).spec_folded()),
    {
        self.state = R::State::default();
        self.folded = Ghost(Seq::empty());
        let records = match self.topic.history(node, order) {
            Ok(records) => records,
            Err(e) => {
                let x = R::Error::from(e);
                proof {
                    if <R::Error as vstd::std_specs::convert::FromSpec<Error>>::obeys_from_spec() {
                        assert(x == <R::Error as vstd::std_specs::convert::FromSpec<Error>>::from_spec(e));
                    }
                }
                return Err(x);
            },
        };
        let ghost v = records@;
        proof {
            assert(history_records(node.store(), self.topic.spec_topic_id(), order, v));
            assert(self.folded@ =~= v.take(0));
        }
        let mut i: usize = 0;
        while i < records.len()
            invariant
                i <= records@.len(),
                v == records@,
                self.topic == old(self).topic,
                self.folded@ == v.take(i as int),
                history_records(node.store(), self.topic.spec_topic_id(), order, v),
                !(exists|id: OpId| is_hole(node.store().ops_map(), self.topic.spec_topic_id(), id)),
            decreases records@.len() - i,
        {
            match self.reducer.apply(&mut self.state, &records[i]) {
                Ok(()) => {},
                Err(e) => { return Err(e); },
            }
            proof { assert(v.take(i as int).push(v[i as int]) =~= v.take(i as int + 1)); }
            self.folded = Ghost(self.folded@.push(records@[i as int]));
            i += 1;
        }
        proof { assert(v.take(v.len() as int) =~= v); }
        Ok(&self.state)
    }

    /// The topic's current heads.
    pub fn heads(&self, node: &Irokle) -> (r: IdSet)
        ensures r@ == crate::oplog::local::heads_of(node.store(), self.spec_topic().spec_topic_id()),
    {
        self.topic.heads(node)
    }
}

impl Irokle {
    /// Creates a topic whose events a fresh `R` folds into a projection.
    pub fn create_topic_with_reducer<R: Reducer + Default>(&mut self, config: TopicConfig, event_type_id: String)
        -> (r: Result<ReducerTopic<R>, Error>)
        where R::State: Default,
        ensures
            r matches Ok(t) ==> !has_state(old(self).store(), t.spec_topic().spec_topic_id())
                && final(self).store().topics_map().contains_key(t.spec_topic().spec_topic_id()),
            old(self).spec_write_concern() == WriteConcern::AsyncReplication ==> r matches Err(Error::ReplicationUnavailable),
    {
        let topic = self.create_topic(config, event_type_id)?;
        Ok(ReducerTopic::new(topic))
    }

    /// Opens `topic_id`, whose events a fresh `R` folds into a projection.
    pub fn open_topic_with_reducer<R: Reducer + Default>(&self, topic_id: TopicId, event_type_id: &String)
        -> (r: Result<ReducerTopic<R>, Error>)
        where R::State: Default,
        ensures
            !has_state(self.store(), topic_id) ==> r matches Err(Error::TopicNotFound),
            r matches Ok(t) ==> t.spec_topic().spec_topic_id() == topic_id
                && self.store().topics_map()[topic_id].state.members@.contains(self.spec_peer_id()),
    {
        let topic = self.open_topic(topic_id, event_type_id)?;
        Ok(ReducerTopic::new(topic))
    }
}

} // verus!
