//! The in-memory store: admitted operations with their positions, topic states,
//! buffered operations, peer acknowledgements and the eviction journal.
use vstd::prelude::*;
use crate::ids::{Id32, OpId, PeerId, TopicId, ActorId, contains_id};
use crate::idset::IdSet;
use crate::idmap::IdMap;
use crate::clock::{ActorClock, clock_at};
use crate::op::Op;
use crate::topic::ReplicationPolicy;

verus! {

/// Buffered operations one topic may hold at once.
pub const MAX_PENDING_OPS: usize = 4096;

/// Missing dependencies one buffered operation may wait for.
pub const MAX_PENDING_MISSING_DEPS: usize = 1024;

/// Milliseconds a buffered operation may wait before it expires.
pub const MAX_PENDING_IDLE_MS: u64 = 600000;

/// The position of an admitted operation in its topic's DAG.
#[derive(Debug)]
pub struct OpMeta {
    pub id: OpId,
    pub topic_id: TopicId,
    pub author: PeerId,
    pub actor_id: ActorId,
    pub actor_seq: u64,
    pub actor_prev: Option<OpId>,
    pub deps: IdSet,
    pub generation: u64,
    /// Each actor's position this operation causally observed.
    pub observed_clock: ActorClock,
}

/// The order membership and policy controls are decided in.
#[derive(Clone, Copy, Debug, PartialEq, Eq)]
pub struct ControlKey {
    pub generation: u64,
    pub actor_id: ActorId,
    pub actor_seq: u64,
    pub op_id: OpId,
}

/// Whether control key `a` sorts after `b`: by generation, then actor, position and op id.
pub open spec fn control_key_gt(a: ControlKey, b: ControlKey) -> bool {
    if a.generation != b.generation {
        a.generation > b.generation
    } else if a.actor_id != b.actor_id {
        crate::ids::id_lt(b.actor_id, a.actor_id)
    } else if a.actor_seq != b.actor_seq {
        a.actor_seq > b.actor_seq
    } else {
        crate::ids::id_lt(b.op_id, a.op_id)
    }
}

/// Whether control key `a` sorts after `b`.
pub fn control_key_after(a: &ControlKey, b: &ControlKey) -> (r: bool)
    ensures r == control_key_gt(*a, *b),
{
    if a.generation != b.generation {
        a.generation > b.generation
    } else if !a.actor_id.same(&b.actor_id) {
        b.actor_id.lt(&a.actor_id)
    } else if a.actor_seq != b.actor_seq {
        a.actor_seq > b.actor_seq
    } else {
        b.op_id.lt(&a.op_id)
    }
}

/// A membership decision and the control that made it.
#[derive(Clone, Copy, Debug)]
pub struct MembershipControl {
    pub key: ControlKey,
    pub is_member: bool,
}

/// The materialized state of a topic.
#[derive(Debug)]
pub struct TopicState {
    pub topic_id: TopicId,
    pub event_type_id: String,
    pub genesis: OpId,
    pub heads: IdSet,
    pub members: IdSet,
    pub replication_policy: ReplicationPolicy,
    /// The winning membership control of each peer a control named.
    pub membership_controls: IdMap<MembershipControl>,
    pub replication_policy_key: Option<ControlKey>,
}

/// Whether two topic states hold the same content.
pub open spec fn same_state(a: TopicState, b: TopicState) -> bool {
    &&& a.topic_id == b.topic_id
    &&& a.event_type_id@ == b.event_type_id@
    &&& a.genesis == b.genesis
    &&& a.heads@ == b.heads@
    &&& a.members@ == b.members@
    &&& crate::topic::same_policy_value(a.replication_policy, b.replication_policy)
    &&& a.membership_controls@ == b.membership_controls@
    &&& a.replication_policy_key == b.replication_policy_key
}

impl TopicState {
    /// A copy of this state.
    pub fn duplicate(&self) -> (r: TopicState)
        ensures same_state(r, *self),
    {
        TopicState {
            topic_id: self.topic_id,
            event_type_id: self.event_type_id.clone(),
            genesis: self.genesis,
            heads: self.heads.duplicate(),
            members: self.members.duplicate(),
            replication_policy: self.replication_policy.duplicate(),
            membership_controls: self.membership_controls.duplicate(),
            replication_policy_key: self.replication_policy_key,
        }
    }
}

/// The highest admitted position of an actor.
#[derive(Clone, Copy, Debug)]
pub struct ActorTip {
    pub seq: u64,
    pub id: OpId,
}

/// A topic's state with its bookkeeping.
#[derive(Debug)]
pub struct TopicRecord {
    pub state: TopicState,
    /// Incremented by every reset, so a scan of the old data is not resumed.
    pub epoch: u64,
    pub tips: IdMap<ActorTip>,
    pub max_generation: u64,
    pub sealed: bool,
}

/// An admitted operation with its position. Damage from outside may remove the
/// record or the position; the listing entry stays.
#[derive(Debug)]
pub struct StoredOp {
    pub topic_id: TopicId,
    pub op: Op,
    pub meta: OpMeta,
    pub has_record: bool,
    pub has_meta: bool,
}

/// An operation waiting for dependencies, with the peer it came from.
#[derive(Debug)]
pub struct PendingOp {
    pub source: PeerId,
    pub op: Op,
    pub missing: IdSet,
    pub since_ms: u64,
}

/// What a peer certified it holds of a topic's branch.
#[derive(Debug)]
pub struct PeerAck {
    pub peer_id: PeerId,
    pub topic_id: TopicId,
    pub genesis: OpId,
    pub clock: ActorClock,
}

/// A topic as listed: its id, event type and genesis.
#[derive(Debug)]
pub struct TopicInfo {
    pub topic_id: TopicId,
    pub event_type_id: String,
    pub genesis: OpId,
}

/// Whether `id` is held with both its record and its position.
pub open spec fn spec_resolvable(ops: Map<OpId, StoredOp>, id: OpId) -> bool {
    ops.contains_key(id) && ops[id].has_record && ops[id].has_meta
}

/// The ids a topic lists.
pub open spec fn spec_topic_ids(ops: Map<OpId, StoredOp>, topic: TopicId) -> Set<OpId> {
    Set::new(|id: OpId| ops.contains_key(id) && ops[id].topic_id == topic)
}

/// Whether a record with the key of `e` is among the journalled evictions `s`.
pub open spec fn journaled(s: Seq<crate::eviction::TopicEviction>, e: crate::eviction::TopicEviction) -> bool {
    exists|i: int| 0 <= i < s.len() && #[trigger] eviction_key_of(s[i]) == eviction_key_of(e)
}

/// Whether no two evictions of `s` share a key.
pub open spec fn keys_distinct(s: Seq<crate::eviction::TopicEviction>) -> bool {
    forall|i: int, j: int| 0 <= i < j < s.len() ==> eviction_key_of(#[trigger] s[i]) != eviction_key_of(#[trigger] s[j])
}

/// The journalled evictions, at most one per key.
#[derive(Debug)]
pub struct EvictionJournal {
    entries: Vec<crate::eviction::TopicEviction>,
}

impl EvictionJournal {
    #[verifier::type_invariant]
    spec fn inv(self) -> bool {
        keys_distinct(self.entries@)
    }

    /// Journals `eviction` unless a record with its key is already journalled.
    fn journal(&mut self, eviction: crate::eviction::TopicEviction)
        ensures
            final(self).entries@ == (if exists|i: int| 0 <= i < old(self).entries@.len()
                && #[trigger] eviction_key_of(old(self).entries@[i]) == eviction_key_of(eviction) {
                old(self).entries@
            } else {
                old(self).entries@.push(eviction)
            }),
    {
        proof { use_type_invariant(&*self); }
        let mut entries: Vec<crate::eviction::TopicEviction> = Vec::new();
        std::mem::swap(&mut entries, &mut self.entries);
        let ghost start = entries@;
        let key = eviction.key();
        let mut i: usize = 0;
        while i < entries.len()
            invariant
                i <= entries@.len(),
                entries@ == start,
                start == old(self).entries@,
                keys_distinct(start),
                key.bytes@ == eviction_key_of(eviction),
                forall|j: int| 0 <= j < i ==> #[trigger] eviction_key_of(entries@[j]) != eviction_key_of(eviction),
            decreases entries@.len() - i,
        {
            let k = entries[i].key();
            proof { crate::ids::lemma_id_bytes_eq(k, key); }
            if k.same(&key) {
                proof { assert(eviction_key_of(entries@[i as int]) == eviction_key_of(eviction)); }
                self.entries = entries;
                return;
            }
            i += 1;
        }
        entries.push(eviction);
        proof {
            assert forall|a: int, b: int| 0 <= a < b < entries@.len() implies
                eviction_key_of(#[trigger] entries@[a]) != eviction_key_of(#[trigger] entries@[b]) by {
                if b < start.len() { assert(entries@[a] == start[a] && entries@[b] == start[b]); }
                else { assert(entries@[a] == start[a]); }
            }
        }
        self.entries = entries;
    }

    /// Releases the journalled eviction named `key`.
    fn clear(&mut self, key: &Id32)
        ensures
            final(self).entries@ == old(self).entries@.filter(
                |e: crate::eviction::TopicEviction| eviction_key_of(e) != key.bytes@),
            forall|e: crate::eviction::TopicEviction| #[trigger] final(self).entries@.contains(e) <==>
                old(self).entries@.contains(e) && eviction_key_of(e) != key.bytes@,
            (forall|e: crate::eviction::TopicEviction| #[trigger] old(self).entries@.contains(e) ==> eviction_key_of(e) != key.bytes@)
                ==> final(self).entries@ == old(self).entries@,
    {
        proof { use_type_invariant(&*self); }
        let mut entries: Vec<crate::eviction::TopicEviction> = Vec::new();
        std::mem::swap(&mut entries, &mut self.entries);
        let ghost orig = entries@;
        let ghost pred = |e: crate::eviction::TopicEviction| eviction_key_of(e) != key.bytes@;
        let mut kept: Vec<crate::eviction::TopicEviction> = Vec::new();
        let mut rest: Vec<crate::eviction::TopicEviction> = entries;
        let ghost mut i: int = 0;
        while rest.len() > 0
            invariant
                keys_distinct(orig),
                0 <= i <= orig.len(),
                rest@ == orig.skip(i),
                kept@ == orig.take(i).filter(pred),
                forall|x: crate::eviction::TopicEviction| #[trigger] pred(x) == (eviction_key_of(x) != key.bytes@),
                forall|a: int| 0 <= a < kept@.len() ==> exists|b: int| 0 <= b < i && orig[b] == #[trigger] kept@[a],
                forall|a: int, b: int| 0 <= a < b < kept@.len() ==> eviction_key_of(#[trigger] kept@[a]) != eviction_key_of(#[trigger] kept@[b]),
            decreases rest@.len(),
        {
            let e = rest.remove(0);
            proof {
                assert(e == orig[i]);
                assert(orig.take(i + 1).drop_last() =~= orig.take(i));
                assert(orig.take(i + 1).last() == e);
                reveal(Seq::filter);
            }
            let k = e.key();
            proof { crate::ids::lemma_id_bytes_eq(k, *key); }
            let ghost kb = kept@;
            if !k.same(key) {
                kept.push(e);
                proof {
                    assert forall|a: int| 0 <= a < kept@.len() implies exists|b: int| 0 <= b < i + 1 && orig[b] == #[trigger] kept@[a] by {
                        if a < kb.len() {
                            let b = choose|b: int| 0 <= b < i && orig[b] == kb[a];
                            assert(orig[b] == kept@[a]);
                        } else {
                            assert(orig[i] == kept@[a]);
                        }
                    }
                    assert forall|a: int, b: int| 0 <= a < b < kept@.len() implies eviction_key_of(#[trigger] kept@[a]) != eviction_key_of(#[trigger] kept@[b]) by {
                        if b < kb.len() {
                            assert(kept@[a] == kb[a] && kept@[b] == kb[b]);
                        } else {
                            assert(kept@[a] == kb[a]);
                            let c = choose|c: int| 0 <= c < i && orig[c] == kb[a];
                            assert(orig[c] == kept@[a]);
                            assert(kept@[b] == orig[i]);
                        }
                    }
                }
            }
            proof {
                reveal(Seq::filter);
                assert(orig.take(i + 1).filter(pred) == orig.take(i).filter(pred)
                    + (if pred(e) { seq![e] } else { Seq::<crate::eviction::TopicEviction>::empty() }));
                assert(k.bytes@ == eviction_key_of(e));
                assert(pred(e) == (k != *key));
                assert(kept@ =~= orig.take(i + 1).filter(pred));
                i = i + 1;
                assert(rest@ =~= orig.skip(i));
            }
        }
        proof {
            assert(orig.skip(i).len() == 0);
            assert(orig.take(i) =~= orig);
            #[allow(deprecated)]
            orig.filter_lemma(pred);
            assert forall|x: crate::eviction::TopicEviction| #[trigger] kept@.contains(x) <==>
                orig.contains(x) && eviction_key_of(x) != key.bytes@ by {
                if kept@.contains(x) {
                    orig.lemma_filter_contains_rev(pred, x);
                    let j = choose|j: int| 0 <= j < kept@.len() && kept@[j] == x;
                    assert(pred(kept@[j]));
                }
                if orig.contains(x) && eviction_key_of(x) != key.bytes@ {
                    let j = choose|j: int| 0 <= j < orig.len() && orig[j] == x;
                    assert(pred(orig[j]));
                }
            }
            if forall|e: crate::eviction::TopicEviction| #[trigger] orig.contains(e) ==> eviction_key_of(e) != key.bytes@ {
                lemma_filter_keeps_all(orig, pred);
            }
        }
        self.entries = kept;
    }
}

/// The store. Clones are independent copies.
#[derive(Debug)]
pub struct MemoryStorage {
    ops: IdMap<StoredOp>,
    topics: IdMap<TopicRecord>,
    pending: Vec<PendingOp>,
    acks: Vec<PeerAck>,
    evictions: EvictionJournal,
    next_epoch: u64,
}

impl MemoryStorage {
    /// The stored operations by id.
    pub closed spec fn ops_map(&self) -> Map<OpId, StoredOp> {
        self.ops@
    }

    /// The topic records by topic id.
    pub closed spec fn topics_map(&self) -> Map<TopicId, TopicRecord> {
        self.topics@
    }

    /// The buffered operations.
    pub closed spec fn pending_seq(&self) -> Seq<PendingOp> {
        self.pending@
    }

    /// The journalled evictions.
    pub closed spec fn eviction_seq(&self) -> Seq<crate::eviction::TopicEviction> {
        self.evictions.entries@
    }

    /// The peer acknowledgements.
    pub closed spec fn ack_seq(&self) -> Seq<PeerAck> {
        self.acks@
    }

    /// An empty store.
    pub fn new() -> (r: MemoryStorage)
        ensures
            r.ops_map() == Map::<OpId, StoredOp>::empty(),
            r.topics_map() == Map::<TopicId, TopicRecord>::empty(),
            r.pending_seq() == Seq::<PendingOp>::empty(),
            r.eviction_seq() == Seq::<crate::eviction::TopicEviction>::empty(),
            r.ack_seq() == Seq::<PeerAck>::empty(),
    {
        MemoryStorage {
            ops: IdMap::new(),
            topics: IdMap::new(),
            pending: Vec::new(),
            acks: Vec::new(),
            evictions: EvictionJournal { entries: Vec::new() },
            next_epoch: 1,
        }
    }

    /// The record of `id`, unless absent or damaged.
    pub fn get_op(&self, id: &OpId) -> (r: Option<&Op>)
        ensures
            r is Some <==> (self.ops_map().contains_key(*id) && self.ops_map()[*id].has_record
                && self.ops_map()[*id].op.id == *id),
            r matches Some(op) ==> *op == self.ops_map()[*id].op && op.id == *id,
    {
        match self.ops.get(id) {
            Some(stored) => if stored.has_record && stored.op.id.same(id) { Some(&stored.op) } else { None },
            None => None,
        }
    }

    /// The position of `id`, unless absent or damaged.
    pub fn get_meta(&self, id: &OpId) -> (r: Option<&OpMeta>)
        ensures
            r is Some <==> (self.ops_map().contains_key(*id) && self.ops_map()[*id].has_meta
                && self.ops_map()[*id].meta.id == *id),
            r matches Some(m) ==> *m == self.ops_map()[*id].meta && m.id == *id,
    {
        match self.ops.get(id) {
            Some(stored) => if stored.has_meta && stored.meta.id.same(id) { Some(&stored.meta) } else { None },
            None => None,
        }
    }

    /// Whether `id` is held with its record and its position.
    pub fn dep_resolvable(&self, id: &OpId) -> (r: bool)
        ensures r == spec_resolvable(self.ops_map(), *id),
    {
        match self.ops.get(id) {
            Some(stored) => stored.has_record && stored.has_meta,
            None => false,
        }
    }

    /// The entry of `id`, whatever its damage.
    pub fn ops_entry(&self, id: &OpId) -> (r: Option<&StoredOp>)
        ensures
            r is Some <==> self.ops_map().contains_key(*id),
            r matches Some(e) ==> *e == self.ops_map()[*id],
    {
        self.ops.get(id)
    }

    /// Whether `id` has an entry, whatever its damage.
    pub fn is_listed(&self, id: &OpId) -> (r: bool)
        ensures r == self.ops_map().contains_key(*id),
    {
        self.ops.contains_key(id)
    }

    /// The state of `topic_id`.
    pub fn topic_state(&self, topic_id: &TopicId) -> (r: Option<&TopicState>)
        ensures
            r is Some <==> (self.topics_map().contains_key(*topic_id)
                && self.topics_map()[*topic_id].state.topic_id == *topic_id),
            r matches Some(s) ==> *s == self.topics_map()[*topic_id].state && s.topic_id == *topic_id,
    {
        match self.topics.get(topic_id) {
            Some(record) => if record.state.topic_id.same(topic_id) { Some(&record.state) } else { None },
            None => None,
        }
    }

    /// The record of `topic_id`.
    pub fn topic_record(&self, topic_id: &TopicId) -> (r: Option<&TopicRecord>)
        ensures
            r is Some <==> self.topics_map().contains_key(*topic_id),
            r matches Some(s) ==> *s == self.topics_map()[*topic_id],
    {
        self.topics.get(topic_id)
    }

    /// The current heads of `topic_id`; empty for an unknown topic.
    pub fn heads(&self, topic_id: &TopicId) -> (r: IdSet)
        ensures
            self.topics_map().contains_key(*topic_id) ==> r@ == self.topics_map()[*topic_id].state.heads@,
            !self.topics_map().contains_key(*topic_id) ==> r@ == Set::<OpId>::empty(),
    {
        match self.topics.get(topic_id) {
            Some(record) => record.state.heads.duplicate(),
            None => IdSet::new(),
        }
    }

    /// The ids `topic_id` lists, damaged ones included.
    pub fn list_op_ids(&self, topic_id: &TopicId) -> (r: IdSet)
        ensures r@ == spec_topic_ids(self.ops_map(), *topic_id),
    {
        self.ops.check_keys();
        let n = self.ops.len();
        let mut r = IdSet::new();
        let mut i: usize = 0;
        while i < n
            invariant
                i <= n,
                n == self.ops.key_seq().len(),
                forall|j: int| 0 <= j < n ==> self.ops@.contains_key(#[trigger] self.ops.key_seq()[j]),
                forall|k: OpId| self.ops@.contains_key(k) <==> self.ops.key_seq().contains(k),
                r@ == Set::new(|id: OpId| self.ops.key_seq().subrange(0, i as int).contains(id)
                    && self.ops@[id].topic_id == *topic_id),
            decreases n - i,
        {
            let k = self.ops.key_at(i);
            let stored = self.ops.value_at(i);
            let ghost before = r@;
            if stored.topic_id.same(topic_id) {
                r.insert(k);
            }
            proof {
                let s = self.ops.key_seq().subrange(0, i as int + 1);
                let t = self.ops.key_seq().subrange(0, i as int);
                assert forall|y: OpId| s.contains(y) <==> t.contains(y) || y == k by {
                    if s.contains(y) {
                        let w = choose|w: int| 0 <= w < s.len() && s[w] == y;
                        if w < i { assert(t[w] == y); }
                    }
                    if t.contains(y) {
                        let w = choose|w: int| 0 <= w < t.len() && t[w] == y;
                        assert(s[w] == y);
                    }
                    if y == k { assert(s[i as int] == y); }
                }
                assert(r@ =~= Set::new(|id: OpId| s.contains(id) && self.ops@[id].topic_id == *topic_id));
            }
            i += 1;
        }
        proof {
            assert(self.ops.key_seq().subrange(0, n as int) =~= self.ops.key_seq());
            assert(r@ =~= spec_topic_ids(self.ops_map(), *topic_id));
        }
        r
    }

    /// The highest admitted position of `actor_id` in `topic_id`.
    pub fn actor_tip(&self, topic_id: &TopicId, actor_id: &ActorId) -> (r: Option<ActorTip>)
        ensures
            r is Some <==> (self.topics_map().contains_key(*topic_id)
                && self.topics_map()[*topic_id].tips@.contains_key(*actor_id)),
            r matches Some(t) ==> t == self.topics_map()[*topic_id].tips@[*actor_id],
    {
        match self.topics.get(topic_id) {
            Some(record) => match record.tips.get(actor_id) {
                Some(tip) => Some(*tip),
                None => None,
            },
            None => None,
        }
    }

    /// Each actor's admitted position in `topic_id`.
    pub fn actor_clock(&self, topic_id: &TopicId) -> (r: ActorClock)
        ensures
            forall|a: ActorId| #[trigger] r@.contains_key(a) <==> (self.topics_map().contains_key(*topic_id)
                && self.topics_map()[*topic_id].tips@.contains_key(a)),
            forall|a: ActorId| #[trigger] r@.contains_key(a) ==> r@[a] == self.topics_map()[*topic_id].tips@[a].seq,
    {
        let mut r = ActorClock::new();
        match self.topics.get(topic_id) {
            None => {},
            Some(record) => {
                record.tips.check_keys();
                let n = record.tips.len();
                let mut i: usize = 0;
                while i < n
                    invariant
                        i <= n,
                        n == record.tips.key_seq().len(),
                        record.tips.key_seq().no_duplicates(),
                        forall|j: int| 0 <= j < n ==> record.tips@.contains_key(#[trigger] record.tips.key_seq()[j]),
                        forall|k: ActorId| record.tips@.contains_key(k) <==> record.tips.key_seq().contains(k),
                        forall|a: ActorId| #[trigger] r@.contains_key(a) <==> record.tips.key_seq().subrange(0, i as int).contains(a),
                        forall|a: ActorId| #[trigger] r@.contains_key(a) ==> r@[a] == record.tips@[a].seq,
                    decreases n - i,
                {
                    let k = record.tips.key_at(i);
                    let tip = record.tips.value_at(i);
                    let ghost before = r@;
                    r.observe(k, tip.seq);
                    proof {
                        let s = record.tips.key_seq().subrange(0, i as int + 1);
                        let t = record.tips.key_seq().subrange(0, i as int);
                        assert forall|y: ActorId| s.contains(y) <==> t.contains(y) || y == k by {
                            if s.contains(y) {
                                let w = choose|w: int| 0 <= w < s.len() && s[w] == y;
                                if w < i { assert(t[w] == y); }
                            }
                            if t.contains(y) {
                                let w = choose|w: int| 0 <= w < t.len() && t[w] == y;
                                assert(s[w] == y);
                            }
                            if y == k { assert(s[i as int] == y); }
                        }
                        assert(!t.contains(k)) by {
                            if t.contains(k) {
                                let w = choose|w: int| 0 <= w < t.len() && t[w] == k;
                                assert(record.tips.key_seq()[w] == record.tips.key_seq()[i as int]);
                            }
                        }
                        assert(!before.contains_key(k));
                        assert(r@ == before.insert(k, tip.seq));
                        assert forall|a: ActorId| #[trigger] r@.contains_key(a) <==> s.contains(a) by {
                            if a != k { assert(r@.contains_key(a) == before.contains_key(a)); }
                        }
                    }
                    i += 1;
                }
                proof {
                    assert(record.tips.key_seq().subrange(0, n as int) =~= record.tips.key_seq());
                }
            },
        }
        r
    }

    /// The highest generation admitted in `topic_id`, 0 for an unknown topic.
    pub fn max_generation(&self, topic_id: &TopicId) -> (r: u64)
        ensures
            self.topics_map().contains_key(*topic_id) ==> r == self.topics_map()[*topic_id].max_generation,
            !self.topics_map().contains_key(*topic_id) ==> r == 0,
    {
        match self.topics.get(topic_id) {
            Some(record) => record.max_generation,
            None => 0,
        }
    }

    /// Number of actors with a position in `topic_id`, 0 for an unknown topic.
    pub fn actor_count(&self, topic_id: &TopicId) -> (r: usize)
        ensures
            self.topics_map().contains_key(*topic_id) ==> r == self.topics_map()[*topic_id].tips@.len(),
            !self.topics_map().contains_key(*topic_id) ==> r == 0,
    {
        match self.topics.get(topic_id) {
            Some(record) => record.tips.len(),
            None => 0,
        }
    }

    /// The epoch of `topic_id`'s data, 0 for an unknown topic.
    pub fn topic_epoch(&self, topic_id: &TopicId) -> (r: u64)
        ensures
            self.topics_map().contains_key(*topic_id) ==> r == self.topics_map()[*topic_id].epoch,
            !self.topics_map().contains_key(*topic_id) ==> r == 0,
    {
        match self.topics.get(topic_id) {
            Some(record) => record.epoch,
            None => 0,
        }
    }

    /// The admitted operation holding position `seq` of `actor_id` in `topic_id`, if any.
    pub fn actor_index(&self, topic_id: &TopicId, actor_id: &ActorId, seq: u64) -> (r: Option<OpId>)
        ensures
            r matches Some(id) ==> self.ops_map().contains_key(id) && self.ops_map()[id].has_meta
                && self.ops_map()[id].topic_id == *topic_id
                && self.ops_map()[id].meta.actor_id == *actor_id && self.ops_map()[id].meta.actor_seq == seq,
            r is None ==> forall|id: OpId| #[trigger] self.ops_map().contains_key(id) && self.ops_map()[id].has_meta
                && self.ops_map()[id].topic_id == *topic_id ==> !(self.ops_map()[id].meta.actor_id == *actor_id
                && self.ops_map()[id].meta.actor_seq == seq),
    {
        self.ops.check_keys();
        let n = self.ops.len();
        let mut i: usize = 0;
        while i < n
            invariant
                i <= n,
                n == self.ops.key_seq().len(),
                forall|j: int| 0 <= j < n ==> self.ops@.contains_key(#[trigger] self.ops.key_seq()[j]),
                forall|k: OpId| self.ops@.contains_key(k) <==> self.ops.key_seq().contains(k),
                forall|j: int| 0 <= j < i ==> {
                    let id = #[trigger] self.ops.key_seq()[j];
                    !(self.ops@[id].has_meta && self.ops@[id].topic_id == *topic_id
                        && self.ops@[id].meta.actor_id == *actor_id && self.ops@[id].meta.actor_seq == seq)
                },
            decreases n - i,
        {
            let k = self.ops.key_at(i);
            let stored = self.ops.value_at(i);
            if stored.has_meta && stored.topic_id.same(topic_id) && stored.meta.actor_id.same(actor_id)
                && stored.meta.actor_seq == seq {
                return Some(k);
            }
            i += 1;
        }
        proof {
            assert forall|id: OpId| #[trigger] self.ops_map().contains_key(id) && self.ops_map()[id].has_meta
                && self.ops_map()[id].topic_id == *topic_id implies !(self.ops_map()[id].meta.actor_id == *actor_id
                && self.ops_map()[id].meta.actor_seq == seq) by {
                assert(self.ops.key_seq().contains(id));
                let w = choose|w: int| 0 <= w < self.ops.key_seq().len() && self.ops.key_seq()[w] == id;
                assert(self.ops@[self.ops.key_seq()[w]] == self.ops@[id]);
            }
        }
        None
    }

    /// An admitted operation other than `except` holding position `seq` of `actor_id` in `topic_id`, if any.
    pub fn slot_holder_other(&self, topic_id: &TopicId, actor_id: &ActorId, seq: u64, except: &OpId) -> (r: Option<OpId>)
        ensures
            r matches Some(id) ==> id != *except && self.ops_map().contains_key(id) && self.ops_map()[id].has_meta
                && self.ops_map()[id].topic_id == *topic_id
                && self.ops_map()[id].meta.actor_id == *actor_id && self.ops_map()[id].meta.actor_seq == seq,
            r is None ==> forall|id: OpId| #[trigger] self.ops_map().contains_key(id) && self.ops_map()[id].has_meta
                && self.ops_map()[id].topic_id == *topic_id && self.ops_map()[id].meta.actor_id == *actor_id
                && self.ops_map()[id].meta.actor_seq == seq ==> id == *except,
    {
        self.ops.check_keys();
        let n = self.ops.len();
        let mut i: usize = 0;
        while i < n
            invariant
                i <= n,
                n == self.ops.key_seq().len(),
                forall|j: int| 0 <= j < n ==> self.ops@.contains_key(#[trigger] self.ops.key_seq()[j]),
                forall|k: OpId| self.ops@.contains_key(k) <==> self.ops.key_seq().contains(k),
                forall|j: int| 0 <= j < i ==> {
                    let id = #[trigger] self.ops.key_seq()[j];
                    (self.ops@[id].has_meta && self.ops@[id].topic_id == *topic_id
                        && self.ops@[id].meta.actor_id == *actor_id && self.ops@[id].meta.actor_seq == seq) ==> id == *except
                },
            decreases n - i,
        {
            let k = self.ops.key_at(i);
            let stored = self.ops.value_at(i);
            if stored.has_meta && stored.topic_id.same(topic_id) && stored.meta.actor_id.same(actor_id)
                && stored.meta.actor_seq == seq && !k.same(except) {
                return Some(k);
            }
            i += 1;
        }
        proof {
            assert forall|id: OpId| #[trigger] self.ops_map().contains_key(id) && self.ops_map()[id].has_meta
                && self.ops_map()[id].topic_id == *topic_id && self.ops_map()[id].meta.actor_id == *actor_id
                && self.ops_map()[id].meta.actor_seq == seq implies id == *except by {
                assert(self.ops.key_seq().contains(id));
                let w = choose|w: int| 0 <= w < self.ops.key_seq().len() && self.ops.key_seq()[w] == id;
                assert(self.ops@[self.ops.key_seq()[w]] == self.ops@[id]);
            }
        }
        None
    }
}

impl MemoryStorage {
    /// Stores an admitted operation with its position, the topic's new heads and,
    /// when the operation changed it, the topic's new state. Raises the author's
    /// actor tip and the topic's highest generation.
    pub fn put_admitted(&mut self, op: Op, meta: OpMeta, heads: IdSet, state: Option<TopicState>)
        requires
            op.id == meta.id,
            meta.topic_id == op.signed.body.topic_id,
            state matches Some(st) ==> st.topic_id == op.signed.body.topic_id,
            state is None ==> old(self).topics_map().contains_key(op.signed.body.topic_id)
                && old(self).topics_map()[op.signed.body.topic_id].state.topic_id == op.signed.body.topic_id,
        ensures
            final(self).ops_map().contains_key(op.id),
            final(self).ops_map()[op.id].op == op,
            final(self).ops_map()[op.id].meta == meta,
            final(self).ops_map()[op.id].has_record,
            final(self).ops_map()[op.id].has_meta,
            final(self).ops_map()[op.id].topic_id == op.signed.body.topic_id,
            forall|k: OpId| k != op.id ==> (#[trigger] final(self).ops_map().contains_key(k) <==> old(self).ops_map().contains_key(k)),
            forall|k: OpId| k != op.id && old(self).ops_map().contains_key(k) ==> #[trigger] final(self).ops_map()[k] == old(self).ops_map()[k],
            final(self).topics_map().contains_key(op.signed.body.topic_id),
            final(self).topics_map()[op.signed.body.topic_id].state.heads@ == heads@,
            final(self).topics_map()[op.signed.body.topic_id].state.topic_id == op.signed.body.topic_id,
            state matches Some(st) ==> final(self).topics_map()[op.signed.body.topic_id].state.members@ == st.members@
                && final(self).topics_map()[op.signed.body.topic_id].state.genesis == st.genesis
                && final(self).topics_map()[op.signed.body.topic_id].state.event_type_id@ == st.event_type_id@
                && final(self).topics_map()[op.signed.body.topic_id].state.replication_policy == st.replication_policy
                && final(self).topics_map()[op.signed.body.topic_id].state.membership_controls@ == st.membership_controls@
                && final(self).topics_map()[op.signed.body.topic_id].state.replication_policy_key == st.replication_policy_key,
            state is None ==> final(self).topics_map()[op.signed.body.topic_id].state.members@
                == old(self).topics_map()[op.signed.body.topic_id].state.members@
                && final(self).topics_map()[op.signed.body.topic_id].state.genesis
                == old(self).topics_map()[op.signed.body.topic_id].state.genesis
                && final(self).topics_map()[op.signed.body.topic_id].state.event_type_id@
                == old(self).topics_map()[op.signed.body.topic_id].state.event_type_id@
                && final(self).topics_map()[op.signed.body.topic_id].state.membership_controls@
                == old(self).topics_map()[op.signed.body.topic_id].state.membership_controls@
                && final(self).topics_map()[op.signed.body.topic_id].state.replication_policy
                == old(self).topics_map()[op.signed.body.topic_id].state.replication_policy
                && final(self).topics_map()[op.signed.body.topic_id].state.replication_policy_key
                == old(self).topics_map()[op.signed.body.topic_id].state.replication_policy_key,
            forall|t: TopicId| t != op.signed.body.topic_id ==> (#[trigger] final(self).topics_map().contains_key(t) <==> old(self).topics_map().contains_key(t)),
            forall|t: TopicId| t != op.signed.body.topic_id && old(self).topics_map().contains_key(t) ==> #[trigger] final(self).topics_map()[t] == old(self).topics_map()[t],
            final(self).pending_seq() == old(self).pending_seq(),
    {
        let topic_id = op.signed.body.topic_id;
        let actor_id = meta.actor_id;
        let seq = meta.actor_seq;
        let generation = meta.generation;
        let id = op.id;
        let existing = self.topics.remove(&topic_id);
        let mut record = match existing {
            Some(record) => record,
            None => {
                let st = match state {
                    Some(st) => st,
                    None => { proof { assert(false); } return; },
                };
                let epoch = self.next_epoch;
                self.next_epoch = if self.next_epoch < u64::MAX { self.next_epoch + 1 } else { self.next_epoch };
                let record = TopicRecord { state: st, epoch, tips: IdMap::new(), max_generation: 0, sealed: false };
                let ghost mid = self.topics_map();
                self.finish_put(op, meta, heads, record, topic_id, actor_id, seq, generation, id);
                proof {
                    assert(mid == old(self).topics_map().remove(topic_id));
                    assert forall|t: TopicId| t != topic_id implies (#[trigger] self.topics_map().contains_key(t) <==> old(self).topics_map().contains_key(t)) by {
                        assert(self.topics_map().remove(topic_id).contains_key(t) == self.topics_map().contains_key(t));
                    }
                    assert forall|t: TopicId| t != topic_id && old(self).topics_map().contains_key(t) implies #[trigger] self.topics_map()[t] == old(self).topics_map()[t] by {
                        assert(self.topics_map().remove(topic_id)[t] == self.topics_map()[t]);
                    }
                }
                return;
            },
        };
        match state {
            Some(st) => { record.state = st; },
            None => {},
        }
        let ghost mid = self.topics_map();
        self.finish_put(op, meta, heads, record, topic_id, actor_id, seq, generation, id);
        proof {
            assert(mid == old(self).topics_map().remove(topic_id));
            assert forall|t: TopicId| t != topic_id implies (#[trigger] self.topics_map().contains_key(t) <==> old(self).topics_map().contains_key(t)) by {
                assert(self.topics_map().remove(topic_id).contains_key(t) == self.topics_map().contains_key(t));
            }
            assert forall|t: TopicId| t != topic_id && old(self).topics_map().contains_key(t) implies #[trigger] self.topics_map()[t] == old(self).topics_map()[t] by {
                assert(self.topics_map().remove(topic_id)[t] == self.topics_map()[t]);
            }
        }
    }

    fn finish_put(&mut self, op: Op, meta: OpMeta, heads: IdSet, record: TopicRecord,
        topic_id: TopicId, actor_id: ActorId, seq: u64, generation: u64, id: OpId)
        requires
            op.id == meta.id,
            id == op.id,
            meta.topic_id == op.signed.body.topic_id,
            topic_id == op.signed.body.topic_id,
            record.state.topic_id == topic_id,
            !old(self).topics_map().contains_key(topic_id),
            actor_id == meta.actor_id,
        ensures
            final(self).ops_map() == old(self).ops_map().insert(id, StoredOp {
                topic_id, op, meta, has_record: true, has_meta: true }),
            final(self).topics_map().contains_key(topic_id),
            final(self).topics_map()[topic_id].state.heads@ == heads@,
            final(self).topics_map()[topic_id].state.members@ == record.state.members@,
            final(self).topics_map()[topic_id].state.genesis == record.state.genesis,
            final(self).topics_map()[topic_id].state.event_type_id@ == record.state.event_type_id@,
            final(self).topics_map()[topic_id].state.replication_policy == record.state.replication_policy,
            final(self).topics_map()[topic_id].state.topic_id == record.state.topic_id,
            final(self).topics_map()[topic_id].state.membership_controls@ == record.state.membership_controls@,
            final(self).topics_map()[topic_id].state.replication_policy_key == record.state.replication_policy_key,
            final(self).topics_map().remove(topic_id) == old(self).topics_map(),
            final(self).pending_seq() == old(self).pending_seq(),
    {
        let mut record = record;
        record.state.heads = heads;
        let raise = match record.tips.get(&actor_id) {
            Some(tip) => seq > tip.seq,
            None => true,
        };
        if raise {
            record.tips.insert(actor_id, ActorTip { seq, id });
        }
        if generation > record.max_generation {
            record.max_generation = generation;
        }
        self.topics.insert(topic_id, record);
        self.ops.insert(id, StoredOp { topic_id, op, meta, has_record: true, has_meta: true });
        proof {
            assert(self.topics@.remove(topic_id) =~= old(self).topics_map());
        }
    }
}

impl MemoryStorage {
    /// Restores the record and position of an op whose entry damage left incomplete,
    /// leaving heads, tips and topic state as they are.
    pub fn repair_op(&mut self, op: Op, meta: OpMeta)
        requires
            op.id == meta.id,
        ensures
            final(self).ops_map() == old(self).ops_map().insert(op.id, StoredOp {
                topic_id: op.signed.body.topic_id, op, meta, has_record: true, has_meta: true }),
            final(self).topics_map() == old(self).topics_map(),
            final(self).pending_seq() == old(self).pending_seq(),
    {
        let id = op.id;
        let topic_id = op.signed.body.topic_id;
        self.ops.insert(id, StoredOp { topic_id, op, meta, has_record: true, has_meta: true });
    }

    /// Removes the record of `id`, keeping its listing and position: damage a
    /// later admission of the same operation repairs.
    pub fn drop_op_record(&mut self, id: &OpId)
        ensures
            forall|k: OpId| #[trigger] final(self).ops_map().contains_key(k) <==> old(self).ops_map().contains_key(k),
            final(self).ops_map().contains_key(*id) ==> !final(self).ops_map()[*id].has_record
                && final(self).ops_map()[*id].has_meta == old(self).ops_map()[*id].has_meta,
            forall|k: OpId| k != *id && old(self).ops_map().contains_key(k) ==> #[trigger] final(self).ops_map()[k] == old(self).ops_map()[k],
            final(self).topics_map() == old(self).topics_map(),
    {
        match self.ops.remove(id) {
            Some(mut stored) => {
                stored.has_record = false;
                self.ops.insert(*id, stored);
                proof {
                    assert forall|k: OpId| #[trigger] self.ops_map().contains_key(k) <==> old(self).ops_map().contains_key(k) by {
                        if k == *id {} else {}
                    }
                }
            },
            None => {},
        }
    }

    /// Removes the position of `id`, keeping its listing and record.
    pub fn drop_meta(&mut self, id: &OpId)
        ensures
            forall|k: OpId| #[trigger] final(self).ops_map().contains_key(k) <==> old(self).ops_map().contains_key(k),
            final(self).ops_map().contains_key(*id) ==> !final(self).ops_map()[*id].has_meta
                && final(self).ops_map()[*id].has_record == old(self).ops_map()[*id].has_record,
            forall|k: OpId| k != *id && old(self).ops_map().contains_key(k) ==> #[trigger] final(self).ops_map()[k] == old(self).ops_map()[k],
            final(self).topics_map() == old(self).topics_map(),
    {
        match self.ops.remove(id) {
            Some(mut stored) => {
                stored.has_meta = false;
                self.ops.insert(*id, stored);
                proof {
                    assert forall|k: OpId| #[trigger] self.ops_map().contains_key(k) <==> old(self).ops_map().contains_key(k) by {
                        if k == *id {} else {}
                    }
                }
            },
            None => {},
        }
    }

    /// Discards every operation, buffered operation and the state of `topic_id`,
    /// so the next admission starts the topic over under a new data epoch.
    pub fn reset_topic(&mut self, topic_id: &TopicId)
        ensures
            !final(self).topics_map().contains_key(*topic_id),
            final(self).topics_map() == old(self).topics_map().remove(*topic_id),
            forall|k: OpId| #[trigger] final(self).ops_map().contains_key(k) <==>
                (old(self).ops_map().contains_key(k) && old(self).ops_map()[k].topic_id != *topic_id),
            forall|k: OpId| #[trigger] final(self).ops_map().contains_key(k) ==> final(self).ops_map()[k] == old(self).ops_map()[k],
            forall|i: int| 0 <= i < final(self).pending_seq().len() ==>
                (#[trigger] final(self).pending_seq()[i]).op.signed.body.topic_id != *topic_id,
    {
        let ids = self.list_op_ids(topic_id);
        let v = ids.to_vec();
        let mut i: usize = 0;
        let ghost start = self.ops_map();
        assert(start == old(self).ops_map());
        while i < v.len()
            invariant
                i <= v@.len(),
                v@.to_set() == spec_topic_ids(start, *topic_id),
                v@.no_duplicates(),
                forall|k: OpId| #[trigger] self.ops_map().contains_key(k) <==>
                    (start.contains_key(k) && !v@.subrange(0, i as int).contains(k)),
                forall|k: OpId| #[trigger] self.ops_map().contains_key(k) ==> self.ops_map()[k] == start[k],
                self.topics_map() == old(self).topics_map(),
                self.pending_seq() == old(self).pending_seq(),
            decreases v@.len() - i,
        {
            let ghost before = self.ops_map();
            let _ = self.ops.remove(&v[i]);
            proof {
                assert(self.ops_map() == before.remove(v@[i as int]));
                let s = v@.subrange(0, i as int + 1);
                let t = v@.subrange(0, i as int);
                assert forall|y: OpId| s.contains(y) <==> t.contains(y) || y == v@[i as int] by {
                    if s.contains(y) {
                        let w = choose|w: int| 0 <= w < s.len() && s[w] == y;
                        if w < i { assert(t[w] == y); }
                    }
                    if t.contains(y) {
                        let w = choose|w: int| 0 <= w < t.len() && t[w] == y;
                        assert(s[w] == y);
                    }
                    if y == v@[i as int] { assert(s[i as int] == y); }
                }
                assert forall|k: OpId| #[trigger] self.ops_map().contains_key(k) <==>
                    (start.contains_key(k) && !s.contains(k)) by {
                    if k != v@[i as int] {
                        assert(self.ops_map().contains_key(k) == before.contains_key(k));
                    }
                }
                assert forall|k: OpId| #[trigger] self.ops_map().contains_key(k) implies self.ops_map()[k] == start[k] by {
                    assert(before.contains_key(k));
                }
            }
            i += 1;
        }
        proof {
            assert(v@.subrange(0, v@.len() as int) =~= v@);
            assert forall|k: OpId| #[trigger] self.ops_map().contains_key(k) <==>
                (old(self).ops_map().contains_key(k) && old(self).ops_map()[k].topic_id != *topic_id) by {
                if old(self).ops_map().contains_key(k) && old(self).ops_map()[k].topic_id == *topic_id {
                    assert(spec_topic_ids(start, *topic_id).contains(k));
                    assert(v@.to_set().contains(k));
                    assert(v@.contains(k));
                }
                if self.ops_map().contains_key(k) {
                    assert(!v@.contains(k));
                    assert(!spec_topic_ids(start, *topic_id).contains(k));
                }
                if old(self).ops_map().contains_key(k) && old(self).ops_map()[k].topic_id != *topic_id {
                    assert(!spec_topic_ids(start, *topic_id).contains(k));
                    assert(!v@.to_set().contains(k));
                }
            }
        }
        let ghost after_ops = self.ops_map();
        let _ = self.topics.remove(topic_id);
        assert(self.ops_map() == after_ops);
        self.drop_pending_of(topic_id);
        assert(self.ops_map() == after_ops);
    }

    /// Moves what `from` holds of `topic_id` into this store: the topic's state,
    /// heads, tips and highest generation under a fresh epoch, and its admitted
    /// operations this store does not hold yet. What `from` buffered is not moved.
    pub fn import_topic(&mut self, from: MemoryStorage, topic_id: &TopicId)
        requires
            from.topics_map().contains_key(*topic_id),
            !old(self).topics_map().contains_key(*topic_id),
        ensures
            final(self).topics_map().contains_key(*topic_id),
            final(self).topics_map()[*topic_id].state == from.topics_map()[*topic_id].state,
            final(self).topics_map().remove(*topic_id) == old(self).topics_map(),
            forall|k: OpId| #[trigger] final(self).ops_map().contains_key(k) <==>
                (old(self).ops_map().contains_key(k) || (from.ops_map().contains_key(k) && from.ops_map()[k].topic_id == *topic_id)),
            forall|k: OpId| from.ops_map().contains_key(k) && from.ops_map()[k].topic_id == *topic_id && !old(self).ops_map().contains_key(k)
                ==> #[trigger] final(self).ops_map()[k] == from.ops_map()[k],
            forall|k: OpId| old(self).ops_map().contains_key(k) ==> #[trigger] final(self).ops_map()[k] == old(self).ops_map()[k],
            final(self).pending_seq() == old(self).pending_seq(),
    {
        let MemoryStorage { ops: mut moved, topics: mut records, pending: _, acks: _, evictions: _, next_epoch: _ } = from;
        let ghost from_ops = moved@;
        let taken = records.remove(topic_id);
        let mut record = match taken {
            Some(record) => record,
            None => { proof { assert(false); } return; },
        };
        record.epoch = self.next_epoch;
        self.next_epoch = if self.next_epoch < u64::MAX { self.next_epoch + 1 } else { self.next_epoch };
        self.topics.insert(*topic_id, record);
        proof { assert(self.topics@.remove(*topic_id) =~= old(self).topics_map()); }
        let keys = moved.keys();
        let ghost start = self.ops@;
        let mut i: usize = 0;
        while i < keys.len()
            invariant
                i <= keys@.len(),
                keys@.to_set() == from_ops.dom(),
                keys@.no_duplicates(),
                forall|k: OpId| #[trigger] moved@.contains_key(k) <==> from_ops.contains_key(k) && !keys@.take(i as int).contains(k),
                forall|k: OpId| moved@.contains_key(k) ==> #[trigger] moved@[k] == from_ops[k],
                forall|k: OpId| #[trigger] self.ops@.contains_key(k) <==> (start.contains_key(k)
                    || (keys@.take(i as int).contains(k) && from_ops[k].topic_id == *topic_id)),
                forall|k: OpId| keys@.take(i as int).contains(k) && from_ops[k].topic_id == *topic_id && !start.contains_key(k)
                    ==> #[trigger] self.ops@[k] == from_ops[k],
                forall|k: OpId| start.contains_key(k) ==> #[trigger] self.ops@[k] == start[k],
                self.topics@ == old(self).topics_map().insert(*topic_id, record),
                self.pending@ == old(self).pending_seq(),
                start == old(self).ops_map(),
            decreases keys@.len() - i,
        {
            let k = keys[i];
            let ghost before = self.ops@;
            let ghost held = moved@;
            proof {
                assert(keys@.to_set().contains(k));
                assert(!keys@.take(i as int).contains(k)) by {
                    if keys@.take(i as int).contains(k) {
                        let w = choose|w: int| 0 <= w < i && keys@[w] == k;
                        assert(keys@[w] == keys@[i as int]);
                    }
                }
            }
            let entry = moved.remove(&k);
            match entry {
                Some(stored) => {
                    if stored.topic_id.same(topic_id) && !self.ops.contains_key(&k) {
                        self.ops.insert(k, stored);
                    }
                },
                None => {},
            }
            i += 1;
            proof {
                assert(keys@.take(i as int) =~= keys@.take(i - 1).push(k));
                assert(keys@.take(i as int)[i - 1] == k);
                assert(keys@.take(i as int).contains(k));
                assert(from_ops.contains_key(k));
                assert(held.contains_key(k));
                assert forall|y: OpId| y != k implies keys@.take(i as int).contains(y) == keys@.take(i - 1).contains(y) by {
                    if keys@.take(i as int).contains(y) {
                        let w = choose|w: int| 0 <= w < i && #[trigger] keys@.take(i as int)[w] == y;
                        assert(w < i - 1);
                        assert(keys@.take(i - 1)[w] == y);
                    }
                    if keys@.take(i - 1).contains(y) {
                        let w = choose|w: int| 0 <= w < i - 1 && #[trigger] keys@.take(i - 1)[w] == y;
                        assert(keys@.take(i as int)[w] == y);
                    }
                }
                assert forall|y: OpId| #[trigger] moved@.contains_key(y) <==> from_ops.contains_key(y) && !keys@.take(i as int).contains(y) by {
                    if y != k {
                        assert(moved@.contains_key(y) == held.contains_key(y));
                    }
                }
                assert forall|y: OpId| moved@.contains_key(y) implies #[trigger] moved@[y] == from_ops[y] by {
                    assert(held.contains_key(y));
                }
                assert forall|y: OpId| #[trigger] self.ops@.contains_key(y) <==> (start.contains_key(y)
                    || (keys@.take(i as int).contains(y) && from_ops[y].topic_id == *topic_id)) by {
                    if y != k {
                        assert(self.ops@.contains_key(y) == before.contains_key(y));
                        assert(keys@.take(i as int).contains(y) == keys@.take(i - 1).contains(y));
                    }
                }
                assert forall|y: OpId| keys@.take(i as int).contains(y) && from_ops[y].topic_id == *topic_id && !start.contains_key(y)
                    implies #[trigger] self.ops@[y] == from_ops[y] by {
                    if y != k {
                        assert(keys@.take(i - 1).contains(y));
                    } else {
                        assert(!before.contains_key(k));
                    }
                }
                assert forall|y: OpId| start.contains_key(y) implies #[trigger] self.ops@[y] == start[y] by {
                    assert(before.contains_key(y));
                }
            }
        }
        proof {
            assert(keys@.take(i as int) =~= keys@);
            assert forall|k: OpId| from_ops.contains_key(k) implies keys@.contains(k) by {
                assert(keys@.to_set().contains(k));
            }
            assert forall|k: OpId| keys@.contains(k) implies from_ops.contains_key(k) by {
                assert(keys@.to_set().contains(k));
            }
        }
    }

    /// Removes and returns every buffered operation.
    pub fn take_all_pending(&mut self) -> (r: Vec<PendingOp>)
        ensures
            r@ == old(self).pending_seq(),
            final(self).pending_seq() == Seq::<PendingOp>::empty(),
            final(self).ops_map() == old(self).ops_map(),
            final(self).topics_map() == old(self).topics_map(),
    {
        let mut taken: Vec<PendingOp> = Vec::new();
        std::mem::swap(&mut taken, &mut self.pending);
        taken
    }

    /// Drops the buffered operations that wait for `id`, which will never be admitted.
    pub fn drop_pending_waiting_on(&mut self, id: &OpId)
        ensures
            forall|i: int| 0 <= i < final(self).pending_seq().len() ==>
                !(#[trigger] final(self).pending_seq()[i]).missing@.contains(*id),
            final(self).pending_seq().len() <= old(self).pending_seq().len(),
            final(self).ops_map() == old(self).ops_map(),
            final(self).topics_map() == old(self).topics_map(),
    {
        let mut kept: Vec<PendingOp> = Vec::new();
        let mut old_pending: Vec<PendingOp> = Vec::new();
        std::mem::swap(&mut old_pending, &mut self.pending);
        let ghost total = old_pending@.len();
        while old_pending.len() > 0
            invariant
                forall|i: int| 0 <= i < kept@.len() ==> !(#[trigger] kept@[i]).missing@.contains(*id),
                kept@.len() + old_pending@.len() <= total,
            decreases old_pending@.len(),
        {
            let p = old_pending.pop().unwrap();
            if !p.missing.contains(id) {
                kept.push(p);
            }
        }
        self.pending = kept;
    }

    fn drop_pending_of(&mut self, topic_id: &TopicId)
        ensures
            forall|i: int| 0 <= i < final(self).pending_seq().len() ==>
                (#[trigger] final(self).pending_seq()[i]).op.signed.body.topic_id != *topic_id,
            final(self).ops_map() == old(self).ops_map(),
            final(self).topics_map() == old(self).topics_map(),
    {
        let mut kept: Vec<PendingOp> = Vec::new();
        let mut old_pending: Vec<PendingOp> = Vec::new();
        std::mem::swap(&mut old_pending, &mut self.pending);
        while old_pending.len() > 0
            invariant
                forall|i: int| 0 <= i < kept@.len() ==> (#[trigger] kept@[i]).op.signed.body.topic_id != *topic_id,
            decreases old_pending@.len(),
        {
            let p = old_pending.pop().unwrap();
            if !p.op.signed.body.topic_id.same(topic_id) {
                kept.push(p);
            }
        }
        self.pending = kept;
    }

    /// Buffers `op`, received from `source`, until `missing` are held.
    pub fn put_pending(&mut self, source: PeerId, op: Op, missing: IdSet, now_ms: u64)
        ensures
            final(self).pending_seq().len() == old(self).pending_seq().len() + 1,
            final(self).pending_seq().last().op == op,
            final(self).pending_seq().last().source == source,
            final(self).pending_seq().last().missing@ == missing@,
            final(self).pending_seq().drop_last() == old(self).pending_seq(),
            final(self).ops_map() == old(self).ops_map(),
            final(self).topics_map() == old(self).topics_map(),
    {
        self.pending.push(PendingOp { source, op, missing, since_ms: now_ms });
        assert(self.pending@.drop_last() =~= old(self).pending@);
    }

    /// Whether an operation with `id` is buffered.
    pub fn is_pending(&self, id: &OpId) -> (r: bool)
        ensures r == exists|i: int| 0 <= i < self.pending_seq().len() && (#[trigger] self.pending_seq()[i]).op.id == *id,
    {
        let mut i: usize = 0;
        while i < self.pending.len()
            invariant
                i <= self.pending@.len(),
                forall|j: int| 0 <= j < i ==> (#[trigger] self.pending@[j]).op.id != *id,
            decreases self.pending@.len() - i,
        {
            if self.pending[i].op.id.same(id) {
                return true;
            }
            i += 1;
        }
        false
    }

    /// Removes and returns every buffered operation of `topic_id`, oldest first.
    pub fn take_pending(&mut self, topic_id: &TopicId) -> (r: Vec<PendingOp>)
        ensures
            forall|i: int| 0 <= i < r@.len() ==> (#[trigger] r@[i]).op.signed.body.topic_id == *topic_id,
            forall|i: int| 0 <= i < final(self).pending_seq().len() ==>
                (#[trigger] final(self).pending_seq()[i]).op.signed.body.topic_id != *topic_id,
            final(self).ops_map() == old(self).ops_map(),
            final(self).topics_map() == old(self).topics_map(),
    {
        let mut taken: Vec<PendingOp> = Vec::new();
        let mut kept: Vec<PendingOp> = Vec::new();
        let mut old_pending: Vec<PendingOp> = Vec::new();
        std::mem::swap(&mut old_pending, &mut self.pending);
        let mut reversed: Vec<PendingOp> = Vec::new();
        while old_pending.len() > 0
            invariant true,
            decreases old_pending@.len(),
        {
            reversed.push(old_pending.pop().unwrap());
        }
        while reversed.len() > 0
            invariant
                forall|i: int| 0 <= i < kept@.len() ==> (#[trigger] kept@[i]).op.signed.body.topic_id != *topic_id,
                forall|i: int| 0 <= i < taken@.len() ==> (#[trigger] taken@[i]).op.signed.body.topic_id == *topic_id,
            decreases reversed@.len(),
        {
            let p = reversed.pop().unwrap();
            if p.op.signed.body.topic_id.same(topic_id) {
                taken.push(p);
            } else {
                kept.push(p);
            }
        }
        self.pending = kept;
        taken
    }

    /// The dependencies the buffered operations of `topic_id` wait for.
    pub fn pending_missing(&self, topic_id: &TopicId) -> (r: IdSet)
        ensures
            forall|id: OpId| r@.contains(id) <==> exists|i: int| 0 <= i < self.pending_seq().len()
                && (#[trigger] self.pending_seq()[i]).op.signed.body.topic_id == *topic_id
                && self.pending_seq()[i].missing@.contains(id),
    {
        let mut r = IdSet::new();
        let mut i: usize = 0;
        while i < self.pending.len()
            invariant
                i <= self.pending@.len(),
                forall|id: OpId| r@.contains(id) <==> exists|j: int| 0 <= j < i
                    && (#[trigger] self.pending@[j]).op.signed.body.topic_id == *topic_id
                    && self.pending@[j].missing@.contains(id),
            decreases self.pending@.len() - i,
        {
            let ghost before = r@;
            if self.pending[i].op.signed.body.topic_id.same(topic_id) {
                r.extend(&self.pending[i].missing);
            }
            proof {
                assert forall|id: OpId| r@.contains(id) <==> exists|j: int| 0 <= j < i + 1
                    && (#[trigger] self.pending@[j]).op.signed.body.topic_id == *topic_id
                    && self.pending@[j].missing@.contains(id) by {
                    if r@.contains(id) && !before.contains(id) {
                        assert(self.pending@[i as int].missing@.contains(id));
                    }
                    if exists|j: int| 0 <= j < i + 1 && (#[trigger] self.pending@[j]).op.signed.body.topic_id == *topic_id
                        && self.pending@[j].missing@.contains(id) {
                        let j = choose|j: int| 0 <= j < i + 1 && (#[trigger] self.pending@[j]).op.signed.body.topic_id == *topic_id
                            && self.pending@[j].missing@.contains(id);
                        if j < i {
                            assert(before.contains(id));
                        }
                    }
                }
            }
            i += 1;
        }
        r
    }

    /// Drops buffered operations older than `idle_ms` at `now_ms`, with the buffered
    /// operations that wait on a dropped one; returns how many went.
    pub fn expire_pending(&mut self, now_ms: u64, idle_ms: u64) -> (r: usize)
        ensures
            r + final(self).pending_seq().len() == old(self).pending_seq().len(),
            exists|gone: Set<OpId>| #[trigger] expiry_ok(old(self).pending_seq(), final(self).pending_seq(),
                expiry_cutoff(now_ms, idle_ms), gone),
            final(self).ops_map() == old(self).ops_map(),
            final(self).topics_map() == old(self).topics_map(),
    {
        let cutoff = if now_ms > idle_ms { now_ms - idle_ms } else { 0 };
        let ghost orig = self.pending@;
        let mut kept: Vec<PendingOp> = Vec::new();
        let mut old_pending: Vec<PendingOp> = Vec::new();
        std::mem::swap(&mut old_pending, &mut self.pending);
        let total = old_pending.len();
        let mut expired: usize = 0;
        let mut gone = IdSet::new();
        while old_pending.len() > 0
            invariant
                expired + kept@.len() + old_pending@.len() == total,
                total == orig.len(),
                old_pending@ == orig.subrange(0, old_pending@.len() as int),
                forall|x: PendingOp| #[trigger] kept@.contains(x) ==> orig.contains(x) && x.since_ms >= cutoff,
                forall|j: int| old_pending@.len() <= j < total ==> kept@.contains(#[trigger] orig[j]) || gone@.contains(orig[j].op.id),
                gone_justified(orig, cutoff as int, gone@),
            decreases old_pending@.len(),
        {
            let ghost n = old_pending@.len();
            let ghost kb = kept@;
            let ghost gb = gone@;
            let p = old_pending.pop().unwrap();
            proof {
                assert(old_pending@ =~= orig.subrange(0, old_pending@.len() as int));
                assert(p == orig[n - 1]);
                assert(orig.contains(p));
            }
            if p.since_ms >= cutoff {
                kept.push(p);
                proof {
                    assert forall|x: PendingOp| #[trigger] kept@.contains(x) implies orig.contains(x) && x.since_ms >= cutoff by {
                        let w = choose|w: int| 0 <= w < kept@.len() && kept@[w] == x;
                        if w < kb.len() { assert(kb[w] == x); assert(kb.contains(x)); }
                    }
                    assert forall|j: int| old_pending@.len() <= j < total implies kept@.contains(#[trigger] orig[j]) || gone@.contains(orig[j].op.id) by {
                        if j >= n && kb.contains(orig[j]) {
                            let w = choose|w: int| 0 <= w < kb.len() && kb[w] == orig[j];
                            assert(kept@[w] == orig[j]);
                        }
                        if j == n - 1 { assert(kept@[kept@.len() - 1] == orig[j]); }
                    }
                }
            } else {
                expired += 1;
                gone.insert(p.op.id);
                proof {
                    assert forall|d: OpId| #[trigger] gone@.contains(d) implies exists|q: PendingOp| #[trigger] orig.contains(q) && q.op.id == d
                        && (q.since_ms < cutoff || exists|m: OpId| #[trigger] q.missing@.contains(m) && gone@.contains(m)) by {
                        if d != p.op.id {
                            assert(gb.contains(d));
                            let q = choose|q: PendingOp| #[trigger] orig.contains(q) && q.op.id == d
                                && (q.since_ms < cutoff || exists|m: OpId| #[trigger] q.missing@.contains(m) && gb.contains(m));
                            if q.since_ms >= cutoff {
                                let m = choose|m: OpId| #[trigger] q.missing@.contains(m) && gb.contains(m);
                                assert(gone@.contains(m));
                            }
                        }
                    }
                }
            }
        }
        let mut changed = true;
        while changed
            invariant
                expired + kept@.len() == total,
                total == orig.len(),
                forall|x: PendingOp| #[trigger] kept@.contains(x) ==> orig.contains(x) && x.since_ms >= cutoff,
                forall|j: int| 0 <= j < total ==> kept@.contains(#[trigger] orig[j]) || gone@.contains(orig[j].op.id),
                gone_justified(orig, cutoff as int, gone@),
                !changed ==> forall|x: PendingOp| #[trigger] kept@.contains(x) ==> no_missing_in(x, gone@),
            decreases kept@.len(), (if changed { 1int } else { 0int }),
        {
            changed = false;
            let ghost start = kept@.len();
            let ghost g0 = gone@;
            let mut next: Vec<PendingOp> = Vec::new();
            while kept.len() > 0
                invariant
                    expired + kept@.len() + next@.len() == total,
                    total == orig.len(),
                    forall|x: PendingOp| #[trigger] kept@.contains(x) ==> orig.contains(x) && x.since_ms >= cutoff,
                    forall|x: PendingOp| #[trigger] next@.contains(x) ==> orig.contains(x) && x.since_ms >= cutoff,
                    forall|j: int| 0 <= j < total ==> kept@.contains(#[trigger] orig[j]) || next@.contains(orig[j])
                        || gone@.contains(orig[j].op.id),
                    gone_justified(orig, cutoff as int, gone@),
                    !changed ==> gone@ == g0,
                    !changed ==> forall|x: PendingOp| #[trigger] next@.contains(x) ==> no_missing_in(x, gone@),
                    kept@.len() + next@.len() <= start,
                    changed ==> kept@.len() + next@.len() < start,
                decreases kept@.len(),
            {
                let ghost kb = kept@;
                let ghost nb = next@;
                let ghost gb = gone@;
                let p = kept.pop().unwrap();
                proof {
                    assert(kb =~= kept@.push(p));
                    assert(kb.contains(p));
                    assert forall|x: PendingOp| #[trigger] kb.contains(x) implies x == p || kept@.contains(x) by {
                        let w = choose|w: int| 0 <= w < kb.len() && kb[w] == x;
                        if w < kept@.len() { assert(kept@[w] == x); }
                    }
                    assert forall|x: PendingOp| #[trigger] kept@.contains(x) implies kb.contains(x) by {
                        let w = choose|w: int| 0 <= w < kept@.len() && kept@[w] == x;
                        assert(kb[w] == x);
                    }
                }
                if waits_on(&p.missing, &gone) {
                    expired += 1;
                    gone.insert(p.op.id);
                    changed = true;
                    proof {
                        assert forall|d: OpId| #[trigger] gone@.contains(d) implies exists|q: PendingOp| #[trigger] orig.contains(q) && q.op.id == d
                            && (q.since_ms < cutoff || exists|m: OpId| #[trigger] q.missing@.contains(m) && gone@.contains(m)) by {
                            if d != p.op.id {
                                assert(gb.contains(d));
                                let q = choose|q: PendingOp| #[trigger] orig.contains(q) && q.op.id == d
                                    && (q.since_ms < cutoff || exists|m: OpId| #[trigger] q.missing@.contains(m) && gb.contains(m));
                                if q.since_ms >= cutoff {
                                    let m = choose|m: OpId| #[trigger] q.missing@.contains(m) && gb.contains(m);
                                    assert(gone@.contains(m));
                                }
                            } else {
                                let m = choose|m: OpId| #[trigger] p.missing@.contains(m) && gb.contains(m);
                                assert(gone@.contains(m));
                            }
                        }
                    }
                } else {
                    next.push(p);
                    proof {
                        assert forall|x: PendingOp| #[trigger] next@.contains(x) implies x == p || nb.contains(x) by {
                            let w = choose|w: int| 0 <= w < next@.len() && next@[w] == x;
                            if w < nb.len() { assert(nb[w] == x); }
                        }
                        assert forall|x: PendingOp| #[trigger] nb.contains(x) implies next@.contains(x) by {
                            let w = choose|w: int| 0 <= w < nb.len() && nb[w] == x;
                            assert(next@[w] == x);
                        }
                        assert(next@[next@.len() - 1] == p);
                    }
                }
            }
            kept = next;
        }
        proof {
            let fin = kept@;
            assert(forall|p: PendingOp| #[trigger] orig.contains(p) && !fin.contains(p) ==> gone@.contains(p.op.id)) by {
                assert forall|p: PendingOp| #[trigger] orig.contains(p) && !fin.contains(p) implies gone@.contains(p.op.id) by {
                    let j = choose|j: int| 0 <= j < orig.len() && orig[j] == p;
                }
            }
            assert(expiry_ok(orig, fin, cutoff as int, gone@));
        }
        self.pending = kept;
        proof {
            assert(cutoff as int == expiry_cutoff(now_ms, idle_ms));
            assert(expiry_ok(old(self).pending_seq(), self.pending_seq(), expiry_cutoff(now_ms, idle_ms), gone@));
        }
        expired
    }
}

/// The oldest buffering time that survives expiry at `now_ms` with limit `idle_ms`.
pub open spec fn expiry_cutoff(now_ms: u64, idle_ms: u64) -> int {
    if now_ms > idle_ms { now_ms - idle_ms } else { 0 }
}

/// Whether the buffered op `p` waits on none of `gone`.
pub open spec fn no_missing_in(p: PendingOp, gone: Set<OpId>) -> bool {
    forall|d: OpId| #[trigger] p.missing@.contains(d) ==> !gone.contains(d)
}

/// Whether each id of `gone` is that of a buffered op of `orig` that expired at
/// `cutoff` or waits on another id of `gone`.
pub open spec fn gone_justified(orig: Seq<PendingOp>, cutoff: int, gone: Set<OpId>) -> bool {
    forall|d: OpId| #[trigger] gone.contains(d) ==> exists|q: PendingOp| #[trigger] orig.contains(q) && q.op.id == d
        && (q.since_ms < cutoff || exists|m: OpId| #[trigger] q.missing@.contains(m) && gone.contains(m))
}

/// Whether expiring the buffer `orig` at `cutoff` may leave `fin`, dropping the ops
/// whose ids are `gone`: what stays was buffered, is not older than the cutoff and
/// waits on nothing dropped; what went is in `gone`; and each id of `gone` is of an op
/// that expired or waits on a dropped one.
pub open spec fn expiry_ok(orig: Seq<PendingOp>, fin: Seq<PendingOp>, cutoff: int, gone: Set<OpId>) -> bool {
    &&& forall|p: PendingOp| #[trigger] fin.contains(p) ==> orig.contains(p) && p.since_ms >= cutoff && no_missing_in(p, gone)
    &&& forall|p: PendingOp| #[trigger] orig.contains(p) && !fin.contains(p) ==> gone.contains(p.op.id)
    &&& gone_justified(orig, cutoff, gone)
}

/// Whether `missing` names an id of `gone`.
fn waits_on(missing: &IdSet, gone: &IdSet) -> (r: bool)
    ensures r == (exists|m: OpId| #[trigger] missing@.contains(m) && gone@.contains(m)),
{
    let v = missing.to_vec();
    let mut i: usize = 0;
    while i < v.len()
        invariant
            i <= v@.len(),
            v@.to_set() == missing@,
            forall|j: int| 0 <= j < i ==> !gone@.contains(#[trigger] v@[j]),
        decreases v@.len() - i,
    {
        if gone.contains(&v[i]) {
            proof { assert(v@.to_set().contains(v@[i as int])); }
            return true;
        }
        i += 1;
    }
    proof {
        assert forall|m: OpId| #[trigger] missing@.contains(m) implies !gone@.contains(m) by {
            assert(v@.to_set().contains(m));
            let j = choose|j: int| 0 <= j < v@.len() && v@[j] == m;
        }
    }
    false
}

/// The bytes of the journal key of `e`.
/// Filtering by a predicate every entry meets keeps the sequence.
proof fn lemma_filter_keeps_all<A>(s: Seq<A>, p: spec_fn(A) -> bool)
    requires forall|x: A| #[trigger] s.contains(x) ==> p(x),
    ensures s.filter(p) == s,
    decreases s.len(),
{
    reveal(Seq::filter);
    if s.len() > 0 {
        let t = s.drop_last();
        assert forall|x: A| #[trigger] t.contains(x) implies p(x) by {
            let j = choose|j: int| 0 <= j < t.len() && t[j] == x;
            assert(t[j] == s[j]);
            assert(s.contains(x));
        }
        lemma_filter_keeps_all(t, p);
        assert(s.contains(s.last()));
        assert(t.push(s.last()) =~= s);
    }
}

pub open spec fn eviction_key_of(e: crate::eviction::TopicEviction) -> Seq<u8> {
    crate::crypto::spec_blake3(crate::eviction::spec_eviction_key_input(e))
}

/// Whether an ack of `peer` for `topic` on branch `genesis` is among `acks`.
pub open spec fn has_ack_for(acks: Seq<PeerAck>, peer: PeerId, topic: TopicId) -> bool {
    exists|i: int| 0 <= i < acks.len() && (#[trigger] acks[i]).peer_id == peer && acks[i].topic_id == topic
}

/// The first ack of `peer` for `topic` among `acks`, if any.
pub open spec fn ack_of(acks: Seq<PeerAck>, peer: PeerId, topic: TopicId) -> Option<PeerAck>
    decreases acks.len(),
{
    if acks.len() == 0 {
        None
    } else {
        match ack_of(acks.drop_last(), peer, topic) {
            Some(a) => Some(a),
            None => if acks.last().peer_id == peer && acks.last().topic_id == topic { Some(acks.last()) } else { None },
        }
    }
}

/// The first ack of a peer for a topic is the one at the first position holding one.
pub proof fn lemma_ack_of(acks: Seq<PeerAck>, peer: PeerId, topic: TopicId)
    ensures
        ack_of(acks, peer, topic) is None <==> !has_ack_for(acks, peer, topic),
        forall|i: int| 0 <= i < acks.len() && #[trigger] acks[i].peer_id == peer && acks[i].topic_id == topic
            && (forall|j: int| 0 <= j < i ==> !(#[trigger] acks[j].peer_id == peer && acks[j].topic_id == topic))
            ==> ack_of(acks, peer, topic) == Some(acks[i]),
    decreases acks.len(),
{
    if acks.len() > 0 {
        let t = acks.drop_last();
        lemma_ack_of(t, peer, topic);
        assert forall|i: int| 0 <= i < acks.len() && #[trigger] acks[i].peer_id == peer && acks[i].topic_id == topic
            && (forall|j: int| 0 <= j < i ==> !(#[trigger] acks[j].peer_id == peer && acks[j].topic_id == topic))
            implies ack_of(acks, peer, topic) == Some(acks[i]) by {
            if i < t.len() {
                assert(t[i] == acks[i]);
                assert forall|j: int| 0 <= j < i implies !(#[trigger] t[j].peer_id == peer && t[j].topic_id == topic) by {
                    assert(t[j] == acks[j]);
                }
            } else {
                assert forall|j: int| 0 <= j < t.len() implies !(#[trigger] t[j].peer_id == peer && t[j].topic_id == topic) by {
                    assert(t[j] == acks[j]);
                }
                assert(!has_ack_for(t, peer, topic));
            }
        }
        if has_ack_for(acks, peer, topic) && !has_ack_for(t, peer, topic) {
            let i = choose|i: int| 0 <= i < acks.len() && (#[trigger] acks[i]).peer_id == peer && acks[i].topic_id == topic;
            assert(i == acks.len() - 1) by {
                if i < t.len() { assert(t[i] == acks[i]); }
            }
        }
        if has_ack_for(t, peer, topic) {
            let i = choose|i: int| 0 <= i < t.len() && (#[trigger] t[i]).peer_id == peer && t[i].topic_id == topic;
            assert(acks[i] == t[i]);
        }
    }
}

impl MemoryStorage {
    /// The position in the ack list of `peer_id`'s first ack for `topic_id`.
    fn ack_index(&self, peer_id: &PeerId, topic_id: &TopicId) -> (r: Option<usize>)
        ensures
            r matches Some(i) ==> i < self.ack_seq().len() && self.ack_seq()[i as int].peer_id == *peer_id
                && self.ack_seq()[i as int].topic_id == *topic_id
                && forall|j: int| 0 <= j < i ==> !(#[trigger] self.ack_seq()[j].peer_id == *peer_id && self.ack_seq()[j].topic_id == *topic_id),
            r is None ==> !has_ack_for(self.ack_seq(), *peer_id, *topic_id),
    {
        let mut i: usize = 0;
        while i < self.acks.len()
            invariant
                i <= self.acks@.len(),
                forall|j: int| 0 <= j < i ==> !((#[trigger] self.acks@[j]).peer_id == *peer_id && self.acks@[j].topic_id == *topic_id),
            decreases self.acks@.len() - i,
        {
            if self.acks[i].peer_id.same(peer_id) && self.acks[i].topic_id.same(topic_id) {
                return Some(i);
            }
            i += 1;
        }
        None
    }

    /// What `peer_id` last certified it holds of `topic_id`.
    pub fn peer_ack(&self, peer_id: &PeerId, topic_id: &TopicId) -> (r: Option<&PeerAck>)
        ensures
            r is None ==> !has_ack_for(self.ack_seq(), *peer_id, *topic_id),
            r matches Some(a) ==> a.peer_id == *peer_id && a.topic_id == *topic_id
                && self.ack_seq().contains(*a),
            r is None <==> ack_of(self.ack_seq(), *peer_id, *topic_id) is None,
            r matches Some(a) ==> ack_of(self.ack_seq(), *peer_id, *topic_id) == Some(*a),
    {
        proof { lemma_ack_of(self.ack_seq(), *peer_id, *topic_id); }
        match self.ack_index(peer_id, topic_id) {
            Some(i) => {
                assert(self.ack_seq()[i as int] == self.acks@[i as int]);
                Some(&self.acks[i])
            },
            None => None,
        }
    }

    /// Records what `peer_id` certified it holds of `topic_id` on branch `genesis`,
    /// replacing its earlier ack for the topic.
    pub fn put_peer_ack(&mut self, peer_id: PeerId, topic_id: TopicId, genesis: OpId, clock: ActorClock)
        ensures
            final(self).ops_map() == old(self).ops_map(),
            final(self).topics_map() == old(self).topics_map(),
            final(self).ack_seq().len() > 0,
            final(self).ack_seq().last().peer_id == peer_id,
            final(self).ack_seq().last().topic_id == topic_id,
            final(self).ack_seq().last().genesis == genesis,
            final(self).ack_seq().last().clock@ == clock@,
            final(self).ack_seq().drop_last() == old(self).ack_seq().filter(|a: PeerAck| !(a.peer_id == peer_id && a.topic_id == topic_id)),
            !has_ack_for(final(self).ack_seq().drop_last(), peer_id, topic_id),
            forall|p: PeerId, t: TopicId| #[trigger] has_ack_for(old(self).ack_seq(), p, t) ==> has_ack_for(final(self).ack_seq(), p, t),
    {
        let ghost orig = self.acks@;
        let ghost pred = |a: PeerAck| !(a.peer_id == peer_id && a.topic_id == topic_id);
        let mut kept: Vec<PeerAck> = Vec::new();
        let mut rest: Vec<PeerAck> = Vec::new();
        std::mem::swap(&mut rest, &mut self.acks);
        let ghost mut i: int = 0;
        while rest.len() > 0
            invariant
                0 <= i <= orig.len(),
                rest@ == orig.skip(i),
                kept@ == orig.take(i).filter(pred),
                forall|x: PeerAck| #[trigger] pred(x) == !(x.peer_id == peer_id && x.topic_id == topic_id),
            decreases rest@.len(),
        {
            let a = rest.remove(0);
            proof {
                assert(a == orig[i]);
                assert(orig.take(i + 1).drop_last() =~= orig.take(i));
                assert(orig.take(i + 1).last() == a);
                reveal(Seq::filter);
                assert(orig.take(i + 1).filter(pred) == orig.take(i).filter(pred)
                    + (if pred(a) { seq![a] } else { Seq::<PeerAck>::empty() }));
            }
            if !(a.peer_id.same(&peer_id) && a.topic_id.same(&topic_id)) {
                kept.push(a);
            }
            proof {
                assert(kept@ =~= orig.take(i + 1).filter(pred));
                i = i + 1;
                assert(rest@ =~= orig.skip(i));
            }
        }
        proof {
            assert(orig.skip(i).len() == 0);
            assert(orig.take(i) =~= orig);
            #[allow(deprecated)]
            orig.filter_lemma(pred);
        }
        self.acks = kept;
        let ghost before = self.acks@;
        self.acks.push(PeerAck { peer_id, topic_id, genesis, clock });
        proof {
            assert(self.acks@.drop_last() =~= before);
            assert forall|j: int| 0 <= j < before.len() implies !((#[trigger] before[j]).peer_id == peer_id && before[j].topic_id == topic_id) by {
                assert(pred(before[j]));
            }
            assert forall|p: PeerId, t: TopicId| #[trigger] has_ack_for(orig, p, t) implies has_ack_for(self.acks@, p, t) by {
                let j = choose|j: int| 0 <= j < orig.len() && (#[trigger] orig[j]).peer_id == p && orig[j].topic_id == t;
                if p == peer_id && t == topic_id {
                    assert(self.acks@[self.acks@.len() - 1].peer_id == p);
                } else {
                    assert(pred(orig[j]));
                    assert(before.contains(orig[j]));
                    let w = choose|w: int| 0 <= w < before.len() && before[w] == orig[j];
                    assert(self.acks@[w] == before[w]);
                }
            }
        }
    }
}

impl MemoryStorage {
    /// Journals `eviction` unless a record with its key is already journalled.
    pub fn journal_eviction(&mut self, eviction: crate::eviction::TopicEviction)
        ensures
            final(self).ops_map() == old(self).ops_map(),
            final(self).topics_map() == old(self).topics_map(),
            final(self).eviction_seq().len() >= old(self).eviction_seq().len(),
            final(self).eviction_seq() == (if exists|i: int| 0 <= i < old(self).eviction_seq().len()
                && #[trigger] eviction_key_of(old(self).eviction_seq()[i]) == eviction_key_of(eviction) {
                old(self).eviction_seq()
            } else {
                old(self).eviction_seq().push(eviction)
            }),
            final(self).pending_seq() == old(self).pending_seq(),
            final(self).ack_seq() == old(self).ack_seq(),
            keys_distinct(final(self).eviction_seq()),
    {
        self.evictions.journal(eviction);
        proof { use_type_invariant(&self.evictions); }
    }

    /// The peer acknowledgements.
    pub fn acks(&self) -> (r: &Vec<PeerAck>)
        ensures r@ == self.ack_seq(),
    {
        &self.acks
    }

    /// The journalled evictions awaiting release.
    pub fn pending_evictions(&self) -> (r: &Vec<crate::eviction::TopicEviction>)
        ensures
            r@ == self.eviction_seq(),
            keys_distinct(self.eviction_seq()),
    {
        proof { use_type_invariant(&self.evictions); }
        &self.evictions.entries
    }

    /// Releases the journalled eviction named `key`; releasing twice is harmless.
    pub fn clear_eviction(&mut self, key: &Id32)
        ensures
            final(self).ops_map() == old(self).ops_map(),
            final(self).topics_map() == old(self).topics_map(),
            final(self).eviction_seq() == old(self).eviction_seq().filter(
                |e: crate::eviction::TopicEviction| eviction_key_of(e) != key.bytes@),
            final(self).eviction_seq().len() <= old(self).eviction_seq().len(),
            forall|i: int| 0 <= i < final(self).eviction_seq().len() ==>
                crate::crypto::spec_blake3(crate::eviction::spec_eviction_key_input(#[trigger] final(self).eviction_seq()[i])) != key.bytes@,
            forall|e: crate::eviction::TopicEviction| #[trigger] final(self).eviction_seq().contains(e) <==>
                old(self).eviction_seq().contains(e) && eviction_key_of(e) != key.bytes@,
            (forall|e: crate::eviction::TopicEviction| #[trigger] old(self).eviction_seq().contains(e) ==> eviction_key_of(e) != key.bytes@)
                ==> final(self).eviction_seq() == old(self).eviction_seq(),
            final(self).pending_seq() == old(self).pending_seq(),
            final(self).ack_seq() == old(self).ack_seq(),
            keys_distinct(old(self).eviction_seq()),
            keys_distinct(final(self).eviction_seq()),
    {
        proof { use_type_invariant(&self.evictions); }
        self.evictions.clear(key);
        proof { use_type_invariant(&self.evictions); }
    }

    /// Marks `topic_id` sealed against genesis resets; returns whether the topic is held.
    pub fn seal_topic(&mut self, topic_id: &TopicId) -> (r: bool)
        ensures
            r == old(self).topics_map().contains_key(*topic_id),
            final(self).ops_map() == old(self).ops_map(),
            r ==> final(self).topics_map().contains_key(*topic_id) && final(self).topics_map()[*topic_id].sealed,
            forall|t: TopicId| t != *topic_id ==> (#[trigger] final(self).topics_map().contains_key(t) <==> old(self).topics_map().contains_key(t)),
    {
        self.set_sealed(topic_id, true)
    }

    /// Clears the seal of `topic_id`; returns whether the topic is held.
    pub fn unseal_topic(&mut self, topic_id: &TopicId) -> (r: bool)
        ensures
            r == old(self).topics_map().contains_key(*topic_id),
            final(self).ops_map() == old(self).ops_map(),
            r ==> final(self).topics_map().contains_key(*topic_id) && !final(self).topics_map()[*topic_id].sealed,
            forall|t: TopicId| t != *topic_id ==> (#[trigger] final(self).topics_map().contains_key(t) <==> old(self).topics_map().contains_key(t)),
    {
        self.set_sealed(topic_id, false)
    }

    fn set_sealed(&mut self, topic_id: &TopicId, sealed: bool) -> (r: bool)
        ensures
            r == old(self).topics_map().contains_key(*topic_id),
            final(self).ops_map() == old(self).ops_map(),
            r ==> final(self).topics_map().contains_key(*topic_id) && final(self).topics_map()[*topic_id].sealed == sealed,
            forall|t: TopicId| t != *topic_id ==> (#[trigger] final(self).topics_map().contains_key(t) <==> old(self).topics_map().contains_key(t)),
    {
        match self.topics.remove(topic_id) {
            Some(mut record) => {
                record.sealed = sealed;
                self.topics.insert(*topic_id, record);
                true
            },
            None => false,
        }
    }

    /// Whether `topic_id` is sealed.
    pub fn is_sealed(&self, topic_id: &TopicId) -> (r: bool)
        ensures r == (self.topics_map().contains_key(*topic_id) && self.topics_map()[*topic_id].sealed),
    {
        match self.topics.get(topic_id) {
            Some(record) => record.sealed,
            None => false,
        }
    }

    /// Every held topic with its event type and genesis, in ascending id order.
    pub fn list_topics(&self) -> (r: Vec<TopicInfo>)
        ensures
            r@.len() == self.topics_map().len(),
            forall|i: int| 0 <= i < r@.len() ==> self.topics_map().contains_key(#[trigger] r@[i].topic_id)
                && r@[i].genesis == self.topics_map()[r@[i].topic_id].state.genesis
                && r@[i].event_type_id@ == self.topics_map()[r@[i].topic_id].state.event_type_id@,
            forall|i: int, j: int| 0 <= i < r@.len() && 0 <= j < r@.len() && i != j ==> #[trigger] r@[i].topic_id != #[trigger] r@[j].topic_id,
            forall|t: TopicId| #[trigger] self.topics_map().contains_key(t) ==> exists|i: int| 0 <= i < r@.len() && #[trigger] r@[i].topic_id == t,
            forall|i: int, j: int| 0 <= i < j < r@.len() ==> crate::ids::id_lt(#[trigger] r@[i].topic_id, #[trigger] r@[j].topic_id),
    {
        self.topics.check_keys();
        let n = self.topics.len();
        let mut r: Vec<TopicInfo> = Vec::new();
        let mut i: usize = 0;
        while i < n
            invariant
                i <= n,
                n == self.topics.key_seq().len(),
                n == self.topics@.len(),
                r@.len() == i,
                forall|j: int| 0 <= j < i ==> self.topics_map().contains_key(#[trigger] r@[j].topic_id)
                    && r@[j].genesis == self.topics_map()[r@[j].topic_id].state.genesis
                    && r@[j].event_type_id@ == self.topics_map()[r@[j].topic_id].state.event_type_id@,
                forall|j: int| 0 <= j < i ==> #[trigger] r@[j].topic_id == self.topics.key_seq()[j],
            decreases n - i,
        {
            let k = self.topics.key_at(i);
            let record = self.topics.value_at(i);
            r.push(TopicInfo { topic_id: k, event_type_id: record.state.event_type_id.clone(), genesis: record.state.genesis });
            i += 1;
        }
        proof {
            assert forall|a: int, b: int| 0 <= a < r@.len() && 0 <= b < r@.len() && a != b implies #[trigger] r@[a].topic_id != #[trigger] r@[b].topic_id by {
                assert(r@[a].topic_id == self.topics.key_seq()[a]);
                assert(r@[b].topic_id == self.topics.key_seq()[b]);
            }
            assert forall|a: int, b: int| 0 <= a < b < r@.len() implies crate::ids::id_lt(#[trigger] r@[a].topic_id, #[trigger] r@[b].topic_id) by {
                assert(r@[a].topic_id == self.topics.key_seq()[a]);
                assert(r@[b].topic_id == self.topics.key_seq()[b]);
            }
            assert forall|t: TopicId| #[trigger] self.topics_map().contains_key(t) implies exists|i: int| 0 <= i < r@.len() && #[trigger] r@[i].topic_id == t by {
                assert(self.topics.key_seq().contains(t));
                let w = choose|w: int| 0 <= w < self.topics.key_seq().len() && self.topics.key_seq()[w] == t;
                assert(r@[w].topic_id == t);
            }
        }
        r
    }
}

impl MemoryStorage {
    /// Number of listed operations; the listing is finite.
    pub fn op_count(&self) -> (r: usize)
        ensures r == self.ops_map().dom().len(), self.ops_map().dom().finite(),
    {
        self.ops.check_keys();
        self.ops.len()
    }
}

} // verus!
