//! Operations this node writes: positions, validation and the admission of one local op.
use vstd::prelude::*;
use crate::ids::{Id32, OpId, PeerId, TopicId, ActorId};
use crate::idset::IdSet;
use crate::idmap::IdMap;
use crate::clock::{ActorClock, clock_at};
use crate::crypto::{Ed25519Signer, actor_id_for, is_actor_of};
use crate::op::{Op, OpBody, spec_op_valid, spec_is_structural_genesis, same_op};
use crate::topic::{TopicPayload, TopicControl, TopicGenesis, EventEnvelope};
use crate::storage::{MemoryStorage, StoredOp, TopicState, OpMeta, ActorTip, spec_resolvable, spec_topic_ids};
use crate::error::Error;
use crate::frame::MAX_FRAME_LEN;
use crate::oplog::Oplog;
use crate::oplog::helpers::{heads_after, spec_heads_after, checked_next, next_actor_position,
    spec_next_actor_position, ensure_event_type, apply_control_to_state};
use crate::oplog::causal::{state_for_deps, member_at};

verus! {

/// Writers one topic admits.
pub const MAX_TOPIC_ACTORS: usize = 4096;

/// Whether the store holds a state for `topic`.
pub open spec fn has_state(s: MemoryStorage, topic: TopicId) -> bool {
    s.topics_map().contains_key(topic) && s.topics_map()[topic].state.topic_id == topic
}

/// The highest admitted position of `actor` in `topic`.
pub open spec fn spec_tip(s: MemoryStorage, topic: TopicId, actor: ActorId) -> Option<ActorTip> {
    if s.topics_map().contains_key(topic) && s.topics_map()[topic].tips@.contains_key(actor) {
        Some(s.topics_map()[topic].tips@[actor])
    } else {
        None
    }
}

/// One more than the highest generation among `ids`, 0 when there is none.
pub open spec fn gen_bound(ops: Map<OpId, StoredOp>, ids: Seq<OpId>) -> int
    decreases ids.len(),
{
    if ids.len() == 0 {
        0
    } else {
        let rest = gen_bound(ops, ids.drop_last());
        let g = ops[ids.last()].meta.generation + 1;
        if rest >= g { rest } else { g }
    }
}

/// Whether `id` is held whole: record and position, both under its own id.
pub open spec fn held_whole(ops: Map<OpId, StoredOp>, id: OpId) -> bool {
    spec_resolvable(ops, id) && ops[id].op.id == id && ops[id].meta.id == id
}

/// Whether a locally written `op` may join the store `s`: its actor is its author's in
/// the topic, it takes the actor's next position, its dependencies are held, its
/// generation is one past theirs, and a genesis opens a new topic while any other op
/// needs the topic and an author who is a member at its position.
pub open spec fn local_valid(s: MemoryStorage, op: Op) -> bool {
    let b = op.signed.body;
    let ops = s.ops_map();
    &&& is_actor_of(b.actor_id, b.topic_id, b.author)
    &&& spec_next_actor_position(spec_tip(s, b.topic_id, b.actor_id)) matches Ok(pos)
    &&& pos == (b.actor_seq, b.actor_prev)
    &&& (b.actor_prev matches Some(p) ==> b.deps@.contains(p))
    &&& forall|d: OpId| #[trigger] b.deps@.contains(d) ==> held_whole(ops, d)
    &&& b.generation == gen_bound(ops, b.deps.elems())
    &&& if b.payload is Genesis {
        spec_is_structural_genesis(op) && !has_state(s, b.topic_id)
    } else {
        &&& has_state(s, b.topic_id)
        &&& member_at(ops, b.topic_id, b.deps@, b.author)
        &&& (b.payload matches TopicPayload::Event(e) ==> e.type_id@ == s.topics_map()[b.topic_id].state.event_type_id@)
    }
}

/// Whether two optional ids are equal.
fn same_opt_id(a: Option<OpId>, b: Option<OpId>) -> (r: bool)
    ensures r == (a == b),
{
    match (a, b) {
        (None, None) => true,
        (Some(x), Some(y)) => x.same(&y),
        _ => false,
    }
}

proof fn lemma_gen_bound_step(ops: Map<OpId, StoredOp>, s: Seq<OpId>, i: int)
    requires 0 <= i < s.len(),
    ensures
        gen_bound(ops, s.subrange(0, i + 1)) == (if gen_bound(ops, s.subrange(0, i)) >= ops[s[i]].meta.generation + 1 {
            gen_bound(ops, s.subrange(0, i))
        } else {
            ops[s[i]].meta.generation + 1
        }),
{
    assert(s.subrange(0, i + 1).drop_last() =~= s.subrange(0, i));
}

impl Oplog {
    /// Checks a locally written operation against the store, in this order:
    /// actor, genesis, fork, position, dependencies, payload, generation.
    pub fn validate_op(&self, op: &Op) -> (r: Result<(), Error>)
        ensures
            r is Ok ==> local_valid(self.store(), *op),
            r matches Err(e) ==> !(e is OpTooLarge),
            (op.signed.body.payload !is Genesis && !has_state(self.store(), op.signed.body.topic_id)
                && is_actor_of(op.signed.body.actor_id, op.signed.body.topic_id, op.signed.body.author)) ==> r is Err,
            local_valid(self.store(), *op) && crate::oplog::admission::slot_free(self.store().ops_map(), *op)
                && op.signed.body.payload is Genesis ==> r is Ok,
            local_valid(self.store(), *op) && crate::oplog::admission::slot_free(self.store().ops_map(), *op)
                && crate::oplog::causal::member_everywhere(self.store().ops_map(), op.signed.body.topic_id,
                    op.signed.body.deps@, op.signed.body.author) ==> r is Ok,
    {
        let body = &op.signed.body;
        let expected_actor = actor_id_for(body.topic_id, body.author);
        if !body.actor_id.same(&expected_actor) {
            proof { crate::ids::lemma_id_bytes_eq(body.actor_id, expected_actor); }
            return Err(Error::ActorAuthorMismatch);
        }
        let state = self.storage.topic_state(&body.topic_id);
        let is_genesis = match &body.payload { TopicPayload::Genesis(_) => true, _ => false };
        if is_genesis && state.is_some() {
            return Err(Error::InvalidGenesis);
        }
        match self.storage.actor_index(&body.topic_id, &body.actor_id, body.actor_seq) {
            Some(existing) => {
                if !existing.same(&op.id) {
                    return Err(Error::ActorFork);
                }
            },
            None => {},
        }
        let tip = self.storage.actor_tip(&body.topic_id, &body.actor_id);
        let (expected_seq, expected_prev) = next_actor_position(tip)?;
        if body.actor_seq != expected_seq {
            return Err(Error::ActorSeqGap { expected: expected_seq, actual: body.actor_seq });
        }
        if !same_opt_id(body.actor_prev, expected_prev) {
            return Err(Error::ActorPrevMismatch);
        }
        match body.actor_prev {
            Some(prev) => {
                if !body.deps.contains(&prev) {
                    return Err(Error::ActorPrevMismatch);
                }
            },
            None => {},
        }
        let deps = body.deps.to_vec();
        let ghost lv = local_valid(self.store(), *op) && body.payload is Genesis;
        let ghost ok = local_valid(self.store(), *op) && crate::oplog::admission::slot_free(self.store().ops_map(), *op)
            && crate::oplog::causal::member_everywhere(self.store().ops_map(), body.topic_id, body.deps@, body.author);
        proof {
            if lv {
                assert(body.deps@.len() == 0);
                deps@.unique_seq_to_set();
            }
            body.deps.lemma_view_elems();
        }
        let mut i: usize = 0;
        while i < deps.len()
            invariant
                i <= deps@.len(),
                lv == (local_valid(self.store(), *op) && op.signed.body.payload is Genesis),
                lv ==> deps@.len() == 0,
                deps@ == op.signed.body.deps.elems(),
                op.signed.body.deps@ == deps@.to_set(),
                ok == (local_valid(self.store(), *op) && crate::oplog::admission::slot_free(self.store().ops_map(), *op)
                    && crate::oplog::causal::member_everywhere(self.store().ops_map(), op.signed.body.topic_id,
                        op.signed.body.deps@, op.signed.body.author)),
                forall|j: int| 0 <= j < i ==> self.storage.ops_map().contains_key(#[trigger] deps@[j])
                    && self.storage.ops_map()[deps@[j]].has_record && self.storage.ops_map()[deps@[j]].op.id == deps@[j],
            decreases deps@.len() - i,
        {
            proof {
                if ok {
                    assert(deps@.to_set().contains(deps@[i as int]));
                    assert(held_whole(self.storage.ops_map(), deps@[i as int]));
                }
            }
            if self.storage.get_op(&deps[i]).is_none() {
                return Err(Error::MissingDependency(deps[i]));
            }
            i += 1;
        }
        match &body.payload {
            TopicPayload::Genesis(_) => {
                if body.actor_seq != 1 || body.actor_prev.is_some() || !body.deps.is_empty() || state.is_some() {
                    return Err(Error::InvalidGenesis);
                }
            },
            TopicPayload::Event(envelope) => {
                let current = match state {
                    Some(s) => s,
                    None => return Err(Error::TopicNotFound),
                };
                ensure_event_type(&current.event_type_id, &envelope.type_id)?;
                let at = state_for_deps(&self.storage, &body.topic_id, &body.deps)?;
                if !at.members.contains(&body.author) {
                    return Err(Error::NotTopicMember);
                }
            },
            TopicPayload::Control(_) => {
                if state.is_none() {
                    return Err(Error::TopicNotFound);
                }
                let at = state_for_deps(&self.storage, &body.topic_id, &body.deps)?;
                if !at.members.contains(&body.author) {
                    return Err(Error::NotTopicMember);
                }
            },
        }
        let mut generation: u64 = 0;
        let mut k: usize = 0;
        while k < deps.len()
            invariant
                k <= deps@.len(),
                lv == (local_valid(self.store(), *op) && op.signed.body.payload is Genesis),
                lv ==> deps@.len() == 0,
                deps@ == op.signed.body.deps.elems(),
                op.signed.body.deps@ == deps@.to_set(),
                ok == (local_valid(self.store(), *op) && crate::oplog::admission::slot_free(self.store().ops_map(), *op)
                    && crate::oplog::causal::member_everywhere(self.store().ops_map(), op.signed.body.topic_id,
                        op.signed.body.deps@, op.signed.body.author)),
                generation == gen_bound(self.storage.ops_map(), deps@.subrange(0, k as int)),
                forall|j: int| 0 <= j < k ==> self.storage.ops_map().contains_key(#[trigger] deps@[j])
                    && self.storage.ops_map()[deps@[j]].has_meta && self.storage.ops_map()[deps@[j]].meta.id == deps@[j],
            decreases deps@.len() - k,
        {
            proof {
                if ok {
                    assert(deps@.to_set().contains(deps@[k as int]));
                    assert(held_whole(self.storage.ops_map(), deps@[k as int]));
                    lemma_gen_bound_above(self.storage.ops_map(), deps@, k as int);
                }
            }
            let meta = match self.storage.get_meta(&deps[k]) {
                Some(m) => m,
                None => return Err(Error::MissingDependency(deps[k])),
            };
            let next = checked_next(meta.generation)?;
            proof { lemma_gen_bound_step(self.storage.ops_map(), deps@, k as int); }
            if next > generation {
                generation = next;
            }
            k += 1;
        }
        proof {
            assert(deps@.subrange(0, deps@.len() as int) =~= deps@);
        }
        if body.generation != generation {
            return Err(Error::GenerationMismatch { expected: generation, actual: body.generation });
        }
        proof {
            assert forall|d: OpId| #[trigger] body.deps@.contains(d) implies held_whole(self.storage.ops_map(), d) by {
                assert(deps@.to_set().contains(d));
                let w = choose|w: int| 0 <= w < deps@.len() && deps@[w] == d;
                assert(self.storage.ops_map().contains_key(deps@[w]));
            }
            assert(is_actor_of(body.actor_id, body.topic_id, body.author));
        }
        Ok(())
    }
}

/// The generation bound of `ids` exceeds the generation of each of them.
pub proof fn lemma_gen_bound_above(ops: Map<OpId, StoredOp>, ids: Seq<OpId>, i: int)
    requires 0 <= i < ids.len(),
    ensures gen_bound(ops, ids) >= ops[ids[i]].meta.generation + 1,
    decreases ids.len(),
{
    if i < ids.len() - 1 {
        lemma_gen_bound_above(ops, ids.drop_last(), i);
    }
}

/// Whether a local write of `payload` to `topic` by `author` as `actor` is owed
/// success in `s`: the topic is held and names the author, the actor holds a
/// position or the topic has room for another actor, the next position and
/// generation fit, and the op built on the topic's heads fits a frame, is valid
/// there, takes a free position, depends only on ops of the topic, and its author
/// is a member at its dependencies however the state there is read.
pub open spec fn local_write_ok(s: MemoryStorage, topic: TopicId, actor: ActorId, author: PeerId, payload: TopicPayload) -> bool {
    &&& has_state(s, topic)
    &&& s.topics_map()[topic].state.members@.contains(author)
    &&& (s.topics_map()[topic].tips@.contains_key(actor) || s.topics_map()[topic].tips@.len() < MAX_TOPIC_ACTORS)
    &&& next_op_fits(s, topic, actor, heads_of(s, topic))
    &&& forall|op: Op| #[trigger] built_on(op, topic, actor, author, heads_of(s, topic), spec_tip(s, topic, actor))
        && crate::topic::same_payload(op.signed.body.payload, payload) ==> {
        &&& crate::op::spec_signed_bytes(op.signed).len() <= crate::frame::MAX_FRAME_LEN
        &&& local_valid(s, op)
        &&& crate::oplog::admission::slot_free(s.ops_map(), op)
        &&& crate::oplog::causal::member_everywhere(s.ops_map(), topic, op.signed.body.deps@, author)
        &&& forall|d: OpId| #[trigger] op.signed.body.deps@.contains(d) ==> s.ops_map()[d].meta.topic_id == topic
    }
}

/// Whether `m` is the position of `op` in store `ops`: its body's fields, and a clock
/// that has observed each dependency.
pub open spec fn meta_of(ops: Map<OpId, StoredOp>, op: Op, m: OpMeta) -> bool {
    let b = op.signed.body;
    &&& m.id == op.id
    &&& m.topic_id == b.topic_id
    &&& m.author == b.author
    &&& m.actor_id == b.actor_id
    &&& m.actor_seq == b.actor_seq
    &&& m.actor_prev == b.actor_prev
    &&& m.deps@ == b.deps@
    &&& m.generation == b.generation
    &&& forall|d: OpId| #[trigger] b.deps@.contains(d) ==>
        clock_at(m.observed_clock@, ops[d].meta.actor_id) >= ops[d].meta.actor_seq
}

/// The recorded membership decisions a control with `key` leaves in a topic whose
/// state was `base`: it records its own decision for the peer it names unless a
/// later control decided that peer.
pub open spec fn controls_after(base: TopicState, key: crate::storage::ControlKey, control: TopicControl)
    -> Map<PeerId, crate::storage::MembershipControl> {
    match control {
        TopicControl::AddPeer { peer } => if !base.membership_controls@.contains_key(peer)
            || crate::storage::control_key_gt(key, base.membership_controls@[peer].key) {
            base.membership_controls@.insert(peer, crate::storage::MembershipControl { key, is_member: true })
        } else {
            base.membership_controls@
        },
        TopicControl::RemovePeer { peer } => if !base.membership_controls@.contains_key(peer)
            || crate::storage::control_key_gt(key, base.membership_controls@[peer].key) {
            base.membership_controls@.insert(peer, crate::storage::MembershipControl { key, is_member: false })
        } else {
            base.membership_controls@
        },
        TopicControl::SetReplicationPolicy { .. } => base.membership_controls@,
    }
}

/// The members a membership control with `key` leaves in a topic whose state was
/// `base`: the peer it names joins or leaves unless a later control decided that peer.
pub open spec fn members_after_control(base: TopicState, key: crate::storage::ControlKey, control: TopicControl) -> Set<PeerId> {
    match control {
        TopicControl::AddPeer { peer } => if !base.membership_controls@.contains_key(peer)
            || crate::storage::control_key_gt(key, base.membership_controls@[peer].key) {
            base.members@.insert(peer)
        } else {
            base.members@
        },
        TopicControl::RemovePeer { peer } => if !base.membership_controls@.contains_key(peer)
            || crate::storage::control_key_gt(key, base.membership_controls@[peer].key) {
            base.members@.remove(peer)
        } else {
            base.members@
        },
        TopicControl::SetReplicationPolicy { .. } => base.members@,
    }
}

/// The state a new operation gives its topic: a genesis opens it, a control changes
/// it, an event leaves it as it was.
pub open spec fn state_after_ok(op: Op, heads: Set<OpId>, base: Option<TopicState>, r: Option<TopicState>) -> bool {
    let b = op.signed.body;
    match b.payload {
        TopicPayload::Genesis(g) => r matches Some(st) && st.topic_id == b.topic_id && st.genesis == op.id
            && st.heads@ == heads && st.members@ == g.initial_peers@ && st.event_type_id@ == g.event_type_id@
            && crate::oplog::causal::same_policy(st.replication_policy, g.replication_policy)
            && st.membership_controls@ == Map::<PeerId, crate::storage::MembershipControl>::empty()
            && st.replication_policy_key is None,
        TopicPayload::Event(_) => r is None,
        TopicPayload::Control(c) => r matches Some(st) && base matches Some(old) && st.topic_id == old.topic_id
            && st.genesis == old.genesis && st.heads@ == heads && st.event_type_id@ == old.event_type_id@
            && st.members@ == members_after_control(old, crate::oplog::helpers::spec_control_key(op), c)
            && st.membership_controls@ == controls_after(old, crate::oplog::helpers::spec_control_key(op), c)
            && policy_after(old, crate::oplog::helpers::spec_control_key(op), c, st),
    }
}

/// Whether a later policy control with `key` than the one `base` applied: there is
/// none yet, or `key` comes after it.
pub open spec fn policy_later(base: TopicState, key: crate::storage::ControlKey) -> bool {
    base.replication_policy_key is None || crate::storage::control_key_gt(key, base.replication_policy_key->0)
}

/// The replication policy a control with `key` leaves in `st`, from `base`: a policy
/// control later than the one applied replaces the policy and its key; anything else
/// leaves both as they were.
pub open spec fn policy_after(base: TopicState, key: crate::storage::ControlKey, control: TopicControl, st: TopicState) -> bool {
    match control {
        TopicControl::SetReplicationPolicy { policy } => if policy_later(base, key) {
            st.replication_policy_key == Some(key) && crate::oplog::causal::same_policy(st.replication_policy, policy)
        } else {
            st.replication_policy_key == base.replication_policy_key
                && crate::oplog::causal::same_policy(st.replication_policy, base.replication_policy)
        },
        _ => st.replication_policy_key == base.replication_policy_key
            && crate::oplog::causal::same_policy(st.replication_policy, base.replication_policy),
    }
}

/// A policy control that comes after the one a topic applied decides the topic's
/// replication policy: the state it gives holds that control's policy under its key,
/// whatever the policy was before.
pub proof fn lemma_policy_control_applies(op: Op, heads: Set<OpId>, base: TopicState, st: TopicState,
    policy: crate::topic::ReplicationPolicy)
    requires
        state_after_ok(op, heads, Some(base), Some(st)),
        op.signed.body.payload == TopicPayload::Control(TopicControl::SetReplicationPolicy { policy }),
        base.replication_policy_key is None
            || crate::storage::control_key_gt(crate::oplog::helpers::spec_control_key(op), base.replication_policy_key->0),
    ensures
        st.replication_policy.selected_peers@ == policy.selected_peers@,
        st.replication_policy.max_sync_peers == policy.max_sync_peers,
        st.replication_policy_key == Some(crate::oplog::helpers::spec_control_key(op)),
{
}

impl Oplog {
    /// The position of `op`: its body's fields and the clock its dependencies observed.
    pub fn meta_for(&self, op: &Op) -> (r: Result<OpMeta, Error>)
        ensures
            r matches Ok(m) ==> meta_of(self.store().ops_map(), *op, m),
            r matches Err(e) ==> (e is MissingDependency || e is TopicMismatch),
            op.signed.body.deps@ == Set::<OpId>::empty() ==> r is Ok,
            (forall|d: OpId| #[trigger] op.signed.body.deps@.contains(d) ==> held_whole(self.store().ops_map(), d)
                && self.store().ops_map()[d].meta.topic_id == op.signed.body.topic_id) ==> r is Ok,
    {
        let body = &op.signed.body;
        let ghost fine = forall|d: OpId| #[trigger] op.signed.body.deps@.contains(d) ==> held_whole(self.store().ops_map(), d)
                && self.store().ops_map()[d].meta.topic_id == op.signed.body.topic_id;
        let deps = body.deps.to_vec();
        proof {
            if op.signed.body.deps@ == Set::<OpId>::empty() && deps@.len() > 0 {
                assert(deps@.to_set().contains(deps@[0]));
            }
        }
        let mut observed = ActorClock::new();
        let mut i: usize = 0;
        while i < deps.len()
            invariant
                i <= deps@.len(),
                op.signed.body.deps@ == Set::<OpId>::empty() ==> deps@.len() == 0,
                deps@.to_set() == body.deps@,
                fine == (forall|d: OpId| #[trigger] op.signed.body.deps@.contains(d) ==> held_whole(self.store().ops_map(), d)
                    && self.store().ops_map()[d].meta.topic_id == op.signed.body.topic_id),
                *body == op.signed.body,
                forall|j: int| 0 <= j < i ==> #[trigger] clock_at(observed@, self.storage.ops_map()[deps@[j]].meta.actor_id)
                    >= self.storage.ops_map()[deps@[j]].meta.actor_seq,
            decreases deps@.len() - i,
        {
            proof {
                if fine {
                    assert(deps@.to_set().contains(deps@[i as int]));
                    assert(body.deps@.contains(deps@[i as int]));
                    assert(held_whole(self.storage.ops_map(), deps@[i as int]));
                    assert(self.storage.ops_map()[deps@[i as int]].meta.topic_id == body.topic_id);
                }
            }
            let meta = match self.storage.get_meta(&deps[i]) {
                Some(m) => m,
                None => return Err(Error::MissingDependency(deps[i])),
            };
            if !meta.topic_id.same(&body.topic_id) {
                return Err(Error::TopicMismatch);
            }
            let ghost before = observed@;
            observed.merge(&meta.observed_clock);
            let ghost merged = observed@;
            observed.observe(meta.actor_id, meta.actor_seq);
            proof {
                assert forall|j: int| 0 <= j < i + 1 implies #[trigger] clock_at(observed@, self.storage.ops_map()[deps@[j]].meta.actor_id)
                    >= self.storage.ops_map()[deps@[j]].meta.actor_seq by {
                    let a = self.storage.ops_map()[deps@[j]].meta.actor_id;
                    assert(clock_at(merged, a) >= clock_at(before, a));
                    if a != meta.actor_id {
                        assert(clock_at(observed@, a) == clock_at(merged, a));
                    }
                }
            }
            i += 1;
        }
        proof {
            assert forall|d: OpId| #[trigger] body.deps@.contains(d) implies
                clock_at(observed@, self.storage.ops_map()[d].meta.actor_id) >= self.storage.ops_map()[d].meta.actor_seq by {
                assert(deps@.to_set().contains(d));
                let w = choose|w: int| 0 <= w < deps@.len() && deps@[w] == d;
                assert(clock_at(observed@, self.storage.ops_map()[deps@[w]].meta.actor_id) >= self.storage.ops_map()[deps@[w]].meta.actor_seq);
            }
        }
        Ok(OpMeta {
            id: op.id,
            topic_id: body.topic_id,
            author: body.author,
            actor_id: body.actor_id,
            actor_seq: body.actor_seq,
            actor_prev: body.actor_prev,
            deps: body.deps.duplicate(),
            generation: body.generation,
            observed_clock: observed,
        })
    }
}

/// The state `op` gives its topic with `heads`, from `base`, the state before it.
pub fn topic_state_after(op: &Op, heads: IdSet, base: Option<&TopicState>) -> (r: Result<Option<TopicState>, Error>)
    ensures
        r matches Ok(st) ==> state_after_ok(*op, heads@, match base { Some(b) => Some(*b), None => None }, st),
        r matches Err(e) ==> e is TopicNotFound && op.signed.body.payload is Control && base is None,
{
    let body = &op.signed.body;
    match &body.payload {
        TopicPayload::Genesis(g) => {
            let st = TopicState {
                topic_id: body.topic_id,
                event_type_id: g.event_type_id.clone(),
                genesis: op.id,
                heads,
                members: g.initial_peers.duplicate(),
                replication_policy: g.replication_policy.duplicate(),
                membership_controls: IdMap::new(),
                replication_policy_key: None,
            };
            Ok(Some(st))
        },
        TopicPayload::Event(_) => Ok(None),
        TopicPayload::Control(control) => {
            let mut st = match base {
                Some(b) => b.duplicate(),
                None => return Err(Error::TopicNotFound),
            };
            st.heads = heads;
            apply_control_to_state(&mut st, op, control);
            Ok(Some(st))
        },
    }
}

/// The current heads of `topic` in `s`; none for an unknown topic.
pub open spec fn heads_of(s: MemoryStorage, topic: TopicId) -> Set<OpId> {
    if s.topics_map().contains_key(topic) { s.topics_map()[topic].state.heads@ } else { Set::empty() }
}

/// What a new local operation of `payload` by `author` at `topic` and `actor` holds,
/// built on `heads` after the actor's `tip`.
pub open spec fn built_on(op: Op, topic: TopicId, actor: ActorId, author: PeerId, heads: Set<OpId>, tip: Option<ActorTip>) -> bool {
    let b = op.signed.body;
    &&& b.topic_id == topic
    &&& b.actor_id == actor
    &&& b.author == author
    &&& match tip {
        Some(t) => b.actor_seq == t.seq + 1 && b.actor_prev == Some(t.id) && b.deps@ == heads.insert(t.id),
        None => b.actor_seq == 1 && b.actor_prev is None && b.deps@ == heads,
    }
}

/// What a successful local write leaves in the store: the op held whole with its
/// position, and the topic's heads moved past its dependencies.
pub open spec fn written(old: MemoryStorage, new: MemoryStorage, op: Op) -> bool {
    let topic = op.signed.body.topic_id;
    &&& new.ops_map().contains_key(op.id)
    &&& same_op(new.ops_map()[op.id].op, op)
    &&& new.ops_map()[op.id].has_record
    &&& new.ops_map()[op.id].has_meta
    &&& new.ops_map()[op.id].topic_id == topic
    &&& meta_of(old.ops_map(), op, new.ops_map()[op.id].meta)
    &&& new.topics_map().contains_key(topic)
    &&& new.topics_map()[topic].state.topic_id == topic
    &&& new.topics_map()[topic].state.heads@ == spec_heads_after(heads_of(old, topic), op)
    &&& forall|k: OpId| k != op.id && old.ops_map().contains_key(k) ==> #[trigger] new.ops_map()[k] == old.ops_map()[k]
    &&& forall|k: OpId| #[trigger] old.ops_map().contains_key(k) ==> new.ops_map().contains_key(k)
    &&& forall|k: OpId| k != op.id ==> (#[trigger] new.ops_map().contains_key(k) <==> old.ops_map().contains_key(k))
    &&& forall|t: TopicId| t != topic ==> (#[trigger] new.topics_map().contains_key(t) <==> old.topics_map().contains_key(t))
    &&& forall|t: TopicId| t != topic && old.topics_map().contains_key(t) ==> #[trigger] new.topics_map()[t] == old.topics_map()[t]
}

/// The highest generation `topic` holds in `s`; zero for an unknown topic.
pub open spec fn topic_max_generation(s: MemoryStorage, topic: TopicId) -> u64 {
    if s.topics_map().contains_key(topic) { s.topics_map()[topic].max_generation } else { 0 }
}

/// Whether `topic` is unknown to `s`, which holds no op of it, and `actor` is the
/// actor of `author` in it: a genesis there needs nothing but to fit in a frame.
pub open spec fn fresh_topic(s: MemoryStorage, topic: TopicId, actor: ActorId, author: PeerId) -> bool {
    &&& !s.topics_map().contains_key(topic)
    &&& spec_topic_ids(s.ops_map(), topic) == Set::<OpId>::empty()
    &&& is_actor_of(actor, topic, author)
}

/// Whether the next operation of `actor` on `heads` has a position and a generation
/// that fit: the actor's sequence is not exhausted, and a non-empty dependency set
/// leaves room for one more generation.
pub open spec fn next_op_fits(s: MemoryStorage, topic: TopicId, actor: ActorId, heads: Set<OpId>) -> bool {
    &&& (spec_tip(s, topic, actor) matches Some(t) ==> t.seq < u64::MAX)
    &&& ((spec_tip(s, topic, actor) is Some || heads != Set::<OpId>::empty()) ==> topic_max_generation(s, topic) < u64::MAX)
}

impl Oplog {
    /// Refuses a peer that is not a current member of the topic.
    pub fn ensure_member(&self, topic_id: &TopicId, peer: &PeerId) -> (r: Result<(), Error>)
        ensures
            r is Ok <==> has_state(self.store(), *topic_id) && self.store().topics_map()[*topic_id].state.members@.contains(*peer),
            !has_state(self.store(), *topic_id) ==> r matches Err(Error::TopicNotFound),
            has_state(self.store(), *topic_id) && !self.store().topics_map()[*topic_id].state.members@.contains(*peer)
                ==> r matches Err(Error::NotTopicMember),
    {
        match self.storage.topic_state(topic_id) {
            None => Err(Error::TopicNotFound),
            Some(state) => if state.members.contains(peer) { Ok(()) } else { Err(Error::NotTopicMember) },
        }
    }

    /// Signs the next operation of `actor_id` on `heads`: the actor's next position,
    /// its previous operation among the dependencies, and one generation past the topic's.
    pub fn next_local_op(&self, topic_id: TopicId, actor_id: ActorId, heads: IdSet, payload: TopicPayload,
        signer: &Ed25519Signer) -> (r: Result<Op, Error>)
        ensures
            r matches Ok(op) ==> built_on(op, topic_id, actor_id, signer.spec_peer_id(), heads@,
                spec_tip(self.store(), topic_id, actor_id))
                && op.signed.body.payload == payload
                && spec_op_valid(op),
            r is Ok <==> next_op_fits(self.store(), topic_id, actor_id, heads@),
            r matches Err(e) ==> e is Storage || e is InvalidOpId,
            r matches Ok(op) ==> op.signed.body.generation == (if op.signed.body.deps@ == Set::<OpId>::empty() { 0 }
                else { topic_max_generation(self.store(), topic_id) + 1 }),
    {
        let tip = self.storage.actor_tip(&topic_id, &actor_id);
        let mut deps = heads;
        let (actor_seq, actor_prev) = match tip {
            Some(t) => {
                if t.seq == u64::MAX {
                    return Err(Error::Storage(String::new()));
                }
                deps.insert(t.id);
                (t.seq + 1, Some(t.id))
            },
            None => (1u64, None),
        };
        let generation = if deps.is_empty() {
            0u64
        } else {
            let max = self.storage.max_generation(&topic_id);
            if max == u64::MAX {
                return Err(Error::InvalidOpId);
            }
            max + 1
        };
        let body = OpBody {
            topic_id,
            author: signer.peer_id(),
            actor_id,
            actor_seq,
            actor_prev,
            deps,
            generation,
            payload,
        };
        let op = Op::sign(body, signer)?;
        proof {
            if tip is Some {
                assert(deps@.contains(tip->0.id));
            }
            assert(deps@ =~= Set::<OpId>::empty() ==> heads@ =~= Set::<OpId>::empty());
        }
        Ok(op)
    }

    /// Writes one local operation of `payload`: checks membership and the writer
    /// bound, signs the next position on the current heads, validates it, and stores
    /// it with its position and the topic's new heads and state. A refusal changes nothing.
    pub fn create_local(&mut self, topic_id: TopicId, actor_id: ActorId, payload: TopicPayload,
        signer: &Ed25519Signer) -> (r: Result<Op, Error>)
        ensures
            r is Err ==> final(self).store() == old(self).store(),
            r matches Ok(op) ==> {
                &&& local_valid(old(self).store(), op)
                &&& built_on(op, topic_id, actor_id, signer.spec_peer_id(), heads_of(old(self).store(), topic_id),
                    spec_tip(old(self).store(), topic_id, actor_id))
                &&& crate::topic::same_payload(op.signed.body.payload, payload)
                &&& written(old(self).store(), final(self).store(), op)
                &&& spec_op_valid(op)
            },
            payload !is Genesis && !has_state(old(self).store(), topic_id) ==> r matches Err(Error::TopicNotFound),
            payload !is Genesis && has_state(old(self).store(), topic_id)
                && !old(self).store().topics_map()[topic_id].state.members@.contains(signer.spec_peer_id())
                ==> r matches Err(Error::NotTopicMember),
            payload is Genesis && has_state(old(self).store(), topic_id) ==> r is Err,
            payload is Genesis && fresh_topic(old(self).store(), topic_id, actor_id, signer.spec_peer_id())
                ==> (r is Ok || r matches Err(Error::OpTooLarge)),
            r is Ok ==> (payload matches TopicPayload::Genesis(g) ==> {
                let st = final(self).store().topics_map()[topic_id].state;
                &&& st.members@ == g.initial_peers@
                &&& st.event_type_id@ == g.event_type_id@
                &&& crate::oplog::causal::same_policy(st.replication_policy, g.replication_policy)
                &&& st.genesis == r->Ok_0.id
                &&& st.topic_id == topic_id
                &&& st.membership_controls@ == Map::<PeerId, crate::storage::MembershipControl>::empty()
                &&& st.replication_policy_key is None
            }),
            r is Ok ==> (payload is Event ==> final(self).store().topics_map()[topic_id].state.membership_controls@
                == old(self).store().topics_map()[topic_id].state.membership_controls@
                && final(self).store().topics_map()[topic_id].state.replication_policy_key
                == old(self).store().topics_map()[topic_id].state.replication_policy_key),
            r is Ok ==> (payload matches TopicPayload::Control(c) ==> final(self).store().topics_map()[topic_id].state.members@
                == members_after_control(old(self).store().topics_map()[topic_id].state,
                    crate::oplog::helpers::spec_control_key(r->Ok_0), c)
                && final(self).store().topics_map()[topic_id].state.membership_controls@
                == controls_after(old(self).store().topics_map()[topic_id].state,
                    crate::oplog::helpers::spec_control_key(r->Ok_0), c)
                && policy_after(old(self).store().topics_map()[topic_id].state,
                    crate::oplog::helpers::spec_control_key(r->Ok_0), c, final(self).store().topics_map()[topic_id].state)),
            r matches Err(Error::OpTooLarge) ==> exists|op: Op| #[trigger] built_on(op, topic_id, actor_id, signer.spec_peer_id(),
                heads_of(old(self).store(), topic_id), spec_tip(old(self).store(), topic_id, actor_id))
                && op.signed.body.payload == payload
                && crate::op::spec_signed_bytes(op.signed).len() > crate::frame::MAX_FRAME_LEN,
            payload !is Genesis && local_write_ok(old(self).store(), topic_id, actor_id, signer.spec_peer_id(), payload) ==> r is Ok,
    {
        let is_genesis = match &payload { TopicPayload::Genesis(_) => true, _ => false };
        if !is_genesis {
            self.ensure_member(&topic_id, &signer.peer_id())?;
            if self.storage.actor_tip(&topic_id, &actor_id).is_none() && self.storage.actor_count(&topic_id) >= MAX_TOPIC_ACTORS {
                return Err(Error::TopicFull);
            }
        }
        let heads = self.storage.heads(&topic_id);
        let ghost payload_in = payload;
        let op = self.next_local_op(topic_id, actor_id, heads.duplicate(), payload, signer)?;
        if op.encoded_len() > MAX_FRAME_LEN {
            proof {
                assert(built_on(op, topic_id, actor_id, signer.spec_peer_id(),
                    heads_of(old(self).store(), topic_id), spec_tip(old(self).store(), topic_id, actor_id)));
            }
            return Err(Error::OpTooLarge);
        }
        if is_genesis && self.storage.topic_state(&topic_id).is_some() {
            return Err(Error::InvalidGenesis);
        }
        proof {
            if payload_in is Genesis && fresh_topic(self.store(), topic_id, actor_id, signer.spec_peer_id()) {
                op.signed.body.deps.lemma_empty_elems();
                assert(local_valid(self.store(), op));
                assert forall|id: OpId| #[trigger] self.store().ops_map().contains_key(id) && self.store().ops_map()[id].has_meta
                    && self.store().ops_map()[id].topic_id == op.signed.body.topic_id
                    && self.store().ops_map()[id].meta.actor_id == op.signed.body.actor_id
                    && self.store().ops_map()[id].meta.actor_seq == op.signed.body.actor_seq implies id == op.id by {
                    assert(spec_topic_ids(self.store().ops_map(), topic_id).contains(id));
                }
                assert(crate::oplog::admission::slot_free(self.store().ops_map(), op));
            }
        }
        self.validate_op(&op)?;
        let meta = self.meta_for(&op)?;
        let new_heads = heads_after(&heads, &op);
        let state = topic_state_after(&op, new_heads.duplicate(), self.storage.topic_state(&topic_id))?;
        let result = op.duplicate();
        proof {
            assert(crate::topic::same_payload(result.signed.body.payload, payload_in));
        }
        self.storage.put_admitted(op, meta, new_heads, state);
        Ok(result)
    }
}

impl Oplog {
    /// Opens `topic_id` with a genesis naming `genesis`'s peers and the signer, who is
    /// always a member of the topics it creates.
    pub fn create_topic_genesis(&mut self, topic_id: TopicId, actor_id: ActorId, genesis: TopicGenesis,
        signer: &Ed25519Signer) -> (r: Result<Op, Error>)
        ensures
            r is Err ==> final(self).store() == old(self).store(),
            r matches Ok(op) ==> {
                &&& local_valid(old(self).store(), op)
                &&& built_on(op, topic_id, actor_id, signer.spec_peer_id(), heads_of(old(self).store(), topic_id),
                    spec_tip(old(self).store(), topic_id, actor_id))
                &&& op.signed.body.payload matches TopicPayload::Genesis(g)
                &&& g.initial_peers@ == genesis.initial_peers@.insert(signer.spec_peer_id())
                &&& g.event_type_id@ == genesis.event_type_id@
                &&& final(self).store().topics_map()[topic_id].state.members@ == genesis.initial_peers@.insert(signer.spec_peer_id())
                &&& final(self).store().topics_map()[topic_id].state.event_type_id@ == genesis.event_type_id@
                &&& crate::oplog::causal::same_policy(final(self).store().topics_map()[topic_id].state.replication_policy,
                    genesis.replication_policy)
                &&& final(self).store().topics_map()[topic_id].state.genesis == op.id
                &&& final(self).store().topics_map()[topic_id].state.topic_id == topic_id
                &&& final(self).store().topics_map()[topic_id].state.membership_controls@
                    == Map::<PeerId, crate::storage::MembershipControl>::empty()
                &&& final(self).store().topics_map()[topic_id].state.replication_policy_key is None
                &&& written(old(self).store(), final(self).store(), op)
                &&& spec_op_valid(op)
            },
            has_state(old(self).store(), topic_id) ==> r is Err,
            fresh_topic(old(self).store(), topic_id, actor_id, signer.spec_peer_id()) ==> (r is Ok || r matches Err(Error::OpTooLarge)),
            r matches Err(Error::OpTooLarge) ==> exists|op: Op| #[trigger] built_on(op, topic_id, actor_id, signer.spec_peer_id(),
                heads_of(old(self).store(), topic_id), spec_tip(old(self).store(), topic_id, actor_id))
                && (op.signed.body.payload matches TopicPayload::Genesis(g) && g.event_type_id@ == genesis.event_type_id@
                    && g.initial_peers@ == genesis.initial_peers@.insert(signer.spec_peer_id())
                    && crate::oplog::causal::same_policy(g.replication_policy, genesis.replication_policy))
                && crate::op::spec_signed_bytes(op.signed).len() > crate::frame::MAX_FRAME_LEN,
    {
        let mut peers = genesis.initial_peers;
        peers.insert(signer.peer_id());
        let payload = TopicPayload::Genesis(TopicGenesis {
            event_type_id: genesis.event_type_id,
            initial_peers: peers,
            replication_policy: genesis.replication_policy,
        });
        self.create_local(topic_id, actor_id, payload, signer)
    }

    /// Appends an event to `topic_id` as `actor_id`.
    pub fn create_event_op(&mut self, topic_id: TopicId, actor_id: ActorId, event: EventEnvelope,
        signer: &Ed25519Signer) -> (r: Result<Op, Error>)
        ensures
            r is Err ==> final(self).store() == old(self).store(),
            r matches Ok(op) ==> {
                &&& local_valid(old(self).store(), op)
                &&& built_on(op, topic_id, actor_id, signer.spec_peer_id(), heads_of(old(self).store(), topic_id),
                    spec_tip(old(self).store(), topic_id, actor_id))
                &&& op.signed.body.payload matches TopicPayload::Event(e)
                &&& e.type_id@ == event.type_id@ && e.payload@ == event.payload@
                &&& written(old(self).store(), final(self).store(), op)
                &&& spec_op_valid(op)
                &&& final(self).store().topics_map()[topic_id].state.membership_controls@
                    == old(self).store().topics_map()[topic_id].state.membership_controls@
                &&& final(self).store().topics_map()[topic_id].state.replication_policy_key
                    == old(self).store().topics_map()[topic_id].state.replication_policy_key
            },
            !has_state(old(self).store(), topic_id) ==> r matches Err(Error::TopicNotFound),
            has_state(old(self).store(), topic_id)
                && !old(self).store().topics_map()[topic_id].state.members@.contains(signer.spec_peer_id())
                ==> r matches Err(Error::NotTopicMember),
            local_write_ok(old(self).store(), topic_id, actor_id, signer.spec_peer_id(), TopicPayload::Event(event)) ==> r is Ok,
    {
        self.create_local(topic_id, actor_id, TopicPayload::Event(event), signer)
    }

    /// Appends a membership or policy control to `topic_id` as `actor_id`.
    pub fn create_control_op(&mut self, topic_id: TopicId, actor_id: ActorId, control: TopicControl,
        signer: &Ed25519Signer) -> (r: Result<Op, Error>)
        ensures
            r is Err ==> final(self).store() == old(self).store(),
            r matches Ok(op) ==> {
                &&& local_valid(old(self).store(), op)
                &&& built_on(op, topic_id, actor_id, signer.spec_peer_id(), heads_of(old(self).store(), topic_id),
                    spec_tip(old(self).store(), topic_id, actor_id))
                &&& crate::topic::same_payload(op.signed.body.payload, TopicPayload::Control(control))
                &&& written(old(self).store(), final(self).store(), op)
                &&& spec_op_valid(op)
                &&& final(self).store().topics_map()[topic_id].state.members@
                    == members_after_control(old(self).store().topics_map()[topic_id].state,
                        crate::oplog::helpers::spec_control_key(op), control)
                &&& final(self).store().topics_map()[topic_id].state.membership_controls@
                    == controls_after(old(self).store().topics_map()[topic_id].state,
                        crate::oplog::helpers::spec_control_key(op), control)
                &&& policy_after(old(self).store().topics_map()[topic_id].state,
                        crate::oplog::helpers::spec_control_key(op), control, final(self).store().topics_map()[topic_id].state)
            },
            !has_state(old(self).store(), topic_id) ==> r matches Err(Error::TopicNotFound),
            has_state(old(self).store(), topic_id)
                && !old(self).store().topics_map()[topic_id].state.members@.contains(signer.spec_peer_id())
                ==> r matches Err(Error::NotTopicMember),
            local_write_ok(old(self).store(), topic_id, actor_id, signer.spec_peer_id(), TopicPayload::Control(control)) ==> r is Ok,
    {
        self.create_local(topic_id, actor_id, TopicPayload::Control(control), signer)
    }

    /// Opens `topic_id` and appends its first event. An event of another type than the
    /// genesis names is refused before anything is written; a later refusal of the
    /// event removes the new topic again.
    pub fn create_topic_genesis_with_event(&mut self, topic_id: TopicId, actor_id: ActorId, genesis: TopicGenesis,
        event: EventEnvelope, signer: &Ed25519Signer) -> (r: Result<(Op, Op), Error>)
        ensures
            r matches Ok((g, e)) ==> {
                &&& g.signed.body.payload matches TopicPayload::Genesis(gp)
                &&& gp.initial_peers@ == genesis.initial_peers@.insert(signer.spec_peer_id())
                &&& spec_is_structural_genesis(g)
                &&& e.signed.body.payload matches TopicPayload::Event(ep)
                &&& ep.type_id@ == event.type_id@ && ep.payload@ == event.payload@
                &&& e.signed.body.author == signer.spec_peer_id()
                &&& e.signed.body.topic_id == topic_id && g.signed.body.topic_id == topic_id
                &&& final(self).store().ops_map().contains_key(g.id)
                &&& final(self).store().ops_map().contains_key(e.id)
            },
            genesis.event_type_id@ != event.type_id@ ==> (r matches Err(Error::EventTypeMismatch { .. })
                && final(self).store() == old(self).store()),
            has_state(old(self).store(), topic_id) ==> r is Err && final(self).store() == old(self).store(),
            fresh_topic(old(self).store(), topic_id, actor_id, signer.spec_peer_id()) ==> (r matches Ok((g, e)) ==>
                spec_topic_ids(final(self).store().ops_map(), topic_id) == Set::<OpId>::empty().insert(g.id).insert(e.id)),
            !old(self).store().topics_map().contains_key(topic_id) ==> (r is Err ==>
                final(self).store().topics_map() == old(self).store().topics_map()),
            r is Err ==> forall|k: OpId| #[trigger] final(self).store().ops_map().contains_key(k)
                ==> old(self).store().ops_map().contains_key(k) && final(self).store().ops_map()[k] == old(self).store().ops_map()[k],
            r matches Ok((g, e)) ==> exists|mid: MemoryStorage| #[trigger] written(old(self).store(), mid, g)
                && written(mid, final(self).store(), e),
    {
        ensure_event_type(&genesis.event_type_id, &event.type_id)?;
        let ghost s0 = self.store();
        let g = self.create_topic_genesis(topic_id, actor_id, genesis, signer)?;
        let ghost s1 = self.store();
        match self.create_event_op(topic_id, actor_id, event, signer) {
            Ok(e) => {
                proof {
                    let s2 = self.store();
                    if fresh_topic(s0, topic_id, actor_id, signer.spec_peer_id()) {
                        assert(spec_topic_ids(s2.ops_map(), topic_id) =~= Set::<OpId>::empty().insert(g.id).insert(e.id)) by {
                            assert forall|k: OpId| spec_topic_ids(s2.ops_map(), topic_id).contains(k)
                                <==> Set::<OpId>::empty().insert(g.id).insert(e.id).contains(k) by {
                                if k != g.id && k != e.id && s2.ops_map().contains_key(k) {
                                    assert(s1.ops_map().contains_key(k));
                                    assert(s0.ops_map().contains_key(k));
                                    assert(s2.ops_map()[k] == s1.ops_map()[k]);
                                    assert(s1.ops_map()[k] == s0.ops_map()[k]);
                                    assert(!spec_topic_ids(s0.ops_map(), topic_id).contains(k));
                                }
                                if k == g.id && k != e.id {
                                    assert(s2.ops_map()[k] == s1.ops_map()[k]);
                                }
                            }
                        }
                    }
                }
                proof {
                    assert(written(s0, s1, g));
                }
                Ok((g, e))
            },
            Err(err) => {
                proof { assert(self.store() == s1); assert(written(s0, s1, g)); }
                self.storage.reset_topic(&topic_id);
                proof {
                    assert(s1.ops_map()[g.id].topic_id == topic_id);
                    assert forall|k: OpId| #[trigger] self.store().ops_map().contains_key(k)
                        implies s0.ops_map().contains_key(k) && self.store().ops_map()[k] == s0.ops_map()[k] by {
                        assert(s1.ops_map().contains_key(k) && s1.ops_map()[k].topic_id != topic_id);
                        assert(k != g.id);
                    }
                    if !s0.topics_map().contains_key(topic_id) {
                        assert(self.store().topics_map() =~= s0.topics_map()) by {
                            assert forall|t: TopicId| self.store().topics_map().contains_key(t) <==> s0.topics_map().contains_key(t) by {
                                if t != topic_id { assert(s1.topics_map().contains_key(t) <==> s0.topics_map().contains_key(t)); }
                            }
                            assert forall|t: TopicId| self.store().topics_map().contains_key(t) implies
                                self.store().topics_map()[t] == s0.topics_map()[t] by {
                                assert(t != topic_id);
                            }
                        }
                    }
                }
                Err(err)
            },
        }
    }
}

} // verus!
