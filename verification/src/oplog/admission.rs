//! Admission of received operations: validation at their DAG position, buffering
//! of those whose dependencies are missing, and batches from peers.
use vstd::prelude::*;
use crate::ids::{Id32, OpId, PeerId, TopicId, ActorId};
use crate::idset::IdSet;
use crate::crypto::{actor_id_for, is_actor_of};
use crate::op::{Op, spec_op_valid, spec_is_structural_genesis, is_structural_genesis, same_op};
use crate::topic::TopicPayload;
use crate::storage::{MemoryStorage, StoredOp, TopicState, spec_resolvable, MAX_PENDING_MISSING_DEPS};
use crate::error::{Error, is_permanent_rejection, spec_is_permanent_rejection};
use crate::oplog::Oplog;
use crate::oplog::local::{has_state, held_whole, meta_of, written, heads_of, topic_state_after};
use crate::oplog::helpers::{heads_after, spec_heads_after, ensure_event_type};
use crate::oplog::causal::{state_for_deps, member_at};

verus! {

/// Whether no admitted op other than `op` holds its actor position.
pub open spec fn slot_free(ops: Map<OpId, StoredOp>, op: Op) -> bool {
    let b = op.signed.body;
    forall|id: OpId| #[trigger] ops.contains_key(id) && ops[id].has_meta && ops[id].topic_id == b.topic_id
        && ops[id].meta.actor_id == b.actor_id && ops[id].meta.actor_seq == b.actor_seq ==> id == op.id
}

/// Whether a received `op`, whose dependencies are all held, may join the store `s`:
/// it is signed and content-addressed, its actor is its author's, it takes a free
/// position right after its previous op, its dependencies are of its topic with
/// smaller generations, and a genesis opens a new topic while any other op needs the
/// topic and an author who is a member at its position.
pub open spec fn received_valid(s: MemoryStorage, op: Op) -> bool {
    let b = op.signed.body;
    let ops = s.ops_map();
    &&& spec_op_valid(op)
    &&& is_actor_of(b.actor_id, b.topic_id, b.author)
    &&& b.actor_seq >= 1
    &&& (b.actor_seq == 1 <==> b.actor_prev is None)
    &&& slot_free(ops, op)
    &&& forall|d: OpId| #[trigger] b.deps@.contains(d) ==> held_whole(ops, d) && ops[d].meta.topic_id == b.topic_id
        && ops[d].meta.generation < b.generation
    &&& (b.actor_prev matches Some(p) ==> b.deps@.contains(p) && ops[p].meta.actor_id == b.actor_id
        && ops[p].meta.actor_seq + 1 == b.actor_seq)
    &&& if b.payload is Genesis {
        spec_is_structural_genesis(op) && !has_state(s, b.topic_id)
    } else {
        &&& b.deps@.len() > 0
        &&& has_state(s, b.topic_id)
        &&& member_at(ops, b.topic_id, b.deps@, b.author)
        &&& (b.payload matches TopicPayload::Event(e) ==> e.type_id@ == s.topics_map()[b.topic_id].state.event_type_id@)
    }
}

/// Whether the received `op` is owed admission to `s`: it is new there, every
/// dependency is held whole, it is valid at its position, and its author is a
/// member there however the state at its dependencies is read.
pub open spec fn ready_to_admit(s: MemoryStorage, op: Op) -> bool {
    &&& !s.ops_map().contains_key(op.id)
    &&& deps_held(s.ops_map(), op)
    &&& received_valid(s, op)
    &&& crate::oplog::causal::member_everywhere(s.ops_map(), op.signed.body.topic_id, op.signed.body.deps@, op.signed.body.author)
}

/// Whether every dependency of `op` is held whole.
pub open spec fn deps_held(ops: Map<OpId, StoredOp>, op: Op) -> bool {
    forall|d: OpId| #[trigger] op.signed.body.deps@.contains(d) ==> held_whole(ops, d)
}

/// Whether `op` is held already, record and position, as the same op.
pub open spec fn already_held(ops: Map<OpId, StoredOp>, op: Op) -> bool {
    held_whole(ops, op.id) && same_op(ops[op.id].op, op)
}

/// Whether a buffered op that failed with `e` can never be admitted on this branch:
/// its own content is invalid, or the held records it depends on contradict it.
pub open spec fn spec_rejects_pending(e: Error) -> bool {
    ||| spec_is_permanent_rejection(e)
    ||| e is NotTopicMember
    ||| e is EventTypeMismatch
    ||| e is InvalidGenesis
    ||| e is InvalidOpId
    ||| e is ActorPrevMismatch
    ||| e is ActorSeqGap
    ||| e is ActorFork
}

/// Whether a buffered op that failed with `err` is dropped rather than kept.
pub fn rejects_pending(err: &Error) -> (r: bool)
    ensures r == spec_rejects_pending(*err),
{
    if is_permanent_rejection(err) {
        return true;
    }
    match err {
        Error::NotTopicMember | Error::EventTypeMismatch { .. } | Error::InvalidGenesis | Error::InvalidOpId
        | Error::ActorPrevMismatch | Error::ActorSeqGap { .. } | Error::ActorFork => true,
        _ => false,
    }
}

impl Oplog {
    /// Whether `op` is held already as the same op.
    pub fn is_duplicate(&self, op: &Op) -> (r: bool)
        ensures r == held_whole(self.store().ops_map(), op.id),
    {
        match (self.storage.get_op(&op.id), self.storage.get_meta(&op.id)) {
            (Some(_), Some(_)) => self.storage.dep_resolvable(&op.id),
            _ => false,
        }
    }

    /// The dependencies of `op` that are not held whole.
    pub fn missing_deps(&self, op: &Op) -> (r: IdSet)
        ensures
            r@.subset_of(op.signed.body.deps@),
            forall|d: OpId| #[trigger] op.signed.body.deps@.contains(d) ==> (r@.contains(d) <==> !held_whole(self.store().ops_map(), d)),
    {
        let deps = op.signed.body.deps.to_vec();
        let mut missing = IdSet::new();
        let mut i: usize = 0;
        while i < deps.len()
            invariant
                i <= deps@.len(),
                deps@.to_set() == op.signed.body.deps@,
                missing@.subset_of(op.signed.body.deps@),
                forall|d: OpId| #[trigger] missing@.contains(d) ==> !held_whole(self.storage.ops_map(), d),
                forall|j: int| 0 <= j < i && !held_whole(self.storage.ops_map(), #[trigger] deps@[j]) ==> missing@.contains(deps@[j]),
            decreases deps@.len() - i,
        {
            let d = deps[i];
            proof { assert(deps@.to_set().contains(d)); }
            let whole = match (self.storage.get_op(&d), self.storage.get_meta(&d)) {
                (Some(_), Some(_)) => self.storage.dep_resolvable(&d),
                _ => false,
            };
            if !whole {
                missing.insert(d);
            }
            i += 1;
        }
        proof {
            assert forall|d: OpId| #[trigger] op.signed.body.deps@.contains(d) implies (missing@.contains(d) <==> !held_whole(self.storage.ops_map(), d)) by {
                assert(deps@.to_set().contains(d));
                let w = choose|w: int| 0 <= w < deps@.len() && deps@[w] == d;
            }
        }
        missing
    }

    /// Checks a received operation whose dependencies are all held against the store.
    pub fn validate_received(&self, op: &Op) -> (r: Result<(), Error>)
        requires deps_held(self.store().ops_map(), *op),
        ensures
            r is Ok ==> received_valid(self.store(), *op),
            received_valid(self.store(), *op) && op.signed.body.payload is Genesis ==> r is Ok,
            received_valid(self.store(), *op) && crate::oplog::causal::member_everywhere(self.store().ops_map(),
                op.signed.body.topic_id, op.signed.body.deps@, op.signed.body.author) ==> r is Ok,
    {
        let body = &op.signed.body;
        let ghost ok = received_valid(self.store(), *op) && crate::oplog::causal::member_everywhere(self.store().ops_map(),
                op.signed.body.topic_id, op.signed.body.deps@, op.signed.body.author);
        op.validate()?;
        let expected_actor = actor_id_for(body.topic_id, body.author);
        if !body.actor_id.same(&expected_actor) {
            proof { crate::ids::lemma_id_bytes_eq(body.actor_id, expected_actor); }
            return Err(Error::ActorAuthorMismatch);
        }
        if body.actor_seq == 0 {
            return Err(Error::ActorSeqGap { expected: 1, actual: 0 });
        }
        if (body.actor_seq == 1) != body.actor_prev.is_none() {
            return Err(Error::ActorPrevMismatch);
        }
        if self.storage.slot_holder_other(&body.topic_id, &body.actor_id, body.actor_seq, &op.id).is_some() {
            return Err(Error::ActorFork);
        }
        let state = self.storage.topic_state(&body.topic_id);
        match &body.payload {
            TopicPayload::Genesis(_) => {
                if !is_structural_genesis(op) || state.is_some() {
                    return Err(Error::InvalidGenesis);
                }
            },
            TopicPayload::Event(envelope) => {
                if body.deps.is_empty() {
                    return Err(Error::InvalidOpId);
                }
                let current = match state {
                    Some(s) => s,
                    None => return Err(Error::TopicNotFound),
                };
                ensure_event_type(&current.event_type_id, &envelope.type_id)?;
            },
            TopicPayload::Control(_) => {
                if body.deps.is_empty() {
                    return Err(Error::InvalidOpId);
                }
                if state.is_none() {
                    return Err(Error::TopicNotFound);
                }
            },
        }
        match body.actor_prev {
            Some(prev) => {
                if !body.deps.contains(&prev) {
                    return Err(Error::ActorPrevMismatch);
                }
                let prev_meta = match self.storage.get_meta(&prev) {
                    Some(m) => m,
                    None => { proof { assert(body.deps@.contains(prev)); } return Err(Error::MissingDependency(prev)); },
                };
                if !prev_meta.actor_id.same(&body.actor_id) {
                    return Err(Error::ActorPrevMismatch);
                }
                if prev_meta.actor_seq == u64::MAX || prev_meta.actor_seq + 1 != body.actor_seq {
                    return Err(Error::ActorSeqGap {
                        expected: if prev_meta.actor_seq == u64::MAX { u64::MAX } else { prev_meta.actor_seq + 1 },
                        actual: body.actor_seq,
                    });
                }
            },
            None => {},
        }
        let deps = body.deps.to_vec();
        let ghost rv = received_valid(self.store(), *op);
        let mut i: usize = 0;
        while i < deps.len()
            invariant
                i <= deps@.len(),
                deps@.to_set() == body.deps@,
                deps_held(self.storage.ops_map(), *op),
                rv == received_valid(self.store(), *op),
                *body == op.signed.body,
                ok == (received_valid(self.store(), *op) && crate::oplog::causal::member_everywhere(self.store().ops_map(),
                    op.signed.body.topic_id, op.signed.body.deps@, op.signed.body.author)),
                forall|j: int| 0 <= j < i ==> self.storage.ops_map()[#[trigger] deps@[j]].meta.topic_id == body.topic_id
                    && self.storage.ops_map()[deps@[j]].meta.generation < body.generation,
            decreases deps@.len() - i,
        {
            proof { assert(deps@.to_set().contains(deps@[i as int])); }
            let meta = match self.storage.get_meta(&deps[i]) {
                Some(m) => m,
                None => {
                    proof { assert(held_whole(self.storage.ops_map(), deps@[i as int])); }
                    return Err(Error::MissingDependency(deps[i]));
                },
            };
            if !meta.topic_id.same(&body.topic_id) {
                proof { crate::ids::lemma_id_bytes_eq(meta.topic_id, body.topic_id); }
                return Err(Error::TopicMismatch);
            }
            if meta.generation >= body.generation {
                return Err(Error::GenerationMismatch {
                    expected: if meta.generation == u64::MAX { u64::MAX } else { meta.generation + 1 },
                    actual: body.generation,
                });
            }
            i += 1;
        }
        proof {
            assert forall|d: OpId| #[trigger] body.deps@.contains(d) implies held_whole(self.storage.ops_map(), d)
                && self.storage.ops_map()[d].meta.topic_id == body.topic_id
                && self.storage.ops_map()[d].meta.generation < body.generation by {
                assert(deps@.to_set().contains(d));
                let w = choose|w: int| 0 <= w < deps@.len() && deps@[w] == d;
            }
        }
        match &body.payload {
            TopicPayload::Genesis(_) => {},
            _ => {
                let at = state_for_deps(&self.storage, &body.topic_id, &body.deps)?;
                if !at.members.contains(&body.author) {
                    return Err(Error::NotTopicMember);
                }
            },
        }
        Ok(())
    }
}

/// What admitting one received operation did.
#[derive(Clone, Copy, Debug)]
pub enum Received {
    /// The operation joined the store under this id.
    Admitted(OpId),
    /// The operation was held already.
    Held,
    /// A dependency is missing: the operation waits in the buffer.
    Buffered,
    /// The operation's entry had lost its record or position, which it restored.
    Repaired(OpId),
}

/// Whether a received `op` missing the dependencies `missing` may wait in the buffer of
/// `s`: not too many are missing, it is signed and content-addressed, its actor and
/// position are well formed, it is no genesis, it has dependencies and a generation, an
/// event names the type of a topic held here, and no other op holds its position.
pub open spec fn bufferable(s: MemoryStorage, op: Op, missing: Set<OpId>) -> bool {
    let b = op.signed.body;
    &&& missing.len() <= MAX_PENDING_MISSING_DEPS
    &&& spec_op_valid(op)
    &&& is_actor_of(b.actor_id, b.topic_id, b.author)
    &&& b.actor_seq >= 1
    &&& (b.actor_seq == 1 <==> b.actor_prev is None)
    &&& (b.actor_prev matches Some(p) ==> b.deps@.contains(p))
    &&& b.payload !is Genesis
    &&& b.deps@.len() > 0
    &&& b.generation > 0
    &&& (has_state(s, b.topic_id) ==> (b.payload matches TopicPayload::Event(e)
        ==> e.type_id@ == s.topics_map()[b.topic_id].state.event_type_id@))
    &&& slot_free(s.ops_map(), op)
}

impl Oplog {
    /// Refuses a received operation that cannot wait for its missing dependencies:
    /// too many of them, or a content that no later arrival can make valid.
    pub fn check_bufferable(&self, op: &Op, missing: &IdSet) -> (r: Result<(), Error>)
        ensures
            r is Ok ==> spec_op_valid(*op) && missing@.len() <= MAX_PENDING_MISSING_DEPS
                && is_actor_of(op.signed.body.actor_id, op.signed.body.topic_id, op.signed.body.author)
                && op.signed.body.actor_seq >= 1
                && (op.signed.body.actor_seq == 1 <==> op.signed.body.actor_prev is None)
                && op.signed.body.payload !is Genesis
                && op.signed.body.deps@.len() > 0,
            r is Ok <==> bufferable(self.store(), *op, missing@),
    {
        let body = &op.signed.body;
        if missing.len() > MAX_PENDING_MISSING_DEPS {
            return Err(Error::StagingCapacity(String::new()));
        }
        op.validate()?;
        let expected_actor = actor_id_for(body.topic_id, body.author);
        if !body.actor_id.same(&expected_actor) {
            proof { crate::ids::lemma_id_bytes_eq(body.actor_id, expected_actor); }
            return Err(Error::ActorAuthorMismatch);
        }
        if body.actor_seq == 0 {
            return Err(Error::ActorSeqGap { expected: 1, actual: 0 });
        }
        if (body.actor_seq == 1) != body.actor_prev.is_none() {
            return Err(Error::ActorPrevMismatch);
        }
        match body.actor_prev {
            Some(prev) => {
                if !body.deps.contains(&prev) {
                    return Err(Error::ActorPrevMismatch);
                }
            },
            None => {},
        }
        match &body.payload {
            TopicPayload::Genesis(_) => return Err(Error::InvalidGenesis),
            TopicPayload::Event(envelope) => {
                if body.deps.is_empty() || body.generation == 0 {
                    return Err(Error::InvalidOpId);
                }
                match self.storage.topic_state(&body.topic_id) {
                    Some(state) => { ensure_event_type(&state.event_type_id, &envelope.type_id)?; },
                    None => {},
                }
            },
            TopicPayload::Control(_) => {
                if body.deps.is_empty() || body.generation == 0 {
                    return Err(Error::InvalidOpId);
                }
            },
        }
        if self.storage.slot_holder_other(&body.topic_id, &body.actor_id, body.actor_seq, &op.id).is_some() {
            return Err(Error::ActorFork);
        }
        proof { crate::ids::lemma_id_bytes_eq(body.actor_id, expected_actor); }
        Ok(())
    }

    /// Admits one received operation from `source`: a held one is left alone, one with a
    /// missing dependency waits in the buffer, and any other joins the store if it is
    /// valid at its position. A refusal changes nothing.
    pub fn admit_received(&mut self, source: PeerId, op: Op) -> (r: Result<Received, Error>)
        ensures
            r is Err ==> final(self).store() == old(self).store(),
            r matches Ok(Received::Admitted(id)) ==> id == op.id && deps_held(old(self).store().ops_map(), op)
                && received_valid(old(self).store(), op) && written(old(self).store(), final(self).store(), op)
                && !held_whole(old(self).store().ops_map(), op.id)
                && final(self).store().pending_seq() == old(self).store().pending_seq()
                && (op.signed.body.payload matches TopicPayload::Control(c)
                    ==> crate::oplog::local::policy_after(old(self).store().topics_map()[op.signed.body.topic_id].state,
                        crate::oplog::helpers::spec_control_key(op), c, final(self).store().topics_map()[op.signed.body.topic_id].state)),
            r matches Ok(Received::Repaired(id)) ==> id == op.id && spec_op_valid(op)
                && old(self).store().ops_map().contains_key(op.id) && !held_whole(old(self).store().ops_map(), op.id)
                && old(self).store().ops_map()[op.id].topic_id == op.signed.body.topic_id
                && final(self).store().ops_map() == old(self).store().ops_map().insert(op.id, StoredOp {
                    topic_id: op.signed.body.topic_id, op, meta: final(self).store().ops_map()[op.id].meta,
                    has_record: true, has_meta: true })
                && meta_of(old(self).store().ops_map(), op, final(self).store().ops_map()[op.id].meta)
                && final(self).store().topics_map() == old(self).store().topics_map()
                && final(self).store().pending_seq() == old(self).store().pending_seq(),
            r matches Ok(Received::Held) ==> final(self).store() == old(self).store()
                && held_whole(old(self).store().ops_map(), op.id),
            held_whole(old(self).store().ops_map(), op.id) ==> r matches Ok(Received::Held),
            ready_to_admit(old(self).store(), op) ==> r == Ok::<Received, Error>(Received::Admitted(op.id)),
            r matches Ok(Received::Buffered) ==> final(self).store().ops_map() == old(self).store().ops_map()
                && final(self).store().topics_map() == old(self).store().topics_map()
                && !deps_held(old(self).store().ops_map(), op)
                && final(self).store().pending_seq().len() <= old(self).store().pending_seq().len() + 1,
            crate::node::store_consistent(old(self).store()) ==> crate::node::store_consistent(final(self).store()),
    {
        if self.is_duplicate(&op) {
            return Ok(Received::Held);
        }
        let missing = self.missing_deps(&op);
        if self.storage.is_listed(&op.id) && missing.is_empty() {
            op.validate()?;
            let same_topic = match self.storage.ops_entry(&op.id) {
                Some(entry) => entry.topic_id.same(&op.signed.body.topic_id),
                None => false,
            };
            if !same_topic {
                return Err(Error::TopicMismatch);
            }
            let meta = self.meta_for(&op)?;
            let id = op.id;
            let ghost before = self.store();
            self.storage.repair_op(op, meta);
            proof {
                if crate::node::store_consistent(before) {
                    crate::node::lemma_consistent_same_topics(before, self.store());
                }
            }
            return Ok(Received::Repaired(id));
        }
        if !missing.is_empty() {
            proof {
                let d = missing@.choose();
                assert(missing@.contains(d));
            }
            self.check_bufferable(&op, &missing)?;
            if self.storage.is_pending(&op.id) {
                return Ok(Received::Buffered);
            }
            let now = self.now_ms;
            let ghost before = self.store();
            self.storage.put_pending(source, op, missing, now);
            proof {
                if crate::node::store_consistent(before) {
                    crate::node::lemma_consistent_same_maps(before, self.store());
                }
            }
            return Ok(Received::Buffered);
        }
        proof {
            assert forall|d: OpId| #[trigger] op.signed.body.deps@.contains(d) implies held_whole(self.storage.ops_map(), d) by {
                if !held_whole(self.storage.ops_map(), d) {
                    assert(missing@.contains(d));
                }
            }
        }
        self.validate_received(&op)?;
        let meta = self.meta_for(&op)?;
        let topic = op.signed.body.topic_id;
        let heads = self.storage.heads(&topic);
        let new_heads = heads_after(&heads, &op);
        let state = topic_state_after(&op, new_heads.duplicate(), self.storage.topic_state(&topic))?;
        let id = op.id;
        let ghost before = self.store();
        self.storage.put_admitted(op, meta, new_heads, state);
        proof {
            if crate::node::store_consistent(before) {
                assert(crate::oplog::local::written(before, self.store(), op));
                crate::node::lemma_written_consistent(before, self.store(), op);
            }
        }
        Ok(Received::Admitted(id))
    }
}

} // verus!
