//! Records of operations a topic discarded, for the embedder to re-emit.
use vstd::prelude::*;
use crate::ids::{Id32, OpId, PeerId, TopicId, ActorId, EvictionKey};
use crate::topic::TopicPayload;
use crate::codec::push_id;
use crate::crypto::spec_blake3;

verus! {

/// A single op removed from the losing side of a genesis collision, carrying
/// enough for the application to re-emit it under the winning genesis.
#[derive(Debug)]
pub struct EvictedOp {
    pub op_id: OpId,
    pub actor_id: ActorId,
    pub author: PeerId,
    pub actor_seq: u64,
    pub payload: TopicPayload,
}

/// Ops discarded from a topic's local chain, ordered by `(actor_id, actor_seq)`. A genesis
/// tie-break names the replaced and the winning genesis; a quarantine names the surviving
/// genesis in both fields.
#[derive(Debug)]
pub struct TopicEviction {
    pub topic_id: TopicId,
    pub losing_genesis: OpId,
    pub winning_genesis: OpId,
    pub evicted: Vec<EvictedOp>,
}

/// The concatenated ids of evicted ops.
pub open spec fn spec_evicted_ids(e: Seq<EvictedOp>) -> Seq<u8>
    decreases e.len(),
{
    if e.len() == 0 { Seq::empty() } else { spec_evicted_ids(e.drop_last()) + e.last().op_id.bytes@ }
}

/// What an eviction's key digests: topic, both geneses and every evicted id.
pub open spec fn spec_eviction_key_input(e: TopicEviction) -> Seq<u8> {
    e.topic_id.bytes@ + e.losing_genesis.bytes@ + e.winning_genesis.bytes@ + spec_evicted_ids(e.evicted@)
}

proof fn lemma_evicted_ids_same(a: Seq<EvictedOp>, b: Seq<EvictedOp>)
    requires
        a.len() == b.len(),
        forall|k: int| 0 <= k < a.len() ==> (#[trigger] a[k]).op_id == b[k].op_id,
    ensures spec_evicted_ids(a) == spec_evicted_ids(b),
    decreases a.len(),
{
    if a.len() > 0 {
        lemma_evicted_ids_same(a.drop_last(), b.drop_last());
    }
}

impl EvictedOp {
    /// A copy of this record.
    pub fn duplicate(&self) -> (r: EvictedOp)
        ensures
            r.op_id == self.op_id, r.actor_id == self.actor_id, r.author == self.author,
            r.actor_seq == self.actor_seq, crate::topic::same_payload(r.payload, self.payload),
    {
        EvictedOp {
            op_id: self.op_id,
            actor_id: self.actor_id,
            author: self.author,
            actor_seq: self.actor_seq,
            payload: self.payload.duplicate(),
        }
    }
}

impl TopicEviction {
    /// A copy of this eviction.
    pub fn duplicate(&self) -> (r: TopicEviction)
        ensures
            r.topic_id == self.topic_id, r.losing_genesis == self.losing_genesis,
            r.winning_genesis == self.winning_genesis, r.evicted@.len() == self.evicted@.len(),
            forall|k: int| 0 <= k < r.evicted@.len() ==> (#[trigger] r.evicted@[k]).op_id == self.evicted@[k].op_id
                && r.evicted@[k].actor_id == self.evicted@[k].actor_id && r.evicted@[k].author == self.evicted@[k].author
                && r.evicted@[k].actor_seq == self.evicted@[k].actor_seq
                && crate::topic::same_payload(r.evicted@[k].payload, self.evicted@[k].payload),
            spec_eviction_key_input(r) == spec_eviction_key_input(*self),
    {
        let mut evicted: Vec<EvictedOp> = Vec::new();
        let mut i: usize = 0;
        while i < self.evicted.len()
            invariant
                i <= self.evicted@.len(),
                evicted@.len() == i,
                forall|k: int| 0 <= k < i ==> (#[trigger] evicted@[k]).op_id == self.evicted@[k].op_id
                    && evicted@[k].actor_id == self.evicted@[k].actor_id && evicted@[k].author == self.evicted@[k].author
                    && evicted@[k].actor_seq == self.evicted@[k].actor_seq
                    && crate::topic::same_payload(evicted@[k].payload, self.evicted@[k].payload),
            decreases self.evicted@.len() - i,
        {
            evicted.push(self.evicted[i].duplicate());
            i += 1;
        }
        proof { lemma_evicted_ids_same(evicted@, self.evicted@); }
        TopicEviction {
            topic_id: self.topic_id,
            losing_genesis: self.losing_genesis,
            winning_genesis: self.winning_genesis,
            evicted,
        }
    }

    /// Identity of this eviction's journal record, derived from its content, so
    /// repeating a write, delivery or recovery never adds a record.
    pub fn key(&self) -> (r: EvictionKey)
        ensures r.bytes@ == spec_blake3(spec_eviction_key_input(*self)),
    {
        let mut bytes: Vec<u8> = Vec::new();
        push_id(&mut bytes, &self.topic_id);
        push_id(&mut bytes, &self.losing_genesis);
        push_id(&mut bytes, &self.winning_genesis);
        let ghost start = bytes@;
        let mut i: usize = 0;
        while i < self.evicted.len()
            invariant
                i <= self.evicted@.len(),
                bytes@ == start + spec_evicted_ids(self.evicted@.subrange(0, i as int)),
            decreases self.evicted@.len() - i,
        {
            push_id(&mut bytes, &self.evicted[i].op_id);
            proof {
                assert(self.evicted@.subrange(0, i as int + 1).drop_last() =~= self.evicted@.subrange(0, i as int));
            }
            i += 1;
        }
        assert(self.evicted@.subrange(0, self.evicted@.len() as int) =~= self.evicted@);
        assert(bytes@ =~= spec_eviction_key_input(*self));
        Id32::hash(bytes.as_slice())
    }
}

} // verus!
