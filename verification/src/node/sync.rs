//! The transport-neutral sync facade: summaries, the data a peer lacks, signed
//! acknowledgements, and what they certify of delivery.
use vstd::prelude::*;
use crate::ids::{Id32, OpId, PeerId, TopicId, ActorId};
use crate::idset::IdSet;
use crate::clock::{ActorClock, clock_at};
use crate::crypto::{Ed25519Signer, spec_verify, spec_key_valid, spec_sign, ed25519_verify, ed25519_key_valid};
use crate::codec::{push_raw, push_id, push_u64, push_id_set, be64_bytes, spec_id_list};
use crate::op::{Op, spec_op_valid, is_structural_genesis, spec_validate_result};
use crate::topic::TopicPayload;
use crate::storage::{MemoryStorage, PeerAck, has_ack_for, ack_of};
use crate::eviction::TopicEviction;
use crate::error::Error;
use crate::oplog::local::has_state;
use crate::node::Irokle;
use crate::node::bootstrap::{Bootstrap, StagedTopic};

verus! {

/// What a node holds of a topic: its genesis, heads and actor clock.
#[derive(Debug)]
pub struct SyncSummary {
    pub topic_id: TopicId,
    pub genesis: Option<OpId>,
    pub heads: IdSet,
    pub clock: ActorClock,
}

/// Ops of one topic for a peer.
#[derive(Debug)]
pub struct SyncData {
    pub topic_id: TopicId,
    pub ops: Vec<Op>,
}

/// Whether `data` is a repeated delivery to the store `s`: its topic is held, and
/// each of its ops names that topic, verifies, is no genesis and is held already.
pub open spec fn delivered_again(s: MemoryStorage, data: SyncData) -> bool {
    &&& has_state(s, data.topic_id)
    &&& forall|k: int| 0 <= k < data.ops@.len() ==> (#[trigger] data.ops@[k]).signed.body.topic_id == data.topic_id
        && spec_op_valid(data.ops@[k])
    &&& crate::oplog::receive::batch_held(s.ops_map(), data.ops@)
}

/// Whether `peer` may hand this node data of `topic`: the topic is held here, no
/// whitelist restricts who introduces topics, or the peer is on it.
pub open spec fn may_introduce(s: MemoryStorage, whitelist: Option<Set<PeerId>>, topic: TopicId, peer: PeerId) -> bool {
    has_state(s, topic) || whitelist is None || whitelist->Some_0.contains(peer)
}

/// Whether `ops[k]` is the first op of `ops` that does not verify.
pub open spec fn first_invalid(ops: Seq<Op>, k: int) -> bool {
    &&& 0 <= k < ops.len()
    &&& !spec_op_valid(ops[k])
    &&& forall|j: int| 0 <= j < k ==> spec_op_valid(#[trigger] ops[j])
}

/// What receiving `data` from `source` does to a node, from `before` to `after`, and
/// what it answers: data naming another topic is refused first, then the first op
/// that does not verify with its own error, in both cases with nothing changed; an
/// ack speaks for ops now held; a staged receipt leaves the store as it was, for a
/// topic not held; only ops whose membership is proven are admitted; a repeated
/// delivery is acked.
pub open spec fn received_as(before: Irokle, after: Irokle, source: PeerId, data: SyncData, r: Result<ReceiveOutcome, Error>) -> bool {
    &&& (exists|k: int| 0 <= k < data.ops@.len() && (#[trigger] data.ops@[k]).signed.body.topic_id != data.topic_id)
        ==> (r matches Err(Error::TopicMismatch) && after.store() == before.store()
            && after.spec_stagings() == before.spec_stagings())
    &&& (exists|k: int| 0 <= k < data.ops@.len() && !spec_op_valid(#[trigger] data.ops@[k]))
        ==> r is Err && after.store() == before.store()
    &&& (forall|k: int| 0 <= k < data.ops@.len() ==> (#[trigger] data.ops@[k]).signed.body.topic_id == data.topic_id)
        ==> forall|k: int| #[trigger] first_invalid(data.ops@, k) ==> after.spec_stagings() == before.spec_stagings()
            && (r matches Err(e) && spec_validate_result(data.ops@[k]) == Err::<(), Error>(e))
    &&& r matches Ok(ReceiveOutcome::Acked { ack, .. }) ==> ack.topic_id == data.topic_id
        && ack.peer_id == before.spec_peer_id()
        && crate::oplog::receive::all_held(after.store().ops_map(), ack.accepted@)
    &&& r matches Ok(ReceiveOutcome::Staged(_)) ==> after.store() == before.store()
        && !before.store().topics_map().contains_key(data.topic_id)
    &&& admits_only_proven(before.store(), after.store(), data.topic_id, data.ops@, before.spec_peer_id(), source)
    &&& after.spec_peer_id() == before.spec_peer_id()
    &&& after.spec_statuses() == before.spec_statuses()
    &&& delivered_again(before.store(), data) ==> (r matches Ok(ReceiveOutcome::Acked { .. }))
    &&& fresh_delivery(before.store(), data) ==> acked_with(r, data.ops@[0].id)
        && crate::oplog::local::held_whole(after.store().ops_map(), data.ops@[0].id)
}

/// Whether `r` is an ack whose accepted ids include `id`.
pub open spec fn acked_with(r: Result<ReceiveOutcome, Error>, id: OpId) -> bool {
    match r {
        Ok(ReceiveOutcome::Acked { ack, .. }) => ack.accepted@.contains(id),
        _ => false,
    }
}

/// Whether `data` brings one new op of its held topic that `s` owes admission:
/// no genesis, valid at its position with every dependency held, and by an author
/// who is a member there however the state at its dependencies is read.
pub open spec fn fresh_delivery(s: MemoryStorage, data: SyncData) -> bool {
    &&& data.ops@.len() == 1
    &&& data.ops@[0].signed.body.topic_id == data.topic_id
    &&& !crate::op::spec_is_structural_genesis(data.ops@[0])
    &&& crate::oplog::admission::ready_to_admit(s, data.ops@[0])
}

/// Whether `r` is what the pair-returning receive gives for the outcome `o`: an
/// ack with its evictions, a staged receipt as the pending-bootstrap error carrying
/// the staged clock, an error as it was.
pub open spec fn outcome_as_result(o: Result<ReceiveOutcome, Error>, r: Result<(SyncAck, Vec<TopicEviction>), Error>) -> bool {
    match o {
        Ok(ReceiveOutcome::Acked { ack, evictions }) => r == Ok::<(SyncAck, Vec<TopicEviction>), Error>((ack, evictions)),
        Ok(ReceiveOutcome::Staged(st)) => r matches Err(Error::BootstrapPending { staged }) && crate::clock::clock_entries(staged@, st.clock@),
        Err(e) => r == Err::<(SyncAck, Vec<TopicEviction>), Error>(e),
    }
}

/// A signed statement of what a peer holds of a topic after receiving data.
#[derive(Debug)]
pub struct SyncAck {
    pub topic_id: TopicId,
    pub peer_id: PeerId,
    pub genesis: Option<OpId>,
    pub clock: ActorClock,
    pub accepted: IdSet,
    pub signature: [u8; 64],
}

/// What receiving sync data did.
#[derive(Debug)]
pub enum ReceiveOutcome {
    /// The data reached the active topic; the signed ack speaks for it.
    Acked { ack: SyncAck, evictions: Vec<TopicEviction> },
    /// The topic is not held here and the staged history does not prove
    /// membership yet. The receipt is no ack and certifies nothing.
    Staged(StagedTopic),
}

/// The bytes of the entries of `c` for `actors`, each actor with its position.
pub open spec fn clock_entries(c: Map<Id32, u64>, actors: Seq<Id32>) -> Seq<u8>
    decreases actors.len(),
{
    if actors.len() == 0 {
        Seq::empty()
    } else {
        clock_entries(c, actors.drop_last()) + actors.last().bytes@ + be64_bytes(clock_at(c, actors.last()))
    }
}

/// The bytes of `clock`: its actor count, then each actor with its position, in actor order.
pub open spec fn clock_bytes(clock: ActorClock) -> Seq<u8> {
    be64_bytes(clock.actors().len() as u64) + clock_entries(clock@, clock.actors())
}

/// The domain an ack signature is made in: `irokle/ack/v1` and a zero byte.
pub open spec fn ack_domain() -> Seq<u8> {
    seq![105u8, 114u8, 111u8, 107u8, 108u8, 101u8, 47u8, 97u8, 99u8, 107u8, 47u8, 118u8, 49u8, 0u8]
}

/// Whether `ack` is signed by its peer: the peer id is a verifying key, and the
/// signature verifies the ack's message under it.
pub open spec fn ack_verifies(ack: SyncAck) -> bool {
    spec_key_valid(ack.peer_id.bytes@) && spec_verify(ack.peer_id.bytes@, ack_message(ack), ack.signature@)
}

/// The message an ack's signature covers: the domain, topic, peer, branch,
/// accepted ids and clock.
pub open spec fn ack_message(ack: SyncAck) -> Seq<u8> {
    ack_domain() + ack.topic_id.bytes@ + ack.peer_id.bytes@
        + (match ack.genesis { Some(g) => seq![1u8] + g.bytes@, None => seq![0u8] })
        + spec_id_list(ack.accepted.elems()) + clock_bytes(ack.clock)
}

/// Appends the entries of `clock`, each actor with its position, in actor order.
fn push_clock(out: &mut Vec<u8>, clock: &ActorClock)
    ensures final(out)@ == old(out)@ + clock_bytes(*clock),
{
    let n = clock.len();
    push_u64(out, n as u64);
    let ghost start = out@;
    let mut i: usize = 0;
    while i < n
        invariant
            i <= n,
            n == clock.actors().len(),
            out@ == start + clock_entries(clock@, clock.actors().take(i as int)),
        decreases n - i,
    {
        let (actor, seq) = clock.entry_at(i);
        push_id(out, &actor);
        push_u64(out, seq);
        proof {
            let a = clock.actors();
            assert(a.take(i as int + 1).drop_last() =~= a.take(i as int));
            assert(a.take(i as int + 1).last() == actor);
            assert(clock_at(clock@, actor) == seq);
            assert(out@ =~= start + clock_entries(clock@, a.take(i as int + 1)));
        }
        i += 1;
    }
    proof {
        assert(clock.actors().take(n as int) =~= clock.actors());
        assert(out@ =~= old(out)@ + clock_bytes(*clock));
    }
}

impl SyncAck {
    /// The message an ack's signature covers.
    pub fn message(&self) -> (r: Vec<u8>)
        ensures r@ == ack_message(*self),
    {
        let mut out: Vec<u8> = Vec::new();
        let domain: [u8; 14] = [105u8, 114u8, 111u8, 107u8, 108u8, 101u8, 47u8, 97u8, 99u8, 107u8, 47u8, 118u8, 49u8, 0u8];
        push_raw(&mut out, domain.as_slice());
        proof { assert(out@ =~= ack_domain()); }
        push_id(&mut out, &self.topic_id);
        push_id(&mut out, &self.peer_id);
        let ghost head = out@;
        match &self.genesis {
            Some(g) => {
                out.push(1u8);
                push_id(&mut out, g);
                proof { assert(out@ =~= head + (seq![1u8] + g.bytes@)); }
            },
            None => {
                out.push(0u8);
                proof { assert(out@ =~= head + seq![0u8]); }
            },
        }
        push_id_set(&mut out, &self.accepted);
        push_clock(&mut out, &self.clock);
        proof { assert(out@ =~= ack_message(*self)); }
        out
    }

    /// Signs this ack as `signer`, who must be its peer.
    pub fn sign(&mut self, signer: &Ed25519Signer) -> (r: Result<(), Error>)
        ensures
            old(self).peer_id != signer.spec_peer_id() <==> r matches Err(Error::WrongSigner),
            r is Ok <==> old(self).peer_id == signer.spec_peer_id(),
            r is Err ==> *final(self) == *old(self),
            r is Ok ==> final(self).signature@ == spec_sign(signer.secret_bytes(), ack_message(*final(self))),
            r is Ok ==> spec_verify(final(self).peer_id.bytes@, ack_message(*final(self)), final(self).signature@),
            final(self).peer_id == old(self).peer_id,
            final(self).topic_id == old(self).topic_id,
            final(self).genesis == old(self).genesis,
            final(self).clock@ == old(self).clock@,
            final(self).accepted@ == old(self).accepted@,
    {
        if !self.peer_id.same(&signer.peer_id()) {
            return Err(Error::WrongSigner);
        }
        let msg = self.message();
        self.signature = signer.sign(msg.as_slice());
        Ok(())
    }

    /// Checks the signature of this ack's peer.
    pub fn verify(&self) -> (r: Result<(), Error>)
        ensures
            !spec_key_valid(self.peer_id.bytes@) <==> r matches Err(Error::InvalidPublicKey),
            spec_key_valid(self.peer_id.bytes@) && !spec_verify(self.peer_id.bytes@, ack_message(*self), self.signature@)
                <==> r matches Err(Error::InvalidSignature),
            r is Ok <==> spec_key_valid(self.peer_id.bytes@) && spec_verify(self.peer_id.bytes@, ack_message(*self), self.signature@),
    {
        if !ed25519_key_valid(&self.peer_id.bytes) {
            return Err(Error::InvalidPublicKey);
        }
        let msg = self.message();
        if !ed25519_verify(&self.peer_id.bytes, msg.as_slice(), &self.signature) {
            return Err(Error::InvalidSignature);
        }
        Ok(())
    }
}

/// Whether the acknowledgement `ack` certifies that its peer holds the op `id` of
/// `ops`: it is for the op's topic and the branch held now, and its clock covers the
/// op's actor position.
pub open spec fn ack_covers(s: MemoryStorage, ack: PeerAck, id: OpId) -> bool {
    let ops = s.ops_map();
    &&& ops.contains_key(id) && ops[id].has_meta && ops[id].meta.id == id
    &&& ack.topic_id == ops[id].meta.topic_id
    &&& has_state(s, ack.topic_id)
    &&& ack.genesis == s.topics_map()[ack.topic_id].state.genesis
    &&& clock_at(ack.clock@, ops[id].meta.actor_id) >= ops[id].meta.actor_seq
}

/// Whether a certified ack of `peer` in `s` covers the op `id` on the branch held now.
pub open spec fn reached(s: MemoryStorage, peer: PeerId, id: OpId) -> bool {
    let ops = s.ops_map();
    &&& ops.contains_key(id) && ops[id].has_meta && ops[id].meta.id == id
    &&& ack_of(s.ack_seq(), peer, ops[id].meta.topic_id) matches Some(a) && ack_covers(s, a, id)
}

/// Whether `all` is the history of `topic` in `s`: the ops of a history order of its ids,
/// leaving out those waiting for a repair.
pub open spec fn topic_history_ops(s: MemoryStorage, topic: TopicId, all: Seq<Op>) -> bool {
    exists|order: Seq<OpId>, blocked: Set<OpId>|
        #[trigger] crate::oplog::topology::blocked_ok(s.ops_map(), crate::storage::spec_topic_ids(s.ops_map(), topic), blocked)
        && #[trigger] crate::oplog::topology::history_order(s.ops_map(), crate::storage::spec_topic_ids(s.ops_map(), topic), blocked, order)
        && all.len() == order.len()
        && forall|k: int| 0 <= k < all.len() ==> crate::op::same_op(#[trigger] all[k], s.ops_map()[order[k]].op)
}

/// Whether a peer whose summary is on the branch `remote_genesis` with `clock` lacks
/// `op` of the branch `genesis`: it holds another branch, or its clock does not cover
/// the op's actor position.
pub open spec fn peer_lacks(remote_genesis: Option<OpId>, clock: Map<Id32, u64>, genesis: OpId, op: Op) -> bool {
    remote_genesis != Some(genesis) || clock_at(clock, op.signed.body.actor_id) < op.signed.body.actor_seq
}

/// A peer whose summary of the branch held here names, for each actor, the position
/// of its admitted tip, and no other actor, lacks an op of that branch exactly when
/// the op lies past the peer's tip for its actor: what it admitted is never sent
/// again, and every later op is.
pub proof fn lemma_summary_lacks(peer_store: MemoryStorage, topic: TopicId, genesis: OpId, summary: SyncSummary, op: Op)
    requires
        has_state(peer_store, topic),
        peer_store.topics_map()[topic].state.genesis == genesis,
        summary.genesis == Some(genesis),
        forall|a: ActorId| #[trigger] summary.clock@.contains_key(a) <==> peer_store.topics_map()[topic].tips@.contains_key(a),
        forall|a: ActorId| #[trigger] summary.clock@.contains_key(a) ==> summary.clock@[a] == peer_store.topics_map()[topic].tips@[a].seq,
    ensures
        peer_lacks(summary.genesis, summary.clock@, genesis, op) <==> (
            if peer_store.topics_map()[topic].tips@.contains_key(op.signed.body.actor_id) {
                peer_store.topics_map()[topic].tips@[op.signed.body.actor_id].seq < op.signed.body.actor_seq
            } else {
                0 < op.signed.body.actor_seq
            }),
{
    let a = op.signed.body.actor_id;
    if peer_store.topics_map()[topic].tips@.contains_key(a) {
        assert(summary.clock@.contains_key(a));
    } else {
        assert(!summary.clock@.contains_key(a));
    }
}

impl Irokle {
    /// What this node holds of `topic_id`; an unknown topic has no genesis and holds nothing.
    pub fn sync_summary(&self, topic_id: TopicId) -> (r: SyncSummary)
        ensures
            r.topic_id == topic_id,
            has_state(self.store(), topic_id) ==> r.genesis == Some(self.store().topics_map()[topic_id].state.genesis)
                && r.heads@ == self.store().topics_map()[topic_id].state.heads@,
            has_state(self.store(), topic_id) ==> (forall|a: ActorId| #[trigger] r.clock@.contains_key(a)
                <==> self.store().topics_map()[topic_id].tips@.contains_key(a)),
            has_state(self.store(), topic_id) ==> (forall|a: ActorId| #[trigger] r.clock@.contains_key(a)
                ==> r.clock@[a] == self.store().topics_map()[topic_id].tips@[a].seq),
            !has_state(self.store(), topic_id) ==> r.genesis is None && r.clock@ == Map::<Id32, u64>::empty(),
    {
        let store = self.storage();
        match store.topic_state(&topic_id) {
            Some(state) => SyncSummary {
                topic_id,
                genesis: Some(state.genesis),
                heads: state.heads.duplicate(),
                clock: store.actor_clock(&topic_id),
            },
            None => SyncSummary { topic_id, genesis: None, heads: IdSet::new(), clock: ActorClock::new() },
        }
    }

    /// The ops of `remote`'s topic that `peer_id` lacks: those its clock does not cover on
    /// the branch held here, or every op when it holds another branch or none. Only a
    /// member may be sent a topic's data.
    pub fn plan_sync_data(&self, peer_id: PeerId, remote: &SyncSummary) -> (r: Result<SyncData, Error>)
        ensures
            !has_state(self.store(), remote.topic_id) ==> r matches Err(Error::TopicNotFound),
            has_state(self.store(), remote.topic_id) && !self.store().topics_map()[remote.topic_id].state.members@.contains(peer_id)
                ==> r matches Err(Error::NotTopicMember),
            r matches Ok(d) ==> d.topic_id == remote.topic_id,
            has_state(self.store(), remote.topic_id) && self.store().topics_map()[remote.topic_id].state.members@.contains(peer_id)
                && crate::oplog::topology::gens_ordered(self.store().ops_map(),
                    crate::storage::spec_topic_ids(self.store().ops_map(), remote.topic_id))
                ==> r is Ok,
            r matches Ok(d) ==> exists|all: Seq<Op>| #[trigger] topic_history_ops(self.store(), remote.topic_id, all)
                && d.ops@ == all.filter(|op: Op| peer_lacks(remote.genesis, remote.clock@,
                    self.store().topics_map()[remote.topic_id].state.genesis, op)),
    {
        let store = self.storage();
        let state = match store.topic_state(&remote.topic_id) {
            Some(s) => s,
            None => return Err(Error::TopicNotFound),
        };
        if !state.members.contains(&peer_id) {
            return Err(Error::NotTopicMember);
        }
        let same_branch = match remote.genesis {
            Some(g) => g.same(&state.genesis),
            None => false,
        };
        let all = crate::oplog::topology::topological(store, &remote.topic_id)?;
        let ghost all0 = all@;
        let ghost genesis = state.genesis;
        let ghost pred = |op: Op| peer_lacks(remote.genesis, remote.clock@, genesis, op);
        proof { assert(same_branch == (remote.genesis == Some(genesis))); }
        let mut all = all;
        let mut rev: Vec<Op> = Vec::new();
        while all.len() > 0
            invariant all0 == all@ + rev@.reverse(),
            decreases all@.len(),
        {
            let x = all.pop().unwrap();
            let ghost rb = rev@;
            rev.push(x);
            proof { assert(rev@.reverse() =~= seq![x] + rb.reverse()); assert(all0 =~= all@ + rev@.reverse()); }
        }
        proof { assert(all0 =~= rev@.reverse()); reveal(Seq::filter); assert(all0.take(0).filter(pred) =~= Seq::<Op>::empty()); }
        let mut ops: Vec<Op> = Vec::new();
        while rev.len() > 0
            invariant
                rev@.len() <= all0.len(),
                rev@.reverse() == all0.skip(all0.len() - rev@.len()),
                ops@ == all0.take(all0.len() - rev@.len()).filter(pred),
                same_branch == (remote.genesis == Some(genesis)),
                pred == (|op: Op| peer_lacks(remote.genesis, remote.clock@, genesis, op)),
            decreases rev@.len(),
        {
            let ghost rb = rev@;
            let ghost k = all0.len() - rb.len();
            let x = rev.pop().unwrap();
            proof {
                assert(rb =~= rev@.push(x));
                assert(rb.reverse()[0] == x);
                assert(all0.skip(k)[0] == all0[k]);
                assert(rev@.reverse() =~= all0.skip(k + 1)) by {
                    assert forall|j: int| 0 <= j < rev@.len() implies rev@.reverse()[j] == all0.skip(k + 1)[j] by {
                        assert(rev@.reverse()[j] == rb.reverse()[j + 1]);
                    }
                }
                assert(all0.take(k + 1).drop_last() =~= all0.take(k));
                assert(all0.take(k + 1).last() == x);
            }
            let ghost ob = ops@;
            let keep = !same_branch || !remote.clock.covers(&x.signed.body.actor_id, x.signed.body.actor_seq);
            proof {
                assert(keep == pred(x));
                reveal(Seq::filter);
                assert(all0.take(k + 1).filter(pred) == (if pred(x) { all0.take(k).filter(pred).push(x) }
                    else { all0.take(k).filter(pred) }));
            }
            if keep {
                ops.push(x);
            }
        }
        proof {
            assert(all0.take(all0.len() as int) =~= all0);
            assert(topic_history_ops(self.store(), remote.topic_id, all0));
        }
        Ok(SyncData { topic_id: remote.topic_id, ops })
    }
}

/// Whether a receive of `ops` for `topic` from `source` left `topic` unknown, or it
/// was held before, or `ops` open it naming `me` and `source`, or the history it
/// admitted makes both members: an unknown topic becomes visible only when
/// membership is proven.
pub open spec fn admits_only_proven(before: MemoryStorage, after: MemoryStorage, topic: TopicId, ops: Seq<Op>, me: PeerId, source: PeerId) -> bool {
    ||| before.topics_map().contains_key(topic)
    ||| !after.topics_map().contains_key(topic)
    ||| proves_members(ops, topic, me, source)
    ||| crate::node::bootstrap::joined(before, after, topic, me, source)
}

/// Whether `ops` holds a genesis opening `topic` that names both `a` and `b` among its
/// initial peers: data that proves both are members of an unknown topic.
pub open spec fn proves_members(ops: Seq<Op>, topic: TopicId, a: PeerId, b: PeerId) -> bool {
    exists|i: int| 0 <= i < ops.len() && crate::op::spec_is_structural_genesis(#[trigger] ops[i])
        && ops[i].signed.body.topic_id == topic
        && (ops[i].signed.body.payload matches TopicPayload::Genesis(g) && g.initial_peers@.contains(a) && g.initial_peers@.contains(b))
}

impl Irokle {
    /// Admits sync data from `source_peer_id` and returns the signed ack and any genesis
    /// tie-break evictions. Data of a topic this node does not hold fails with
    /// `BootstrapPending` while it stays staged.
    pub fn receive_sync_data_from_evicting(&mut self, source_peer_id: PeerId, data: SyncData)
        -> (r: Result<(SyncAck, Vec<TopicEviction>), Error>)
        ensures
            (exists|k: int| 0 <= k < data.ops@.len() && (#[trigger] data.ops@[k]).signed.body.topic_id != data.topic_id)
                ==> (r matches Err(Error::TopicMismatch) && final(self).store() == old(self).store()),
            (exists|k: int| 0 <= k < data.ops@.len() && !spec_op_valid(#[trigger] data.ops@[k]))
                ==> r is Err && final(self).store() == old(self).store(),
            r matches Ok((ack, _)) ==> ack.topic_id == data.topic_id && ack.peer_id == old(self).spec_peer_id()
                && crate::oplog::receive::all_held(final(self).store().ops_map(), ack.accepted@),
            admits_only_proven(old(self).store(), final(self).store(), data.topic_id, data.ops@, old(self).spec_peer_id(), source_peer_id),
            final(self).spec_peer_id() == old(self).spec_peer_id(),
            delivered_again(old(self).store(), data) ==> r is Ok,
            (exists|k: int| 0 <= k < data.ops@.len() && (#[trigger] data.ops@[k]).signed.body.topic_id != data.topic_id)
                ==> final(self).spec_stagings() == old(self).spec_stagings(),
            (forall|k: int| 0 <= k < data.ops@.len() ==> (#[trigger] data.ops@[k]).signed.body.topic_id == data.topic_id)
                ==> forall|k: int| #[trigger] first_invalid(data.ops@, k) ==> final(self).spec_stagings() == old(self).spec_stagings()
                    && (r matches Err(e) && spec_validate_result(data.ops@[k]) == Err::<(), Error>(e)),
            exists|o: Result<ReceiveOutcome, Error>| #[trigger] received_as(*old(self), *final(self), source_peer_id, data, o)
                && outcome_as_result(o, r),
            fresh_delivery(old(self).store(), data) ==> (r matches Ok((ack, _)) && ack.accepted@.contains(data.ops@[0].id)
                && crate::oplog::local::held_whole(final(self).store().ops_map(), data.ops@[0].id)),
    {
        let ghost data0 = data;
        let o = self.receive_sync_outcome(source_peer_id, data);
        let ghost og = o;
        let r = match o {
            Ok(ReceiveOutcome::Acked { ack, evictions }) => Ok((ack, evictions)),
            Ok(ReceiveOutcome::Staged(staged)) => Err(Error::BootstrapPending { staged: staged.clock.entries() }),
            Err(e) => Err(e),
        };
        proof {
            assert(outcome_as_result(og, r));
            assert(received_as(*old(self), *self, source_peer_id, data0, og));
        }
        r
    }

    /// Admits sync data from `source_peer_id`; see [`Self::receive_sync_data_from_evicting`].
    pub fn receive_sync_data_from(&mut self, source_peer_id: PeerId, data: SyncData)
        -> (r: Result<(SyncAck, Vec<TopicEviction>), Error>)
        ensures
            (exists|k: int| 0 <= k < data.ops@.len() && (#[trigger] data.ops@[k]).signed.body.topic_id != data.topic_id)
                ==> (r matches Err(Error::TopicMismatch) && final(self).store() == old(self).store()),
            (exists|k: int| 0 <= k < data.ops@.len() && !spec_op_valid(#[trigger] data.ops@[k]))
                ==> r is Err && final(self).store() == old(self).store(),
            r matches Ok((ack, _)) ==> ack.topic_id == data.topic_id && ack.peer_id == old(self).spec_peer_id()
                && crate::oplog::receive::all_held(final(self).store().ops_map(), ack.accepted@),
            admits_only_proven(old(self).store(), final(self).store(), data.topic_id, data.ops@, old(self).spec_peer_id(), source_peer_id),
            final(self).spec_peer_id() == old(self).spec_peer_id(),
            delivered_again(old(self).store(), data) ==> r is Ok,
            (exists|k: int| 0 <= k < data.ops@.len() && (#[trigger] data.ops@[k]).signed.body.topic_id != data.topic_id)
                ==> final(self).spec_stagings() == old(self).spec_stagings(),
            (forall|k: int| 0 <= k < data.ops@.len() ==> (#[trigger] data.ops@[k]).signed.body.topic_id == data.topic_id)
                ==> forall|k: int| #[trigger] first_invalid(data.ops@, k) ==> final(self).spec_stagings() == old(self).spec_stagings()
                    && (r matches Err(e) && spec_validate_result(data.ops@[k]) == Err::<(), Error>(e)),
            exists|o: Result<ReceiveOutcome, Error>| #[trigger] received_as(*old(self), *final(self), source_peer_id, data, o)
                && outcome_as_result(o, r),
            fresh_delivery(old(self).store(), data) ==> (r matches Ok((ack, _)) && ack.accepted@.contains(data.ops@[0].id)
                && crate::oplog::local::held_whole(final(self).store().ops_map(), data.ops@[0].id)),
    {
        self.receive_sync_data_from_evicting(source_peer_id, data)
    }

    /// Admits sync data from `source_peer_id` and returns the signed ack alone; see
    /// [`Self::receive_sync_data_from_evicting`].
    pub fn receive_sync_data(&mut self, source_peer_id: PeerId, data: SyncData) -> (r: Result<SyncAck, Error>)
        ensures
            r matches Ok(ack) ==> ack.topic_id == data.topic_id && ack.peer_id == old(self).spec_peer_id()
                && crate::oplog::receive::all_held(final(self).store().ops_map(), ack.accepted@),
            (exists|k: int| 0 <= k < data.ops@.len() && !spec_op_valid(#[trigger] data.ops@[k]))
                ==> r is Err && final(self).store() == old(self).store(),
            admits_only_proven(old(self).store(), final(self).store(), data.topic_id, data.ops@, old(self).spec_peer_id(), source_peer_id),
            delivered_again(old(self).store(), data) ==> r is Ok,
    {
        match self.receive_sync_data_from_evicting(source_peer_id, data) {
            Ok((ack, _)) => Ok(ack),
            Err(e) => Err(e),
        }
    }

    /// The signed ack of this node for `topic_id`, naming `accepted`.
    fn signed_ack(&self, topic_id: TopicId, accepted: IdSet) -> (r: Result<SyncAck, Error>)
        ensures
            r matches Ok(ack) ==> ack.topic_id == topic_id && ack.peer_id == self.spec_peer_id() && ack.accepted@ == accepted@,
            r matches Ok(ack) ==> ack.genesis == (if has_state(self.store(), topic_id) {
                    Some(self.store().topics_map()[topic_id].state.genesis) } else { None::<OpId> })
                && (forall|a: Id32| #[trigger] ack.clock@.contains_key(a) <==> (self.store().topics_map().contains_key(topic_id)
                    && self.store().topics_map()[topic_id].tips@.contains_key(a)))
                && (forall|a: Id32| #[trigger] ack.clock@.contains_key(a) ==> ack.clock@[a] == self.store().topics_map()[topic_id].tips@[a].seq)
                && ack.signature@ == spec_sign(self.spec_signer().secret_bytes(), ack_message(ack)),
            r is Ok,
    {
        let store = self.storage();
        let genesis = match store.topic_state(&topic_id) {
            Some(state) => Some(state.genesis),
            None => None,
        };
        let mut ack = SyncAck {
            topic_id,
            peer_id: self.peer_id(),
            genesis,
            clock: store.actor_clock(&topic_id),
            accepted,
            signature: [0u8; 64],
        };
        ack.sign(&self.config.signer)?;
        Ok(ack)
    }

    /// Receives sync data. Data of a held topic is admitted and acked. Data of a
    /// topic this node does not hold is staged per source until the staged history
    /// makes this node and the source members; then that history becomes the topic
    /// at once and is acked. Every op is checked first: one that does not verify,
    /// or names another topic, fails the whole data and changes nothing.
    #[verifier::rlimit(40)]
    pub fn receive_sync_outcome(&mut self, source_peer_id: PeerId, data: SyncData) -> (r: Result<ReceiveOutcome, Error>)
        ensures
            received_as(*old(self), *final(self), source_peer_id, data, r),
            crate::node::store_consistent(old(self).store()) && has_state(old(self).store(), data.topic_id)
                ==> crate::node::store_consistent(final(self).store()),
    {
        let mut i: usize = 0;
        while i < data.ops.len()
            invariant
                i <= data.ops@.len(),
                forall|j: int| 0 <= j < i ==> (#[trigger] data.ops@[j]).signed.body.topic_id == data.topic_id,
            decreases data.ops@.len() - i,
        {
            if !data.ops[i].signed.body.topic_id.same(&data.topic_id) {
                return Err(Error::TopicMismatch);
            }
            i += 1;
        }
        let mut i: usize = 0;
        while i < data.ops.len()
            invariant
                i <= data.ops@.len(),
                forall|j: int| 0 <= j < data.ops@.len() ==> (#[trigger] data.ops@[j]).signed.body.topic_id == data.topic_id,
                forall|j: int| 0 <= j < i ==> spec_op_valid(#[trigger] data.ops@[j]),
            decreases data.ops@.len() - i,
        {
            match data.ops[i].validate() {
                Ok(()) => {},
                Err(e) => {
                    proof {
                        assert(first_invalid(data.ops@, i as int));
                        assert(spec_validate_result(data.ops@[i as int]) == Err::<(), Error>(e));
                    }
                    return Err(e);
                },
            }
            i += 1;
        }
        let topic_id = data.topic_id;
        let route = self.bootstrap_unknown(source_peer_id, topic_id, &data.ops)?;
        match route {
            Bootstrap::Staged(receipt) => { return Ok(ReceiveOutcome::Staged(receipt)); },
            Bootstrap::Active(held) => {
                let ack = self.signed_ack(topic_id, held)?;
                return Ok(ReceiveOutcome::Acked { ack, evictions: Vec::new() });
            },
            Bootstrap::Known => {},
            Bootstrap::Direct => {},
        }
        let ghost mid = self.store();
        let admitted = self.oplog_mut().receive_ops_from_peer_evicting(Some(source_peer_id), data.ops)?;
        let ack = self.signed_ack(topic_id, admitted.accepted)?;
        Ok(ReceiveOutcome::Acked { ack, evictions: admitted.evictions })
    }

    /// Refuses data of a topic not held here from a peer the whitelist does not name.
    pub fn ensure_peer_allowed(&self, source_peer_id: PeerId, data: &SyncData) -> (r: Result<(), Error>)
        ensures
            r is Ok <==> may_introduce(self.store(), self.spec_whitelist(), data.topic_id, source_peer_id),
            r matches Err(e) ==> e == Error::PeerNotWhitelisted(source_peer_id),
    {
        if self.storage().topic_state(&data.topic_id).is_some() {
            return Ok(());
        }
        let allowed = match self.peer_whitelist() {
            Some(list) => list.contains(&source_peer_id),
            None => true,
        };
        if !allowed {
            return Err(Error::PeerNotWhitelisted(source_peer_id));
        }
        Ok(())
    }

    /// Admits data as if this node had sent it to itself.
    pub fn receive_sync_data_as_local(&mut self, data: SyncData) -> (r: Result<(SyncAck, Vec<TopicEviction>), Error>)
        ensures
            r matches Ok((ack, _)) ==> ack.topic_id == data.topic_id && ack.peer_id == old(self).spec_peer_id()
                && crate::oplog::receive::all_held(final(self).store().ops_map(), ack.accepted@),
            admits_only_proven(old(self).store(), final(self).store(), data.topic_id, data.ops@, old(self).spec_peer_id(),
                old(self).spec_peer_id()),
            delivered_again(old(self).store(), data) ==> r is Ok,
    {
        let me = self.peer_id();
        self.receive_sync_data_from_evicting(me, data)
    }

    /// Records what a peer's signed ack certifies it holds.
    pub fn apply_sync_ack(&mut self, ack: &SyncAck) -> (r: Result<(), Error>)
        ensures
            r is Ok <==> ack_verifies(*ack),
            r is Err ==> final(self).store() == old(self).store(),
            final(self).spec_peer_id() == old(self).spec_peer_id(),
            r is Ok && ack.genesis is Some ==> has_ack_for(final(self).store().ack_seq(), ack.peer_id, ack.topic_id),
            r is Ok ==> spec_key_valid(ack.peer_id.bytes@),
            final(self).store().ops_map() == old(self).store().ops_map(),
            final(self).store().topics_map() == old(self).store().topics_map(),
            r is Ok && ack.genesis is Some ==> final(self).store().ack_seq().drop_last() == old(self).store().ack_seq().filter(
                    |a: PeerAck| !(a.peer_id == ack.peer_id && a.topic_id == ack.topic_id))
                && final(self).store().ack_seq().last().genesis == ack.genesis->Some_0
                && final(self).store().ack_seq().last().clock@ == ack.clock@,
            !(r is Ok && ack.genesis is Some) ==> final(self).store().ack_seq() == old(self).store().ack_seq(),
            forall|p: PeerId, t: TopicId| #[trigger] has_ack_for(old(self).store().ack_seq(), p, t)
                ==> has_ack_for(final(self).store().ack_seq(), p, t),
    {
        ack.verify()?;
        match ack.genesis {
            Some(g) => {
                let clock = ack.clock.duplicate();
                self.oplog_mut().storage_mut().put_peer_ack(ack.peer_id, ack.topic_id, g, clock);
                proof {
                    let s = self.store().ack_seq();
                    assert(s[s.len() - 1].peer_id == ack.peer_id);
                }
            },
            None => {},
        }
        Ok(())
    }

    /// Applies each ack on its own and returns one result per ack, in order.
    pub fn apply_sync_acks(&mut self, acks: &Vec<SyncAck>) -> (r: Vec<Result<(), Error>>)
        ensures
            r@.len() == acks@.len(),
            forall|i: int| 0 <= i < r@.len() ==> (#[trigger] r@[i] is Ok <==> ack_verifies(acks@[i])),
            final(self).store().ops_map() == old(self).store().ops_map(),
            final(self).store().topics_map() == old(self).store().topics_map(),
            forall|i: int| 0 <= i < r@.len() && #[trigger] r@[i] is Ok && acks@[i].genesis is Some
                ==> has_ack_for(final(self).store().ack_seq(), acks@[i].peer_id, acks@[i].topic_id),
            (forall|i: int| 0 <= i < acks@.len() ==> !ack_verifies(#[trigger] acks@[i]) || acks@[i].genesis is None)
                ==> final(self).store().ack_seq() == old(self).store().ack_seq(),
    {
        let mut out: Vec<Result<(), Error>> = Vec::new();
        let mut i: usize = 0;
        while i < acks.len()
            invariant
                i <= acks@.len(),
                out@.len() == i,
                forall|j: int| 0 <= j < i ==> (#[trigger] out@[j] is Ok <==> ack_verifies(acks@[j])),
                self.store().ops_map() == old(self).store().ops_map(),
                self.store().topics_map() == old(self).store().topics_map(),
                forall|j: int| 0 <= j < i && #[trigger] out@[j] is Ok && acks@[j].genesis is Some
                    ==> has_ack_for(self.store().ack_seq(), acks@[j].peer_id, acks@[j].topic_id),
                (forall|j: int| 0 <= j < acks@.len() ==> !ack_verifies(#[trigger] acks@[j]) || acks@[j].genesis is None)
                    ==> self.store().ack_seq() == old(self).store().ack_seq(),
            decreases acks@.len() - i,
        {
            let ghost ob = out@;
            let res = self.apply_sync_ack(&acks[i]);
            out.push(res);
            proof {
                assert forall|j: int| 0 <= j < i + 1 && #[trigger] out@[j] is Ok && acks@[j].genesis is Some
                    implies has_ack_for(self.store().ack_seq(), acks@[j].peer_id, acks@[j].topic_id) by {
                    if j < i { assert(out@[j] == ob[j]); }
                }
            }
            i += 1;
        }
        out
    }

    /// Whether a certified ack of `peer_id` covers the op `op_id` on the branch held now.
    pub fn peer_reached_op(&self, peer_id: PeerId, op_id: OpId) -> (r: bool)
        ensures r == reached(self.store(), peer_id, op_id),
    {
        let store = self.storage();
        let meta = match store.get_meta(&op_id) {
            Some(m) => m,
            None => return false,
        };
        let state = match store.topic_state(&meta.topic_id) {
            Some(s) => s,
            None => return false,
        };
        match store.peer_ack(&peer_id, &meta.topic_id) {
            Some(ack) => ack.genesis.same(&state.genesis) && ack.clock.covers(&meta.actor_id, meta.actor_seq),
            None => false,
        }
    }

    /// The peers whose certified acks cover the op `op_id` on the branch held now.
    pub fn peers_reached_op(&self, op_id: OpId) -> (r: Vec<PeerId>)
        ensures forall|p: PeerId| r@.contains(p) <==> reached(self.store(), p, op_id),
    {
        let store = self.storage();
        let acks = store.acks();
        let mut out: Vec<PeerId> = Vec::new();
        let mut i: usize = 0;
        while i < acks.len()
            invariant
                i <= acks@.len(),
                acks@ == store.ack_seq(),
                *store == self.store(),
                forall|p: PeerId| out@.contains(p) <==> reached(self.store(), p, op_id)
                    && exists|j: int| 0 <= j < i && #[trigger] acks@[j].peer_id == p,
            decreases acks@.len() - i,
        {
            let peer = acks[i].peer_id;
            let ghost before = out@;
            if self.peer_reached_op(peer, op_id) {
                out.push(peer);
            }
            proof {
                assert forall|p: PeerId| out@.contains(p) <==> reached(self.store(), p, op_id)
                    && exists|j: int| 0 <= j < i + 1 && #[trigger] acks@[j].peer_id == p by {
                    if out@.contains(p) && p != peer {
                        let w = choose|w: int| 0 <= w < out@.len() && out@[w] == p;
                        assert(w < before.len());
                        assert(before[w] == p);
                        assert(before.contains(p));
                    }
                    if before.contains(p) {
                        let w = choose|w: int| 0 <= w < before.len() && before[w] == p;
                        assert(out@[w] == p);
                    }
                    if reached(self.store(), p, op_id) && (exists|j: int| 0 <= j < i + 1 && #[trigger] acks@[j].peer_id == p) {
                        let j = choose|j: int| 0 <= j < i + 1 && #[trigger] acks@[j].peer_id == p;
                        if j < i {
                            assert(before.contains(p));
                            let w = choose|w: int| 0 <= w < before.len() && before[w] == p;
                            assert(out@[w] == p);
                        } else {
                            assert(out@[out@.len() - 1] == p);
                        }
                    }
                    if p == peer && out@.contains(p) && !before.contains(p) {
                        assert(acks@[i as int].peer_id == p);
                    }
                }
            }
            i += 1;
        }
        proof {
            assert forall|p: PeerId| reached(self.store(), p, op_id) implies exists|j: int| 0 <= j < acks@.len() && #[trigger] acks@[j].peer_id == p by {
                let ops = self.store().ops_map();
                crate::storage::lemma_ack_of(self.store().ack_seq(), p, ops[op_id].meta.topic_id);
                let j = choose|j: int| 0 <= j < acks@.len() && (#[trigger] acks@[j]).peer_id == p && acks@[j].topic_id == ops[op_id].meta.topic_id;
            }
        }
        out
    }
}

} // verus!
