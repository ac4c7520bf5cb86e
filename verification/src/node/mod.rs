//! The node: one identity over one store, with topics, publishing and a
//! transport-neutral sync facade.
use vstd::prelude::*;
use crate::ids::{Id32, OpId, PeerId, TopicId, ActorId, EvictionKey};
use crate::idset::IdSet;
use crate::clock::ActorClock;
use crate::crypto::{Ed25519Signer, actor_id_for, is_actor_of, spec_blake3};
use crate::op::Op;
use crate::topic::{TopicConfig, TopicGenesis, TopicControl, TopicPayload, EventEnvelope, ReplicationPolicy};
use crate::storage::{MemoryStorage, TopicInfo, PendingOp, StoredOp};
use crate::eviction::TopicEviction;
use crate::error::Error;
use crate::oplog::Oplog;
use crate::oplog::local::has_state;
use crate::runtime::IrohRuntimeConfig;
use crate::storage::MAX_PENDING_IDLE_MS;
use crate::oplog::local::{local_valid, written};
use crate::reducer::EventRecord;
use crate::node::topic::{Topic, RawTopic};
use crate::node::peers::PeerHealthStore;
use crate::node::bootstrap::Staging;
use crate::status::{StatusBook, SyncPeerStatus, SyncPeerState, StateCounts, state_counts, count_state, status_report, index_of, recorded, recorded_fresh, fresh_status, same_status, reported, reported_peers};
use crate::transport::AttemptOutcome;
use crate::idset::sorted_ids;

pub mod topic;
pub mod builder;
pub mod sync;
pub mod history;
pub mod peers;
pub mod bootstrap;
pub mod page;
pub mod dag;


verus! {

/// Whether a write waits for nothing beyond the local store, or also schedules replication.
#[derive(Clone, Copy, Debug, PartialEq, Eq, Structural)]
pub enum WriteConcern {
    Local,
    AsyncReplication,
}

/// The identity, default write concern and peer whitelist a node starts with.
#[derive(Debug)]
pub struct NodeConfig {
    pub signer: Ed25519Signer,
    pub default_write_concern: WriteConcern,
    /// Peers allowed to reach this node; `None` allows every peer.
    pub peer_whitelist: Option<IdSet>,
}

impl NodeConfig {
    /// A configuration for `signer`: local writes and an empty whitelist.
    pub fn new(signer: Ed25519Signer) -> (r: NodeConfig)
        ensures
            r.signer == signer,
            r.default_write_concern == WriteConcern::Local,
            r.peer_whitelist matches Some(w) && w@ == Set::<PeerId>::empty(),
    {
        NodeConfig { signer, default_write_concern: WriteConcern::Local, peer_whitelist: Some(IdSet::new()) }
    }
}

/// How one publish is written.
#[derive(Clone, Copy, Debug, PartialEq, Eq, Structural)]
pub struct PublishOptions {
    pub write_concern: WriteConcern,
}

impl PublishOptions {
    /// A local write.
    pub fn local() -> (r: PublishOptions)
        ensures r.write_concern == WriteConcern::Local,
    {
        PublishOptions { write_concern: WriteConcern::Local }
    }
}

/// Settings of the peer-to-peer transport a node may be attached to.
#[derive(Debug)]
pub struct IrohSettings {
    pub secret_key: Option<[u8; 32]>,
    pub alpns: Vec<Vec<u8>>,
    pub auto_accept: bool,
    pub runtime: IrohRuntimeConfig,
}

impl IrohSettings {
    /// No key, no extra protocol, accepting connections, default timeouts.
    pub fn new() -> (r: IrohSettings)
        ensures r.secret_key is None, r.alpns@.len() == 0, r.auto_accept, r.runtime.connect_timeout_ms == 30000,
    {
        IrohSettings { secret_key: None, alpns: Vec::new(), auto_accept: true, runtime: IrohRuntimeConfig::defaults() }
    }
}

/// A node: one signing identity over one store.
#[derive(Debug)]
pub struct Irokle {
    oplog: Oplog,
    config: NodeConfig,
    peer_whitelist: Option<IdSet>,
    topic_nonce: u64,
    now_ms: u64,
    iroh: IrohSettings,
    peer_health: PeerHealthStore,
    stagings: Vec<Staging>,
    next_session: u64,
    statuses: StatusBook,
}

/// The peer ids of an optional whitelist.
pub open spec fn whitelist_view(w: Option<IdSet>) -> Option<Set<PeerId>> {
    match w { Some(s) => Some(s@), None => None }
}

/// Whether `new` is `old` with the locally written event of `rec` added: valid
/// there, by `author` as `actor` in `topic`, on the topic's heads after the
/// actor's last op, carrying `event`, at the position `rec` names.
pub open spec fn published_event(old: MemoryStorage, new: MemoryStorage, topic: TopicId, actor: ActorId, author: PeerId,
    event: EventEnvelope, rec: EventRecord) -> bool {
    exists|op: Op| #[trigger] local_valid(old, op)
        && crate::oplog::local::built_on(op, topic, actor, author, crate::oplog::local::heads_of(old, topic),
            crate::oplog::local::spec_tip(old, topic, actor))
        && (op.signed.body.payload matches TopicPayload::Event(e) && e.type_id@ == event.type_id@ && e.payload@ == event.payload@)
        && written(old, new, op)
        && op.id == rec.meta.op_id && rec.meta.actor_id == op.signed.body.actor_id && rec.meta.actor_seq == op.signed.body.actor_seq
        && rec.event == event
}

/// Whether `new` is `old` with one locally written op added: valid there, by
/// `author` as `actor` in `topic`, on the topic's heads after the actor's last
/// op, carrying `payload`.
pub open spec fn published(old: MemoryStorage, new: MemoryStorage, topic: TopicId, actor: ActorId, author: PeerId, payload: TopicPayload) -> bool {
    exists|op: Op| #[trigger] local_valid(old, op)
        && crate::oplog::local::built_on(op, topic, actor, author, crate::oplog::local::heads_of(old, topic),
            crate::oplog::local::spec_tip(old, topic, actor))
        && crate::topic::same_payload(op.signed.body.payload, payload)
        && written(old, new, op)
}

/// Whether `new` is `old` with a locally written control `control` of `topic` by
/// `author` as `actor`: valid there, built on the topic's heads after the actor's
/// last op, and leaving the members and recorded decisions its key gives.
pub open spec fn control_published(old: MemoryStorage, new: MemoryStorage, topic: TopicId, actor: ActorId, author: PeerId,
    control: TopicControl) -> bool {
    exists|op: Op| #[trigger] local_valid(old, op)
        && crate::oplog::local::built_on(op, topic, actor, author, crate::oplog::local::heads_of(old, topic),
            crate::oplog::local::spec_tip(old, topic, actor))
        && crate::topic::same_payload(op.signed.body.payload, TopicPayload::Control(control))
        && written(old, new, op)
        && new.topics_map()[topic].state.members@ == crate::oplog::local::members_after_control(old.topics_map()[topic].state,
            crate::oplog::helpers::spec_control_key(op), control)
        && new.topics_map()[topic].state.membership_controls@ == crate::oplog::local::controls_after(old.topics_map()[topic].state,
            crate::oplog::helpers::spec_control_key(op), control)
        && crate::oplog::local::policy_after(old.topics_map()[topic].state, crate::oplog::helpers::spec_control_key(op), control,
            new.topics_map()[topic].state)
}

/// The peer a membership control names.
pub open spec fn control_peer(control: TopicControl) -> Option<PeerId> {
    match control {
        TopicControl::AddPeer { peer } => Some(peer),
        TopicControl::RemovePeer { peer } => Some(peer),
        TopicControl::SetReplicationPolicy { .. } => None,
    }
}

/// Two membership controls a node writes in turn for one peer, the first on a peer
/// no control had decided yet: the later one decides. The peer is a member after an
/// addition and not after a removal, whatever the earlier control was.
pub proof fn lemma_later_control_decides(s0: MemoryStorage, s1: MemoryStorage, s2: MemoryStorage, topic: TopicId,
    a1: ActorId, a2: ActorId, author: PeerId, c1: TopicControl, c2: TopicControl, peer: PeerId)
    requires
        control_peer(c1) == Some(peer),
        control_peer(c2) == Some(peer),
        has_state(s0, topic),
        undecided(s0.topics_map()[topic].state, c1),
        control_published(s0, s1, topic, a1, author, c1),
        control_published(s1, s2, topic, a2, author, c2),
    ensures
        c2 is AddPeer ==> s2.topics_map()[topic].state.members@.contains(peer),
        c2 is RemovePeer ==> !s2.topics_map()[topic].state.members@.contains(peer),
{
    let op1 = choose|op: Op| #[trigger] local_valid(s0, op)
        && crate::oplog::local::built_on(op, topic, a1, author, crate::oplog::local::heads_of(s0, topic),
            crate::oplog::local::spec_tip(s0, topic, a1))
        && crate::topic::same_payload(op.signed.body.payload, TopicPayload::Control(c1))
        && written(s0, s1, op)
        && s1.topics_map()[topic].state.members@ == crate::oplog::local::members_after_control(s0.topics_map()[topic].state,
            crate::oplog::helpers::spec_control_key(op), c1)
        && s1.topics_map()[topic].state.membership_controls@ == crate::oplog::local::controls_after(s0.topics_map()[topic].state,
            crate::oplog::helpers::spec_control_key(op), c1);
    let op2 = choose|op: Op| #[trigger] local_valid(s1, op)
        && crate::oplog::local::built_on(op, topic, a2, author, crate::oplog::local::heads_of(s1, topic),
            crate::oplog::local::spec_tip(s1, topic, a2))
        && crate::topic::same_payload(op.signed.body.payload, TopicPayload::Control(c2))
        && written(s1, s2, op)
        && s2.topics_map()[topic].state.members@ == crate::oplog::local::members_after_control(s1.topics_map()[topic].state,
            crate::oplog::helpers::spec_control_key(op), c2)
        && s2.topics_map()[topic].state.membership_controls@ == crate::oplog::local::controls_after(s1.topics_map()[topic].state,
            crate::oplog::helpers::spec_control_key(op), c2);
    let k1 = crate::oplog::helpers::spec_control_key(op1);
    let k2 = crate::oplog::helpers::spec_control_key(op2);
    // The first control was recorded for the peer.
    assert(s1.topics_map()[topic].state.membership_controls@.contains_key(peer));
    assert(s1.topics_map()[topic].state.membership_controls@[peer].key == k1);
    // The second is built on the first, so it comes a generation later.
    assert(crate::oplog::local::heads_of(s1, topic).contains(op1.id));
    assert(op2.signed.body.deps@.contains(op1.id));
    op2.signed.body.deps.lemma_view_elems();
    let ids = op2.signed.body.deps.elems();
    let i = choose|i: int| 0 <= i < ids.len() && ids[i] == op1.id;
    crate::oplog::local::lemma_gen_bound_above(s1.ops_map(), ids, i);
    assert(s1.ops_map()[op1.id].meta.generation == op1.signed.body.generation);
    assert(k2.generation > k1.generation);
    assert(crate::storage::control_key_gt(k2, k1));
}

/// Whether each membership decision recorded for `topic` in `s` lies at or below
/// the generation of one of the topic's heads. A topic holds none at its genesis,
/// and a local write keeps it, as its op is built on every head.
pub open spec fn decisions_below_heads(s: MemoryStorage, topic: TopicId) -> bool {
    &&& s.topics_map().contains_key(topic) ==> forall|p: PeerId|
        #[trigger] s.topics_map()[topic].state.membership_controls@.contains_key(p) ==> exists|h: OpId|
            s.topics_map()[topic].state.heads@.contains(h) && #[trigger] s.ops_map().contains_key(h)
            && s.ops_map()[h].meta.generation >= s.topics_map()[topic].state.membership_controls@[p].key.generation
    &&& s.topics_map().contains_key(topic) ==> (s.topics_map()[topic].state.replication_policy_key matches Some(k)
        ==> exists|h: OpId| s.topics_map()[topic].state.heads@.contains(h) && #[trigger] s.ops_map().contains_key(h)
            && s.ops_map()[h].meta.generation >= k.generation)
}

/// An op built on every head of its topic comes a generation after each of them.
proof fn lemma_above_heads(s: MemoryStorage, op: Op, h: OpId)
    requires
        local_valid(s, op),
        op.signed.body.deps@.contains(h),
    ensures
        op.signed.body.generation > s.ops_map()[h].meta.generation,
{
    op.signed.body.deps.lemma_view_elems();
    let ids = op.signed.body.deps.elems();
    assert(ids.contains(h));
    let i = choose|i: int| 0 <= i < ids.len() && ids[i] == h;
    crate::oplog::local::lemma_gen_bound_above(s.ops_map(), ids, i);
}

/// A local write to `topic` built on its heads keeps its decisions below its heads,
/// when each decision it records is the old one or comes at its own generation.
proof fn lemma_write_keeps_decisions(old: MemoryStorage, new: MemoryStorage, op: Op, topic: TopicId)
    requires
        decisions_below_heads(old, topic),
        local_valid(old, op),
        op.signed.body.topic_id == topic,
        crate::oplog::local::heads_of(old, topic).subset_of(op.signed.body.deps@),
        written(old, new, op),
        forall|p: PeerId| #[trigger] new.topics_map()[topic].state.membership_controls@.contains_key(p) ==>
            (old.topics_map().contains_key(topic) && old.topics_map()[topic].state.membership_controls@.contains_key(p)
                && new.topics_map()[topic].state.membership_controls@[p] == old.topics_map()[topic].state.membership_controls@[p])
            || new.topics_map()[topic].state.membership_controls@[p].key.generation == op.signed.body.generation,
        match new.topics_map()[topic].state.replication_policy_key {
            None => true,
            Some(k) => k.generation == op.signed.body.generation
                || (old.topics_map().contains_key(topic) && old.topics_map()[topic].state.replication_policy_key == Some(k)),
        },
    ensures
        decisions_below_heads(new, topic),
{
    let nc = new.topics_map()[topic].state.membership_controls@;
    if let Some(k) = new.topics_map()[topic].state.replication_policy_key {
        if k.generation != op.signed.body.generation {
            let h = choose|h: OpId| old.topics_map()[topic].state.heads@.contains(h) && #[trigger] old.ops_map().contains_key(h)
                && old.ops_map()[h].meta.generation >= k.generation;
            lemma_above_heads(old, op, h);
        }
        assert(new.ops_map().contains_key(op.id));
    }
    assert(new.topics_map()[topic].state.heads@.contains(op.id));
    assert(new.ops_map()[op.id].meta.generation == op.signed.body.generation);
    assert forall|p: PeerId| #[trigger] nc.contains_key(p) implies exists|h: OpId|
        new.topics_map()[topic].state.heads@.contains(h) && #[trigger] new.ops_map().contains_key(h)
        && new.ops_map()[h].meta.generation >= nc[p].key.generation by {
        if nc[p].key.generation != op.signed.body.generation {
            let oc = old.topics_map()[topic].state.membership_controls@;
            assert(oc.contains_key(p));
            let h = choose|h: OpId| old.topics_map()[topic].state.heads@.contains(h) && #[trigger] old.ops_map().contains_key(h)
                && old.ops_map()[h].meta.generation >= oc[p].key.generation;
            lemma_above_heads(old, op, h);
        }
        assert(new.ops_map().contains_key(op.id));
    }
}

/// A membership control this node writes on a topic whose decisions lie below its
/// heads outranks every recorded decision: the peer it names joins or leaves, and
/// the decisions stay below the heads.
pub proof fn lemma_local_control_decides(old: MemoryStorage, new: MemoryStorage, topic: TopicId, actor: ActorId, author: PeerId,
    control: TopicControl)
    requires
        decisions_below_heads(old, topic),
        has_state(old, topic),
        control_published(old, new, topic, actor, author, control),
    ensures
        new.topics_map()[topic].state.members@ == control_members(old.topics_map()[topic].state.members@, control),
        decisions_below_heads(new, topic),
        control matches TopicControl::SetReplicationPolicy { policy }
            ==> crate::oplog::causal::same_policy(new.topics_map()[topic].state.replication_policy, policy),
{
    let op = choose|op: Op| #[trigger] local_valid(old, op)
        && crate::oplog::local::built_on(op, topic, actor, author, crate::oplog::local::heads_of(old, topic),
            crate::oplog::local::spec_tip(old, topic, actor))
        && crate::topic::same_payload(op.signed.body.payload, TopicPayload::Control(control))
        && written(old, new, op)
        && new.topics_map()[topic].state.members@ == crate::oplog::local::members_after_control(old.topics_map()[topic].state,
            crate::oplog::helpers::spec_control_key(op), control)
        && new.topics_map()[topic].state.membership_controls@ == crate::oplog::local::controls_after(old.topics_map()[topic].state,
            crate::oplog::helpers::spec_control_key(op), control)
        && crate::oplog::local::policy_after(old.topics_map()[topic].state, crate::oplog::helpers::spec_control_key(op), control,
            new.topics_map()[topic].state);
    let k = crate::oplog::helpers::spec_control_key(op);
    let oc = old.topics_map()[topic].state.membership_controls@;
    let heads = crate::oplog::local::heads_of(old, topic);
    assert(heads.subset_of(op.signed.body.deps@));
    match control {
        TopicControl::AddPeer { peer } => {
            if oc.contains_key(peer) {
                let h = choose|h: OpId| old.topics_map()[topic].state.heads@.contains(h) && #[trigger] old.ops_map().contains_key(h)
                    && old.ops_map()[h].meta.generation >= oc[peer].key.generation;
                lemma_above_heads(old, op, h);
                assert(crate::storage::control_key_gt(k, oc[peer].key));
            }
        },
        TopicControl::RemovePeer { peer } => {
            if oc.contains_key(peer) {
                let h = choose|h: OpId| old.topics_map()[topic].state.heads@.contains(h) && #[trigger] old.ops_map().contains_key(h)
                    && old.ops_map()[h].meta.generation >= oc[peer].key.generation;
                lemma_above_heads(old, op, h);
                assert(crate::storage::control_key_gt(k, oc[peer].key));
            }
        },
        TopicControl::SetReplicationPolicy { .. } => {
            if let Some(k0) = old.topics_map()[topic].state.replication_policy_key {
                let h = choose|h: OpId| old.topics_map()[topic].state.heads@.contains(h) && #[trigger] old.ops_map().contains_key(h)
                    && old.ops_map()[h].meta.generation >= k0.generation;
                lemma_above_heads(old, op, h);
                assert(crate::storage::control_key_gt(k, k0));
            }
        },
    }
    lemma_write_keeps_decisions(old, new, op, topic);
}

/// Whether no earlier control recorded in `state` decided the peer `control` names.
pub open spec fn undecided(state: crate::storage::TopicState, control: TopicControl) -> bool {
    match control {
        TopicControl::AddPeer { peer } => !state.membership_controls@.contains_key(peer),
        TopicControl::RemovePeer { peer } => !state.membership_controls@.contains_key(peer),
        TopicControl::SetReplicationPolicy { .. } => true,
    }
}

/// `members` with the decision of `control` applied.
pub open spec fn control_members(members: Set<PeerId>, control: TopicControl) -> Set<PeerId> {
    match control {
        TopicControl::AddPeer { peer } => members.insert(peer),
        TopicControl::RemovePeer { peer } => members.remove(peer),
        TopicControl::SetReplicationPolicy { .. } => members,
    }
}

/// Whether every topic `s` holds no state for is unknown to it, with no op of it:
/// state and ops are only ever written together.
pub open spec fn store_consistent(s: MemoryStorage) -> bool {
    forall|t: TopicId| #![trigger has_state(s, t)] !has_state(s, t) ==> !s.topics_map().contains_key(t)
        && crate::storage::spec_topic_ids(s.ops_map(), t) == Set::<OpId>::empty()
}

/// A store that holds no topic and no op is consistent.
pub proof fn lemma_empty_store_consistent(s: MemoryStorage)
    requires
        s.ops_map().dom() == Set::<OpId>::empty(),
        s.topics_map().dom() == Set::<TopicId>::empty(),
    ensures store_consistent(s),
{
    assert forall|t: TopicId| #![trigger has_state(s, t)] !has_state(s, t) implies !s.topics_map().contains_key(t)
        && crate::storage::spec_topic_ids(s.ops_map(), t) == Set::<OpId>::empty() by {
        assert(!s.topics_map().dom().contains(t));
        assert(crate::storage::spec_topic_ids(s.ops_map(), t) =~= Set::<OpId>::empty()) by {
            assert forall|id: OpId| !crate::storage::spec_topic_ids(s.ops_map(), t).contains(id) by {
                assert(!s.ops_map().dom().contains(id));
            }
        }
    }
}

/// Consistency depends only on the ops and topics a store holds.
pub proof fn lemma_consistent_same_maps(a: MemoryStorage, b: MemoryStorage)
    requires
        store_consistent(a),
        a.ops_map() == b.ops_map(),
        a.topics_map() == b.topics_map(),
    ensures store_consistent(b),
{
    assert forall|t: TopicId| #![trigger has_state(b, t)] !has_state(b, t) implies !b.topics_map().contains_key(t)
        && crate::storage::spec_topic_ids(b.ops_map(), t) == Set::<OpId>::empty() by {
        assert(!has_state(a, t));
    }
}

/// Keeping the topics, and only ops held before under their topic, keeps a store
/// consistent.
pub proof fn lemma_consistent_same_topics(a: MemoryStorage, b: MemoryStorage)
    requires
        store_consistent(a),
        a.topics_map() == b.topics_map(),
        forall|k: OpId| #[trigger] b.ops_map().contains_key(k) ==> a.ops_map().contains_key(k)
            && b.ops_map()[k].topic_id == a.ops_map()[k].topic_id,
    ensures store_consistent(b),
{
    assert forall|t: TopicId| #![trigger has_state(b, t)] !has_state(b, t) implies !b.topics_map().contains_key(t)
        && crate::storage::spec_topic_ids(b.ops_map(), t) == Set::<OpId>::empty() by {
        assert(!has_state(a, t));
        assert(crate::storage::spec_topic_ids(b.ops_map(), t) =~= Set::<OpId>::empty()) by {
            assert forall|id: OpId| !crate::storage::spec_topic_ids(b.ops_map(), t).contains(id) by {
                if b.ops_map().contains_key(id) {
                    assert(!crate::storage::spec_topic_ids(a.ops_map(), t).contains(id));
                }
            }
        }
    }
}

/// Removing a topic with every op of it keeps a store consistent.
pub proof fn lemma_consistent_reset(a: MemoryStorage, b: MemoryStorage, topic: TopicId)
    requires
        store_consistent(a),
        b.topics_map() == a.topics_map().remove(topic),
        forall|k: OpId| #[trigger] b.ops_map().contains_key(k) ==> a.ops_map().contains_key(k)
            && a.ops_map()[k].topic_id != topic && b.ops_map()[k] == a.ops_map()[k],
    ensures store_consistent(b),
{
    assert forall|t: TopicId| #![trigger has_state(b, t)] !has_state(b, t) implies !b.topics_map().contains_key(t)
        && crate::storage::spec_topic_ids(b.ops_map(), t) == Set::<OpId>::empty() by {
        if t != topic {
            assert(b.topics_map().contains_key(t) == a.topics_map().contains_key(t));
            if a.topics_map().contains_key(t) {
                assert(b.topics_map()[t] == a.topics_map()[t]);
            }
            assert(!has_state(a, t));
        }
        assert(crate::storage::spec_topic_ids(b.ops_map(), t) =~= Set::<OpId>::empty()) by {
            assert forall|id: OpId| !crate::storage::spec_topic_ids(b.ops_map(), t).contains(id) by {
                if b.ops_map().contains_key(id) && t != topic {
                    assert(!crate::storage::spec_topic_ids(a.ops_map(), t).contains(id));
                }
            }
        }
    }
}

/// Dropping ops while keeping the topics keeps a store consistent.
pub proof fn lemma_consistent_fewer_ops(a: MemoryStorage, b: MemoryStorage)
    requires
        store_consistent(a),
        a.topics_map() == b.topics_map(),
        forall|k: OpId| #[trigger] b.ops_map().contains_key(k) ==> a.ops_map().contains_key(k) && b.ops_map()[k] == a.ops_map()[k],
    ensures store_consistent(b),
{
    assert forall|t: TopicId| #![trigger has_state(b, t)] !has_state(b, t) implies !b.topics_map().contains_key(t)
        && crate::storage::spec_topic_ids(b.ops_map(), t) == Set::<OpId>::empty() by {
        assert(!has_state(a, t));
        assert(crate::storage::spec_topic_ids(b.ops_map(), t) =~= Set::<OpId>::empty()) by {
            assert forall|id: OpId| !crate::storage::spec_topic_ids(b.ops_map(), t).contains(id) by {
                if b.ops_map().contains_key(id) {
                    assert(!crate::storage::spec_topic_ids(a.ops_map(), t).contains(id));
                }
            }
        }
    }
}

/// Writing an op of a topic that then has state keeps a store consistent.
pub proof fn lemma_written_consistent(old: MemoryStorage, new: MemoryStorage, op: Op)
    requires
        store_consistent(old),
        written(old, new, op),
    ensures store_consistent(new),
{
    let topic = op.signed.body.topic_id;
    assert forall|t: TopicId| #![trigger has_state(new, t)] !has_state(new, t) implies !new.topics_map().contains_key(t)
        && crate::storage::spec_topic_ids(new.ops_map(), t) == Set::<OpId>::empty() by {
        assert(t != topic);
        if old.topics_map().contains_key(t) {
            assert(new.topics_map()[t] == old.topics_map()[t]);
        }
        assert(!has_state(old, t));
        assert(crate::storage::spec_topic_ids(new.ops_map(), t) =~= Set::<OpId>::empty()) by {
            assert forall|id: OpId| !crate::storage::spec_topic_ids(new.ops_map(), t).contains(id) by {
                if new.ops_map().contains_key(id) && id != op.id {
                    assert(old.ops_map().contains_key(id));
                    assert(new.ops_map()[id] == old.ops_map()[id]);
                    assert(!crate::storage::spec_topic_ids(old.ops_map(), t).contains(id));
                }
            }
        }
    }
}

/// Whether the ops `s` holds of `topic` are one genesis op and the event `event`, no more.
pub open spec fn genesis_and_event(s: MemoryStorage, topic: TopicId, event: OpId) -> bool {
    exists|g: OpId| crate::storage::spec_topic_ids(s.ops_map(), topic)
        == #[trigger] Set::<OpId>::empty().insert(g).insert(event)
}

impl Irokle {
    /// The store this node works on.
    pub closed spec fn store(&self) -> MemoryStorage {
        self.oplog.store()
    }

    /// This node's peer id.
    pub closed spec fn spec_peer_id(&self) -> PeerId {
        self.config.signer.spec_peer_id()
    }

    /// This node's signer.
    pub closed spec fn spec_signer(&self) -> Ed25519Signer {
        self.config.signer
    }

    /// This node's default write concern.
    pub closed spec fn spec_write_concern(&self) -> WriteConcern {
        self.config.default_write_concern
    }

    /// The peers allowed to reach this node now.
    pub closed spec fn spec_whitelist(&self) -> Option<Set<PeerId>> {
        whitelist_view(self.peer_whitelist)
    }

    /// The transport settings.
    pub closed spec fn spec_iroh(&self) -> IrohSettings {
        self.iroh
    }

    /// The reachability this node has observed of its peers.
    pub closed spec fn spec_health(&self) -> PeerHealthStore {
        self.peer_health
    }

    /// Data of unknown topics staged here, per source and topic.
    pub closed spec fn spec_stagings(&self) -> Seq<Staging> {
        self.stagings@
    }

    /// The time, in milliseconds since the epoch, this node works with.
    pub closed spec fn spec_now(&self) -> u64 {
        self.now_ms
    }

    /// The sync records of this node, one per peer and topic.
    pub closed spec fn spec_statuses(&self) -> Seq<SyncPeerStatus> {
        self.statuses.records()
    }

    /// A node over `storage`; buffered ops whose dependencies are held are admitted first.
    pub fn with_storage(storage: MemoryStorage, config: NodeConfig) -> (r: Irokle)
        ensures
            r.spec_signer() == config.signer,
            r.spec_write_concern() == config.default_write_concern,
            r.spec_whitelist() == whitelist_view(config.peer_whitelist),
            crate::oplog::receive::keeps_entries(storage.ops_map(), r.store().ops_map()),
    {
        Irokle::with_settings(storage, config, IrohSettings::new())
    }

    /// A node over `storage` with transport settings.
    pub fn with_settings(storage: MemoryStorage, config: NodeConfig, iroh: IrohSettings) -> (r: Irokle)
        ensures
            r.spec_signer() == config.signer,
            r.spec_write_concern() == config.default_write_concern,
            r.spec_whitelist() == whitelist_view(config.peer_whitelist),
            r.spec_iroh() == iroh,
            crate::oplog::receive::keeps_entries(storage.ops_map(), r.store().ops_map()),
            storage.pending_seq().len() == 0 ==> r.store().topics_map() == storage.topics_map()
                && r.store().ops_map() == storage.ops_map(),
            storage.pending_seq().len() == 0 && store_consistent(storage) ==> store_consistent(r.store()),
    {
        let ghost s0 = storage;
        let mut oplog = Oplog::with_storage(storage);
        let _ = oplog.reconcile_pending_ops();
        proof {
            if s0.pending_seq().len() == 0 && store_consistent(s0) {
                lemma_consistent_same_maps(s0, oplog.store());
            }
        }
        let peer_whitelist = match &config.peer_whitelist {
            Some(w) => Some(w.duplicate()),
            None => None,
        };
        Irokle { oplog, config, peer_whitelist, topic_nonce: 0, now_ms: 0, iroh, peer_health: PeerHealthStore::new(), stagings: Vec::new(), next_session: 1, statuses: StatusBook::new() }
    }

    /// A node over an empty store.
    pub fn new(config: NodeConfig) -> (r: Irokle)
        ensures
            r.spec_signer() == config.signer,
            r.store().ops_map() == Map::<OpId, StoredOp>::empty(),
            r.store().topics_map().dom() == Set::<TopicId>::empty(),
            store_consistent(r.store()),
    {
        let peer_whitelist = match &config.peer_whitelist {
            Some(w) => Some(w.duplicate()),
            None => None,
        };
        let oplog = Oplog::new();
        proof {
            assert(oplog.store().ops_map().dom() =~= Set::<OpId>::empty());
            lemma_empty_store_consistent(oplog.store());
        }
        Irokle { oplog, config, peer_whitelist, topic_nonce: 0, now_ms: 0, iroh: IrohSettings::new(), peer_health: PeerHealthStore::new(), stagings: Vec::new(), next_session: 1, statuses: StatusBook::new() }
    }

    /// The store.
    pub fn storage(&self) -> (r: &MemoryStorage)
        ensures *r == self.store(),
    {
        self.oplog.storage()
    }

    /// The operation log.
    pub fn oplog(&self) -> (r: &Oplog)
        ensures r.store() == self.store(),
    {
        &self.oplog
    }

    /// The operation log, for changes through it.
    pub fn oplog_mut(&mut self) -> (r: &mut Oplog)
        ensures
            r.store() == old(self).store(),
            final(self).store() == final(r).store(),
            final(self).spec_peer_id() == old(self).spec_peer_id(),
            final(self).spec_signer() == old(self).spec_signer(),
            final(self).spec_write_concern() == old(self).spec_write_concern(),
            final(self).spec_whitelist() == old(self).spec_whitelist(),
            final(self).spec_statuses() == old(self).spec_statuses(),
            final(self).spec_stagings() == old(self).spec_stagings(),
    {
        &mut self.oplog
    }

    /// The signer.
    pub fn signer(&self) -> (r: &Ed25519Signer)
        ensures *r == self.spec_signer(),
    {
        &self.config.signer
    }

    /// This node's peer id: its signer's verifying key.
    pub fn peer_id(&self) -> (r: PeerId)
        ensures r == self.spec_peer_id(), r == self.spec_signer().spec_peer_id(),
    {
        self.config.signer.peer_id()
    }

    /// The transport's timeouts and intervals.
    pub fn iroh_runtime_config(&self) -> (r: IrohRuntimeConfig)
        ensures r == self.spec_iroh().runtime,
    {
        self.iroh.runtime
    }

    /// Sets the time, in milliseconds since the epoch, this node stamps and expires with.
    pub fn set_now(&mut self, now_ms: u64)
        ensures
            final(self).spec_now() == now_ms,
            final(self).store() == old(self).store(),
            final(self).spec_peer_id() == old(self).spec_peer_id(),
            final(self).spec_signer() == old(self).spec_signer(),
            final(self).spec_write_concern() == old(self).spec_write_concern(),
            final(self).spec_whitelist() == old(self).spec_whitelist(),
            final(self).spec_iroh() == old(self).spec_iroh(),
            final(self).spec_health() == old(self).spec_health(),
            final(self).spec_stagings() == old(self).spec_stagings(),
    {
        self.now_ms = now_ms;
        self.oplog.set_now(now_ms);
    }
}



/// The domain of topic identifiers.
pub open spec fn topic_domain() -> Seq<u8> {
    seq![105u8, 114u8, 111u8, 107u8, 108u8, 101u8, 45u8, 116u8, 111u8, 112u8, 105u8, 99u8, 45u8, 118u8, 49u8]
}

impl Irokle {
    /// Refuses replication when no transport is attached, which the library never is.
    pub fn validate_concern(&self, concern: WriteConcern) -> (r: Result<(), Error>)
        ensures
            concern == WriteConcern::Local <==> r is Ok,
            concern == WriteConcern::AsyncReplication ==> r matches Err(Error::ReplicationUnavailable),
    {
        match concern {
            WriteConcern::AsyncReplication => Err(Error::ReplicationUnavailable),
            WriteConcern::Local => Ok(()),
        }
    }

    /// A fresh topic id for `event_type_id`: the digest of this node's peer id, the
    /// type, a per-node counter and the time, tried until one names no held topic.
    pub fn next_topic_id(&mut self, event_type_id: &String) -> (r: Result<TopicId, Error>)
        ensures
            final(self).store() == old(self).store(),
            final(self).spec_peer_id() == old(self).spec_peer_id(),
            final(self).spec_signer() == old(self).spec_signer(),
            final(self).spec_write_concern() == old(self).spec_write_concern(),
            r matches Ok(t) ==> !has_state(old(self).store(), t),
            r matches Err(e) ==> e is Storage,
            r is Err ==> exists|t: TopicId| has_state(old(self).store(), t),
    {
        let mut tries: usize = 0;
        while tries < 16
            invariant
                tries > 0 ==> exists|t: TopicId| has_state(old(self).store(), t),
                self.store() == old(self).store(),
                self.spec_peer_id() == old(self).spec_peer_id(),
                self.spec_signer() == old(self).spec_signer(),
                self.spec_write_concern() == old(self).spec_write_concern(),
            decreases 16 - tries,
        {
            let counter = self.topic_nonce;
            self.topic_nonce = if self.topic_nonce < u64::MAX { self.topic_nonce + 1 } else { 0 };
            let mut data: Vec<u8> = Vec::new();
            let domain: [u8; 15] = [105u8, 114u8, 111u8, 107u8, 108u8, 101u8, 45u8, 116u8, 111u8, 112u8, 105u8, 99u8, 45u8, 118u8, 49u8];
            crate::codec::push_raw(&mut data, domain.as_slice());
            crate::codec::push_id(&mut data, &self.config.signer.peer_id());
            crate::topic::push_string(&mut data, event_type_id);
            crate::codec::push_u64(&mut data, counter);
            crate::codec::push_u64(&mut data, self.now_ms);
            let topic_id = Id32::hash(data.as_slice());
            if self.oplog.storage().topic_state(&topic_id).is_none() {
                return Ok(topic_id);
            }
            proof { assert(has_state(old(self).store(), topic_id)); }
            tries += 1;
        }
        Err(Error::Storage(String::new()))
    }

    /// Creates a topic of events of `event_type_id` with `config`'s peers and policy;
    /// this node is always one of its members.
    pub fn create_topic(&mut self, config: TopicConfig, event_type_id: String) -> (r: Result<Topic, Error>)
        ensures
            r matches Ok(t) ==> {
                &&& !has_state(old(self).store(), t.spec_topic_id())
                &&& is_actor_of(t.spec_actor_id(), t.spec_topic_id(), old(self).spec_peer_id())
                &&& final(self).store().topics_map().contains_key(t.spec_topic_id())
                &&& final(self).store().topics_map()[t.spec_topic_id()].state.members@
                    == config.initial_peers@.insert(old(self).spec_peer_id())
                &&& final(self).store().topics_map()[t.spec_topic_id()].state.event_type_id@ == event_type_id@
                &&& crate::oplog::causal::same_policy(final(self).store().topics_map()[t.spec_topic_id()].state.replication_policy,
                    config.replication_policy)
                &&& decisions_below_heads(final(self).store(), t.spec_topic_id())
            },
            old(self).spec_write_concern() == WriteConcern::AsyncReplication ==> r matches Err(Error::ReplicationUnavailable),
            old(self).spec_write_concern() == WriteConcern::Local && store_consistent(old(self).store()) ==> {
                ||| r is Ok
                ||| r matches Err(Error::OpTooLarge)
                ||| (r matches Err(Error::Storage(_)) && exists|t: TopicId| has_state(old(self).store(), t))
            },
            final(self).spec_peer_id() == old(self).spec_peer_id(),
            final(self).spec_write_concern() == old(self).spec_write_concern(),
            store_consistent(old(self).store()) ==> store_consistent(final(self).store()),
            r matches Err(Error::OpTooLarge) ==> exists|op: Op| #[trigger] crate::op::spec_signed_bytes(op.signed).len() > crate::frame::MAX_FRAME_LEN
                && !has_state(old(self).store(), op.signed.body.topic_id)
                && op.signed.body.author == old(self).spec_peer_id()
                && (op.signed.body.payload matches TopicPayload::Genesis(g) && g.event_type_id@ == event_type_id@
                    && g.initial_peers@ == config.initial_peers@.insert(old(self).spec_peer_id())
                    && crate::oplog::causal::same_policy(g.replication_policy, config.replication_policy)),
    {
        self.validate_concern(self.config.default_write_concern)?;
        let topic_id = self.next_topic_id(&event_type_id)?;
        let actor_id = actor_id_for(topic_id, self.config.signer.peer_id());
        let genesis = TopicGenesis {
            event_type_id,
            initial_peers: config.initial_peers,
            replication_policy: config.replication_policy,
        };
        proof {
            if store_consistent(self.store()) {
                assert(crate::oplog::local::fresh_topic(self.oplog.store(), topic_id, actor_id, self.config.signer.spec_peer_id()));
            }
        }
        let ghost before = self.store();
        let op = self.oplog.create_topic_genesis(topic_id, actor_id, genesis, &self.config.signer)?;
        proof {
            if store_consistent(before) {
                lemma_written_consistent(before, self.store(), op);
            }
            assert(decisions_below_heads(self.store(), topic_id));
        }
        Ok(Topic::new(topic_id, actor_id))
    }

    /// Creates a topic and publishes its first event in one step.
    pub fn create_topic_with_event(&mut self, config: TopicConfig, event: EventEnvelope) -> (r: Result<(Topic, EventRecord), Error>)
        ensures
            r matches Ok((t, rec)) ==> {
                &&& !has_state(old(self).store(), t.spec_topic_id())
                &&& is_actor_of(t.spec_actor_id(), t.spec_topic_id(), old(self).spec_peer_id())
                &&& final(self).store().ops_map().contains_key(rec.meta.op_id)
                &&& rec.event.type_id@ == event.type_id@ && rec.event.payload@ == event.payload@
            },
            r matches Ok((t, rec)) ==> (store_consistent(old(self).store())
                ==> genesis_and_event(final(self).store(), t.spec_topic_id(), rec.meta.op_id)),
            store_consistent(old(self).store()) ==> (r is Err ==> final(self).store().topics_map() == old(self).store().topics_map()),
            old(self).spec_write_concern() == WriteConcern::AsyncReplication ==> r matches Err(Error::ReplicationUnavailable),
            final(self).spec_peer_id() == old(self).spec_peer_id(),
            final(self).spec_write_concern() == old(self).spec_write_concern(),
            store_consistent(old(self).store()) ==> store_consistent(final(self).store()),
    {
        self.validate_concern(self.config.default_write_concern)?;
        let topic_id = self.next_topic_id(&event.type_id)?;
        let actor_id = actor_id_for(topic_id, self.config.signer.peer_id());
        proof {
            if store_consistent(self.store()) {
                assert(crate::oplog::local::fresh_topic(self.oplog.store(), topic_id, actor_id, self.config.signer.spec_peer_id()));
            }
        }
        let genesis = TopicGenesis {
            event_type_id: event.type_id.clone(),
            initial_peers: config.initial_peers,
            replication_policy: config.replication_policy,
        };
        let envelope = EventEnvelope { type_id: event.type_id.clone(), payload: crate::topic::copy_bytes(&event.payload) };
        let ghost before = self.store();
        let created = self.oplog.create_topic_genesis_with_event(topic_id, actor_id, genesis, envelope, &self.config.signer);
        let (g_op, e) = match created {
            Ok(pair) => pair,
            Err(err) => {
                proof {
                    if store_consistent(before) {
                        assert(!before.topics_map().contains_key(topic_id));
                        lemma_consistent_fewer_ops(before, self.store());
                    }
                }
                return Err(err);
            },
        };
        proof {
            if store_consistent(before) {
                let mid = choose|mid: MemoryStorage| #[trigger] written(before, mid, g_op) && written(mid, self.store(), e);
                lemma_written_consistent(before, mid, g_op);
                lemma_written_consistent(mid, self.store(), e);
            }
        }
        proof {
            if store_consistent(old(self).store()) {
                assert(crate::storage::spec_topic_ids(self.store().ops_map(), topic_id)
                    == Set::<OpId>::empty().insert(g_op.id).insert(e.id));
            }
        }
        let seq = e.signed.body.actor_seq;
        let id = e.id;
        let observed = match self.oplog.storage().get_meta(&id) {
            Some(meta) => meta.observed_clock.duplicate(),
            None => ActorClock::new(),
        };
        let record = EventRecord::new(event, id, actor_id, seq, observed);
        let topic = Topic::new(topic_id, actor_id);
        proof {
            if store_consistent(old(self).store()) {
                assert(crate::storage::spec_topic_ids(self.store().ops_map(), topic.spec_topic_id())
                    == Set::<OpId>::empty().insert(g_op.id).insert(record.meta.op_id));
                assert(genesis_and_event(self.store(), topic.spec_topic_id(), record.meta.op_id));
            }
        }
        Ok((topic, record))
    }

    /// Opens a held topic of events of `event_type_id` this node is a member of.
    pub fn open_topic(&self, topic_id: TopicId, event_type_id: &String) -> (r: Result<Topic, Error>)
        ensures
            !has_state(self.store(), topic_id) ==> r matches Err(Error::TopicNotFound),
            r matches Ok(t) ==> has_state(self.store(), topic_id) && t.spec_topic_id() == topic_id
                && self.store().topics_map()[topic_id].state.event_type_id@ == event_type_id@
                && self.store().topics_map()[topic_id].state.members@.contains(self.spec_peer_id())
                && is_actor_of(t.spec_actor_id(), topic_id, self.spec_peer_id()),
            has_state(self.store(), topic_id) && self.store().topics_map()[topic_id].state.event_type_id@ != event_type_id@
                ==> (r matches Err(Error::EventTypeMismatch { expected, actual }) && expected@ == event_type_id@
                    && actual@ == self.store().topics_map()[topic_id].state.event_type_id@),
            has_state(self.store(), topic_id) && self.store().topics_map()[topic_id].state.event_type_id@ == event_type_id@
                && !self.store().topics_map()[topic_id].state.members@.contains(self.spec_peer_id())
                ==> r matches Err(Error::NotTopicMember),
            has_state(self.store(), topic_id) && self.store().topics_map()[topic_id].state.event_type_id@ == event_type_id@
                && self.store().topics_map()[topic_id].state.members@.contains(self.spec_peer_id())
                ==> r is Ok,
    {
        let state = match self.oplog.storage().topic_state(&topic_id) {
            Some(s) => s,
            None => return Err(Error::TopicNotFound),
        };
        if state.event_type_id != *event_type_id {
            return Err(Error::EventTypeMismatch { expected: event_type_id.clone(), actual: state.event_type_id.clone() });
        }
        if !state.members.contains(&self.config.signer.peer_id()) {
            return Err(Error::NotTopicMember);
        }
        let actor_id = actor_id_for(topic_id, self.config.signer.peer_id());
        Ok(Topic::new(topic_id, actor_id))
    }

    /// The held topics.
    pub fn list_topics(&self) -> (r: Vec<TopicInfo>)
        ensures
            r@.len() == self.store().topics_map().len(),
            forall|i: int| 0 <= i < r@.len() ==> self.store().topics_map().contains_key(#[trigger] r@[i].topic_id)
                && r@[i].genesis == self.store().topics_map()[r@[i].topic_id].state.genesis
                && r@[i].event_type_id@ == self.store().topics_map()[r@[i].topic_id].state.event_type_id@,
            forall|i: int, j: int| 0 <= i < r@.len() && 0 <= j < r@.len() && i != j ==> #[trigger] r@[i].topic_id != #[trigger] r@[j].topic_id,
            forall|t: TopicId| #[trigger] self.store().topics_map().contains_key(t) ==> exists|i: int| 0 <= i < r@.len() && #[trigger] r@[i].topic_id == t,
            forall|i: int, j: int| 0 <= i < j < r@.len() ==> crate::ids::id_lt(#[trigger] r@[i].topic_id, #[trigger] r@[j].topic_id),
    {
        self.oplog.storage().list_topics()
    }

    /// The raw view of `topic_id`, whose ops and heads it reads without type or membership checks.
    pub fn raw_topic(&self, topic_id: TopicId) -> (r: RawTopic)
        ensures r.spec_topic_id() == topic_id,
    {
        RawTopic::new(topic_id)
    }

    /// Publishes `event` to `topic_id` as `actor_id`.
    pub fn publish_event(&mut self, topic_id: TopicId, actor_id: ActorId, event: EventEnvelope, options: PublishOptions)
        -> (r: Result<EventRecord, Error>)
        ensures
            options.write_concern == WriteConcern::AsyncReplication ==> r matches Err(Error::ReplicationUnavailable),
            r is Err ==> final(self).store() == old(self).store(),
            r matches Ok(rec) ==> exists|op: Op| #[trigger] local_valid(old(self).store(), op)
                && written(old(self).store(), final(self).store(), op) && op.id == rec.meta.op_id
                && op.signed.body.author == old(self).spec_peer_id(),
            r matches Ok(rec) ==> published_event(old(self).store(), final(self).store(), topic_id, actor_id,
                old(self).spec_peer_id(), event, rec),
            !has_state(old(self).store(), topic_id) && options.write_concern == WriteConcern::Local
                ==> r matches Err(Error::TopicNotFound),
            has_state(old(self).store(), topic_id) && options.write_concern == WriteConcern::Local
                && !old(self).store().topics_map()[topic_id].state.members@.contains(old(self).spec_peer_id())
                ==> r matches Err(Error::NotTopicMember),
            final(self).spec_peer_id() == old(self).spec_peer_id(),
            final(self).spec_write_concern() == old(self).spec_write_concern(),
            store_consistent(old(self).store()) ==> store_consistent(final(self).store()),
            options.write_concern == WriteConcern::Local && crate::oplog::local::local_write_ok(old(self).store(), topic_id, actor_id,
                old(self).spec_peer_id(), TopicPayload::Event(event)) ==> r is Ok,
            decisions_below_heads(old(self).store(), topic_id) ==> decisions_below_heads(final(self).store(), topic_id),
    {
        self.validate_concern(options.write_concern)?;
        let envelope = EventEnvelope { type_id: event.type_id.clone(), payload: crate::topic::copy_bytes(&event.payload) };
        let ghost before = self.store();
        let op = self.oplog.create_event_op(topic_id, actor_id, envelope, &self.config.signer)?;
        proof {
            assert(local_valid(before, op));
            assert(written(before, self.store(), op));
            if store_consistent(before) { lemma_written_consistent(before, self.store(), op); }
            if decisions_below_heads(before, topic_id) {
                assert(crate::oplog::local::heads_of(before, topic_id).subset_of(op.signed.body.deps@));
                lemma_write_keeps_decisions(before, self.store(), op, topic_id);
            }
        }
        let observed = match self.oplog.storage().get_meta(&op.id) {
            Some(meta) => meta.observed_clock.duplicate(),
            None => ActorClock::new(),
        };
        Ok(EventRecord::new(event, op.id, op.signed.body.actor_id, op.signed.body.actor_seq, observed))
    }

    /// Publishes a membership or policy control to `topic_id` as `actor_id`.
    pub fn publish_control(&mut self, topic_id: TopicId, actor_id: ActorId, control: TopicControl) -> (r: Result<(), Error>)
        ensures
            old(self).spec_write_concern() == WriteConcern::AsyncReplication ==> r matches Err(Error::ReplicationUnavailable),
            r is Err ==> final(self).store() == old(self).store(),
            r is Ok ==> exists|op: Op| #[trigger] local_valid(old(self).store(), op)
                && written(old(self).store(), final(self).store(), op) && op.signed.body.author == old(self).spec_peer_id()
                && final(self).store().topics_map()[topic_id].state.members@
                    == crate::oplog::local::members_after_control(old(self).store().topics_map()[topic_id].state,
                        crate::oplog::helpers::spec_control_key(op), control),
            r is Ok ==> has_state(old(self).store(), topic_id),
            r is Ok ==> (undecided(old(self).store().topics_map()[topic_id].state, control)
                ==> final(self).store().topics_map()[topic_id].state.members@
                    == control_members(old(self).store().topics_map()[topic_id].state.members@, control)),
            r is Ok ==> published(old(self).store(), final(self).store(), topic_id, actor_id, old(self).spec_peer_id(),
                TopicPayload::Control(control)),
            !has_state(old(self).store(), topic_id) && old(self).spec_write_concern() == WriteConcern::Local
                ==> r matches Err(Error::TopicNotFound),
            has_state(old(self).store(), topic_id) && old(self).spec_write_concern() == WriteConcern::Local
                && !old(self).store().topics_map()[topic_id].state.members@.contains(old(self).spec_peer_id())
                ==> r matches Err(Error::NotTopicMember),
            final(self).spec_peer_id() == old(self).spec_peer_id(),
            final(self).spec_write_concern() == old(self).spec_write_concern(),
            store_consistent(old(self).store()) ==> store_consistent(final(self).store()),
            r is Ok ==> control_published(old(self).store(), final(self).store(), topic_id, actor_id, old(self).spec_peer_id(), control),
            old(self).spec_write_concern() == WriteConcern::Local && crate::oplog::local::local_write_ok(old(self).store(), topic_id, actor_id,
                old(self).spec_peer_id(), TopicPayload::Control(control)) ==> r is Ok,
            r is Ok && decisions_below_heads(old(self).store(), topic_id) ==> final(self).store().topics_map()[topic_id].state.members@
                == control_members(old(self).store().topics_map()[topic_id].state.members@, control),
            r is Ok && decisions_below_heads(old(self).store(), topic_id) ==> (control matches TopicControl::SetReplicationPolicy { policy }
                ==> crate::oplog::causal::same_policy(final(self).store().topics_map()[topic_id].state.replication_policy, policy)),
            decisions_below_heads(old(self).store(), topic_id) ==> decisions_below_heads(final(self).store(), topic_id),
    {
        self.validate_concern(self.config.default_write_concern)?;
        let ghost before = self.store();
        let op = self.oplog.create_control_op(topic_id, actor_id, control, &self.config.signer)?;
        proof {
            assert(local_valid(before, op));
            assert(written(before, self.store(), op));
            assert(published(before, self.store(), topic_id, actor_id, self.spec_peer_id(), TopicPayload::Control(control)));
            if store_consistent(before) { lemma_written_consistent(before, self.store(), op); }
            assert(control_published(before, self.store(), topic_id, actor_id, self.spec_peer_id(), control));
            if decisions_below_heads(before, topic_id) {
                lemma_local_control_decides(before, self.store(), topic_id, actor_id, self.spec_peer_id(), control);
            }
        }
        Ok(())
    }

    /// Leaves `topic_id`: a removal of this node, refused unless it is a member.
    pub fn reject_topic(&mut self, topic_id: TopicId) -> (r: Result<(), Error>)
        ensures
            r is Ok ==> exists|actor: ActorId| #[trigger] is_actor_of(actor, topic_id, old(self).spec_peer_id())
                && published(old(self).store(), final(self).store(), topic_id, actor, old(self).spec_peer_id(),
                    TopicPayload::Control(TopicControl::RemovePeer { peer: old(self).spec_peer_id() }))
                && control_published(old(self).store(), final(self).store(), topic_id, actor, old(self).spec_peer_id(),
                    TopicControl::RemovePeer { peer: old(self).spec_peer_id() }),
            !has_state(old(self).store(), topic_id) ==> r matches Err(Error::TopicNotFound),
            has_state(old(self).store(), topic_id) && !old(self).store().topics_map()[topic_id].state.members@.contains(old(self).spec_peer_id())
                ==> r matches Err(Error::NotTopicMember),
            r is Err ==> final(self).store() == old(self).store(),
            final(self).spec_peer_id() == old(self).spec_peer_id(),
            r is Ok ==> has_state(old(self).store(), topic_id),
            r is Ok && undecided(old(self).store().topics_map()[topic_id].state, TopicControl::RemovePeer { peer: old(self).spec_peer_id() })
                ==> !final(self).store().topics_map()[topic_id].state.members@.contains(old(self).spec_peer_id()),
            r is Ok && decisions_below_heads(old(self).store(), topic_id)
                ==> !final(self).store().topics_map()[topic_id].state.members@.contains(old(self).spec_peer_id()),
            decisions_below_heads(old(self).store(), topic_id) ==> decisions_below_heads(final(self).store(), topic_id),
            old(self).spec_write_concern() == WriteConcern::Local && (forall|actor: ActorId| #[trigger] is_actor_of(actor, topic_id, old(self).spec_peer_id())
                ==> crate::oplog::local::local_write_ok(old(self).store(), topic_id, actor, old(self).spec_peer_id(),
                    TopicPayload::Control(TopicControl::RemovePeer { peer: old(self).spec_peer_id() }))) ==> r is Ok,
    {
        let me = self.config.signer.peer_id();
        let actor_id = actor_id_for(topic_id, me);
        proof {
            assert(is_actor_of(actor_id, topic_id, self.spec_peer_id()));
            if self.spec_write_concern() == WriteConcern::Local && (forall|actor: ActorId| #[trigger] is_actor_of(actor, topic_id, self.spec_peer_id())
                ==> crate::oplog::local::local_write_ok(self.store(), topic_id, actor, self.spec_peer_id(),
                    TopicPayload::Control(TopicControl::RemovePeer { peer: self.spec_peer_id() }))) {
                assert(crate::oplog::local::local_write_ok(self.store(), topic_id, actor_id, self.spec_peer_id(),
                    TopicPayload::Control(TopicControl::RemovePeer { peer: self.spec_peer_id() })));
            }
        }
        match self.oplog.storage().topic_state(&topic_id) {
            None => return Err(Error::TopicNotFound),
            Some(state) => {
                if !state.members.contains(&me) {
                    return Err(Error::NotTopicMember);
                }
            },
        }
        self.publish_control(topic_id, actor_id, TopicControl::RemovePeer { peer: me })
    }
}

impl Irokle {
    /// Ids this node references in `topic_id` but cannot resolve, with the dependencies
    /// its buffered ops wait for; empty means the topic is causally whole here.
    pub fn topic_unresolved(&self, topic_id: TopicId) -> (r: IdSet)
        ensures
            forall|id: OpId| #[trigger] r@.contains(id) <==> crate::oplog::inspect::is_hole(self.store().ops_map(), topic_id, id)
                || crate::oplog::inspect::pending_missing_of(self.store().pending_seq(), topic_id).contains(id),
    {
        self.oplog.topic_unresolved(&topic_id)
    }

    /// Audits stored records again on the next integrity question.
    pub fn recheck_topics(&mut self)
        ensures final(self).store() == old(self).store(), final(self).spec_peer_id() == old(self).spec_peer_id(),
    {
        self.oplog.recheck_topics();
    }

    /// Drops buffered ops that waited longer than the idle limit, with the buffered ops
    /// that wait on them, and returns how many went.
    pub fn expire_pending(&mut self) -> (r: usize)
        ensures
            r + final(self).store().pending_seq().len() == old(self).store().pending_seq().len(),
            exists|gone: Set<OpId>| #[trigger] crate::storage::expiry_ok(old(self).store().pending_seq(),
                final(self).store().pending_seq(), crate::storage::expiry_cutoff(old(self).spec_now(), MAX_PENDING_IDLE_MS), gone),
            final(self).store().ops_map() == old(self).store().ops_map(),
            final(self).store().topics_map() == old(self).store().topics_map(),
    {
        let now = self.now_ms;
        let ghost before = self.store().pending_seq();
        let st = self.oplog.storage_mut();
        let ghost b = *st;
        let r = st.expire_pending(now, MAX_PENDING_IDLE_MS);
        let ghost a = *st;
        proof {
            assert(b.pending_seq() == before);
            let gone = choose|gone: Set<OpId>| #[trigger] crate::storage::expiry_ok(b.pending_seq(), a.pending_seq(),
                crate::storage::expiry_cutoff(now, MAX_PENDING_IDLE_MS), gone);
            assert(crate::storage::expiry_ok(before, a.pending_seq(),
                crate::storage::expiry_cutoff(now, MAX_PENDING_IDLE_MS), gone));
        }
        proof {
            assert(self.store() == a);
            assert(now == old(self).spec_now());
            let gone = choose|gone: Set<OpId>| #[trigger] crate::storage::expiry_ok(before, a.pending_seq(),
                crate::storage::expiry_cutoff(now, MAX_PENDING_IDLE_MS), gone);
            assert(crate::storage::expiry_ok(old(self).store().pending_seq(), self.store().pending_seq(),
                crate::storage::expiry_cutoff(old(self).spec_now(), MAX_PENDING_IDLE_MS), gone));
        }
        r
    }

    /// Discards the ops of `topic_id` no head reaches and rebuilds it from the rest.
    pub fn quarantine_orphans(&mut self, topic_id: TopicId) -> (r: Result<Option<TopicEviction>, Error>)
        ensures
            r matches Ok(None) ==> final(self).store() == old(self).store(),
            r matches Ok(Some(e)) ==> e.topic_id == topic_id && e.winning_genesis == e.losing_genesis
                && has_state(old(self).store(), topic_id)
                && e.losing_genesis == old(self).store().topics_map()[topic_id].state.genesis
                && crate::storage::journaled(final(self).store().eviction_seq(), e),
            !has_state(old(self).store(), topic_id) ==> r matches Ok(None),
            (forall|reach: Set<OpId>| #[trigger] crate::oplog::quarantine::is_reach_of(old(self).store().ops_map(),
                crate::oplog::local::heads_of(old(self).store(), topic_id), reach)
                ==> crate::storage::spec_topic_ids(old(self).store().ops_map(), topic_id).subset_of(reach)) ==> r matches Ok(None),
            crate::oplog::quarantine::reached_hole(old(self).store().ops_map(), crate::oplog::local::heads_of(old(self).store(), topic_id), topic_id)
                ==> r matches Ok(None),
            has_state(old(self).store(), topic_id) && crate::oplog::quarantine::quarantine_owed(old(self).store().ops_map(),
                crate::oplog::local::heads_of(old(self).store(), topic_id), topic_id,
                old(self).store().topics_map()[topic_id].state.genesis) ==> !(r matches Ok(None)),
            r matches Ok(Some(e)) ==> exists|reach: Set<OpId>| #[trigger] crate::oplog::quarantine::is_reach_of(old(self).store().ops_map(),
                crate::oplog::local::heads_of(old(self).store(), topic_id), reach)
                && (forall|k: int| 0 <= k < e.evicted@.len() ==> !reach.contains(#[trigger] e.evicted@[k].op_id)
                    && crate::storage::spec_topic_ids(old(self).store().ops_map(), topic_id).contains(e.evicted@[k].op_id))
                && (forall|id: OpId| #[trigger] crate::storage::spec_topic_ids(old(self).store().ops_map(), topic_id).contains(id)
                    && !reach.contains(id) && crate::oplog::local::held_whole(old(self).store().ops_map(), id)
                    ==> exists|k: int| 0 <= k < e.evicted@.len() && e.evicted@[k].op_id == id),
    {
        self.oplog.quarantine_orphans(&topic_id)
    }

    /// Quarantines orphaned ops in every held topic and returns the evictions; a topic
    /// that fails is left for a later sweep.
    pub fn quarantine_topics(&mut self) -> (r: Vec<TopicEviction>)
        ensures
            forall|i: int| 0 <= i < r@.len() ==> (#[trigger] r@[i]).winning_genesis == r@[i].losing_genesis,
            forall|i: int| 0 <= i < r@.len() ==> old(self).store().topics_map().contains_key(#[trigger] r@[i].topic_id),
            forall|i: int, j: int| 0 <= i < j < r@.len() ==> #[trigger] r@[i].topic_id != #[trigger] r@[j].topic_id,
            forall|i: int, j: int| 0 <= i < j < r@.len() ==> crate::ids::id_lt(#[trigger] r@[i].topic_id, #[trigger] r@[j].topic_id),
    {
        let topics = self.oplog.storage().list_topics();
        let mut out: Vec<TopicEviction> = Vec::new();
        let ghost mut from: Seq<int> = Seq::empty();
        let mut i: usize = 0;
        while i < topics.len()
            invariant
                i <= topics@.len(),
                forall|k: int| 0 <= k < out@.len() ==> (#[trigger] out@[k]).winning_genesis == out@[k].losing_genesis,
                forall|k: int| 0 <= k < topics@.len() ==> old(self).store().topics_map().contains_key(#[trigger] topics@[k].topic_id),
                forall|a: int, b: int| 0 <= a < topics@.len() && 0 <= b < topics@.len() && a != b
                    ==> #[trigger] topics@[a].topic_id != #[trigger] topics@[b].topic_id,
                from.len() == out@.len(),
                forall|k: int| 0 <= k < from.len() ==> 0 <= #[trigger] from[k] < i && out@[k].topic_id == topics@[from[k]].topic_id,
                forall|a: int, b: int| 0 <= a < b < from.len() ==> #[trigger] from[a] < #[trigger] from[b],
                forall|a: int, b: int| 0 <= a < b < topics@.len() ==> crate::ids::id_lt(#[trigger] topics@[a].topic_id, #[trigger] topics@[b].topic_id),
            decreases topics@.len() - i,
        {
            match self.oplog.quarantine_orphans(&topics[i].topic_id) {
                Ok(Some(e)) => {
                    out.push(e);
                    proof { from = from.push(i as int); }
                },
                _ => {},
            }
            i += 1;
        }
        proof {
            assert forall|a: int, b: int| 0 <= a < b < out@.len() implies #[trigger] out@[a].topic_id != #[trigger] out@[b].topic_id by {
                assert(from[a] < from[b]);
            }
            assert forall|a: int, b: int| 0 <= a < b < out@.len() implies crate::ids::id_lt(#[trigger] out@[a].topic_id, #[trigger] out@[b].topic_id) by {
                assert(from[a] < from[b]);
                assert(crate::ids::id_lt(topics@[from[a]].topic_id, topics@[from[b]].topic_id));
            }
            assert forall|k: int| 0 <= k < out@.len() implies old(self).store().topics_map().contains_key(#[trigger] out@[k].topic_id) by {
                assert(out@[k].topic_id == topics@[from[k]].topic_id);
            }
        }
        out
    }

    /// The journalled evictions awaiting release.
    pub fn pending_evictions(&self) -> (r: &Vec<TopicEviction>)
        ensures
            r@ == self.store().eviction_seq(),
            crate::storage::keys_distinct(self.store().eviction_seq()),
    {
        self.oplog.storage().pending_evictions()
    }

    /// Seals `topic_id`, so a genesis reset cannot discard its writes here.
    pub fn seal_topic(&mut self, topic_id: TopicId) -> (r: bool)
        ensures
            r == old(self).store().topics_map().contains_key(topic_id),
            r ==> final(self).store().topics_map()[topic_id].sealed,
            final(self).store().ops_map() == old(self).store().ops_map(),
    {
        self.oplog.storage_mut().seal_topic(&topic_id)
    }

    /// Lets genesis resets reach `topic_id` again.
    pub fn unseal_topic(&mut self, topic_id: TopicId) -> (r: bool)
        ensures
            r == old(self).store().topics_map().contains_key(topic_id),
            r ==> !final(self).store().topics_map()[topic_id].sealed,
            final(self).store().ops_map() == old(self).store().ops_map(),
    {
        self.oplog.storage_mut().unseal_topic(&topic_id)
    }

    /// Releases the journalled eviction named `key`; releasing twice is harmless.
    pub fn clear_eviction(&mut self, key: &EvictionKey)
        ensures
            final(self).store().ops_map() == old(self).store().ops_map(),
            final(self).store().topics_map() == old(self).store().topics_map(),
            final(self).store().pending_seq() == old(self).store().pending_seq(),
            forall|e: TopicEviction| #[trigger] final(self).store().eviction_seq().contains(e) <==>
                old(self).store().eviction_seq().contains(e) && crate::storage::eviction_key_of(e) != key.bytes@,
            final(self).store().eviction_seq() == old(self).store().eviction_seq().filter(
                |e: TopicEviction| crate::storage::eviction_key_of(e) != key.bytes@),
            (forall|e: TopicEviction| #[trigger] old(self).store().eviction_seq().contains(e)
                ==> crate::storage::eviction_key_of(e) != key.bytes@) ==> final(self).store().eviction_seq() == old(self).store().eviction_seq(),
            crate::storage::keys_distinct(old(self).store().eviction_seq()),
            crate::storage::keys_distinct(final(self).store().eviction_seq()),
    {
        self.oplog.storage_mut().clear_eviction(key)
    }

    /// The peers allowed to reach this node; `None` allows every peer.
    pub fn peer_whitelist(&self) -> (r: Option<IdSet>)
        ensures whitelist_view(r) == self.spec_whitelist(),
    {
        match &self.peer_whitelist {
            Some(w) => Some(w.duplicate()),
            None => None,
        }
    }

    /// Replaces the whitelist.
    pub fn set_peer_whitelist(&mut self, peer_whitelist: Option<IdSet>)
        ensures
            final(self).spec_whitelist() == whitelist_view(peer_whitelist),
            final(self).store() == old(self).store(),
    {
        self.peer_whitelist = peer_whitelist;
    }

    /// Allows `peer_id`, starting a whitelist if every peer was allowed.
    pub fn add_peer_to_whitelist(&mut self, peer_id: PeerId)
        ensures
            final(self).spec_whitelist() == Some(match old(self).spec_whitelist() {
                Some(w) => w.insert(peer_id),
                None => set![peer_id],
            }),
            final(self).store() == old(self).store(),
    {
        let mut w = match &self.peer_whitelist {
            Some(w) => w.duplicate(),
            None => IdSet::new(),
        };
        w.insert(peer_id);
        self.peer_whitelist = Some(w);
    }

    /// Allows every peer of `peer_ids`, starting a whitelist if every peer was allowed.
    pub fn add_peers_to_whitelist(&mut self, peer_ids: &IdSet)
        ensures
            final(self).spec_whitelist() == Some(match old(self).spec_whitelist() {
                Some(w) => w.union(peer_ids@),
                None => peer_ids@,
            }),
            final(self).store() == old(self).store(),
    {
        let mut w = match &self.peer_whitelist {
            Some(w) => w.duplicate(),
            None => IdSet::new(),
        };
        w.extend(peer_ids);
        self.peer_whitelist = Some(w);
        proof {
            if old(self).spec_whitelist() is None {
                assert(Set::<PeerId>::empty().union(peer_ids@) =~= peer_ids@);
            }
        }
    }

    /// Whether `peer_id` may reach this node.
    pub fn peer_allowed(&self, peer_id: &PeerId) -> (r: bool)
        ensures r == match self.spec_whitelist() { Some(w) => w.contains(*peer_id), None => true },
    {
        match &self.peer_whitelist {
            Some(w) => w.contains(peer_id),
            None => true,
        }
    }
}

impl Irokle {
    /// Records how attempt `attempt` of `peer_id` and `topic_id` ended, at this node's
    /// time, with `pending` obligations left; see [`StatusBook::record_attempt_result`].
    pub fn record_attempt_result(&mut self, peer_id: PeerId, topic_id: TopicId, attempt: (u64, u64),
        outcome: &AttemptOutcome, first: bool, pending: u64) -> (r: SyncPeerStatus)
        ensures
            final(self).store() == old(self).store(),
            final(self).spec_peer_id() == old(self).spec_peer_id(),
            index_of(old(self).spec_statuses(), peer_id, topic_id) != -1 ==> {
                let before = old(self).spec_statuses();
                let i = index_of(before, peer_id, topic_id);
                let after = final(self).spec_statuses();
                &&& after.len() == before.len()
                &&& forall|k: int| 0 <= k < before.len() && k != i ==> #[trigger] after[k] == before[k]
                &&& !first ==> after[i] == before[i] && same_status(r, before[i])
                &&& first ==> recorded(before[i], after[i], attempt, *outcome, old(self).spec_now(), pending) && same_status(r, after[i])
            },
            index_of(old(self).spec_statuses(), peer_id, topic_id) == -1 ==> {
                let before = old(self).spec_statuses();
                let after = final(self).spec_statuses();
                &&& after.len() == before.len() + 1
                &&& after.take(before.len() as int) == before
                &&& !first ==> fresh_status(after.last(), peer_id, topic_id) && same_status(r, after.last())
                &&& first ==> recorded_fresh(after.last(), peer_id, topic_id, attempt, *outcome, old(self).spec_now(), pending)
                        && same_status(r, after.last())
            },
    {
        let now = self.now_ms;
        let ghost before = self.statuses.records();
        let r = self.statuses.record_attempt_result(peer_id, topic_id, attempt, outcome, first, now, pending);
        proof {
            let after = self.statuses.records();
            assert(self.spec_statuses() == after);
            assert(old(self).spec_statuses() == before);
            if index_of(before, peer_id, topic_id) == -1 {
                assert(after.len() == before.len() + 1);
                assert(after.take(before.len() as int) == before);
                assert(same_status(r, after.last()));
            }
        }
        r
    }

    /// What this node can tell of each peer's sync of `topic_id`, given the
    /// obligations each peer still has; see [`StatusBook::sync_status`].
    pub fn sync_status(&self, topic_id: TopicId, obligations: &Vec<(PeerId, u64)>) -> (r: Vec<SyncPeerStatus>)
        ensures
            forall|i: int| 0 <= i < r@.len() ==> reported(self.spec_statuses(), obligations@, topic_id, (#[trigger] r@[i]).peer_id, r@[i]),
            sorted_ids(r@.map_values(|s: SyncPeerStatus| s.peer_id)),
            r@.map_values(|s: SyncPeerStatus| s.peer_id).to_set() == reported_peers(self.spec_statuses(), obligations@, topic_id),
            status_report(self.spec_statuses(), obligations@, topic_id, r@),
    {
        self.statuses.sync_status(topic_id, obligations)
    }

    /// How many peers of `topic_id`'s status report are in each state.
    pub fn sync_state_counts(&self, topic_id: TopicId, obligations: &Vec<(PeerId, u64)>) -> (r: StateCounts)
        ensures
            exists|v: Seq<SyncPeerStatus>| #[trigger] status_report(self.spec_statuses(), obligations@, topic_id, v)
                && r.healthy == count_state(v, SyncPeerState::Healthy)
                && r.behind == count_state(v, SyncPeerState::Behind)
                && r.failed == count_state(v, SyncPeerState::Failed),
    {
        let statuses = self.sync_status(topic_id, obligations);
        let r = state_counts(&statuses);
        proof { assert(status_report(self.spec_statuses(), obligations@, topic_id, statuses@)); }
        r
    }
}

} // verus!
