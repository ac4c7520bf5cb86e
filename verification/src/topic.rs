//! Topic payloads: genesis, membership controls, events and replication policy.
use vstd::prelude::*;
use vstd::string::StringSliceAdditionalSpecFns;
use crate::ids::{Id32, PeerId};
use crate::idset::IdSet;
use crate::codec::{be64_bytes, spec_blob, spec_id_list, push_u64, push_blob, push_id, push_id_set};

verus! {

/// Which members a topic replicates to, and how many at once.
#[derive(Debug)]
pub struct ReplicationPolicy {
    /// Members eligible as sync targets; empty means every member.
    pub selected_peers: IdSet,
    /// Most peers one node synchronizes a topic with.
    pub max_sync_peers: usize,
}

impl ReplicationPolicy {
    /// Every member is eligible, with no cap on the target count.
    pub fn all() -> (r: ReplicationPolicy)
        ensures r.selected_peers@ == Set::<Id32>::empty(), r.max_sync_peers == usize::MAX,
    {
        ReplicationPolicy { selected_peers: IdSet::new(), max_sync_peers: usize::MAX }
    }

    /// Only `peers` are eligible, with no cap on the target count.
    pub fn selected(peers: &[PeerId]) -> (r: ReplicationPolicy)
        ensures r.selected_peers@ == peers@.to_set(), r.max_sync_peers == usize::MAX,
    {
        ReplicationPolicy { selected_peers: IdSet::from_slice(peers), max_sync_peers: usize::MAX }
    }

    /// This policy with at most `max` sync targets.
    pub fn with_max_sync_peers(self, max: usize) -> (r: ReplicationPolicy)
        ensures r.selected_peers@ == self.selected_peers@, r.max_sync_peers == max,
    {
        ReplicationPolicy { selected_peers: self.selected_peers, max_sync_peers: max }
    }

    /// This policy restricted to `peers`.
    pub fn with_selected_peers(self, peers: IdSet) -> (r: ReplicationPolicy)
        ensures r.selected_peers@ == peers@, r.max_sync_peers == self.max_sync_peers,
    {
        ReplicationPolicy { selected_peers: peers, max_sync_peers: self.max_sync_peers }
    }

    /// A copy of this policy.
    pub fn duplicate(&self) -> (r: ReplicationPolicy)
        ensures
            r.selected_peers@ == self.selected_peers@,
            r.selected_peers.elems() == self.selected_peers.elems(),
            r.max_sync_peers == self.max_sync_peers,
    {
        ReplicationPolicy { selected_peers: self.selected_peers.duplicate(), max_sync_peers: self.max_sync_peers }
    }
}

/// What a new topic is created with.
#[derive(Debug)]
pub struct TopicConfig {
    /// The members besides the creator, who is always one.
    pub initial_peers: IdSet,
    pub replication_policy: ReplicationPolicy,
}

impl TopicConfig {
    /// No invited peers, every member replicated to.
    pub fn new() -> (r: TopicConfig)
        ensures r.initial_peers@ == Set::<Id32>::empty(), r.replication_policy.selected_peers@ == Set::<Id32>::empty(),
            r.replication_policy.max_sync_peers == usize::MAX,
    {
        TopicConfig { initial_peers: IdSet::new(), replication_policy: ReplicationPolicy::all() }
    }
}

/// The first operation of a topic: its event type, members and policy.
#[derive(Debug)]
pub struct TopicGenesis {
    pub event_type_id: String,
    pub initial_peers: IdSet,
    pub replication_policy: ReplicationPolicy,
}

/// A membership or policy change.
#[derive(Debug)]
pub enum TopicControl {
    AddPeer { peer: PeerId },
    RemovePeer { peer: PeerId },
    SetReplicationPolicy { policy: ReplicationPolicy },
}

/// An application event: its type and its encoded bytes.
#[derive(Debug)]
pub struct EventEnvelope {
    pub type_id: String,
    pub payload: Vec<u8>,
}

/// What an operation carries.
#[derive(Debug)]
pub enum TopicPayload {
    Genesis(TopicGenesis),
    Event(EventEnvelope),
    Control(TopicControl),
}

/// Encoding of a replication policy.
pub open spec fn spec_policy_bytes(p: ReplicationPolicy) -> Seq<u8> {
    spec_id_list(p.selected_peers.elems()) + be64_bytes(p.max_sync_peers as u64)
}

/// UTF-8 bytes of a character sequence.
pub open spec fn utf8(s: Seq<char>) -> Seq<u8> {
    vstd::utf8::encode_utf8(s)
}

/// Encoding of a payload: a tag byte, then its fields.
pub open spec fn spec_payload_bytes(p: TopicPayload) -> Seq<u8> {
    match p {
        TopicPayload::Genesis(g) => seq![0u8] + spec_blob(utf8(g.event_type_id@))
            + spec_id_list(g.initial_peers.elems()) + spec_policy_bytes(g.replication_policy),
        TopicPayload::Event(e) => seq![1u8] + spec_blob(utf8(e.type_id@)) + spec_blob(e.payload@),
        TopicPayload::Control(TopicControl::AddPeer { peer }) => seq![2u8, 0u8] + peer.bytes@,
        TopicPayload::Control(TopicControl::RemovePeer { peer }) => seq![2u8, 1u8] + peer.bytes@,
        TopicPayload::Control(TopicControl::SetReplicationPolicy { policy }) => seq![2u8, 2u8] + spec_policy_bytes(policy),
    }
}

/// Appends the encoding of a string.
pub fn push_string(out: &mut Vec<u8>, s: &String)
    ensures final(out)@ == old(out)@ + spec_blob(utf8(s@)),
{
    let b = s.as_str().as_bytes();
    push_blob(out, b);
}

/// Appends the encoding of a replication policy.
pub fn push_policy(out: &mut Vec<u8>, p: &ReplicationPolicy)
    ensures final(out)@ == old(out)@ + spec_policy_bytes(*p),
{
    push_id_set(out, &p.selected_peers);
    push_u64(out, p.max_sync_peers as u64);
    assert(out@ =~= old(out)@ + spec_policy_bytes(*p));
}

/// Appends the encoding of a payload.
pub fn push_payload(out: &mut Vec<u8>, p: &TopicPayload)
    ensures final(out)@ == old(out)@ + spec_payload_bytes(*p),
{
    match p {
        TopicPayload::Genesis(g) => {
            out.push(0u8);
            push_string(out, &g.event_type_id);
            push_id_set(out, &g.initial_peers);
            push_policy(out, &g.replication_policy);
        },
        TopicPayload::Event(e) => {
            out.push(1u8);
            push_string(out, &e.type_id);
            push_blob(out, e.payload.as_slice());
        },
        TopicPayload::Control(TopicControl::AddPeer { peer }) => {
            out.push(2u8);
            out.push(0u8);
            push_id(out, peer);
        },
        TopicPayload::Control(TopicControl::RemovePeer { peer }) => {
            out.push(2u8);
            out.push(1u8);
            push_id(out, peer);
        },
        TopicPayload::Control(TopicControl::SetReplicationPolicy { policy }) => {
            out.push(2u8);
            out.push(2u8);
            push_policy(out, policy);
        },
    }
    assert(out@ =~= old(out)@ + spec_payload_bytes(*p));
}

impl TopicGenesis {
    /// A copy of this genesis.
    pub fn duplicate(&self) -> (r: TopicGenesis)
        ensures
            r.event_type_id@ == self.event_type_id@,
            r.initial_peers@ == self.initial_peers@,
            r.initial_peers.elems() == self.initial_peers.elems(),
            r.replication_policy.selected_peers@ == self.replication_policy.selected_peers@,
            r.replication_policy.selected_peers.elems() == self.replication_policy.selected_peers.elems(),
            r.replication_policy.max_sync_peers == self.replication_policy.max_sync_peers,
            spec_payload_bytes(TopicPayload::Genesis(r)) == spec_payload_bytes(TopicPayload::Genesis(*self)),
    {
        TopicGenesis {
            event_type_id: self.event_type_id.clone(),
            initial_peers: self.initial_peers.duplicate(),
            replication_policy: self.replication_policy.duplicate(),
        }
    }
}

/// Whether two policies hold the same selection and bound.
pub open spec fn same_policy_value(a: ReplicationPolicy, b: ReplicationPolicy) -> bool {
    &&& a.selected_peers@ == b.selected_peers@
    &&& a.selected_peers.elems() == b.selected_peers.elems()
    &&& a.max_sync_peers == b.max_sync_peers
}

/// Whether two payloads carry the same content.
pub open spec fn same_payload(a: TopicPayload, b: TopicPayload) -> bool {
    match (a, b) {
        (TopicPayload::Genesis(x), TopicPayload::Genesis(y)) => {
            &&& x.event_type_id@ == y.event_type_id@
            &&& x.initial_peers@ == y.initial_peers@
            &&& x.initial_peers.elems() == y.initial_peers.elems()
            &&& same_policy_value(x.replication_policy, y.replication_policy)
        },
        (TopicPayload::Event(x), TopicPayload::Event(y)) => x.type_id@ == y.type_id@ && x.payload@ == y.payload@,
        (TopicPayload::Control(TopicControl::AddPeer { peer: p }), TopicPayload::Control(TopicControl::AddPeer { peer: q })) => p == q,
        (TopicPayload::Control(TopicControl::RemovePeer { peer: p }), TopicPayload::Control(TopicControl::RemovePeer { peer: q })) => p == q,
        (TopicPayload::Control(TopicControl::SetReplicationPolicy { policy: p }),
            TopicPayload::Control(TopicControl::SetReplicationPolicy { policy: q })) => same_policy_value(p, q),
        _ => false,
    }
}

impl TopicPayload {
    /// A copy of this payload, with the same encoding.
    pub fn duplicate(&self) -> (r: TopicPayload)
        ensures spec_payload_bytes(r) == spec_payload_bytes(*self),
            same_payload(r, *self),
            (r is Genesis) == (self is Genesis),
            (r is Event) == (self is Event),
            (r is Control) == (self is Control),
    {
        match self {
            TopicPayload::Genesis(g) => TopicPayload::Genesis(g.duplicate()),
            TopicPayload::Event(e) => TopicPayload::Event(EventEnvelope {
                type_id: e.type_id.clone(),
                payload: copy_bytes(&e.payload),
            }),
            TopicPayload::Control(TopicControl::AddPeer { peer }) => TopicPayload::Control(TopicControl::AddPeer { peer: *peer }),
            TopicPayload::Control(TopicControl::RemovePeer { peer }) => TopicPayload::Control(TopicControl::RemovePeer { peer: *peer }),
            TopicPayload::Control(TopicControl::SetReplicationPolicy { policy }) =>
                TopicPayload::Control(TopicControl::SetReplicationPolicy { policy: policy.duplicate() }),
        }
    }
}

/// A copy of a byte vector.
pub fn copy_bytes(b: &Vec<u8>) -> (r: Vec<u8>)
    ensures r@ == b@,
{
    let mut r: Vec<u8> = Vec::new();
    let mut i: usize = 0;
    while i < b.len()
        invariant
            i <= b@.len(),
            r@ == b@.subrange(0, i as int),
        decreases b@.len() - i,
    {
        r.push(b[i]);
        i += 1;
        assert(r@ =~= b@.subrange(0, i as int));
    }
    assert(r@ =~= b@);
    r
}

} // verus!
