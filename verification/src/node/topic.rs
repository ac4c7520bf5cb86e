//! Handles of one topic of a node: a typed one that publishes as this node's actor,
//! and a raw one that reads ops.
use vstd::prelude::*;
use crate::ids::{Id32, OpId, PeerId, TopicId, ActorId};
use crate::idset::IdSet;
use crate::clock::ActorClock;
use crate::op::Op;
use crate::topic::{TopicControl, EventEnvelope, ReplicationPolicy, TopicPayload};
use crate::error::Error;
use crate::oplog::local::has_state;
use crate::reducer::EventRecord;
use crate::node::{Irokle, PublishOptions, WriteConcern, published, published_event};

verus! {

/// A topic this node writes to as its actor.
#[derive(Clone, Copy, Debug)]
pub struct Topic {
    topic_id: TopicId,
    actor_id: ActorId,
}

/// A topic read as raw operations.
#[derive(Clone, Copy, Debug)]
pub struct RawTopic {
    topic_id: TopicId,
}

impl Topic {
    /// The topic's id.
    pub closed spec fn spec_topic_id(&self) -> TopicId {
        self.topic_id
    }

    /// The actor this handle publishes as.
    pub closed spec fn spec_actor_id(&self) -> ActorId {
        self.actor_id
    }

    /// The handle of `topic_id` writing as `actor_id`.
    pub fn new(topic_id: TopicId, actor_id: ActorId) -> (r: Topic)
        ensures r.spec_topic_id() == topic_id, r.spec_actor_id() == actor_id,
    {
        Topic { topic_id, actor_id }
    }

    /// The topic's id.
    pub fn id(&self) -> (r: TopicId)
        ensures r == self.spec_topic_id(),
    {
        self.topic_id
    }

    /// The actor this handle publishes as.
    pub fn actor(&self) -> (r: ActorId)
        ensures r == self.spec_actor_id(),
    {
        self.actor_id
    }

    /// Publishes `event` with the node's default write concern.
    pub fn publish(&self, node: &mut Irokle, event: EventEnvelope) -> (r: Result<EventRecord, Error>)
        ensures
            r is Err ==> final(node).store() == old(node).store(),
            r matches Ok(rec) ==> final(node).store().ops_map().contains_key(rec.meta.op_id),
            r matches Ok(rec) ==> published_event(old(node).store(), final(node).store(), self.spec_topic_id(), self.spec_actor_id(),
                old(node).spec_peer_id(), event, rec),
            !has_state(old(node).store(), self.spec_topic_id()) && old(node).spec_write_concern() == WriteConcern::Local
                ==> r matches Err(Error::TopicNotFound),
            old(node).spec_write_concern() == WriteConcern::Local && crate::oplog::local::local_write_ok(old(node).store(),
                self.spec_topic_id(), self.spec_actor_id(), old(node).spec_peer_id(), TopicPayload::Event(event)) ==> r is Ok,
            crate::node::decisions_below_heads(old(node).store(), self.spec_topic_id()) ==> crate::node::decisions_below_heads(final(node).store(), self.spec_topic_id()),
    {
        let options = PublishOptions { write_concern: node.config.default_write_concern };
        self.publish_with(node, event, options)
    }

    /// Publishes `event` with `options`.
    pub fn publish_with(&self, node: &mut Irokle, event: EventEnvelope, options: PublishOptions) -> (r: Result<EventRecord, Error>)
        ensures
            r is Err ==> final(node).store() == old(node).store(),
            r matches Ok(rec) ==> final(node).store().ops_map().contains_key(rec.meta.op_id),
            r matches Ok(rec) ==> published_event(old(node).store(), final(node).store(), self.spec_topic_id(), self.spec_actor_id(),
                old(node).spec_peer_id(), event, rec),
            options.write_concern == WriteConcern::AsyncReplication ==> r matches Err(Error::ReplicationUnavailable),
            !has_state(old(node).store(), self.spec_topic_id()) && options.write_concern == WriteConcern::Local
                ==> r matches Err(Error::TopicNotFound),
            options.write_concern == WriteConcern::Local && crate::oplog::local::local_write_ok(old(node).store(),
                self.spec_topic_id(), self.spec_actor_id(), old(node).spec_peer_id(), TopicPayload::Event(event)) ==> r is Ok,
            crate::node::decisions_below_heads(old(node).store(), self.spec_topic_id()) ==> crate::node::decisions_below_heads(final(node).store(), self.spec_topic_id()),
    {
        node.publish_event(self.topic_id, self.actor_id, event, options)
    }

    /// Adds `peer` to the topic's members.
    pub fn add_peer(&self, node: &mut Irokle, peer: PeerId) -> (r: Result<(), Error>)
        ensures
            r is Err ==> final(node).store() == old(node).store(),
            r is Ok ==> published(old(node).store(), final(node).store(), self.spec_topic_id(), self.spec_actor_id(),
                old(node).spec_peer_id(), TopicPayload::Control(TopicControl::AddPeer { peer })),
            r is Ok ==> crate::node::control_published(old(node).store(), final(node).store(), self.spec_topic_id(), self.spec_actor_id(),
                old(node).spec_peer_id(), TopicControl::AddPeer { peer }),
            r is Ok ==> has_state(old(node).store(), self.spec_topic_id()),
            r is Ok && crate::node::undecided(old(node).store().topics_map()[self.spec_topic_id()].state, TopicControl::AddPeer { peer })
                ==> final(node).store().topics_map()[self.spec_topic_id()].state.members@
                    == crate::node::control_members(old(node).store().topics_map()[self.spec_topic_id()].state.members@, TopicControl::AddPeer { peer })
                && final(node).store().topics_map()[self.spec_topic_id()].state.members@.contains(peer),
            old(node).spec_write_concern() == WriteConcern::AsyncReplication ==> r matches Err(Error::ReplicationUnavailable),
            !has_state(old(node).store(), self.spec_topic_id()) && old(node).spec_write_concern() == WriteConcern::Local
                ==> r matches Err(Error::TopicNotFound),
            has_state(old(node).store(), self.spec_topic_id()) && old(node).spec_write_concern() == WriteConcern::Local
                && !old(node).store().topics_map()[self.spec_topic_id()].state.members@.contains(old(node).spec_peer_id())
                ==> r matches Err(Error::NotTopicMember),
            old(node).spec_write_concern() == WriteConcern::Local && crate::oplog::local::local_write_ok(old(node).store(),
                self.spec_topic_id(), self.spec_actor_id(), old(node).spec_peer_id(), TopicPayload::Control(TopicControl::AddPeer { peer })) ==> r is Ok,
            r is Ok && crate::node::decisions_below_heads(old(node).store(), self.spec_topic_id())
                ==> final(node).store().topics_map()[self.spec_topic_id()].state.members@
                    == crate::node::control_members(old(node).store().topics_map()[self.spec_topic_id()].state.members@, TopicControl::AddPeer { peer })
                && final(node).store().topics_map()[self.spec_topic_id()].state.members@.contains(peer),
            crate::node::decisions_below_heads(old(node).store(), self.spec_topic_id()) ==> crate::node::decisions_below_heads(final(node).store(), self.spec_topic_id()),
    {
        node.publish_control(self.topic_id, self.actor_id, TopicControl::AddPeer { peer })
    }

    /// Removes `peer` from the topic's members.
    pub fn remove_peer(&self, node: &mut Irokle, peer: PeerId) -> (r: Result<(), Error>)
        ensures
            r is Err ==> final(node).store() == old(node).store(),
            r is Ok ==> published(old(node).store(), final(node).store(), self.spec_topic_id(), self.spec_actor_id(),
                old(node).spec_peer_id(), TopicPayload::Control(TopicControl::RemovePeer { peer })),
            r is Ok ==> crate::node::control_published(old(node).store(), final(node).store(), self.spec_topic_id(), self.spec_actor_id(),
                old(node).spec_peer_id(), TopicControl::RemovePeer { peer }),
            r is Ok ==> has_state(old(node).store(), self.spec_topic_id()),
            r is Ok && crate::node::undecided(old(node).store().topics_map()[self.spec_topic_id()].state, TopicControl::RemovePeer { peer })
                ==> final(node).store().topics_map()[self.spec_topic_id()].state.members@
                    == crate::node::control_members(old(node).store().topics_map()[self.spec_topic_id()].state.members@, TopicControl::RemovePeer { peer })
                && !final(node).store().topics_map()[self.spec_topic_id()].state.members@.contains(peer),
            old(node).spec_write_concern() == WriteConcern::AsyncReplication ==> r matches Err(Error::ReplicationUnavailable),
            !has_state(old(node).store(), self.spec_topic_id()) && old(node).spec_write_concern() == WriteConcern::Local
                ==> r matches Err(Error::TopicNotFound),
            has_state(old(node).store(), self.spec_topic_id()) && old(node).spec_write_concern() == WriteConcern::Local
                && !old(node).store().topics_map()[self.spec_topic_id()].state.members@.contains(old(node).spec_peer_id())
                ==> r matches Err(Error::NotTopicMember),
            old(node).spec_write_concern() == WriteConcern::Local && crate::oplog::local::local_write_ok(old(node).store(),
                self.spec_topic_id(), self.spec_actor_id(), old(node).spec_peer_id(), TopicPayload::Control(TopicControl::RemovePeer { peer })) ==> r is Ok,
            r is Ok && crate::node::decisions_below_heads(old(node).store(), self.spec_topic_id())
                ==> final(node).store().topics_map()[self.spec_topic_id()].state.members@
                    == crate::node::control_members(old(node).store().topics_map()[self.spec_topic_id()].state.members@, TopicControl::RemovePeer { peer })
                && !final(node).store().topics_map()[self.spec_topic_id()].state.members@.contains(peer),
            crate::node::decisions_below_heads(old(node).store(), self.spec_topic_id()) ==> crate::node::decisions_below_heads(final(node).store(), self.spec_topic_id()),
    {
        node.publish_control(self.topic_id, self.actor_id, TopicControl::RemovePeer { peer })
    }

    /// Leaves the topic.
    pub fn leave(&self, node: &mut Irokle) -> (r: Result<(), Error>)
        ensures
            r is Err ==> final(node).store() == old(node).store(),
            r is Ok ==> exists|actor: ActorId| #[trigger] crate::crypto::is_actor_of(actor, self.spec_topic_id(), old(node).spec_peer_id())
                && published(old(node).store(), final(node).store(), self.spec_topic_id(), actor, old(node).spec_peer_id(),
                    TopicPayload::Control(TopicControl::RemovePeer { peer: old(node).spec_peer_id() }))
                && crate::node::control_published(old(node).store(), final(node).store(), self.spec_topic_id(), actor,
                    old(node).spec_peer_id(), TopicControl::RemovePeer { peer: old(node).spec_peer_id() }),
            !has_state(old(node).store(), self.spec_topic_id()) ==> r matches Err(Error::TopicNotFound),
            has_state(old(node).store(), self.spec_topic_id())
                && !old(node).store().topics_map()[self.spec_topic_id()].state.members@.contains(old(node).spec_peer_id())
                ==> r matches Err(Error::NotTopicMember),
            r is Ok && crate::node::undecided(old(node).store().topics_map()[self.spec_topic_id()].state,
                TopicControl::RemovePeer { peer: old(node).spec_peer_id() })
                ==> !final(node).store().topics_map()[self.spec_topic_id()].state.members@.contains(old(node).spec_peer_id()),
            old(node).spec_write_concern() == WriteConcern::Local && (forall|actor: ActorId| #[trigger] crate::crypto::is_actor_of(actor,
                self.spec_topic_id(), old(node).spec_peer_id()) ==> crate::oplog::local::local_write_ok(old(node).store(), self.spec_topic_id(),
                    actor, old(node).spec_peer_id(), TopicPayload::Control(TopicControl::RemovePeer { peer: old(node).spec_peer_id() }))) ==> r is Ok,
            r is Ok && crate::node::decisions_below_heads(old(node).store(), self.spec_topic_id())
                ==> !final(node).store().topics_map()[self.spec_topic_id()].state.members@.contains(old(node).spec_peer_id()),
            crate::node::decisions_below_heads(old(node).store(), self.spec_topic_id()) ==> crate::node::decisions_below_heads(final(node).store(), self.spec_topic_id()),
    {
        let r = node.reject_topic(self.topic_id);
        proof {
            if r is Ok {
                let actor = choose|actor: ActorId| #[trigger] crate::crypto::is_actor_of(actor, self.topic_id, old(node).spec_peer_id())
                    && published(old(node).store(), node.store(), self.topic_id, actor, old(node).spec_peer_id(),
                        TopicPayload::Control(TopicControl::RemovePeer { peer: old(node).spec_peer_id() }))
                    && crate::node::control_published(old(node).store(), node.store(), self.topic_id, actor,
                        old(node).spec_peer_id(), TopicControl::RemovePeer { peer: old(node).spec_peer_id() });
                assert(crate::crypto::is_actor_of(actor, self.spec_topic_id(), old(node).spec_peer_id()));
            }
        }
        r
    }

    /// Sets the topic's replication policy.
    pub fn set_replication_policy(&self, node: &mut Irokle, policy: ReplicationPolicy) -> (r: Result<(), Error>)
        ensures
            r is Err ==> final(node).store() == old(node).store(),
            r is Ok ==> published(old(node).store(), final(node).store(), self.spec_topic_id(), self.spec_actor_id(),
                old(node).spec_peer_id(), TopicPayload::Control(TopicControl::SetReplicationPolicy { policy })),
            old(node).spec_write_concern() == WriteConcern::AsyncReplication ==> r matches Err(Error::ReplicationUnavailable),
            !has_state(old(node).store(), self.spec_topic_id()) && old(node).spec_write_concern() == WriteConcern::Local
                ==> r matches Err(Error::TopicNotFound),
            has_state(old(node).store(), self.spec_topic_id()) && old(node).spec_write_concern() == WriteConcern::Local
                && !old(node).store().topics_map()[self.spec_topic_id()].state.members@.contains(old(node).spec_peer_id())
                ==> r matches Err(Error::NotTopicMember),
            r is Ok && crate::node::decisions_below_heads(old(node).store(), self.spec_topic_id())
                ==> final(node).store().topics_map()[self.spec_topic_id()].state.replication_policy.selected_peers@ == policy.selected_peers@
                && final(node).store().topics_map()[self.spec_topic_id()].state.replication_policy.max_sync_peers == policy.max_sync_peers,
            crate::node::decisions_below_heads(old(node).store(), self.spec_topic_id())
                ==> crate::node::decisions_below_heads(final(node).store(), self.spec_topic_id()),
    {
        node.publish_control(self.topic_id, self.actor_id, TopicControl::SetReplicationPolicy { policy })
    }

    /// The topic's current heads.
    pub fn heads(&self, node: &Irokle) -> (r: IdSet)
        ensures r@ == crate::oplog::local::heads_of(node.store(), self.spec_topic_id()),
    {
        node.topic_heads(self.topic_id)
    }

    /// Each actor's admitted position in the topic.
    pub fn actor_clock(&self, node: &Irokle) -> (r: Result<ActorClock, Error>)
        ensures
            !has_state(node.store(), self.spec_topic_id()) <==> r matches Err(Error::TopicNotFound),
            r matches Ok(c) ==> forall|a: ActorId| #[trigger] c@.contains_key(a) ==>
                c@[a] == node.store().topics_map()[self.spec_topic_id()].tips@[a].seq,
            r matches Ok(c) ==> forall|a: ActorId| #[trigger] c@.contains_key(a) <==>
                node.store().topics_map()[self.spec_topic_id()].tips@.contains_key(a),
    {
        node.topic_actor_clock(self.topic_id)
    }
}

impl Irokle {
    /// The current heads of `topic_id`.
    pub fn topic_heads(&self, topic_id: TopicId) -> (r: IdSet)
        ensures r@ == crate::oplog::local::heads_of(self.store(), topic_id),
    {
        self.storage().heads(&topic_id)
    }

    /// Each actor's admitted position in `topic_id`.
    pub fn topic_actor_clock(&self, topic_id: TopicId) -> (r: Result<ActorClock, Error>)
        ensures
            !has_state(self.store(), topic_id) <==> r matches Err(Error::TopicNotFound),
            r matches Ok(c) ==> forall|a: ActorId| #[trigger] c@.contains_key(a) ==>
                c@[a] == self.store().topics_map()[topic_id].tips@[a].seq,
            r matches Ok(c) ==> forall|a: ActorId| #[trigger] c@.contains_key(a) <==>
                self.store().topics_map()[topic_id].tips@.contains_key(a),
    {
        if self.storage().topic_state(&topic_id).is_none() {
            return Err(Error::TopicNotFound);
        }
        Ok(self.storage().actor_clock(&topic_id))
    }
}

impl RawTopic {
    /// The topic's id.
    pub closed spec fn spec_topic_id(&self) -> TopicId {
        self.topic_id
    }

    /// The raw handle of `topic_id`.
    pub fn new(topic_id: TopicId) -> (r: RawTopic)
        ensures r.spec_topic_id() == topic_id,
    {
        RawTopic { topic_id }
    }

    /// The topic's id.
    pub fn id(&self) -> (r: TopicId)
        ensures r == self.spec_topic_id(),
    {
        self.topic_id
    }

    /// The topic's current heads.
    pub fn heads(&self, node: &Irokle) -> (r: IdSet)
        ensures r@ == crate::oplog::local::heads_of(node.store(), self.spec_topic_id()),
    {
        node.storage().heads(&self.topic_id)
    }

    /// The topic's ops in history order.
    pub fn history(&self, node: &Irokle) -> (r: Result<Vec<Op>, Error>)
        ensures
            r matches Err(e) ==> e is Storage,
            r matches Ok(v) ==> exists|order: Seq<OpId>, blocked: Set<OpId>|
                #[trigger] crate::oplog::topology::blocked_ok(node.store().ops_map(),
                    crate::storage::spec_topic_ids(node.store().ops_map(), self.spec_topic_id()), blocked)
                && #[trigger] crate::oplog::topology::history_order(node.store().ops_map(),
                    crate::storage::spec_topic_ids(node.store().ops_map(), self.spec_topic_id()), blocked, order)
                && v@.len() == order.len()
                && forall|k: int| 0 <= k < v@.len() ==> crate::op::same_op(#[trigger] v@[k], node.store().ops_map()[order[k]].op),
    {
        let r = crate::oplog::topology::topological(node.storage(), &self.topic_id);
        proof {
            if r is Ok {
                let v = r->Ok_0;
                let ids = crate::storage::spec_topic_ids(node.store().ops_map(), self.topic_id);
                let (order, blocked) = choose|order: Seq<OpId>, blocked: Set<OpId>|
                    #[trigger] crate::oplog::topology::blocked_ok(node.store().ops_map(), ids, blocked)
                    && #[trigger] crate::oplog::topology::history_order(node.store().ops_map(), ids, blocked, order)
                    && v@.len() == order.len()
                    && forall|k: int| 0 <= k < v@.len() ==> crate::op::same_op(#[trigger] v@[k], node.store().ops_map()[order[k]].op);
                assert(self.spec_topic_id() == self.topic_id);
                assert(crate::oplog::topology::blocked_ok(node.store().ops_map(), ids, blocked));
                assert(crate::oplog::topology::history_order(node.store().ops_map(), ids, blocked, order));
                assert(v@.len() == order.len());
                assert(forall|k: int| 0 <= k < v@.len() ==> crate::op::same_op(#[trigger] v@[k], node.store().ops_map()[order[k]].op));
            }
        }
        r
    }
}

} // verus!
