//! Operation-log admission, DAG validation, and topic-state materialization.
use vstd::prelude::*;
use crate::ids::{OpId, TopicId};
use crate::idset::IdSet;
use crate::clock::ActorClock;
use crate::storage::{MemoryStorage, PendingOp, StoredOp, TopicRecord};
use crate::eviction::TopicEviction;

pub mod helpers;
pub mod causal;
pub mod local;
pub mod genesis;
pub mod admission;
pub mod receive;
pub mod topology;
pub mod quarantine;
pub mod integrity;
pub mod inspect;

verus! {

/// Outcome of an admission pass: the accepted op ids plus any topic evictions
/// produced by genesis tie-break resolution.
#[derive(Debug)]
pub struct Admitted {
    pub accepted: IdSet,
    pub evictions: Vec<TopicEviction>,
    /// Buffered operations whose dependencies resolved are still waiting.
    pub ready_remaining: bool,
}

/// The operation log of one store: local creation, admission of received
/// operations, and the views built from them.
#[derive(Debug)]
pub struct Oplog {
    storage: MemoryStorage,
    /// Milliseconds since the epoch that buffered operations are stamped with.
    now_ms: u64,
    /// Scans and verdicts per branch and data epoch.
    integrity: crate::oplog::integrity::Inspections,
}

impl Oplog {
    /// The store this log works on.
    pub closed spec fn store(&self) -> MemoryStorage {
        self.storage
    }

    /// A log over an empty store.
    pub fn new() -> (r: Oplog)
        ensures
            r.store().ops_map() == Map::<OpId, StoredOp>::empty(),
            r.store().topics_map() == Map::<TopicId, TopicRecord>::empty(),
            r.store().pending_seq() == Seq::<PendingOp>::empty(),
            r.store().eviction_seq() == Seq::<crate::eviction::TopicEviction>::empty(),
            r.store().ack_seq() == Seq::<crate::storage::PeerAck>::empty(),
    {
        Oplog::with_storage(MemoryStorage::new())
    }

    /// A log over `storage`.
    pub fn with_storage(storage: MemoryStorage) -> (r: Oplog)
        ensures r.store() == storage,
    {
        Oplog { storage, now_ms: 0, integrity: crate::oplog::integrity::Inspections::new() }
    }

    /// Sets the time, in milliseconds since the epoch, that operations buffered from
    /// now on are stamped with.
    pub fn set_now(&mut self, now_ms: u64)
        ensures final(self).store() == old(self).store(),
    {
        self.now_ms = now_ms;
    }

    /// Gives up the log and hands back its store.
    pub fn into_storage(self) -> (r: MemoryStorage)
        ensures r == self.store(),
    {
        self.storage
    }

    /// The store.
    pub fn storage(&self) -> (r: &MemoryStorage)
        ensures *r == self.store(),
    {
        &self.storage
    }

    /// The store, for changes made beside the log.
    pub fn storage_mut(&mut self) -> (r: &mut MemoryStorage)
        ensures
            *r == old(self).store(),
            final(self).store() == *final(r),
    {
        &mut self.storage
    }

    /// The stored actor clock of `topic_id`: each actor's admitted position.
    pub fn observed_clock(&self, topic_id: &TopicId) -> (r: ActorClock)
        ensures
            forall|a: crate::ids::ActorId| #[trigger] r@.contains_key(a) <==> (self.store().topics_map().contains_key(*topic_id)
                && self.store().topics_map()[*topic_id].tips@.contains_key(a)),
            forall|a: crate::ids::ActorId| #[trigger] r@.contains_key(a) ==> r@[a] == self.store().topics_map()[*topic_id].tips@[a].seq,
    {
        self.storage.actor_clock(topic_id)
    }
}

} // verus!
