//! Event records for application projections.
use vstd::prelude::*;
use crate::ids::{OpId, ActorId};
use crate::clock::ActorClock;
use crate::topic::EventEnvelope;
use crate::error::Error;

verus! {

/// An application projection folded from a topic's events, one record at a time.
pub trait Reducer {
    type State;
    type Error;

    /// Folds `record` into `state`.
    fn apply(&mut self, state: &mut Self::State, record: &EventRecord) -> Result<(), Self::Error>;
}

/// Where an event stands in its topic: its op, its actor position, and the clock it observed.
#[derive(Debug)]
pub struct OpMeta {
    pub op_id: OpId,
    pub actor_id: ActorId,
    pub actor_seq: u64,
    pub observed_clock: ActorClock,
}

/// An event with its position.
#[derive(Debug)]
pub struct EventRecord {
    pub event: EventEnvelope,
    pub meta: OpMeta,
}

impl EventRecord {
    /// The record of `event` at the op `op_id` of `actor_id`'s position `actor_seq`.
    pub fn new(event: EventEnvelope, op_id: OpId, actor_id: ActorId, actor_seq: u64, observed_clock: ActorClock) -> (r: EventRecord)
        ensures
            r.event == event,
            r.meta.op_id == op_id,
            r.meta.actor_id == actor_id,
            r.meta.actor_seq == actor_seq,
            r.meta.observed_clock == observed_clock,
    {
        EventRecord { event, meta: OpMeta { op_id, actor_id, actor_seq, observed_clock } }
    }
}

/// One event of a history read that reports each record on its own: an event whose
/// payload the application could not decode names its op instead of failing the read.
#[derive(Debug)]
pub enum HistoryEntry {
    Event(EventRecord),
    Undecodable { meta: OpMeta, error: Error },
}

impl HistoryEntry {
    /// The record, or the error its payload failed with.
    pub fn into_record(self) -> (r: Result<EventRecord, Error>)
        ensures
            self matches HistoryEntry::Event(rec) ==> r == Ok::<EventRecord, Error>(rec),
            self matches HistoryEntry::Undecodable { error, .. } ==> r == Err::<EventRecord, Error>(error),
    {
        match self {
            HistoryEntry::Event(record) => Ok(record),
            HistoryEntry::Undecodable { error, .. } => Err(error),
        }
    }
}

/// Events after a cursor, oldest first, with the cursor that covers exactly them.
#[derive(Debug)]
pub struct HistoryPage {
    pub entries: Vec<HistoryEntry>,
    pub cursor: crate::history::HistoryCursor,
}

} // verus!
