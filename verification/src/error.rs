//! Errors of the operation log, the node and its sync facade.
use vstd::prelude::*;
use crate::ids::{OpId, Id32};

verus! {

/// Why an operation, a topic request or a storage step was refused.
#[derive(Clone, Debug)]
pub enum Error {
    /// The store is in a state it cannot answer from.
    Storage(String),
    /// No topic with that id is held here.
    TopicNotFound,
    /// The peer is not a member of the topic at the relevant position.
    NotTopicMember,
    /// The topic carries events of another type.
    EventTypeMismatch { expected: String, actual: String },
    /// A signature does not verify.
    InvalidSignature,
    /// A peer id is not an ed25519 verifying key.
    InvalidPublicKey,
    /// An operation id does not match its content, or its position is invalid.
    InvalidOpId,
    /// The signer is not the operation's author.
    WrongSigner,
    /// An actor position skips or repeats a sequence number.
    ActorSeqGap { expected: u64, actual: u64 },
    /// An actor's previous operation is not the one expected.
    ActorPrevMismatch,
    /// Two operations claim one actor position.
    ActorFork,
    /// An actor id does not belong to its author in the topic.
    ActorAuthorMismatch,
    /// Records of different topics were mixed.
    TopicMismatch,
    /// A dependency is not held.
    MissingDependency(OpId),
    /// A genesis operation is malformed or the topic exists.
    InvalidGenesis,
    /// A generation does not follow its dependencies.
    GenerationMismatch { expected: u64, actual: u64 },
    /// An operation sits behind one that was rejected.
    RejectedOp(OpId),
    /// A concurrent change won the race; retrying may succeed.
    AdmissionConflict,
    /// A cursor, stage or request names a replaced genesis.
    StaleIncarnation,
    /// The topic holds as many writers as it may.
    TopicFull,
    /// An operation does not fit one sync frame.
    OpTooLarge,
    /// Staging quotas refuse the incoming bytes.
    StagingCapacity(String),
    /// The data is staged until the topic's history proves membership; `staged` is
    /// each actor's position the staged history reaches.
    BootstrapPending { staged: Vec<(Id32, u64)> },
    /// Asynchronous replication needs an attached network.
    ReplicationUnavailable,
    /// The store must be reopened before it is written again.
    ReopenRequired,
    /// A payload could not be decoded.
    Decode(String),
    /// A sync message arrived where the protocol does not take it.
    UnexpectedMessage,
    /// The peer may not introduce a topic this node does not hold.
    PeerNotWhitelisted(Id32),
}

/// Whether an error says the signed operation itself can never be admitted.
pub open spec fn spec_is_permanent_rejection(e: Error) -> bool {
    ||| e is InvalidSignature
    ||| e is InvalidPublicKey
    ||| e is WrongSigner
    ||| e is ActorAuthorMismatch
    ||| e is TopicMismatch
    ||| e is GenerationMismatch
    ||| e is RejectedOp
    ||| e is OpTooLarge
}

/// Failures no later local state can turn into an admission: the signed op itself is invalid.
pub fn is_permanent_rejection(err: &Error) -> (r: bool)
    ensures r == spec_is_permanent_rejection(*err),
{
    match err {
        Error::InvalidSignature | Error::InvalidPublicKey | Error::WrongSigner
        | Error::ActorAuthorMismatch | Error::TopicMismatch | Error::GenerationMismatch { .. }
        | Error::RejectedOp(_) | Error::OpTooLarge => true,
        _ => false,
    }
}

/// Whether an error says the operation is invalid rather than the store.
pub open spec fn spec_is_semantic_rejection(e: Error) -> bool {
    ||| e is InvalidSignature
    ||| e is InvalidPublicKey
    ||| e is InvalidOpId
    ||| e is WrongSigner
    ||| e is EventTypeMismatch
    ||| e is TopicNotFound
    ||| e is NotTopicMember
    ||| e is ActorSeqGap
    ||| e is ActorPrevMismatch
    ||| e is ActorFork
    ||| e is ActorAuthorMismatch
    ||| e is TopicMismatch
    ||| e is MissingDependency
    ||| e is InvalidGenesis
    ||| e is Decode
}

/// Whether an error is a refusal of the data rather than a failure of the store.
pub fn is_semantic_rejection(err: &Error) -> (r: bool)
    ensures r == spec_is_semantic_rejection(*err),
{
    match err {
        Error::InvalidSignature | Error::InvalidPublicKey | Error::InvalidOpId
        | Error::WrongSigner | Error::EventTypeMismatch { .. } | Error::TopicNotFound
        | Error::NotTopicMember | Error::ActorSeqGap { .. } | Error::ActorPrevMismatch
        | Error::ActorFork | Error::ActorAuthorMismatch | Error::TopicMismatch
        | Error::MissingDependency(_) | Error::InvalidGenesis | Error::Decode(_) => true,
        _ => false,
    }
}

/// Whether an error may come from a concurrent admission, so a retry may succeed.
pub open spec fn spec_is_local_race(e: Error) -> bool {
    ||| e is AdmissionConflict
    ||| e is ActorSeqGap
    ||| e is ActorPrevMismatch
    ||| e is ActorFork
    ||| e is InvalidOpId
    ||| e is GenerationMismatch
}

/// Whether an error may come from a concurrent admission, so a retry may succeed.
pub fn is_local_race(err: &Error) -> (r: bool)
    ensures r == spec_is_local_race(*err),
{
    match err {
        Error::AdmissionConflict | Error::ActorSeqGap { .. } | Error::ActorPrevMismatch
        | Error::ActorFork | Error::InvalidOpId | Error::GenerationMismatch { .. } => true,
        _ => false,
    }
}

} // verus!
