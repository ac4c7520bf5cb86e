//! Pure steps of admission: heads, actor positions, control order and topic state.
use vstd::prelude::*;
use crate::ids::{Id32, OpId, PeerId, TopicId, ActorId};
use crate::idset::IdSet;
use crate::idmap::IdMap;
use crate::op::Op;
use crate::topic::{TopicPayload, TopicControl};
use crate::storage::{ActorTip, ControlKey, MembershipControl, TopicState, control_key_gt, control_key_after};
use crate::error::Error;

verus! {

/// The heads after `op` joins: its dependencies leave, it enters.
pub open spec fn spec_heads_after(current: Set<OpId>, op: Op) -> Set<OpId> {
    current.difference(op.signed.body.deps@).insert(op.id)
}

/// When `op` joins a topic whose heads are `current`, it becomes a head, none of
/// its other dependencies stays one, and every head it does not depend on stays.
pub proof fn lemma_heads_after(current: Set<OpId>, op: Op)
    ensures
        spec_heads_after(current, op).contains(op.id),
        forall|d: OpId| #[trigger] op.signed.body.deps@.contains(d) && d != op.id ==> !spec_heads_after(current, op).contains(d),
        forall|h: OpId| #[trigger] spec_heads_after(current, op).contains(h)
            <==> (h == op.id || (current.contains(h) && !op.signed.body.deps@.contains(h))),
{
}

/// The heads after `op` joins `current`.
pub fn heads_after(current: &IdSet, op: &Op) -> (r: IdSet)
    ensures
        r@ == spec_heads_after(current@, *op),
        r@.contains(op.id),
        forall|d: OpId| #[trigger] op.signed.body.deps@.contains(d) && d != op.id ==> !r@.contains(d),
        forall|h: OpId| #[trigger] r@.contains(h) <==> (h == op.id || (current@.contains(h) && !op.signed.body.deps@.contains(h))),
{
    let mut heads = current.duplicate();
    let deps = op.signed.body.deps.to_vec();
    let mut i: usize = 0;
    while i < deps.len()
        invariant
            i <= deps@.len(),
            deps@.to_set() == op.signed.body.deps@,
            heads@ == current@.difference(deps@.subrange(0, i as int).to_set()),
        decreases deps@.len() - i,
    {
        heads.remove(&deps[i]);
        proof {
            let s = deps@.subrange(0, i as int + 1);
            let t = deps@.subrange(0, i as int);
            assert(s.to_set() =~= t.to_set().insert(deps@[i as int])) by {
                assert forall|y: OpId| s.contains(y) <==> t.contains(y) || y == deps@[i as int] by {
                    if s.contains(y) {
                        let w = choose|w: int| 0 <= w < s.len() && s[w] == y;
                        if w < i { assert(t[w] == y); }
                    }
                    if t.contains(y) {
                        let w = choose|w: int| 0 <= w < t.len() && t[w] == y;
                        assert(s[w] == y);
                    }
                    if y == deps@[i as int] { assert(s[i as int] == y); }
                }
            }
            assert(heads@ =~= current@.difference(s.to_set()));
        }
        i += 1;
    }
    assert(deps@.subrange(0, deps@.len() as int) =~= deps@);
    heads.insert(op.id);
    proof { lemma_heads_after(current@, *op); }
    heads
}

/// The next position of an actor after `tip`.
pub open spec fn spec_next_actor_position(tip: Option<ActorTip>) -> Result<(u64, Option<OpId>), Error> {
    match tip {
        Some(t) => if t.seq == u64::MAX { Err(Error::InvalidOpId) } else { Ok(((t.seq + 1) as u64, Some(t.id))) },
        None => Ok((1, None)),
    }
}

/// The position after `value`, refusing overflow.
pub fn checked_next(value: u64) -> (r: Result<u64, Error>)
    ensures
        value < u64::MAX ==> (r matches Ok(v) && v == value + 1),
        value == u64::MAX ==> r matches Err(Error::InvalidOpId),
{
    if value == u64::MAX {
        Err(Error::InvalidOpId)
    } else {
        Ok(value + 1)
    }
}

/// The position an actor's next operation takes after `tip`.
pub fn next_actor_position(tip: Option<ActorTip>) -> (r: Result<(u64, Option<OpId>), Error>)
    ensures
        match (r, spec_next_actor_position(tip)) {
            (Ok(a), Ok(b)) => a == b,
            (Err(Error::InvalidOpId), Err(Error::InvalidOpId)) => true,
            _ => false,
        },
{
    match tip {
        Some(t) => {
            let seq = checked_next(t.seq)?;
            Ok((seq, Some(t.id)))
        },
        None => Ok((1, None)),
    }
}

/// Refuses an event type other than the topic's.
pub fn ensure_event_type(expected: &String, actual: &String) -> (r: Result<(), Error>)
    ensures
        r is Ok <==> expected@ == actual@,
        r matches Err(e) ==> e is EventTypeMismatch,
        r matches Err(Error::EventTypeMismatch { expected: x, actual: y }) ==> x@ == expected@ && y@ == actual@,
{
    if *expected == *actual {
        Ok(())
    } else {
        Err(Error::EventTypeMismatch { expected: expected.clone(), actual: actual.clone() })
    }
}

/// The order key of a control operation.
pub open spec fn spec_control_key(op: Op) -> ControlKey {
    ControlKey {
        generation: op.signed.body.generation,
        actor_id: op.signed.body.actor_id,
        actor_seq: op.signed.body.actor_seq,
        op_id: op.id,
    }
}

/// The order key of a control operation: generation, actor, position, id.
pub fn control_key(op: &Op) -> (r: ControlKey)
    ensures r == spec_control_key(*op),
{
    ControlKey {
        generation: op.signed.body.generation,
        actor_id: op.signed.body.actor_id,
        actor_seq: op.signed.body.actor_seq,
        op_id: op.id,
    }
}

/// Records a membership decision for `peer` unless a later control already decided it.
/// Returns whether the decision was recorded.
pub fn set_membership_control(
    controls: &mut IdMap<MembershipControl>,
    peer: PeerId,
    key: ControlKey,
    is_member: bool,
) -> (r: bool)
    ensures
        r == (!old(controls)@.contains_key(peer) || control_key_gt(key, old(controls)@[peer].key)),
        r ==> final(controls)@ == old(controls)@.insert(peer, MembershipControl { key, is_member }),
        !r ==> final(controls)@ == old(controls)@,
{
    let replace = match controls.get(&peer) {
        None => true,
        Some(current) => control_key_after(&key, &current.key),
    };
    if replace {
        controls.insert(peer, MembershipControl { key, is_member });
    }
    replace
}

/// Applies a control operation to a topic state: a membership change for a peer
/// takes effect unless a later control decided that peer; a policy change unless
/// a later one was applied.
pub fn apply_control_to_state(state: &mut TopicState, op: &Op, control: &TopicControl)
    ensures
        final(state).topic_id == old(state).topic_id,
        final(state).genesis == old(state).genesis,
        final(state).event_type_id == old(state).event_type_id,
        final(state).heads == old(state).heads,
        match *control {
            TopicControl::AddPeer { peer } => {
                (if !old(state).membership_controls@.contains_key(peer)
                    || control_key_gt(spec_control_key(*op), old(state).membership_controls@[peer].key) {
                    final(state).members@ == old(state).members@.insert(peer)
                        && final(state).membership_controls@ == old(state).membership_controls@.insert(peer,
                            MembershipControl { key: spec_control_key(*op), is_member: true })
                } else {
                    final(state).members@ == old(state).members@
                        && final(state).membership_controls@ == old(state).membership_controls@
                })
                && final(state).replication_policy_key == old(state).replication_policy_key
                && final(state).replication_policy.selected_peers@ == old(state).replication_policy.selected_peers@
                && final(state).replication_policy.max_sync_peers == old(state).replication_policy.max_sync_peers
            },
            TopicControl::RemovePeer { peer } => {
                (if !old(state).membership_controls@.contains_key(peer)
                    || control_key_gt(spec_control_key(*op), old(state).membership_controls@[peer].key) {
                    final(state).members@ == old(state).members@.remove(peer)
                        && final(state).membership_controls@ == old(state).membership_controls@.insert(peer,
                            MembershipControl { key: spec_control_key(*op), is_member: false })
                } else {
                    final(state).members@ == old(state).members@
                        && final(state).membership_controls@ == old(state).membership_controls@
                })
                && final(state).replication_policy_key == old(state).replication_policy_key
                && final(state).replication_policy.selected_peers@ == old(state).replication_policy.selected_peers@
                && final(state).replication_policy.max_sync_peers == old(state).replication_policy.max_sync_peers
            },
            TopicControl::SetReplicationPolicy { policy } => {
                &&& final(state).members@ == old(state).members@
                &&& final(state).membership_controls@ == old(state).membership_controls@
                &&& (old(state).replication_policy_key is None
                    || control_key_gt(spec_control_key(*op), old(state).replication_policy_key->0))
                    ==> final(state).replication_policy_key == Some(spec_control_key(*op))
                        && final(state).replication_policy.selected_peers@ == policy.selected_peers@
                        && final(state).replication_policy.max_sync_peers == policy.max_sync_peers
                &&& !(old(state).replication_policy_key is None
                    || control_key_gt(spec_control_key(*op), old(state).replication_policy_key->0))
                    ==> final(state).replication_policy_key == old(state).replication_policy_key
                        && final(state).replication_policy.selected_peers@ == old(state).replication_policy.selected_peers@
                        && final(state).replication_policy.max_sync_peers == old(state).replication_policy.max_sync_peers
            },
        },
{
    let key = control_key(op);
    match control {
        TopicControl::AddPeer { peer } => {
            if set_membership_control(&mut state.membership_controls, *peer, key, true) {
                state.members.insert(*peer);
            }
        },
        TopicControl::RemovePeer { peer } => {
            if set_membership_control(&mut state.membership_controls, *peer, key, false) {
                state.members.remove(peer);
            }
        },
        TopicControl::SetReplicationPolicy { policy } => {
            let later = match &state.replication_policy_key {
                None => true,
                Some(current) => control_key_after(&key, current),
            };
            if later {
                state.replication_policy_key = Some(key);
                state.replication_policy = policy.duplicate();
            }
        },
    }
}

} // verus!
