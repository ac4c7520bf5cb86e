//! The causal past of a position and the topic state it materializes.
use vstd::prelude::*;
use crate::ids::{Id32, OpId, PeerId, TopicId};
use crate::idset::IdSet;
use crate::idmap::IdMap;
use crate::op::Op;
use crate::topic::{TopicPayload, TopicControl, ReplicationPolicy};
use crate::storage::{MemoryStorage, StoredOp, TopicState, MembershipControl, ControlKey, control_key_gt, control_key_after};
use crate::error::Error;
use crate::oplog::helpers::{set_membership_control, control_key, spec_control_key};

verus! {

/// Whether `id` is held with its record, filed under itself, in `topic`.
pub open spec fn held_in(ops: Map<OpId, StoredOp>, topic: TopicId, id: OpId) -> bool {
    &&& ops.contains_key(id)
    &&& ops[id].has_record
    &&& ops[id].op.id == id
    &&& ops[id].op.signed.body.topic_id == topic
}

/// Whether `set` holds only records of `topic` and every dependency of each of them.
pub open spec fn causally_closed(ops: Map<OpId, StoredOp>, topic: TopicId, set: Set<OpId>) -> bool {
    forall|id: OpId| #[trigger] set.contains(id) ==> {
        &&& held_in(ops, topic, id)
        &&& ops[id].op.signed.body.deps@.subset_of(set)
    }
}

/// Whether `set` is the causal past of `deps`: the least causally closed set holding them.
pub open spec fn is_causal_past(ops: Map<OpId, StoredOp>, topic: TopicId, deps: Set<OpId>, set: Set<OpId>) -> bool {
    &&& deps.subset_of(set)
    &&& causally_closed(ops, topic, set)
    &&& forall|s: Set<OpId>| #[trigger] causally_closed(ops, topic, s) && deps.subset_of(s) ==> set.subset_of(s)
}

/// The causal past of `deps`: the dependencies and everything they depend on. Every
/// member is a held record of `topic`; a record that is absent or of another topic fails.
pub fn causal_past(store: &MemoryStorage, topic: &TopicId, deps: &IdSet) -> (r: Result<IdSet, Error>)
    ensures
        r matches Ok(set) ==> is_causal_past(store.ops_map(), *topic, deps@, set@),
        r matches Err(e) ==> (e is MissingDependency || e is TopicMismatch),
        r is Ok <==> exists|s: Set<OpId>| #[trigger] causally_closed(store.ops_map(), *topic, s) && deps@.subset_of(s),
{
    let total = store.op_count();
    let mut visited = IdSet::new();
    let mut work: Vec<OpId> = deps.to_vec();
    while work.len() > 0
        invariant
            total == store.ops_map().dom().len(),
            store.ops_map().dom().finite(),
            forall|id: OpId| #[trigger] visited@.contains(id) ==> held_in(store.ops_map(), *topic, id),
            forall|id: OpId| #[trigger] visited@.contains(id) ==>
                (forall|d: OpId| #[trigger] store.ops_map()[id].op.signed.body.deps@.contains(d) ==> visited@.contains(d) || work@.contains(d)),
            forall|d: OpId| #[trigger] deps@.contains(d) ==> visited@.contains(d) || work@.contains(d),
            forall|s: Set<OpId>| #[trigger] causally_closed(store.ops_map(), *topic, s) && deps@.subset_of(s) ==>
                visited@.subset_of(s) && (forall|x: OpId| #[trigger] work@.contains(x) ==> s.contains(x)),
        decreases total - visited@.len(), work@.len(),
    {
        proof {
            vstd::set_lib::lemma_len_subset(visited@, store.ops_map().dom());
        }
        let ghost work_before_pop = work@;
        let id = work.pop().unwrap();
        proof {
            assert(work_before_pop =~= work@.push(id));
            assert forall|d: OpId| #[trigger] work_before_pop.contains(d) implies d == id || work@.contains(d) by {
                let w = choose|w: int| 0 <= w < work_before_pop.len() && work_before_pop[w] == d;
                if w < work@.len() {
                    assert(work@[w] == d);
                }
            }
            assert forall|x: OpId| #[trigger] work@.contains(x) implies work_before_pop.contains(x) by {
                let w = choose|w: int| 0 <= w < work@.len() && work@[w] == x;
                assert(work_before_pop[w] == x);
            }
        }
        if visited.contains(&id) {
            continue;
        }
        proof {
            if exists|s: Set<OpId>| #[trigger] causally_closed(store.ops_map(), *topic, s) && deps@.subset_of(s) {
                let s = choose|s: Set<OpId>| #[trigger] causally_closed(store.ops_map(), *topic, s) && deps@.subset_of(s);
                assert(work_before_pop.contains(id));
                assert(s.contains(id));
                assert(held_in(store.ops_map(), *topic, id));
            }
        }
        let op = match store.get_op(&id) {
            Some(op) => op,
            None => return Err(Error::MissingDependency(id)),
        };
        if !op.signed.body.topic_id.same(topic) {
            return Err(Error::TopicMismatch);
        }
        let ghost before_visited = visited@;
        let ghost before_work = work@;
        visited.insert(id);
        let next = op.signed.body.deps.to_vec();
        let mut j: usize = 0;
        while j < next.len()
            invariant
                j <= next@.len(),
                next@.to_set() == store.ops_map()[id].op.signed.body.deps@,
                work@ == before_work + next@.subrange(0, j as int),
                forall|k: int| 0 <= k < next@.len() ==> store.ops_map()[id].op.signed.body.deps@.contains(#[trigger] next@[k]),
            decreases next@.len() - j,
        {
            work.push(next[j]);
            j += 1;
            assert(work@ =~= before_work + next@.subrange(0, j as int));
        }
        proof {
            assert(next@.subrange(0, next@.len() as int) =~= next@);
            assert forall|x: OpId| before_work.contains(x) implies work@.contains(x) by {
                let w = choose|w: int| 0 <= w < before_work.len() && before_work[w] == x;
                assert(work@[w] == x);
            }
            assert forall|d: OpId| #[trigger] store.ops_map()[id].op.signed.body.deps@.contains(d) implies work@.contains(d) by {
                assert(next@.to_set().contains(d));
                let w = choose|w: int| 0 <= w < next@.len() && next@[w] == d;
                assert(work@[before_work.len() + w] == d);
            }
            assert(!before_visited.contains(id));
            assert(visited@.len() == before_visited.len() + 1);
            assert(visited@.subset_of(store.ops_map().dom()));
            vstd::set_lib::lemma_len_subset(visited@, store.ops_map().dom());
            assert forall|s: Set<OpId>| #[trigger] causally_closed(store.ops_map(), *topic, s) && deps@.subset_of(s) implies
                visited@.subset_of(s) && (forall|x: OpId| #[trigger] work@.contains(x) ==> s.contains(x)) by {
                assert(work_before_pop.contains(id));
                assert(s.contains(id));
                assert forall|x: OpId| #[trigger] work@.contains(x) implies s.contains(x) by {
                    let w = choose|w: int| 0 <= w < work@.len() && work@[w] == x;
                    if w < before_work.len() {
                        assert(before_work[w] == x);
                        assert(work_before_pop.contains(x));
                    } else {
                        assert(next@[w - before_work.len()] == x);
                        assert(store.ops_map()[id].op.signed.body.deps@.contains(x));
                    }
                }
            }
        }
    }
    proof { assert(causally_closed(store.ops_map(), *topic, visited@) && deps@.subset_of(visited@)); }
    Ok(visited)
}

/// The membership decision a control operation makes, if it is one.
pub open spec fn membership_target(op: Op) -> Option<(PeerId, bool)> {
    match op.signed.body.payload {
        TopicPayload::Control(TopicControl::AddPeer { peer }) => Some((peer, true)),
        TopicPayload::Control(TopicControl::RemovePeer { peer }) => Some((peer, false)),
        _ => None,
    }
}

/// Whether `controls` holds, for each peer a control among `ids` names, the
/// decision of the latest such control, and nothing else.
pub open spec fn latest_controls(ops: Map<OpId, StoredOp>, ids: Set<OpId>, controls: Map<PeerId, MembershipControl>) -> bool {
    &&& forall|p: PeerId| #[trigger] controls.contains_key(p) ==> exists|id: OpId| #[trigger] ids.contains(id)
        && membership_target(ops[id].op) == Some((p, controls[p].is_member))
        && spec_control_key(ops[id].op) == controls[p].key
    &&& forall|id: OpId| #[trigger] ids.contains(id) && membership_target(ops[id].op) is Some ==> {
        let p = membership_target(ops[id].op).unwrap().0;
        &&& controls.contains_key(p)
        &&& (spec_control_key(ops[id].op) == controls[p].key || !control_key_gt(spec_control_key(ops[id].op), controls[p].key))
    }
}

/// The replication policy a control operation sets, if it is one.
pub open spec fn policy_target(op: Op) -> Option<ReplicationPolicy> {
    match op.signed.body.payload {
        TopicPayload::Control(TopicControl::SetReplicationPolicy { policy }) => Some(policy),
        _ => None,
    }
}

/// Whether two policies select the same peers with the same bound.
pub open spec fn same_policy(a: ReplicationPolicy, b: ReplicationPolicy) -> bool {
    a.selected_peers@ == b.selected_peers@ && a.max_sync_peers == b.max_sync_peers
}

/// Whether `key` is the key of the latest policy control among `ids`, or `None` when
/// there is none.
pub open spec fn latest_policy(ops: Map<OpId, StoredOp>, ids: Set<OpId>, key: Option<ControlKey>) -> bool {
    &&& key matches Some(k) ==> exists|id: OpId| #[trigger] ids.contains(id)
        && policy_target(ops[id].op) is Some && spec_control_key(ops[id].op) == k
    &&& forall|id: OpId| #[trigger] ids.contains(id) && policy_target(ops[id].op) is Some ==>
        (key matches Some(k) && (spec_control_key(ops[id].op) == k || !control_key_gt(spec_control_key(ops[id].op), k)))
}

/// The key and position in `v` of the latest policy control among the records `v` names.
fn latest_policy_control(store: &MemoryStorage, v: &Vec<OpId>) -> (r: Option<(ControlKey, usize)>)
    requires
        forall|j: int| 0 <= j < v@.len() ==> store.ops_map().contains_key(#[trigger] v@[j])
            && store.ops_map()[v@[j]].has_record && store.ops_map()[v@[j]].op.id == v@[j],
    ensures
        latest_policy(store.ops_map(), v@.to_set(), match r { Some((k, _)) => Some(k), None => None }),
        r matches Some((k, at)) ==> at < v@.len() && spec_control_key(store.ops_map()[v@[at as int]].op) == k
            && policy_target(store.ops_map()[v@[at as int]].op) is Some,
{
    let mut best: Option<(ControlKey, usize)> = None;
    let mut i: usize = 0;
    while i < v.len()
        invariant
            i <= v@.len(),
            forall|j: int| 0 <= j < v@.len() ==> store.ops_map().contains_key(#[trigger] v@[j])
            && store.ops_map()[v@[j]].has_record && store.ops_map()[v@[j]].op.id == v@[j],
            best matches Some((k, at)) ==> at < i && spec_control_key(store.ops_map()[v@[at as int]].op) == k
                && policy_target(store.ops_map()[v@[at as int]].op) is Some,
            forall|j: int| 0 <= j < i && #[trigger] policy_target(store.ops_map()[v@[j]].op) is Some ==>
                (best matches Some((k, _)) && (spec_control_key(store.ops_map()[v@[j]].op) == k
                    || !control_key_gt(spec_control_key(store.ops_map()[v@[j]].op), k))),
        decreases v@.len() - i,
    {
        let op = match store.get_op(&v[i]) {
            Some(op) => op,
            None => { proof { assert(false); } return None; },
        };
        if let TopicPayload::Control(TopicControl::SetReplicationPolicy { .. }) = &op.signed.body.payload {
            let key = control_key(op);
            let later = match &best {
                None => true,
                Some((current, _)) => control_key_after(&key, current),
            };
            if later {
                let ghost prev = best;
                best = Some((key, i));
                proof {
                    assert forall|j: int| 0 <= j < i + 1 && #[trigger] policy_target(store.ops_map()[v@[j]].op) is Some implies
                        (spec_control_key(store.ops_map()[v@[j]].op) == key
                            || !control_key_gt(spec_control_key(store.ops_map()[v@[j]].op), key)) by {
                        if j < i {
                            let kj = spec_control_key(store.ops_map()[v@[j]].op);
                            let pk = prev.unwrap().0;
                            lemma_control_key_order(kj, pk, key);
                        }
                    }
                }
            }
        }
        i += 1;
    }
    proof {
        let key = match best { Some((k, _)) => Some(k), None => None };
        if let Some((k, at)) = best {
            assert(v@.to_set().contains(v@[at as int]));
        }
        assert forall|id: OpId| #[trigger] v@.to_set().contains(id) && policy_target(store.ops_map()[id].op) is Some implies
            (key matches Some(k) && (spec_control_key(store.ops_map()[id].op) == k || !control_key_gt(spec_control_key(store.ops_map()[id].op), k))) by {
            let w = choose|w: int| 0 <= w < v@.len() && v@[w] == id;
            assert(policy_target(store.ops_map()[v@[w]].op) is Some);
        }
    }
    best
}

/// The topic state that the operations `ids` of `topic` materialize with `heads`: the
/// genesis's event type and policy, and its initial peers changed by the latest
/// membership control of each peer.
pub fn materialize_topic_state(store: &MemoryStorage, topic: &TopicId, ids: &IdSet, heads: IdSet) -> (r: Result<TopicState, Error>)
    requires
        forall|id: OpId| #[trigger] ids@.contains(id) ==> held_in(store.ops_map(), *topic, id),
    ensures
        r matches Ok(st) ==> {
            &&& ids@.contains(st.genesis)
            &&& store.ops_map()[st.genesis].op.signed.body.payload is Genesis
            &&& st.topic_id == *topic
            &&& st.heads@ == heads@
            &&& latest_controls(store.ops_map(), ids@, st.membership_controls@)
            &&& forall|p: PeerId| #[trigger] st.members@.contains(p) <==> (if st.membership_controls@.contains_key(p) {
                    st.membership_controls@[p].is_member
                } else {
                    store.ops_map()[st.genesis].op.signed.body.payload->Genesis_0.initial_peers@.contains(p)
                })
            &&& latest_policy(store.ops_map(), ids@, st.replication_policy_key)
            &&& match st.replication_policy_key {
                Some(k) => exists|id: OpId| #[trigger] ids@.contains(id)
                    && spec_control_key(store.ops_map()[id].op) == k
                    && (policy_target(store.ops_map()[id].op) matches Some(p)
                    && same_policy(st.replication_policy, p)),
                None => same_policy(st.replication_policy,
                    store.ops_map()[st.genesis].op.signed.body.payload->Genesis_0.replication_policy),
            }
        },
        r matches Err(e) ==> e is TopicNotFound && forall|id: OpId| #[trigger] ids@.contains(id)
            ==> !(store.ops_map()[id].op.signed.body.payload is Genesis),
{
    let v = ids.to_vec();
    let mut genesis: Option<OpId> = None;
    let mut controls: IdMap<MembershipControl> = IdMap::new();
    let mut i: usize = 0;
    while i < v.len()
        invariant
            i <= v@.len(),
            v@.to_set() == ids@,
            forall|id: OpId| #[trigger] ids@.contains(id) ==> held_in(store.ops_map(), *topic, id),
            genesis matches Some(g) ==> ids@.contains(g) && store.ops_map()[g].op.signed.body.payload is Genesis,
            genesis is None ==> forall|j: int| 0 <= j < i ==> !(store.ops_map()[#[trigger] v@[j]].op.signed.body.payload is Genesis),
            latest_controls(store.ops_map(), v@.subrange(0, i as int).to_set(), controls@),
        decreases v@.len() - i,
    {
        let id = v[i];
        let ghost prefix = v@.subrange(0, i as int).to_set();
        let ghost next = v@.subrange(0, i as int + 1).to_set();
        proof {
            assert(next =~= prefix.insert(id)) by {
                let s = v@.subrange(0, i as int + 1);
                let t = v@.subrange(0, i as int);
                assert forall|y: OpId| s.contains(y) <==> t.contains(y) || y == id by {
                    if s.contains(y) {
                        let w = choose|w: int| 0 <= w < s.len() && s[w] == y;
                        if w < i { assert(t[w] == y); }
                    }
                    if t.contains(y) {
                        let w = choose|w: int| 0 <= w < t.len() && t[w] == y;
                        assert(s[w] == y);
                    }
                    if y == id { assert(s[i as int] == y); }
                }
            }
            assert(ids@.contains(id));
        }
        let op = match store.get_op(&id) {
            Some(op) => op,
            None => { proof { assert(false); } return Err(Error::TopicNotFound); },
        };
        let ghost before = controls@;
        match &op.signed.body.payload {
            TopicPayload::Genesis(_) => {
                genesis = Some(id);
                proof {
                    assert forall|p: PeerId| #[trigger] controls@.contains_key(p) implies exists|x: OpId| #[trigger] next.contains(x)
                        && membership_target(store.ops_map()[x].op) == Some((p, controls@[p].is_member))
                        && spec_control_key(store.ops_map()[x].op) == controls@[p].key by {
                        let x = choose|x: OpId| #[trigger] prefix.contains(x)
                            && membership_target(store.ops_map()[x].op) == Some((p, controls@[p].is_member))
                            && spec_control_key(store.ops_map()[x].op) == controls@[p].key;
                        assert(next.contains(x));
                    }
                }
            },
            TopicPayload::Control(TopicControl::AddPeer { peer }) => {
                let key = control_key(op);
                set_membership_control(&mut controls, *peer, key, true);
                proof { lemma_controls_step(store.ops_map(), prefix, id, before, controls@); }
            },
            TopicPayload::Control(TopicControl::RemovePeer { peer }) => {
                let key = control_key(op);
                set_membership_control(&mut controls, *peer, key, false);
                proof { lemma_controls_step(store.ops_map(), prefix, id, before, controls@); }
            },
            TopicPayload::Control(TopicControl::SetReplicationPolicy { .. }) => {
                proof {
                    assert forall|p: PeerId| #[trigger] controls@.contains_key(p) implies exists|x: OpId| #[trigger] next.contains(x)
                        && membership_target(store.ops_map()[x].op) == Some((p, controls@[p].is_member))
                        && spec_control_key(store.ops_map()[x].op) == controls@[p].key by {
                        let x = choose|x: OpId| #[trigger] prefix.contains(x)
                            && membership_target(store.ops_map()[x].op) == Some((p, controls@[p].is_member))
                            && spec_control_key(store.ops_map()[x].op) == controls@[p].key;
                        assert(next.contains(x));
                    }
                }
            },
            TopicPayload::Event(_) => {
                proof {
                    assert forall|p: PeerId| #[trigger] controls@.contains_key(p) implies exists|x: OpId| #[trigger] next.contains(x)
                        && membership_target(store.ops_map()[x].op) == Some((p, controls@[p].is_member))
                        && spec_control_key(store.ops_map()[x].op) == controls@[p].key by {
                        let x = choose|x: OpId| #[trigger] prefix.contains(x)
                            && membership_target(store.ops_map()[x].op) == Some((p, controls@[p].is_member))
                            && spec_control_key(store.ops_map()[x].op) == controls@[p].key;
                        assert(next.contains(x));
                    }
                }
            },
        }
        i += 1;
    }
    proof {
        assert(v@.subrange(0, v@.len() as int) =~= v@);
    }
    let genesis_id = match genesis {
        Some(g) => g,
        None => {
            proof {
                assert forall|id: OpId| #[trigger] ids@.contains(id) implies !(store.ops_map()[id].op.signed.body.payload is Genesis) by {
                    let w = choose|w: int| 0 <= w < v@.len() && v@[w] == id;
                }
            }
            return Err(Error::TopicNotFound);
        },
    };
    let genesis_op = match store.get_op(&genesis_id) {
        Some(op) => op,
        None => { proof { assert(false); } return Err(Error::TopicNotFound); },
    };
    let created = match &genesis_op.signed.body.payload {
        TopicPayload::Genesis(g) => g,
        _ => { proof { assert(false); } return Err(Error::TopicNotFound); },
    };
    let mut members = created.initial_peers.duplicate();
    controls.check_keys();
    let n = controls.len();
    let mut j: usize = 0;
    while j < n
        invariant
            j <= n,
            n == controls.key_seq().len(),
            controls.key_seq().no_duplicates(),
            forall|k: PeerId| controls@.contains_key(k) <==> controls.key_seq().contains(k),
            forall|p: PeerId| #[trigger] members@.contains(p) <==> (if controls.key_seq().subrange(0, j as int).contains(p) {
                controls@[p].is_member
            } else {
                created.initial_peers@.contains(p)
            }),
        decreases n - j,
    {
        let p = controls.key_at(j);
        let decision = controls.value_at(j).is_member;
        let ghost before = members@;
        if decision {
            members.insert(p);
        } else {
            members.remove(&p);
        }
        proof {
            let s = controls.key_seq().subrange(0, j as int + 1);
            let t = controls.key_seq().subrange(0, j as int);
            assert forall|y: PeerId| s.contains(y) <==> t.contains(y) || y == p by {
                if s.contains(y) {
                    let w = choose|w: int| 0 <= w < s.len() && s[w] == y;
                    if w < j { assert(t[w] == y); }
                }
                if t.contains(y) {
                    let w = choose|w: int| 0 <= w < t.len() && t[w] == y;
                    assert(s[w] == y);
                }
                if y == p { assert(s[j as int] == y); }
            }
            assert forall|q: PeerId| #[trigger] members@.contains(q) <==> (if s.contains(q) {
                controls@[q].is_member
            } else {
                created.initial_peers@.contains(q)
            }) by {
                if q != p {
                    assert(members@.contains(q) == before.contains(q));
                }
            }
        }
        j += 1;
    }
    proof {
        assert(controls.key_seq().subrange(0, n as int) =~= controls.key_seq());
    }
    proof {
        assert forall|j: int| 0 <= j < v@.len() implies store.ops_map().contains_key(#[trigger] v@[j])
            && store.ops_map()[v@[j]].has_record && store.ops_map()[v@[j]].op.id == v@[j] by {
            assert(v@.to_set().contains(v@[j]));
        }
    }
    let (replication_policy, replication_policy_key) = match latest_policy_control(store, &v) {
        Some((key, at)) => {
            let op_at = match store.get_op(&v[at]) {
                Some(op) => op,
                None => { proof { assert(false); } return Err(Error::TopicNotFound); },
            };
            match &op_at.signed.body.payload {
                TopicPayload::Control(TopicControl::SetReplicationPolicy { policy }) => (policy.duplicate(), Some(key)),
                _ => { proof { assert(false); } return Err(Error::TopicNotFound); },
            }
        },
        None => (created.replication_policy.duplicate(), None),
    };
    Ok(TopicState {
        topic_id: *topic,
        event_type_id: created.event_type_id.clone(),
        genesis: genesis_id,
        heads,
        members,
        replication_policy,
        membership_controls: controls,
        replication_policy_key,
    })
}

proof fn lemma_controls_step(
    ops: Map<OpId, StoredOp>,
    prefix: Set<OpId>,
    id: OpId,
    before: Map<PeerId, MembershipControl>,
    after: Map<PeerId, MembershipControl>,
)
    requires
        latest_controls(ops, prefix, before),
        membership_target(ops[id].op) is Some,
        ({
            let p = membership_target(ops[id].op).unwrap().0;
            let m = membership_target(ops[id].op).unwrap().1;
            let key = spec_control_key(ops[id].op);
            if !before.contains_key(p) || control_key_gt(key, before[p].key) {
                after == before.insert(p, MembershipControl { key, is_member: m })
            } else {
                after == before
            }
        }),
    ensures
        latest_controls(ops, prefix.insert(id), after),
{
    let p = membership_target(ops[id].op).unwrap().0;
    let key = spec_control_key(ops[id].op);
    let next = prefix.insert(id);
    assert forall|q: PeerId| #[trigger] after.contains_key(q) implies exists|x: OpId| #[trigger] next.contains(x)
        && membership_target(ops[x].op) == Some((q, after[q].is_member))
        && spec_control_key(ops[x].op) == after[q].key by {
        if q == p && (!before.contains_key(p) || control_key_gt(key, before[p].key)) {
            assert(next.contains(id));
        } else {
            let x = choose|x: OpId| #[trigger] prefix.contains(x)
                && membership_target(ops[x].op) == Some((q, before[q].is_member))
                && spec_control_key(ops[x].op) == before[q].key;
            assert(next.contains(x));
        }
    }
    crate::ids::lemma_id_order();
    assert forall|x: OpId| #[trigger] next.contains(x) && membership_target(ops[x].op) is Some implies {
        let q = membership_target(ops[x].op).unwrap().0;
        &&& after.contains_key(q)
        &&& (spec_control_key(ops[x].op) == after[q].key || !control_key_gt(spec_control_key(ops[x].op), after[q].key))
    } by {
        let q = membership_target(ops[x].op).unwrap().0;
        if x != id && q == p && (!before.contains_key(p) || control_key_gt(key, before[p].key)) {
            assert(prefix.contains(x));
            lemma_control_key_order(spec_control_key(ops[x].op), before[p].key, key);
        }
    }
}

/// The control-key order is a strict total order that is transitive.
pub proof fn lemma_control_key_order(a: ControlKey, b: ControlKey, c: ControlKey)
    requires
        a == b || !control_key_gt(a, b),
        control_key_gt(c, b),
    ensures
        a == c || !control_key_gt(a, c),
{
    crate::ids::lemma_id_order();
}

/// Whether `peer` is a member at the DAG position `deps` of `topic`: in the state its
/// causal past materializes, by the latest membership control naming it or else by
/// the genesis.
pub open spec fn member_at(ops: Map<OpId, StoredOp>, topic: TopicId, deps: Set<OpId>, peer: PeerId) -> bool {
    exists|past: Set<OpId>, controls: Map<PeerId, MembershipControl>, g: OpId|
        #![trigger is_causal_past(ops, topic, deps, past), latest_controls(ops, past, controls), past.contains(g)]
        is_causal_past(ops, topic, deps, past) && latest_controls(ops, past, controls)
        && past.contains(g) && ops[g].op.signed.body.payload is Genesis
        && (if controls.contains_key(peer) {
            controls[peer].is_member
        } else {
            ops[g].op.signed.body.payload->Genesis_0.initial_peers@.contains(peer)
        })
}

/// Whether `peer` is a member at the DAG position `deps` of `topic` however its
/// causal past, latest controls and genesis are read: the state there names it.
pub open spec fn member_everywhere(ops: Map<OpId, StoredOp>, topic: TopicId, deps: Set<OpId>, peer: PeerId) -> bool {
    forall|past: Set<OpId>, controls: Map<PeerId, MembershipControl>, g: OpId|
        #![trigger is_causal_past(ops, topic, deps, past), latest_controls(ops, past, controls), past.contains(g)]
        is_causal_past(ops, topic, deps, past) && latest_controls(ops, past, controls)
        && past.contains(g) && ops[g].op.signed.body.payload is Genesis
        ==> (if controls.contains_key(peer) {
            controls[peer].is_member
        } else {
            ops[g].op.signed.body.payload->Genesis_0.initial_peers@.contains(peer)
        })
}

/// Whether the DAG position `deps` of `topic` has a state: its causal past exists
/// and holds a genesis.
pub open spec fn position_readable(ops: Map<OpId, StoredOp>, topic: TopicId, deps: Set<OpId>) -> bool {
    exists|past: Set<OpId>, g: OpId| #[trigger] is_causal_past(ops, topic, deps, past) && #[trigger] past.contains(g)
        && ops[g].op.signed.body.payload is Genesis
}

/// A position has one causal past.
pub proof fn lemma_causal_past_unique(ops: Map<OpId, StoredOp>, topic: TopicId, deps: Set<OpId>, a: Set<OpId>, b: Set<OpId>)
    requires
        is_causal_past(ops, topic, deps, a),
        is_causal_past(ops, topic, deps, b),
    ensures a == b,
{
    assert(causally_closed(ops, topic, b) && deps.subset_of(b));
    assert(causally_closed(ops, topic, a) && deps.subset_of(a));
    assert(a =~= b);
}

/// The topic state at the DAG position `deps`: materialized from their causal past.
pub fn state_for_deps(store: &MemoryStorage, topic: &TopicId, deps: &IdSet) -> (r: Result<TopicState, Error>)
    ensures
        r matches Ok(st) ==> forall|p: PeerId| #[trigger] st.members@.contains(p) ==> member_at(store.ops_map(), *topic, deps@, p),
        r matches Ok(st) ==> st.topic_id == *topic,
        r is Ok <==> position_readable(store.ops_map(), *topic, deps@),
        r matches Err(e) ==> e is MissingDependency || e is TopicMismatch || e is TopicNotFound,
        r matches Ok(st) ==> forall|p: PeerId| #[trigger] member_everywhere(store.ops_map(), *topic, deps@, p)
            ==> st.members@.contains(p),
{
    let past = match causal_past(store, topic, deps) {
        Ok(p) => p,
        Err(e) => {
            proof {
                if position_readable(store.ops_map(), *topic, deps@) {
                    let (pa, g) = choose|pa: Set<OpId>, g: OpId| #[trigger] is_causal_past(store.ops_map(), *topic, deps@, pa)
                        && #[trigger] pa.contains(g) && store.ops_map()[g].op.signed.body.payload is Genesis;
                    assert(causally_closed(store.ops_map(), *topic, pa) && deps@.subset_of(pa));
                }
            }
            return Err(e);
        },
    };
    let st = match materialize_topic_state(store, topic, &past, IdSet::new()) {
        Ok(st) => st,
        Err(e) => {
            proof {
                if position_readable(store.ops_map(), *topic, deps@) {
                    let (pa, g) = choose|pa: Set<OpId>, g: OpId| #[trigger] is_causal_past(store.ops_map(), *topic, deps@, pa)
                        && #[trigger] pa.contains(g) && store.ops_map()[g].op.signed.body.payload is Genesis;
                    lemma_causal_past_unique(store.ops_map(), *topic, deps@, pa, past@);
                    assert(past@.contains(g));
                }
            }
            return Err(e);
        },
    };
    proof {
        assert(is_causal_past(store.ops_map(), *topic, deps@, past@) && past@.contains(st.genesis));
    }
    proof {
        assert forall|p: PeerId| #[trigger] member_everywhere(store.ops_map(), *topic, deps@, p) implies st.members@.contains(p) by {
            assert(is_causal_past(store.ops_map(), *topic, deps@, past@));
            assert(latest_controls(store.ops_map(), past@, st.membership_controls@));
            assert(past@.contains(st.genesis));
        }
        assert forall|p: PeerId| #[trigger] st.members@.contains(p) implies member_at(store.ops_map(), *topic, deps@, p) by {
            let g = st.genesis;
            let controls = st.membership_controls@;
            assert(is_causal_past(store.ops_map(), *topic, deps@, past@));
            assert(latest_controls(store.ops_map(), past@, controls));
            assert(past@.contains(g));
        }
    }
    Ok(st)
}

} // verus!
