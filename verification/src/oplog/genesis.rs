//! Genesis collisions: two nodes opening one topic at once, and the ops they discard.
use vstd::prelude::*;
use crate::ids::{Id32, OpId, PeerId, TopicId, ActorId, id_lt, lemma_id_order};
use crate::idset::IdSet;
use crate::op::{Op, spec_is_structural_genesis, is_structural_genesis};
use crate::topic::TopicPayload;
use crate::storage::{MemoryStorage, StoredOp, TopicState};
use crate::eviction::{EvictedOp, TopicEviction};
use crate::order::{SortKey, key_lt, keys_sorted, sort_keys};
use crate::oplog::Oplog;
use crate::oplog::local::held_whole;
use crate::storage::spec_topic_ids;
use crate::topic::same_payload;

verus! {

/// What a received genesis does to a topic.
#[derive(Clone, Copy, Debug, PartialEq, Eq, Structural)]
pub enum GenesisVerdict {
    /// The topic is not held: the genesis opens it.
    Open,
    /// The genesis is the one held: ordinary deduplication applies.
    Same,
    /// The genesis wins the tie-break: the held chain is reset for it.
    Replace,
    /// The held genesis stays: the received one and its descendants are refused.
    Reject,
}

/// Whether `candidate` names exactly the initial peers of `current`, its own author
/// among them. Only geneses compare.
pub open spec fn same_peers(current: Op, candidate: Op) -> bool {
    &&& current.signed.body.payload is Genesis
    &&& candidate.signed.body.payload is Genesis
    &&& candidate.signed.body.payload->Genesis_0.initial_peers@ == current.signed.body.payload->Genesis_0.initial_peers@
    &&& candidate.signed.body.payload->Genesis_0.initial_peers@.contains(candidate.signed.body.author)
}

/// The verdict on `incoming` for a topic whose genesis is `local_id`, held as
/// `local_op` when its record is readable. A smaller genesis replaces the held one
/// only if it names the same initial peers, its author among them; an unreadable
/// held genesis matches nothing.
pub open spec fn genesis_verdict_of(local_id: Option<OpId>, local_op: Option<Op>, incoming: Op) -> GenesisVerdict {
    match local_id {
        None => GenesisVerdict::Open,
        Some(g) => if g == incoming.id {
            GenesisVerdict::Same
        } else if id_lt(incoming.id, g) && (local_op matches Some(l) && same_peers(l, incoming)) {
            GenesisVerdict::Replace
        } else {
            GenesisVerdict::Reject
        },
    }
}

/// The genesis a replica holds after holding `local` and receiving `incoming`.
pub open spec fn survivor(local: Op, incoming: Op) -> Op {
    if genesis_verdict_of(Some(local.id), Some(local), incoming) == GenesisVerdict::Replace { incoming } else { local }
}

/// Two geneses of one chain (they name the same initial peers, each author among
/// them) leave every replica with the smaller one, whichever arrives first, and the
/// replacement never changes who the initial members are.
pub proof fn lemma_genesis_choice_order_free(a: Op, b: Op)
    requires
        a.signed.body.payload is Genesis,
        b.signed.body.payload is Genesis,
        a.signed.body.payload->Genesis_0.initial_peers@ == b.signed.body.payload->Genesis_0.initial_peers@,
        a.signed.body.payload->Genesis_0.initial_peers@.contains(a.signed.body.author),
        b.signed.body.payload->Genesis_0.initial_peers@.contains(b.signed.body.author),
    ensures
        survivor(a, b).id == survivor(b, a).id,
        survivor(a, b) == (if id_lt(b.id, a.id) { b } else { a }),
        survivor(a, b).signed.body.payload->Genesis_0.initial_peers@ == a.signed.body.payload->Genesis_0.initial_peers@,
{
    lemma_id_order();
}

/// The verdict on `incoming` for the topic state `local`, whose genesis record is `local_op`.
pub fn genesis_verdict(local_id: Option<OpId>, local_op: Option<&Op>, incoming: &Op) -> (r: GenesisVerdict)
    ensures r == genesis_verdict_of(local_id, match local_op { Some(l) => Some(*l), None => None }, *incoming),
{
    match local_id {
        None => GenesisVerdict::Open,
        Some(g) => {
            if g.same(&incoming.id) {
                GenesisVerdict::Same
            } else if incoming.id.lt(&g) && match local_op {
                Some(l) => peers_match(l, incoming),
                None => false,
            } {
                GenesisVerdict::Replace
            } else {
                GenesisVerdict::Reject
            }
        },
    }
}

/// Whether `candidate` names the initial peers of `current`, its author among them.
pub fn peers_match(current: &Op, candidate: &Op) -> (r: bool)
    ensures r == same_peers(*current, *candidate),
{
    match (&current.signed.body.payload, &candidate.signed.body.payload) {
        (TopicPayload::Genesis(held), TopicPayload::Genesis(named)) =>
            named.initial_peers.set_eq(&held.initial_peers) && named.initial_peers.contains(&candidate.signed.body.author),
        _ => false,
    }
}

/// Whether `ids` holds `rejected` and every op of `ops` that depends on a member.
pub open spec fn descendants_closed(ops: Seq<Op>, rejected: OpId, ids: Set<OpId>) -> bool {
    &&& ids.contains(rejected)
    &&& forall|i: int, d: OpId| 0 <= i < ops.len() && #[trigger] ops[i].signed.body.deps@.contains(d) && ids.contains(d)
        ==> ids.contains(ops[i].id)
}

/// The ops of `ops` outside the descendants of `rejected` within the batch, in order.
pub fn without_descendants(ops: Vec<Op>, rejected: OpId) -> (r: Vec<Op>)
    ensures
        exists|ids: Set<OpId>| #[trigger] descendants_closed(ops@, rejected, ids)
            && (forall|k: int| 0 <= k < r@.len() ==> !ids.contains(#[trigger] r@[k].id))
            && (forall|i: int| 0 <= i < ops@.len() && !ids.contains(#[trigger] ops@[i].id) ==> r@.contains(ops@[i])),
        forall|k: int| 0 <= k < r@.len() ==> ops@.contains(#[trigger] r@[k]),
{
    let mut ids = IdSet::singleton(rejected);
    let ghost cand = ops@.map_values(|o: Op| o.id).push(rejected);
    proof {
        cand.lemma_cardinality_of_set();
        assert(cand[ops@.len() as int] == rejected);
    }
    let n = ops.len();
    let mut changed = true;
    while changed
        invariant
            ids@.contains(rejected),
            ids@.finite(),
            ids@.subset_of(cand.to_set()),
            cand.to_set().len() <= n + 1,
            cand.len() == n + 1,
            forall|i: int| 0 <= i < n ==> cand[i] == (#[trigger] ops@[i]).id,
            !changed ==> forall|i: int, d: OpId| 0 <= i < ops@.len() && #[trigger] ops@[i].signed.body.deps@.contains(d) && ids@.contains(d)
                ==> ids@.contains(ops@[i].id),
            n == ops@.len(),
        decreases n + 1 - ids@.len(), (if changed { 1int } else { 0int }),
    {
        proof { vstd::set_lib::lemma_len_subset(ids@, cand.to_set()); }
        changed = false;
        let ghost start_len = ids@.len();
        let mut i: usize = 0;
        while i < ops.len()
            invariant
                i <= ops@.len(),
                n == ops@.len(),
                ids@.contains(rejected),
                ids@.finite(),
                ids@.subset_of(cand.to_set()),
                cand.len() == n + 1,
                forall|i: int| 0 <= i < n ==> cand[i] == (#[trigger] ops@[i]).id,
                changed ==> ids@.len() > start_len,
                !changed ==> ids@.len() == start_len,
                !changed ==> forall|j: int, d: OpId| 0 <= j < i && #[trigger] ops@[j].signed.body.deps@.contains(d) && ids@.contains(d)
                    ==> ids@.contains(ops@[j].id),
            decreases ops@.len() - i,
        {
            let op = &ops[i];
            if !ids.contains(&op.id) {
                let deps = op.signed.body.deps.to_vec();
                let mut hit = false;
                let mut k: usize = 0;
                while k < deps.len()
                    invariant
                        k <= deps@.len(),
                        deps@.to_set() == op.signed.body.deps@,
                        !hit ==> forall|j: int| 0 <= j < k ==> !ids@.contains(#[trigger] deps@[j]),
                    decreases deps@.len() - k,
                {
                    if ids.contains(&deps[k]) {
                        hit = true;
                    }
                    k += 1;
                }
                if hit {
                    proof { assert(cand[i as int] == op.id); }
                    ids.insert(op.id);
                    changed = true;
                } else {
                    proof {
                        assert forall|d: OpId| #[trigger] op.signed.body.deps@.contains(d) implies !ids@.contains(d) by {
                            assert(deps@.to_set().contains(d));
                            let w = choose|w: int| 0 <= w < deps@.len() && deps@[w] == d;
                        }
                    }
                }
            }
            i += 1;
        }
        proof { vstd::set_lib::lemma_len_subset(ids@, cand.to_set()); }
    }
    let ghost all = ops@;
    let mut rest = ops;
    let mut kept_rev: Vec<Op> = Vec::new();
    while rest.len() > 0
        invariant
            rest@.len() <= all.len(),
            rest@ == all.subrange(0, rest@.len() as int),
            forall|k: int| 0 <= k < kept_rev@.len() ==> all.contains(#[trigger] kept_rev@[k]) && !ids@.contains(kept_rev@[k].id),
            forall|i: int| rest@.len() <= i < all.len() && !ids@.contains(#[trigger] all[i].id) ==> kept_rev@.contains(all[i]),
        decreases rest@.len(),
    {
        let ghost before = rest@;
        let op = rest.pop().unwrap();
        proof {
            assert(op == all[rest@.len() as int]);
            assert(rest@ =~= all.subrange(0, rest@.len() as int));
        }
        if !ids.contains(&op.id) {
            let ghost kb = kept_rev@;
            kept_rev.push(op);
            proof {
                assert(kept_rev@[kb.len() as int] == all[rest@.len() as int]);
                assert forall|i: int| rest@.len() <= i < all.len() && !ids@.contains(#[trigger] all[i].id) implies kept_rev@.contains(all[i]) by {
                    if i > rest@.len() {
                        let w = choose|w: int| 0 <= w < kb.len() && kb[w] == all[i];
                        assert(kept_rev@[w] == all[i]);
                    }
                }
            }
        }
    }
    let ghost kept_rev0 = kept_rev@;
    let mut kept: Vec<Op> = Vec::new();
    while kept_rev.len() > 0
        invariant
            kept_rev0 == kept_rev@ + kept@.reverse(),
        decreases kept_rev@.len(),
    {
        let ghost kb = kept@;
        let op = kept_rev.pop().unwrap();
        kept.push(op);
        proof {
            assert(kept@.reverse() =~= seq![op] + kb.reverse());
            assert(kept_rev0 =~= kept_rev@ + kept@.reverse());
        }
    }
    proof {
        assert(kept_rev0 =~= kept@.reverse());
        assert forall|y: Op| kept@.contains(y) <==> kept_rev0.contains(y) by {
            if kept@.contains(y) {
                let w = choose|w: int| 0 <= w < kept@.len() && kept@[w] == y;
                assert(kept_rev0[kept@.len() - 1 - w] == y);
            }
            if kept_rev0.contains(y) {
                let w = choose|w: int| 0 <= w < kept_rev0.len() && kept_rev0[w] == y;
                assert(kept@[kept@.len() - 1 - w] == y);
            }
        }
        assert(descendants_closed(all, rejected, ids@));
        assert forall|k: int| 0 <= k < kept@.len() implies !ids@.contains(#[trigger] kept@[k].id) by {
            assert(kept_rev0.contains(kept@[k]));
            let w = choose|w: int| 0 <= w < kept_rev0.len() && kept_rev0[w] == kept@[k];
        }
        assert forall|k: int| 0 <= k < kept@.len() implies all.contains(#[trigger] kept@[k]) by {
            assert(kept_rev0.contains(kept@[k]));
            let w = choose|w: int| 0 <= w < kept_rev0.len() && kept_rev0[w] == kept@[k];
        }
    }
    kept
}

/// The order key of an evicted op: its actor, then its position, then its id.
pub open spec fn evict_key(e: EvictedOp) -> SortKey {
    SortKey { major: 0, actor: e.actor_id, minor: e.actor_seq, id: e.op_id }
}

/// Whether `e` carries the held op `id` of `ops`: its actor, author, position and payload.
pub open spec fn evicted_from(ops: Map<OpId, StoredOp>, e: EvictedOp) -> bool {
    &&& held_whole(ops, e.op_id)
    &&& e.actor_id == ops[e.op_id].meta.actor_id
    &&& e.actor_seq == ops[e.op_id].meta.actor_seq
    &&& e.author == ops[e.op_id].meta.author
    &&& same_payload(e.payload, ops[e.op_id].op.signed.body.payload)
}

impl Oplog {
    /// The held ops among `ids`, each with its payload, ordered by actor and position for
    /// re-emission. An id without its record or position is skipped.
    pub fn evicted_ops(&self, ids: &IdSet) -> (r: Vec<EvictedOp>)
        ensures
            forall|k: int| 0 <= k < r@.len() ==> ids@.contains(#[trigger] r@[k].op_id) && evicted_from(self.store().ops_map(), r@[k]),
            forall|a: int, b: int| 0 <= a < b < r@.len() ==> !key_lt(evict_key(#[trigger] r@[b]), evict_key(#[trigger] r@[a])),
            forall|id: OpId| #[trigger] ids@.contains(id) && held_whole(self.store().ops_map(), id) ==>
                exists|k: int| 0 <= k < r@.len() && r@[k].op_id == id,
    {
        let ops = Ghost(self.storage.ops_map());
        let v = ids.to_vec();
        let mut keys: Vec<SortKey> = Vec::new();
        let mut i: usize = 0;
        while i < v.len()
            invariant
                i <= v@.len(),
                v@.to_set() == ids@,
                ops@ == self.storage.ops_map(),
                forall|k: int| 0 <= k < keys@.len() ==> {
                    let key = #[trigger] keys@[k];
                    &&& ids@.contains(key.id)
                    &&& ops@.contains_key(key.id) && ops@[key.id].has_meta && ops@[key.id].meta.id == key.id
                    &&& key.actor == ops@[key.id].meta.actor_id && key.minor == ops@[key.id].meta.actor_seq && key.major == 0
                },
                forall|j: int| 0 <= j < i && ops@.contains_key(#[trigger] v@[j]) && ops@[v@[j]].has_meta && ops@[v@[j]].meta.id == v@[j]
                    ==> keys@.contains(SortKey { major: 0, actor: ops@[v@[j]].meta.actor_id, minor: ops@[v@[j]].meta.actor_seq, id: v@[j] }),
            decreases v@.len() - i,
        {
            let id = v[i];
            proof { assert(v@.to_set().contains(id)); }
            match self.storage.get_meta(&id) {
                Some(meta) => {
                    let ghost kb = keys@;
                    keys.push(SortKey { major: 0, actor: meta.actor_id, minor: meta.actor_seq, id });
                    proof {
                        assert(keys@[kb.len() as int] == SortKey { major: 0, actor: meta.actor_id, minor: meta.actor_seq, id });
                        assert forall|j: int| 0 <= j < i + 1 && ops@.contains_key(#[trigger] v@[j]) && ops@[v@[j]].has_meta && ops@[v@[j]].meta.id == v@[j]
                            implies keys@.contains(SortKey { major: 0, actor: ops@[v@[j]].meta.actor_id, minor: ops@[v@[j]].meta.actor_seq, id: v@[j] }) by {
                            if j < i {
                                let key = SortKey { major: 0, actor: ops@[v@[j]].meta.actor_id, minor: ops@[v@[j]].meta.actor_seq, id: v@[j] };
                                let w = choose|w: int| 0 <= w < kb.len() && kb[w] == key;
                                assert(keys@[w] == key);
                            }
                        }
                    }
                },
                None => {},
            }
            i += 1;
        }
        let sorted = sort_keys(&keys);
        let mut r: Vec<EvictedOp> = Vec::new();
        let ghost mut pos: Seq<int> = Seq::empty();
        let mut t: usize = 0;
        while t < sorted.len()
            invariant
                t <= sorted@.len(),
                keys_sorted(sorted@),
                sorted@.to_set() == keys@.to_set(),
                ops@ == self.storage.ops_map(),
                forall|k: int| 0 <= k < keys@.len() ==> {
                    let key = #[trigger] keys@[k];
                    &&& ids@.contains(key.id)
                    &&& ops@.contains_key(key.id) && ops@[key.id].has_meta && ops@[key.id].meta.id == key.id
                    &&& key.actor == ops@[key.id].meta.actor_id && key.minor == ops@[key.id].meta.actor_seq && key.major == 0
                },
                pos.len() == r@.len(),
                forall|k: int| 0 <= k < r@.len() ==> 0 <= #[trigger] pos[k] < t && evict_key(r@[k]) == sorted@[pos[k]],
                forall|k: int| 0 <= k < r@.len() ==> ids@.contains(#[trigger] r@[k].op_id) && evicted_from(ops@, r@[k]),
                forall|a: int, b: int| 0 <= a < b < r@.len() ==> pos[a] < pos[b],
                forall|j: int| 0 <= j < t && held_whole(ops@, #[trigger] sorted@[j].id) ==> exists|k: int| 0 <= k < r@.len() && r@[k].op_id == sorted@[j].id,
            decreases sorted@.len() - t,
        {
            let key = sorted[t];
            proof {
                assert(sorted@.to_set().contains(key));
                assert(keys@.to_set().contains(key));
                let w = choose|w: int| 0 <= w < keys@.len() && keys@[w] == key;
                assert(keys@[w] == key);
            }
            match self.storage.get_op(&key.id) {
                Some(op) => {
                    let meta = match self.storage.get_meta(&key.id) {
                        Some(m) => m,
                        None => { proof { assert(false); } return r; },
                    };
                    let e = EvictedOp {
                        op_id: key.id,
                        actor_id: key.actor,
                        author: meta.author,
                        actor_seq: key.minor,
                        payload: op.signed.body.payload.duplicate(),
                    };
                    let ghost rb = r@;
                    r.push(e);
                    proof {
                        pos = pos.push(t as int);
                        assert(r@[rb.len() as int] == e);
                        assert forall|j: int| 0 <= j < t + 1 && held_whole(ops@, #[trigger] sorted@[j].id) implies exists|k: int| 0 <= k < r@.len() && r@[k].op_id == sorted@[j].id by {
                            if j < t {
                                let k = choose|k: int| 0 <= k < rb.len() && rb[k].op_id == sorted@[j].id;
                                assert(r@[k].op_id == sorted@[j].id);
                            } else {
                                assert(r@[rb.len() as int].op_id == sorted@[j].id);
                            }
                        }
                    }
                },
                None => {},
            }
            t += 1;
        }
        proof {
            assert forall|a: int, b: int| 0 <= a < b < r@.len() implies !key_lt(evict_key(#[trigger] r@[b]), evict_key(#[trigger] r@[a])) by {
                assert(pos[a] < pos[b]);
                assert(!key_lt(sorted@[pos[b]], sorted@[pos[a]]));
            }
            assert forall|id: OpId| #[trigger] ids@.contains(id) && held_whole(ops@, id) implies
                exists|k: int| 0 <= k < r@.len() && r@[k].op_id == id by {
                assert(v@.to_set().contains(id));
                let j = choose|j: int| 0 <= j < v@.len() && v@[j] == id;
                let key = SortKey { major: 0, actor: ops@[v@[j]].meta.actor_id, minor: ops@[v@[j]].meta.actor_seq, id: v@[j] };
                assert(keys@.contains(key));
                assert(keys@.to_set().contains(key));
                assert(sorted@.to_set().contains(key));
                let w = choose|w: int| 0 <= w < sorted@.len() && sorted@[w] == key;
                assert(held_whole(ops@, sorted@[w].id));
            }
        }
        r
    }

    /// The eviction a reset of `topic_id` to `winning_genesis` records: every held op
    /// of the topic but the replaced genesis, for re-emission.
    pub fn extract_eviction(&self, topic_id: &TopicId, losing_genesis: OpId, winning_genesis: OpId) -> (r: TopicEviction)
        ensures
            r.topic_id == *topic_id,
            r.losing_genesis == losing_genesis,
            r.winning_genesis == winning_genesis,
            forall|k: int| 0 <= k < r.evicted@.len() ==> {
                let id = #[trigger] r.evicted@[k].op_id;
                spec_topic_ids(self.store().ops_map(), *topic_id).contains(id) && id != losing_genesis
                    && evicted_from(self.store().ops_map(), r.evicted@[k])
            },
            forall|id: OpId| #[trigger] spec_topic_ids(self.store().ops_map(), *topic_id).contains(id) && id != losing_genesis
                && held_whole(self.store().ops_map(), id) ==> exists|k: int| 0 <= k < r.evicted@.len() && r.evicted@[k].op_id == id,
    {
        let mut discarded = self.storage.list_op_ids(topic_id);
        discarded.remove(&losing_genesis);
        let evicted = self.evicted_ops(&discarded);
        proof {
            assert forall|id: OpId| #[trigger] spec_topic_ids(self.store().ops_map(), *topic_id).contains(id) && id != losing_genesis
                && held_whole(self.store().ops_map(), id) implies exists|k: int| 0 <= k < evicted@.len() && evicted@[k].op_id == id by {
                assert(discarded@.contains(id));
            }
        }
        TopicEviction { topic_id: *topic_id, losing_genesis, winning_genesis, evicted }
    }
}

} // verus!
