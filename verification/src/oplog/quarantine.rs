//! Ops no head reaches: found, discarded with a journal record, and the topic rebuilt
//! from the rest.
use vstd::prelude::*;
use crate::ids::{Id32, OpId, TopicId};
use crate::idset::IdSet;
use crate::op::{Op, spec_op_valid};
use crate::storage::{MemoryStorage, StoredOp, spec_topic_ids, spec_resolvable};
use crate::eviction::TopicEviction;
use crate::error::Error;
use crate::oplog::Oplog;
use crate::oplog::local::{held_whole, has_state};
use crate::oplog::genesis::evicted_from;

verus! {

/// Whether `set` holds the dependencies of each of its members whose position is held.
pub open spec fn reach_closed(ops: Map<OpId, StoredOp>, set: Set<OpId>) -> bool {
    forall|id: OpId| #[trigger] set.contains(id) && ops.contains_key(id) && ops[id].has_meta && ops[id].meta.id == id
        ==> ops[id].meta.deps@.subset_of(set)
}

/// Whether `set` is what `heads` reach: the least set holding them that holds the
/// dependencies of each member whose position is held.
pub open spec fn is_reach_of(ops: Map<OpId, StoredOp>, heads: Set<OpId>, set: Set<OpId>) -> bool {
    &&& heads.subset_of(set)
    &&& reach_closed(ops, set)
    &&& forall|s: Set<OpId>| #[trigger] reach_closed(ops, s) && heads.subset_of(s) ==> set.subset_of(s)
}

impl Oplog {
    /// The ids `heads` reach through the positions held.
    pub fn reachable_from(&self, heads: &IdSet) -> (r: IdSet)
        ensures is_reach_of(self.store().ops_map(), heads@, r@),
    {
        let ops = Ghost(self.storage.ops_map());
        let total = self.storage.op_count();
        let mut visited = IdSet::new();
        let mut expanded = IdSet::new();
        let mut work: Vec<OpId> = heads.to_vec();
        while work.len() > 0
            invariant
                ops@ == self.storage.ops_map(),
                total == ops@.dom().len(),
                ops@.dom().finite(),
                expanded@.subset_of(ops@.dom()),
                expanded@.subset_of(visited@),
                forall|id: OpId| #[trigger] visited@.contains(id) && ops@.contains_key(id) && ops@[id].has_meta && ops@[id].meta.id == id
                    ==> expanded@.contains(id),
                forall|id: OpId| #[trigger] expanded@.contains(id) ==>
                    (forall|d: OpId| #[trigger] ops@[id].meta.deps@.contains(d) ==> visited@.contains(d) || work@.contains(d)),
                forall|d: OpId| #[trigger] heads@.contains(d) ==> visited@.contains(d) || work@.contains(d),
                forall|s: Set<OpId>| #[trigger] reach_closed(ops@, s) && heads@.subset_of(s) ==>
                    visited@.subset_of(s) && (forall|x: OpId| #[trigger] work@.contains(x) ==> s.contains(x)),
            decreases total - expanded@.len(), work@.len(),
        {
            proof { vstd::set_lib::lemma_len_subset(expanded@, ops@.dom()); }
            let ghost work_before_pop = work@;
            let id = work.pop().unwrap();
            proof {
                assert(work_before_pop =~= work@.push(id));
                assert forall|d: OpId| #[trigger] work_before_pop.contains(d) implies d == id || work@.contains(d) by {
                    let w = choose|w: int| 0 <= w < work_before_pop.len() && work_before_pop[w] == d;
                    if w < work@.len() {
                        assert(work@[w] == d);
                    }
                }
                assert forall|x: OpId| #[trigger] work@.contains(x) implies work_before_pop.contains(x) by {
                    let w = choose|w: int| 0 <= w < work@.len() && work@[w] == x;
                    assert(work_before_pop[w] == x);
                }
            }
            if visited.contains(&id) {
                continue;
            }
            let ghost visited_before = visited@;
            visited.insert(id);
            match self.storage.get_meta(&id) {
                None => {
                    proof {
                        assert forall|s: Set<OpId>| #[trigger] reach_closed(ops@, s) && heads@.subset_of(s) implies
                            visited@.subset_of(s) && (forall|x: OpId| #[trigger] work@.contains(x) ==> s.contains(x)) by {
                            assert(work_before_pop.contains(id));
                            assert forall|x: OpId| #[trigger] work@.contains(x) implies s.contains(x) by {
                                assert(work_before_pop.contains(x));
                            }
                        }
                    }
                },
                Some(meta) => {
                    let ghost before_work = work@;
                    let ghost before_expanded = expanded@;
                    let _ = expanded.len();
                    expanded.insert(id);
                    let next = meta.deps.to_vec();
                    let mut j: usize = 0;
                    while j < next.len()
                        invariant
                            j <= next@.len(),
                            next@.to_set() == ops@[id].meta.deps@,
                            work@ == before_work + next@.subrange(0, j as int),
                        decreases next@.len() - j,
                    {
                        work.push(next[j]);
                        j += 1;
                        assert(work@ =~= before_work + next@.subrange(0, j as int));
                    }
                    proof {
                        assert(next@.subrange(0, next@.len() as int) =~= next@);
                        assert forall|x: OpId| before_work.contains(x) implies work@.contains(x) by {
                            let w = choose|w: int| 0 <= w < before_work.len() && before_work[w] == x;
                            assert(work@[w] == x);
                        }
                        assert forall|d: OpId| #[trigger] ops@[id].meta.deps@.contains(d) implies work@.contains(d) by {
                            assert(next@.to_set().contains(d));
                            let w = choose|w: int| 0 <= w < next@.len() && next@[w] == d;
                            assert(work@[before_work.len() + w] == d);
                        }
                        assert(!before_expanded.contains(id));
                        vstd::set::axiom_set_insert_len(before_expanded, id);
                        vstd::set_lib::lemma_len_subset(expanded@, ops@.dom());
                        assert forall|s: Set<OpId>| #[trigger] reach_closed(ops@, s) && heads@.subset_of(s) implies
                            visited@.subset_of(s) && (forall|x: OpId| #[trigger] work@.contains(x) ==> s.contains(x)) by {
                            assert(work_before_pop.contains(id));
                            assert(s.contains(id));
                            assert forall|x: OpId| #[trigger] work@.contains(x) implies s.contains(x) by {
                                let w = choose|w: int| 0 <= w < work@.len() && work@[w] == x;
                                if w < before_work.len() {
                                    assert(before_work[w] == x);
                                    assert(work_before_pop.contains(x));
                                } else {
                                    assert(next@[w - before_work.len()] == x);
                                    assert(ops@[id].meta.deps@.contains(x));
                                }
                            }
                        }
                    }
                },
            }
        }
        proof {
            assert forall|id: OpId| #[trigger] visited@.contains(id) && ops@.contains_key(id) && ops@[id].has_meta && ops@[id].meta.id == id
                implies ops@[id].meta.deps@.subset_of(visited@) by {
                assert(expanded@.contains(id));
            }
        }
        visited
    }

    /// The ids of `topic_id` no current head reaches.
    pub fn topic_orphans(&self, topic_id: &TopicId) -> (r: IdSet)
        ensures
            exists|reach: Set<OpId>| #[trigger] is_reach_of(self.store().ops_map(),
                crate::oplog::local::heads_of(self.store(), *topic_id), reach)
                && r@ == spec_topic_ids(self.store().ops_map(), *topic_id).difference(reach),
    {
        let heads = self.storage.heads(topic_id);
        let reach = self.reachable_from(&heads);
        let ids = self.storage.list_op_ids(topic_id);
        let v = ids.to_vec();
        let mut orphans = IdSet::new();
        let mut i: usize = 0;
        while i < v.len()
            invariant
                i <= v@.len(),
                v@.to_set() == ids@,
                orphans@ == v@.subrange(0, i as int).to_set().difference(reach@),
            decreases v@.len() - i,
        {
            let ghost before = orphans@;
            if !reach.contains(&v[i]) {
                orphans.insert(v[i]);
            }
            proof {
                let s = v@.subrange(0, i as int + 1);
                let t = v@.subrange(0, i as int);
                assert forall|y: OpId| s.contains(y) <==> t.contains(y) || y == v@[i as int] by {
                    if s.contains(y) {
                        let w = choose|w: int| 0 <= w < s.len() && s[w] == y;
                        if w < i { assert(t[w] == y); }
                    }
                    if t.contains(y) {
                        let w = choose|w: int| 0 <= w < t.len() && t[w] == y;
                        assert(s[w] == y);
                    }
                    if y == v@[i as int] { assert(s[i as int] == y); }
                }
                assert(orphans@ =~= s.to_set().difference(reach@));
            }
            i += 1;
        }
        proof {
            assert(v@.subrange(0, v@.len() as int) =~= v@);
            assert(orphans@ =~= spec_topic_ids(self.store().ops_map(), *topic_id).difference(reach@));
            assert(heads@ == crate::oplog::local::heads_of(self.store(), *topic_id));
            assert(is_reach_of(self.store().ops_map(), crate::oplog::local::heads_of(self.store(), *topic_id), reach@));
        }
        orphans
    }
}

/// Whether an op of `topic` that the heads `heads` reach lacks its record or its
/// metadata in `ops`.
pub open spec fn reached_hole(ops: Map<OpId, StoredOp>, heads: Set<OpId>, topic: TopicId) -> bool {
    exists|id: OpId| #[trigger] spec_topic_ids(ops, topic).contains(id) && !spec_resolvable(ops, id)
        && forall|reach: Set<OpId>| #[trigger] is_reach_of(ops, heads, reach) ==> reach.contains(id)
}

/// Whether a quarantine of `topic` is owed a rebuild in a store of `ops` with the
/// heads `heads` and the genesis `genesis`: some op is orphaned, every reached op is
/// held whole, and the heads reach the genesis, an op of the topic.
pub open spec fn quarantine_owed(ops: Map<OpId, StoredOp>, heads: Set<OpId>, topic: TopicId, genesis: OpId) -> bool {
    &&& spec_topic_ids(ops, topic).contains(genesis)
    &&& forall|reach: Set<OpId>| #[trigger] is_reach_of(ops, heads, reach) ==> {
        &&& !spec_topic_ids(ops, topic).subset_of(reach)
        &&& reach.contains(genesis)
        &&& forall|id: OpId| #[trigger] spec_topic_ids(ops, topic).contains(id) && reach.contains(id) ==> held_whole(ops, id)
    }
}

impl Oplog {
    /// Discards the ops of `topic_id` no head reaches and rebuilds the topic from the
    /// rest, journalling the discarded payloads. Nothing happens when nothing is
    /// orphaned, the topic has no state, a surviving op is damaged, or no head reaches
    /// the genesis.
    pub fn quarantine_orphans(&mut self, topic_id: &TopicId) -> (r: Result<Option<TopicEviction>, Error>)
        ensures
            r matches Ok(None) ==> final(self).store() == old(self).store(),
            r matches Ok(Some(e)) ==> {
                &&& has_state(old(self).store(), *topic_id)
                &&& e.topic_id == *topic_id
                &&& e.losing_genesis == old(self).store().topics_map()[*topic_id].state.genesis
                &&& e.winning_genesis == e.losing_genesis
                &&& exists|reach: Set<OpId>| #[trigger] is_reach_of(old(self).store().ops_map(),
                    crate::oplog::local::heads_of(old(self).store(), *topic_id), reach)
                    && (forall|k: int| 0 <= k < e.evicted@.len() ==> !reach.contains(#[trigger] e.evicted@[k].op_id)
                        && spec_topic_ids(old(self).store().ops_map(), *topic_id).contains(e.evicted@[k].op_id))
                    && (forall|id: OpId| #[trigger] spec_topic_ids(old(self).store().ops_map(), *topic_id).contains(id)
                        && !reach.contains(id) && held_whole(old(self).store().ops_map(), id)
                        ==> exists|k: int| 0 <= k < e.evicted@.len() && e.evicted@[k].op_id == id)
                &&& forall|a: int, b: int| 0 <= a < b < e.evicted@.len()
                    ==> !crate::order::key_lt(crate::oplog::genesis::evict_key(#[trigger] e.evicted@[b]),
                        crate::oplog::genesis::evict_key(#[trigger] e.evicted@[a]))
                &&& crate::storage::journaled(final(self).store().eviction_seq(), e)
            },
            !has_state(old(self).store(), *topic_id) ==> r matches Ok(None),
            reached_hole(old(self).store().ops_map(), crate::oplog::local::heads_of(old(self).store(), *topic_id), *topic_id)
                ==> r matches Ok(None),
            (forall|reach: Set<OpId>| #[trigger] is_reach_of(old(self).store().ops_map(),
                crate::oplog::local::heads_of(old(self).store(), *topic_id), reach)
                ==> !reach.contains(old(self).store().topics_map()[*topic_id].state.genesis)) ==> r matches Ok(None),
            (forall|reach: Set<OpId>| #[trigger] is_reach_of(old(self).store().ops_map(),
                crate::oplog::local::heads_of(old(self).store(), *topic_id), reach)
                ==> spec_topic_ids(old(self).store().ops_map(), *topic_id).subset_of(reach)) ==> r matches Ok(None),
            has_state(old(self).store(), *topic_id) && quarantine_owed(old(self).store().ops_map(),
                crate::oplog::local::heads_of(old(self).store(), *topic_id), *topic_id,
                old(self).store().topics_map()[*topic_id].state.genesis) ==> !(r matches Ok(None)),
    {
        let orphans = self.topic_orphans(topic_id);
        let ghost reach = choose|reach: Set<OpId>| #[trigger] is_reach_of(self.store().ops_map(),
            crate::oplog::local::heads_of(self.store(), *topic_id), reach)
            && orphans@ == spec_topic_ids(self.store().ops_map(), *topic_id).difference(reach);
        proof {
            if spec_topic_ids(self.store().ops_map(), *topic_id).subset_of(reach) {
                assert(orphans@ =~= Set::<OpId>::empty());
            }
            if has_state(old(self).store(), *topic_id) && quarantine_owed(old(self).store().ops_map(),
                crate::oplog::local::heads_of(old(self).store(), *topic_id), *topic_id,
                old(self).store().topics_map()[*topic_id].state.genesis) {
                assert(!spec_topic_ids(self.store().ops_map(), *topic_id).subset_of(reach));
                let x = choose|x: OpId| spec_topic_ids(self.store().ops_map(), *topic_id).contains(x) && !reach.contains(x);
                assert(orphans@.contains(x));
            }
        }
        if orphans.is_empty() {
            return Ok(None);
        }
        proof {
            let x = orphans@.choose();
            assert(orphans@.contains(x));
            assert(!spec_topic_ids(self.store().ops_map(), *topic_id).subset_of(reach));
        }
        let genesis = match self.storage.topic_state(topic_id) {
            Some(state) => state.genesis,
            None => return Ok(None),
        };
        let ids = self.storage.list_op_ids(topic_id);
        let v = ids.to_vec();
        let mut survivors: Vec<Op> = Vec::new();
        let mut has_genesis = false;
        let ghost g0 = genesis;
        let ghost owed = has_state(old(self).store(), *topic_id) && quarantine_owed(old(self).store().ops_map(),
                crate::oplog::local::heads_of(old(self).store(), *topic_id), *topic_id,
                old(self).store().topics_map()[*topic_id].state.genesis);
        proof { if owed { assert(g0 == old(self).store().topics_map()[*topic_id].state.genesis); } }
        let mut i: usize = 0;
        while i < v.len()
            invariant
                i <= v@.len(),
                self.store() == old(self).store(),
                is_reach_of(self.store().ops_map(), crate::oplog::local::heads_of(self.store(), *topic_id), reach),
                owed == (has_state(old(self).store(), *topic_id) && quarantine_owed(old(self).store().ops_map(),
                    crate::oplog::local::heads_of(old(self).store(), *topic_id), *topic_id,
                    old(self).store().topics_map()[*topic_id].state.genesis)),
                owed ==> g0 == old(self).store().topics_map()[*topic_id].state.genesis,
                owed && (exists|j: int| 0 <= j < i && v@[j] == g0) ==> has_genesis,
                v@.to_set() == spec_topic_ids(self.store().ops_map(), *topic_id),
                orphans@ == spec_topic_ids(self.store().ops_map(), *topic_id).difference(reach),
                genesis == g0,
                has_genesis ==> reach.contains(g0),
                forall|j: int| 0 <= j < i && !orphans@.contains(#[trigger] v@[j]) ==> spec_resolvable(self.store().ops_map(), v@[j]),
            decreases v@.len() - i,
        {
            let id = v[i];
            proof {
                if owed {
                    assert(v@.to_set().contains(v@[i as int]));
                    if !orphans@.contains(id) {
                        assert(reach.contains(id));
                        assert(held_whole(self.store().ops_map(), id));
                    }
                    if id == g0 {
                        assert(reach.contains(g0));
                        assert(!orphans@.contains(id));
                    }
                }
            }
            if !orphans.contains(&id) {
                let op = match (self.storage.get_op(&id), self.storage.get_meta(&id)) {
                    (Some(op), Some(_)) => op,
                    _ => return Ok(None),
                };
                if !self.storage.dep_resolvable(&id) {
                    return Ok(None);
                }
                if id.same(&genesis) {
                    proof {
                        assert(v@.to_set().contains(v@[i as int]));
                    }
                    has_genesis = true;
                }
                survivors.push(op.duplicate());
            }
            i += 1;
        }
        proof {
            if owed {
                assert(v@.to_set().contains(g0));
                let j = choose|j: int| 0 <= j < v@.len() && v@[j] == g0;
                assert(exists|j: int| 0 <= j < v@.len() && v@[j] == g0);
            }
        }
        if !has_genesis {
            return Ok(None);
        }
        proof {
            let ops = self.store().ops_map();
            let heads = crate::oplog::local::heads_of(self.store(), *topic_id);
            if reached_hole(ops, heads, *topic_id) {
                let h = choose|id: OpId| #[trigger] spec_topic_ids(ops, *topic_id).contains(id) && !spec_resolvable(ops, id)
                    && forall|reach: Set<OpId>| #[trigger] is_reach_of(ops, heads, reach) ==> reach.contains(id);
                assert(reach.contains(h));
                assert(v@.to_set().contains(h));
                let j = choose|j: int| 0 <= j < v@.len() && v@[j] == h;
                assert(!orphans@.contains(v@[j]));
            }
        }
        let mut k: usize = 0;
        while k < survivors.len()
            invariant
                k <= survivors@.len(),
                self.store() == old(self).store(),
                has_state(old(self).store(), *topic_id),
                is_reach_of(old(self).store().ops_map(), crate::oplog::local::heads_of(old(self).store(), *topic_id), reach),
                !spec_topic_ids(old(self).store().ops_map(), *topic_id).subset_of(reach),
                reach.contains(g0),
                g0 == old(self).store().topics_map()[*topic_id].state.genesis,
                !reached_hole(old(self).store().ops_map(), crate::oplog::local::heads_of(old(self).store(), *topic_id), *topic_id),
                orphans@ == spec_topic_ids(old(self).store().ops_map(), *topic_id).difference(reach),
            decreases survivors@.len() - k,
        {
            survivors[k].validate()?;
            k += 1;
        }
        let evicted = self.evicted_ops(&orphans);
        proof {
            assert forall|id: OpId| #[trigger] spec_topic_ids(old(self).store().ops_map(), *topic_id).contains(id)
                && !reach.contains(id) && held_whole(old(self).store().ops_map(), id)
                implies exists|k: int| 0 <= k < evicted@.len() && evicted@[k].op_id == id by {
                assert(orphans@.contains(id));
            }
        }
        let eviction = TopicEviction { topic_id: *topic_id, losing_genesis: genesis, winning_genesis: genesis, evicted };
        self.storage.reset_topic(topic_id);
        let _ = self.admit_batch(None, survivors)?;
        let record = eviction.duplicate();
        self.storage.journal_eviction(record);
        proof {
            assert(crate::storage::eviction_key_of(record) == crate::storage::eviction_key_of(eviction));
            if !(exists|i: int| 0 <= i < self.store().eviction_seq().len()
                && #[trigger] crate::storage::eviction_key_of(self.store().eviction_seq()[i]) == crate::storage::eviction_key_of(eviction)) {
                let n = self.store().eviction_seq().len() - 1;
                assert(self.store().eviction_seq()[n] == record);
            }
        }
        Ok(Some(eviction))
    }
}

} // verus!
