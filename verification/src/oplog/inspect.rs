//! Questions about a topic's integrity: its holes, and whether it may be certified.
use vstd::prelude::*;
use crate::ids::{Id32, OpId, TopicId};
use crate::idset::IdSet;
use crate::storage::{MemoryStorage, StoredOp, PendingOp, spec_resolvable, spec_topic_ids};
use crate::oplog::Oplog;
use crate::oplog::integrity::{Integrity, TopicView, listing_of, Listing};

verus! {

/// Whether `id` is a hole of `topic` in `ops`: a listed id without its position, a
/// listed position without its record, or a dependency of a listed position that is
/// not held with record and position.
pub open spec fn is_hole(ops: Map<OpId, StoredOp>, topic: TopicId, id: OpId) -> bool {
    ||| (spec_topic_ids(ops, topic).contains(id) && !spec_resolvable(ops, id))
    ||| (exists|x: OpId| #[trigger] spec_topic_ids(ops, topic).contains(x) && ops[x].has_meta
        && ops[x].meta.deps@.contains(id) && !spec_resolvable(ops, id))
}

/// The dependencies the buffered ops of `topic` wait for.
pub open spec fn pending_missing_of(pending: Seq<PendingOp>, topic: TopicId) -> Set<OpId> {
    Set::new(|id: OpId| exists|i: int| 0 <= i < pending.len() && (#[trigger] pending[i]).op.signed.body.topic_id == topic
        && pending[i].missing@.contains(id))
}

impl Oplog {
    /// The holes of `topic_id`: ids its stored records reference but cannot resolve.
    pub fn topic_holes(&self, topic_id: &TopicId) -> (r: IdSet)
        ensures forall|id: OpId| #[trigger] r@.contains(id) <==> is_hole(self.store().ops_map(), *topic_id, id),
    {
        let ids = self.storage.list_op_ids(topic_id);
        let v = ids.to_vec();
        let mut holes = IdSet::new();
        let mut i: usize = 0;
        while i < v.len()
            invariant
                i <= v@.len(),
                v@.to_set() == ids@,
                ids@ == spec_topic_ids(self.storage.ops_map(), *topic_id),
                forall|id: OpId| #[trigger] holes@.contains(id) ==> is_hole(self.storage.ops_map(), *topic_id, id),
                forall|j: int| 0 <= j < i && !spec_resolvable(self.storage.ops_map(), #[trigger] v@[j]) ==> holes@.contains(v@[j]),
                forall|j: int, d: OpId| 0 <= j < i && self.storage.ops_map()[v@[j]].has_meta
                    && #[trigger] self.storage.ops_map()[#[trigger] v@[j]].meta.deps@.contains(d) && !spec_resolvable(self.storage.ops_map(), d)
                    ==> holes@.contains(d),
            decreases v@.len() - i,
        {
            let id = v[i];
            proof { assert(v@.to_set().contains(id)); }
            if !self.storage.dep_resolvable(&id) {
                holes.insert(id);
            }
            let ghost holes_mid = holes@;
            match self.storage.ops_entry(&id) {
                Some(stored) => {
                    if stored.has_meta {
                        let deps = stored.meta.deps.to_vec();
                        let mut k: usize = 0;
                        while k < deps.len()
                            invariant
                                k <= deps@.len(),
                                deps@.to_set() == self.storage.ops_map()[id].meta.deps@,
                                self.storage.ops_map()[id].has_meta,
                                holes_mid.subset_of(holes@),
                                spec_topic_ids(self.storage.ops_map(), *topic_id).contains(id),
                                forall|x: OpId| #[trigger] holes@.contains(x) ==> is_hole(self.storage.ops_map(), *topic_id, x),
                                forall|w: int| 0 <= w < k && !spec_resolvable(self.storage.ops_map(), #[trigger] deps@[w]) ==> holes@.contains(deps@[w]),
                            decreases deps@.len() - k,
                        {
                            let d = deps[k];
                            if !self.storage.dep_resolvable(&d) {
                                proof { assert(deps@.to_set().contains(d)); }
                                holes.insert(d);
                            }
                            k += 1;
                        }
                        proof {
                            assert forall|d: OpId| self.storage.ops_map()[id].meta.deps@.contains(d) && !spec_resolvable(self.storage.ops_map(), d)
                                implies holes@.contains(d) by {
                                assert(deps@.to_set().contains(d));
                                let w = choose|w: int| 0 <= w < deps@.len() && deps@[w] == d;
                            }
                        }
                    }
                },
                None => {},
            }
            i += 1;
        }
        proof {
            assert forall|id: OpId| #[trigger] is_hole(self.storage.ops_map(), *topic_id, id) implies holes@.contains(id) by {
                if spec_topic_ids(self.storage.ops_map(), *topic_id).contains(id) && !spec_resolvable(self.storage.ops_map(), id) {
                    assert(v@.to_set().contains(id));
                    let j = choose|j: int| 0 <= j < v@.len() && v@[j] == id;
                } else {
                    let x = choose|x: OpId| #[trigger] spec_topic_ids(self.storage.ops_map(), *topic_id).contains(x) && self.storage.ops_map()[x].has_meta
                        && self.storage.ops_map()[x].meta.deps@.contains(id) && !spec_resolvable(self.storage.ops_map(), id);
                    assert(v@.to_set().contains(x));
                    let j = choose|j: int| 0 <= j < v@.len() && v@[j] == x;
                }
            }
        }
        holes
    }

    /// Ids `topic_id` references but cannot resolve, with the dependencies its buffered
    /// ops wait for; empty means every admitted op is usable and sync may certify it.
    pub fn topic_unresolved(&self, topic_id: &TopicId) -> (r: IdSet)
        ensures
            forall|id: OpId| #[trigger] r@.contains(id) <==> is_hole(self.store().ops_map(), *topic_id, id)
                || pending_missing_of(self.store().pending_seq(), *topic_id).contains(id),
    {
        let mut r = self.topic_holes(topic_id);
        let pending = self.storage.pending_missing(topic_id);
        r.extend(&pending);
        r
    }

    /// Whether every admitted op of the topic is usable; buffered ops do not count.
    pub fn history_whole(&self, topic_id: &TopicId) -> (r: bool)
        ensures r == (forall|id: OpId| !is_hole(self.store().ops_map(), *topic_id, id)),
    {
        let holes = self.topic_holes(topic_id);
        if holes.len() == 0 {
            proof {
                assert forall|id: OpId| !is_hole(self.store().ops_map(), *topic_id, id) by {
                    if is_hole(self.store().ops_map(), *topic_id, id) {
                        assert(holes@.contains(id));
                    }
                }
            }
            true
        } else {
            let id = holes.get(0);
            proof { assert(holes@.contains(id)); }
            false
        }
    }

    /// The view a question about `topic_id` is asked under.
    pub fn topic_view(&self, topic_id: &TopicId) -> (r: Option<TopicView>)
        ensures r is Some <==> crate::oplog::local::has_state(self.store(), *topic_id),
    {
        match self.storage.topic_state(topic_id) {
            Some(state) => Some(TopicView {
                topic_id: *topic_id,
                genesis: state.genesis,
                epoch: self.storage.topic_epoch(topic_id),
                pending_missing: self.storage.pending_missing(topic_id),
            }),
            None => None,
        }
    }

    /// One integrity question about `topic_id`: one more bounded step of its scan,
    /// or its verdict.
    pub fn ask(&mut self, topic_id: &TopicId) -> (r: Option<(TopicView, Integrity)>)
        ensures
            final(self).store() == old(self).store(),
            r is Some <==> crate::oplog::local::has_state(old(self).store(), *topic_id),
    {
        let view = match self.topic_view(topic_id) {
            Some(v) => v,
            None => return None,
        };
        let listing = listing_of(&self.storage, topic_id);
        let integrity = self.integrity.step(&listing, &view);
        Some((view, integrity))
    }

    /// The topic's integrity once its scan is complete, with the view that answered.
    pub fn inspect(&mut self, topic_id: &TopicId) -> (r: Option<(TopicView, Integrity)>)
        ensures
            final(self).store() == old(self).store(),
            r is Some <==> crate::oplog::local::has_state(old(self).store(), *topic_id),
    {
        let bound = self.storage.op_count();
        let mut fuel: usize = 0;
        loop
            invariant self.store() == old(self).store(),
            decreases usize::MAX - fuel,
        {
            let answer = self.ask(topic_id);
            let complete = match &answer {
                Some((_, integrity)) => integrity.is_complete(),
                None => true,
            };
            if complete || fuel == usize::MAX {
                return answer;
            }
            fuel += 1;
        }
    }

    /// A view of the topic and whether it may be certified: scanned whole with no
    /// buffered op waiting for a dependency.
    pub fn whole_view(&mut self, topic_id: &TopicId) -> (r: Option<(TopicView, bool)>)
        ensures
            final(self).store() == old(self).store(),
            r is Some <==> crate::oplog::local::has_state(old(self).store(), *topic_id),
            r matches Some((v, b)) ==> (b ==> v.pending_missing@.len() == 0),
    {
        match self.inspect(topic_id) {
            Some((view, integrity)) => {
                let whole = integrity.certifies(&view.pending_missing);
                Some((view, whole))
            },
            None => None,
        }
    }

    /// Clears every integrity verdict and scan, so the next question scans the stored
    /// records again: damage from outside is found no other way.
    pub fn recheck_topics(&mut self)
        ensures final(self).store() == old(self).store(),
    {
        self.integrity.clear();
    }

    /// The reads one scan step takes.
    pub closed spec fn spec_step_reads(&self) -> usize {
        self.integrity.step_reads()
    }

    /// Sets the reads one scan step takes.
    pub fn set_step_reads(&mut self, reads: usize)
        ensures
            final(self).store() == old(self).store(),
            final(self).spec_step_reads() == reads,
    {
        self.integrity.set_reads(reads);
    }
}

} // verus!
