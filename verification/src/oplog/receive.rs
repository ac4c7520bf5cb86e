//! Batches of received operations: genesis tie-breaks, admission in dependency
//! order, and the buffered operations that become ready.
use vstd::prelude::*;
use crate::ids::{Id32, OpId, PeerId, TopicId};
use crate::idset::IdSet;
use crate::op::{Op, SignedOp, spec_op_valid, spec_is_structural_genesis, is_structural_genesis};
use crate::storage::{MemoryStorage, StoredOp, PendingOp};
use crate::eviction::TopicEviction;
use crate::error::Error;
use crate::oplog::{Oplog, Admitted};
use crate::oplog::local::{held_whole, has_state};
use crate::oplog::admission::{ready_to_admit, Received, rejects_pending, deps_held};
use crate::oplog::genesis::{GenesisVerdict, genesis_verdict, genesis_verdict_of, without_descendants};

verus! {

/// The genesis `s` holds for `topic`, with its record when readable.
pub open spec fn held_genesis(s: MemoryStorage, topic: TopicId) -> (Option<OpId>, Option<Op>) {
    if has_state(s, topic) {
        let g = s.topics_map()[topic].state.genesis;
        (Some(g), if s.ops_map().contains_key(g) && s.ops_map()[g].has_record && s.ops_map()[g].op.id == g {
            Some(s.ops_map()[g].op)
        } else {
            None
        })
    } else {
        (None, None)
    }
}

impl Oplog {
    /// Resolves a genesis in `ops` against the topic held here. A smaller genesis of the
    /// same chain resets the topic and journals the discarded ops, unless the topic is
    /// sealed; a genesis that loses is dropped with its descendants in the batch.
    pub fn resolve_genesis_collision(&mut self, ops: Vec<Op>) -> (r: (Vec<Op>, Option<TopicEviction>))
        ensures
            r.1 matches Some(e) ==> exists|i: int| 0 <= i < ops@.len() && #[trigger] spec_is_structural_genesis(ops@[i])
                && e.winning_genesis == ops@[i].id
                && genesis_verdict_of(held_genesis(old(self).store(), e.topic_id).0,
                    held_genesis(old(self).store(), e.topic_id).1, ops@[i]) == GenesisVerdict::Replace
                && !final(self).store().topics_map().contains_key(e.topic_id),
            r.1 is None ==> final(self).store().ops_map() == old(self).store().ops_map()
                && final(self).store().topics_map() == old(self).store().topics_map(),
            forall|k: int| 0 <= k < r.0@.len() ==> ops@.contains(#[trigger] r.0@[k]),
            r.1 is Some ==> r.0@ == ops@,
            (forall|i: int| 0 <= i < ops@.len() ==> !spec_is_structural_genesis(#[trigger] ops@[i]))
                ==> r.0@ == ops@ && r.1 is None && final(self).store() == old(self).store(),
            crate::node::store_consistent(old(self).store()) ==> crate::node::store_consistent(final(self).store()),
    {
        let mut idx: usize = 0;
        while idx < ops.len() && !is_structural_genesis(&ops[idx])
            invariant idx <= ops@.len(),
            decreases ops@.len() - idx,
        {
            idx += 1;
        }
        if idx == ops.len() {
            return (ops, None);
        }
        let topic = ops[idx].signed.body.topic_id;
        let gid = ops[idx].id;
        let local_id = match self.storage.topic_state(&topic) {
            Some(state) => Some(state.genesis),
            None => None,
        };
        let local_op = match local_id {
            Some(g) => self.storage.get_op(&g),
            None => None,
        };
        let verdict = genesis_verdict(local_id, local_op, &ops[idx]);
        match verdict {
            GenesisVerdict::Open | GenesisVerdict::Same => (ops, None),
            GenesisVerdict::Replace => {
                if self.storage.is_sealed(&topic) {
                    let kept = without_descendants(ops, gid);
                    let ghost b0 = self.store();
                    self.storage.drop_pending_waiting_on(&gid);
                    proof { if crate::node::store_consistent(b0) { crate::node::lemma_consistent_same_maps(b0, self.store()); } }
                    return (kept, None);
                }
                let losing = match local_id { Some(g) => g, None => gid };
                let eviction = self.extract_eviction(&topic, losing, gid);
                let ghost b0 = self.store();
                self.storage.journal_eviction(eviction.duplicate());
                let ghost b1 = self.store();
                proof { if crate::node::store_consistent(b0) { crate::node::lemma_consistent_same_maps(b0, b1); } }
                self.storage.reset_topic(&topic);
                proof { if crate::node::store_consistent(b1) { crate::node::lemma_consistent_reset(b1, self.store(), topic); } }
                (ops, Some(eviction))
            },
            GenesisVerdict::Reject => {
                let kept = without_descendants(ops, gid);
                let ghost b0 = self.store();
                self.storage.drop_pending_waiting_on(&gid);
                proof { if crate::node::store_consistent(b0) { crate::node::lemma_consistent_same_maps(b0, self.store()); } }
                (kept, None)
            },
        }
    }
}

/// Whether every id of `ids` is held whole in `ops`.
pub open spec fn all_held(ops: Map<OpId, StoredOp>, ids: Set<OpId>) -> bool {
    forall|id: OpId| #[trigger] ids.contains(id) ==> held_whole(ops, id)
}

/// Whether `new` keeps every entry `old` holds whole, unchanged.
pub open spec fn keeps_entries(old: Map<OpId, StoredOp>, new: Map<OpId, StoredOp>) -> bool {
    forall|k: OpId| #[trigger] held_whole(old, k) ==> new.contains_key(k) && new[k] == old[k]
}

/// Whether no op of `pending` is both ready, its dependencies held, and held itself:
/// such an op leaves the buffer when it is next looked at.
pub open spec fn no_stale_pending(ops: Map<OpId, StoredOp>, pending: Seq<PendingOp>) -> bool {
    forall|i: int| 0 <= i < pending.len() ==> !(deps_held(ops, (#[trigger] pending[i]).op) && held_whole(ops, pending[i].op.id))
}

/// Whether every op of `batch` is held whole in `ops` already and none is a genesis.
pub open spec fn batch_held(ops: Map<OpId, StoredOp>, batch: Seq<Op>) -> bool {
    forall|i: int| 0 <= i < batch.len() ==> !spec_is_structural_genesis(#[trigger] batch[i]) && held_whole(ops, batch[i].id)
}

impl Oplog {
    /// Admits the buffered operations whose dependencies are now held, pass after pass
    /// while a pass admits something. A buffered op that fails for a reason no later
    /// arrival can change is dropped; any other failure keeps it waiting.
    pub fn reconcile_pending_ops(&mut self) -> (r: IdSet)
        ensures
            all_held(final(self).store().ops_map(), r@),
            keeps_entries(old(self).store().ops_map(), final(self).store().ops_map()),
            no_stale_pending(final(self).store().ops_map(), final(self).store().pending_seq()),
            old(self).store().pending_seq().len() == 0 ==> final(self).store().topics_map() == old(self).store().topics_map()
                && final(self).store().ops_map() == old(self).store().ops_map(),
            crate::node::store_consistent(old(self).store()) ==> crate::node::store_consistent(final(self).store()),
    {
        let mut accepted = IdSet::new();
        let mut progressed = true;
        while progressed
            invariant
                all_held(self.storage.ops_map(), accepted@),
                keeps_entries(old(self).store().ops_map(), self.storage.ops_map()),
                !progressed ==> no_stale_pending(self.store().ops_map(), self.store().pending_seq()),
                old(self).store().pending_seq().len() == 0 ==> self.store().topics_map() == old(self).store().topics_map()
                    && self.store().ops_map() == old(self).store().ops_map() && self.store().pending_seq().len() == 0,
                crate::node::store_consistent(old(self).store()) ==> crate::node::store_consistent(self.store()),
            decreases self.storage.pending_seq().len(), (if progressed { 1int } else { 0int }),
        {
            progressed = false;
            let start = Ghost(self.storage.pending_seq().len());
            let ghost b0 = self.store();
            let mut batch = self.storage.take_all_pending();
            proof { if crate::node::store_consistent(b0) { crate::node::lemma_consistent_same_maps(b0, self.store()); } }
            let ghost pass_ops = self.store().ops_map();
            while batch.len() > 0
                invariant
                    all_held(self.storage.ops_map(), accepted@),
                    keeps_entries(old(self).store().ops_map(), self.storage.ops_map()),
                    self.storage.pending_seq().len() + batch@.len() <= start@,
                    progressed ==> self.storage.pending_seq().len() + batch@.len() < start@,
                    !progressed ==> self.store().ops_map() == pass_ops,
                    !progressed ==> no_stale_pending(self.store().ops_map(), self.store().pending_seq()),
                    old(self).store().pending_seq().len() == 0 ==> batch@.len() == 0
                        && self.store().topics_map() == old(self).store().topics_map()
                        && self.store().ops_map() == old(self).store().ops_map() && self.store().pending_seq().len() == 0,
                    crate::node::store_consistent(old(self).store()) ==> crate::node::store_consistent(self.store()),
                decreases batch@.len(),
            {
                let p = batch.pop().unwrap();
                let missing = self.missing_deps(&p.op);
                if missing.is_empty() {
                    let ghost before = self.storage.ops_map();
                    proof {
                        assert forall|d: OpId| #[trigger] p.op.signed.body.deps@.contains(d) implies held_whole(self.store().ops_map(), d) by {
                            if !held_whole(self.store().ops_map(), d) {
                                assert(missing@.contains(d));
                            }
                        }
                    }
                    match self.admit_received(p.source, p.op.duplicate()) {
                        Ok(Received::Admitted(id)) | Ok(Received::Repaired(id)) => {
                            accepted.insert(id);
                            progressed = true;
                        },
                        Ok(_) => {},
                        Err(e) => {
                            if !rejects_pending(&e) {
                                let now = p.since_ms;
                                let ghost pend = self.store().pending_seq();
                                let ghost b1 = self.store();
                                self.storage.put_pending(p.source, p.op, missing, now);
                                proof {
                                    if crate::node::store_consistent(b1) { crate::node::lemma_consistent_same_maps(b1, self.store()); }
                                    let q = self.store().pending_seq();
                                    if !progressed {
                                        assert forall|i: int| 0 <= i < q.len() implies !(deps_held(self.store().ops_map(), (#[trigger] q[i]).op)
                                            && held_whole(self.store().ops_map(), q[i].op.id)) by {
                                            if i < pend.len() {
                                                assert(q[i] == q.drop_last()[i]);
                                                assert(pend[i] == q[i]);
                                            }
                                        }
                                    }
                                }
                            }
                        },
                    }
                } else {
                    let now = p.since_ms;
                    let ghost pend = self.store().pending_seq();
                    proof {
                        let d = missing@.choose();
                        assert(missing@.contains(d));
                        assert(!deps_held(self.store().ops_map(), p.op));
                    }
                    let ghost b1 = self.store();
                    self.storage.put_pending(p.source, p.op, missing, now);
                    proof {
                        if crate::node::store_consistent(b1) { crate::node::lemma_consistent_same_maps(b1, self.store()); }
                        let q = self.store().pending_seq();
                        if !progressed {
                            assert forall|i: int| 0 <= i < q.len() implies !(deps_held(self.store().ops_map(), (#[trigger] q[i]).op)
                                && held_whole(self.store().ops_map(), q[i].op.id)) by {
                                if i < pend.len() {
                                    assert(q[i] == q.drop_last()[i]);
                                    assert(pend[i] == q[i]);
                                }
                            }
                        }
                    }
                }
            }
        }
        accepted
    }
}

impl Oplog {
    /// Admits a batch from `source_peer` (or, when `None`, from each op's author): every
    /// signature is checked first, so one invalid op refuses the batch before anything
    /// is written; a genesis is resolved against the held one; the rest joins in
    /// dependency order, or waits for missing dependencies; buffered ops that became
    /// ready follow. Returns the ids admitted and the evictions a reset produced.
    pub fn receive_ops_from_peer_evicting(&mut self, source_peer: Option<PeerId>, ops: Vec<Op>) -> (r: Result<Admitted, Error>)
        ensures
            r matches Ok(a) ==> all_held(final(self).store().ops_map(), a.accepted@),
            (exists|i: int| 0 <= i < ops@.len() && !spec_op_valid(#[trigger] ops@[i])) ==> r is Err
                && final(self).store() == old(self).store(),
            (forall|i: int| 0 <= i < ops@.len() ==> spec_op_valid(#[trigger] ops@[i]))
                && batch_held(old(self).store().ops_map(), ops@) ==> r is Ok,
            ops@.len() == 1 && !spec_is_structural_genesis(ops@[0]) && ready_to_admit(old(self).store(), ops@[0])
                ==> (r matches Ok(a) && a.accepted@.contains(ops@[0].id)),
            crate::node::store_consistent(old(self).store()) ==> crate::node::store_consistent(final(self).store()),
    {
        let ghost orig = ops@;
        let mut i: usize = 0;
        while i < ops.len()
            invariant
                i <= ops@.len(),
                orig == ops@,
                self.store() == old(self).store(),
                forall|j: int| 0 <= j < i ==> spec_op_valid(#[trigger] ops@[j]),
            decreases ops@.len() - i,
        {
            ops[i].validate()?;
            i += 1;
        }
        self.admit_batch(source_peer, ops)
    }

    /// Admits a batch of signed ops: resolves a genesis against the held one, admits
    /// the rest in dependency order or buffers it, then the buffered ops that became ready.
    pub(crate) fn admit_batch(&mut self, source_peer: Option<PeerId>, ops: Vec<Op>) -> (r: Result<Admitted, Error>)
        ensures
            r matches Ok(a) ==> all_held(final(self).store().ops_map(), a.accepted@),
            batch_held(old(self).store().ops_map(), ops@) ==> r is Ok,
            ops@.len() == 1 && !spec_is_structural_genesis(ops@[0]) && ready_to_admit(old(self).store(), ops@[0])
                ==> (r matches Ok(a) && a.accepted@.contains(ops@[0].id)),
            crate::node::store_consistent(old(self).store()) ==> crate::node::store_consistent(final(self).store()),
    {
        let ghost orig = ops@;
        let ghost dup = batch_held(old(self).store().ops_map(), ops@);
        let ghost single = ops@.len() == 1 && !spec_is_structural_genesis(ops@[0]) && ready_to_admit(old(self).store(), ops@[0]);
        let (kept, eviction) = self.resolve_genesis_collision(ops);
        let mut evictions: Vec<TopicEviction> = Vec::new();
        match eviction {
            Some(e) => evictions.push(e),
            None => {},
        }
        let mut accepted = IdSet::new();
        let mut rest = kept;
        let mut progressed = true;
        proof { if single { assert(rest@ == orig); } }
        while progressed
            invariant
                all_held(self.storage.ops_map(), accepted@),
                orig == ops@,
                single == (orig.len() == 1 && !spec_is_structural_genesis(orig[0]) && ready_to_admit(old(self).store(), orig[0])),
                single ==> (accepted@.contains(orig[0].id) && rest@.len() == 0)
                    || (rest@ == orig && progressed && self.store() == old(self).store()),
                dup == batch_held(old(self).store().ops_map(), orig),
                dup ==> self.store() == old(self).store(),
                crate::node::store_consistent(old(self).store()) ==> crate::node::store_consistent(self.store()),
                dup ==> forall|k: int| 0 <= k < rest@.len() ==> orig.contains(#[trigger] rest@[k]),
            decreases rest@.len(), (if progressed { 1int } else { 0int }),
        {
            progressed = false;
            let ghost start = rest@.len();
            let mut next: Vec<Op> = Vec::new();
            while rest.len() > 0
                invariant
                    all_held(self.storage.ops_map(), accepted@),
                    next@.len() + rest@.len() <= start,
                    progressed ==> next@.len() + rest@.len() < start,
                    orig == ops@,
                    single == (orig.len() == 1 && !spec_is_structural_genesis(orig[0]) && ready_to_admit(old(self).store(), orig[0])),
                    single ==> (accepted@.contains(orig[0].id) && rest@.len() == 0 && next@.len() == 0 && (progressed || start == 0))
                        || (rest@ == orig && next@.len() == 0 && start == 1 && self.store() == old(self).store()),
                dup == batch_held(old(self).store().ops_map(), orig),
                dup ==> self.store() == old(self).store(),
                crate::node::store_consistent(old(self).store()) ==> crate::node::store_consistent(self.store()),
                    dup ==> forall|k: int| 0 <= k < rest@.len() ==> orig.contains(#[trigger] rest@[k]),
                    dup ==> forall|k: int| 0 <= k < next@.len() ==> orig.contains(#[trigger] next@[k]),
                decreases rest@.len(),
            {
                let ghost last = rest@.len() - 1;
                let ghost on_path = single && rest@ == orig;
                proof { if dup { assert(orig.contains(rest@[last])); } }
                let op = rest.pop().unwrap();
                proof {
                    if on_path {
                        assert(op == orig[0]);
                        assert(ready_to_admit(self.store(), op));
                    }
                }
                proof {
                    if dup {
                        let i = choose|i: int| 0 <= i < orig.len() && orig[i] == op;
                        assert(held_whole(old(self).store().ops_map(), orig[i].id));
                    }
                }
                let missing = self.missing_deps(&op);
                proof {
                    if on_path {
                        assert(missing@ =~= Set::<OpId>::empty()) by {
                            assert forall|d: OpId| !missing@.contains(d) by {
                                if missing@.contains(d) { assert(op.signed.body.deps@.contains(d)); }
                            }
                        }
                    }
                }
                if missing.is_empty() {
                    let source = match source_peer { Some(p) => p, None => op.signed.body.author };
                    let ghost before = self.storage.ops_map();
                    match self.admit_received(source, op)? {
                        Received::Admitted(id) | Received::Repaired(id) => {
                            accepted.insert(id);
                            progressed = true;
                        },
                        _ => {},
                    }
                } else {
                    next.push(op);
                }
            }
            rest = next;
        }
        while rest.len() > 0
            invariant
                all_held(self.storage.ops_map(), accepted@),
                orig == ops@,
                single ==> accepted@.contains(orig[0].id) && rest@.len() == 0,
                single == (orig.len() == 1 && !spec_is_structural_genesis(orig[0]) && ready_to_admit(old(self).store(), orig[0])),
                dup == batch_held(old(self).store().ops_map(), orig),
                dup ==> self.store() == old(self).store(),
                crate::node::store_consistent(old(self).store()) ==> crate::node::store_consistent(self.store()),
                dup ==> forall|k: int| 0 <= k < rest@.len() ==> orig.contains(#[trigger] rest@[k]),
            decreases rest@.len(),
        {
            let ghost last = rest@.len() - 1;
            proof { if dup { assert(orig.contains(rest@[last])); } }
            let op = rest.pop().unwrap();
            proof {
                if dup {
                    let i = choose|i: int| 0 <= i < orig.len() && orig[i] == op;
                    assert(held_whole(old(self).store().ops_map(), orig[i].id));
                }
            }
            let source = match source_peer { Some(p) => p, None => op.signed.body.author };
            match self.admit_received(source, op)? {
                Received::Admitted(id) | Received::Repaired(id) => { accepted.insert(id); },
                _ => {},
            }
        }
        let more = self.reconcile_pending_ops();
        accepted.extend(&more);
        Ok(Admitted { accepted, evictions, ready_remaining: false })
    }

    /// Admits a batch from `source_peer` and returns the ids admitted.
    pub fn receive_ops_from_peer(&mut self, source_peer: Option<PeerId>, ops: Vec<Op>) -> (r: Result<IdSet, Error>)
        ensures
            r matches Ok(a) ==> all_held(final(self).store().ops_map(), a@),
            (exists|i: int| 0 <= i < ops@.len() && !spec_op_valid(#[trigger] ops@[i])) ==> r is Err
                && final(self).store() == old(self).store(),
            (forall|i: int| 0 <= i < ops@.len() ==> spec_op_valid(#[trigger] ops@[i]))
                && batch_held(old(self).store().ops_map(), ops@) ==> r is Ok,
    {
        let admitted = self.receive_ops_from_peer_evicting(source_peer, ops)?;
        Ok(admitted.accepted)
    }

    /// Admits a batch whose ops come from their own authors.
    pub fn receive_ops(&mut self, ops: Vec<Op>) -> (r: Result<IdSet, Error>)
        ensures
            r matches Ok(a) ==> all_held(final(self).store().ops_map(), a@),
            (exists|i: int| 0 <= i < ops@.len() && !spec_op_valid(#[trigger] ops@[i])) ==> r is Err
                && final(self).store() == old(self).store(),
            (forall|i: int| 0 <= i < ops@.len() ==> spec_op_valid(#[trigger] ops@[i]))
                && batch_held(old(self).store().ops_map(), ops@) ==> r is Ok,
    {
        self.receive_ops_from_peer(None, ops)
    }

    /// Admits one operation.
    pub fn receive_op(&mut self, op: Op) -> (r: Result<(), Error>)
        ensures
            !spec_op_valid(op) ==> r is Err && final(self).store() == old(self).store(),
            spec_op_valid(op) && !spec_is_structural_genesis(op) && held_whole(old(self).store().ops_map(), op.id) ==> r is Ok,
    {
        let ghost o = op;
        let ops = vec![op];
        proof {
            assert(ops@[0] == o);
            assert(ops@ =~= seq![o]);
        }
        match self.receive_ops(ops) {
            Ok(_) => Ok(()),
            Err(e) => Err(e),
        }
    }

    /// Derives the id of a signed operation and admits it.
    pub fn receive_signed_op(&mut self, signed: SignedOp) -> (r: Result<Op, Error>)
        ensures
            r matches Ok(op) ==> crate::op::id_matches(op.id, op.signed) && crate::op::same_body(op.signed.body, signed.body),
            forall|id: OpId| #[trigger] crate::op::id_matches(id, signed) ==> (crate::op::signature_valid(signed)
                && !spec_is_structural_genesis(Op { id, signed }) && held_whole(old(self).store().ops_map(), id) ==> r is Ok),
    {
        let op = Op::new(signed);
        proof {
            assert forall|id: OpId| #[trigger] crate::op::id_matches(id, signed) implies id == op.id by {
                crate::ids::lemma_id_bytes_eq(id, op.id);
            }
        }
        let copy = op.duplicate();
        self.receive_op(op)?;
        Ok(copy)
    }
}

} // verus!
