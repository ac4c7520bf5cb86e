//! DAG queries: the ops reachable from chosen heads, or the whole topic, in
//! history order, newest first when asked, cut to a limit.
use vstd::prelude::*;
use crate::ids::{Id32, OpId, TopicId};
use crate::idset::IdSet;
use crate::op::{Op, same_op};
use crate::storage::{MemoryStorage, StoredOp, spec_topic_ids};
use crate::oplog::local::heads_of;
use crate::oplog::topology::{history_order, blocked_ok};
use crate::error::Error;
use crate::history::{HistoryOrder, ordered};
use crate::node::Irokle;
use crate::node::topic::{Topic, RawTopic};
use crate::node::history::listed_in;

verus! {

/// What a DAG query asks for: the heads to walk back from (the topic's heads
/// when empty), whether those heads are returned too, the order, and how many
/// ops at most.
#[derive(Debug)]
pub struct DagQuery {
    pub heads: Vec<OpId>,
    pub include_heads: bool,
    pub order: HistoryOrder,
    pub limit: Option<usize>,
}

impl DagQuery {
    /// Every op of the topic, oldest first.
    pub fn new() -> (r: DagQuery)
        ensures r.heads@.len() == 0, r.include_heads, r.order == HistoryOrder::OldestFirst, r.limit is None,
    {
        DagQuery { heads: Vec::new(), include_heads: true, order: HistoryOrder::OldestFirst, limit: None }
    }
}

/// Whether `id` has a readable position.
pub open spec fn positioned(ops: Map<OpId, StoredOp>, id: OpId) -> bool {
    ops.contains_key(id) && ops[id].has_meta && ops[id].meta.id == id
}

/// Whether `set` holds `starts` and the dependencies of each of its positioned ops.
pub open spec fn walk_closed(ops: Map<OpId, StoredOp>, starts: Set<OpId>, set: Set<OpId>) -> bool {
    &&& starts.subset_of(set)
    &&& forall|id: OpId| #[trigger] set.contains(id) && positioned(ops, id) ==> ops[id].meta.deps@.subset_of(set)
}

/// Whether `set` is what a walk back from `starts` reaches: the least set holding
/// them and the dependencies of each positioned op in it. An op without a readable
/// position ends its branch of the walk.
pub open spec fn is_reach(ops: Map<OpId, StoredOp>, starts: Set<OpId>, set: Set<OpId>) -> bool {
    &&& walk_closed(ops, starts, set)
    &&& forall|s: Set<OpId>| #[trigger] walk_closed(ops, starts, s) ==> set.subset_of(s)
}

/// Whether a query walks back from heads rather than reading the whole topic.
pub open spec fn walks(q: DagQuery) -> bool {
    q.order == HistoryOrder::NewestFirst || q.heads@.len() > 0 || !q.include_heads
}

/// The heads a query walks back from.
pub open spec fn query_starts(s: MemoryStorage, topic: TopicId, q: DagQuery) -> Set<OpId> {
    if q.heads@.len() > 0 { q.heads@.to_set() } else { heads_of(s, topic) }
}

/// The ids a query leaves out of its result.
pub open spec fn query_excluded(s: MemoryStorage, topic: TopicId, q: DagQuery) -> Set<OpId> {
    if walks(q) && !q.include_heads { query_starts(s, topic, q) } else { Set::empty() }
}

/// The ids a query returns from the history order `order` of its set: those not
/// left out, in the query's order, cut to its limit.
pub open spec fn query_result(order: Seq<OpId>, excluded: Set<OpId>, q: DagQuery) -> Seq<OpId> {
    let kept = listed_in(order.filter(|id: OpId| !excluded.contains(id)), q.order);
    match q.limit {
        Some(n) => if (n as int) < kept.len() { kept.take(n as int) } else { kept },
        None => kept,
    }
}

/// The ids reached walking back from `starts` through positioned ops. A
/// positioned op of another topic fails with `TopicMismatch`.
pub fn walk_back(store: &MemoryStorage, topic: &TopicId, starts: &IdSet) -> (r: Result<IdSet, Error>)
    ensures
        r matches Ok(set) ==> is_reach(store.ops_map(), starts@, set@)
            && forall|x: OpId| #[trigger] set@.contains(x) && positioned(store.ops_map(), x) ==> store.ops_map()[x].meta.topic_id == *topic,
        r matches Err(e) ==> e is TopicMismatch && exists|x: OpId| #[trigger] positioned(store.ops_map(), x)
            && store.ops_map()[x].meta.topic_id != *topic
            && forall|s: Set<OpId>| #[trigger] walk_closed(store.ops_map(), starts@, s) ==> s.contains(x),
{
    let ghost m = store.ops_map();
    let total = store.op_count();
    let mut seen = IdSet::new();
    let mut expanded = IdSet::new();
    let mut work: Vec<OpId> = starts.to_vec();
    while work.len() > 0
        invariant
            m == store.ops_map(),
            total == m.dom().len(),
            m.dom().finite(),
            expanded@.subset_of(m.dom()),
            expanded@.subset_of(seen@),
            forall|id: OpId| #[trigger] seen@.contains(id) && positioned(m, id) ==> expanded@.contains(id),
            forall|id: OpId| #[trigger] seen@.contains(id) && positioned(m, id) ==> m[id].meta.topic_id == *topic,
            forall|id: OpId| #[trigger] expanded@.contains(id) ==>
                (forall|d: OpId| #[trigger] m[id].meta.deps@.contains(d) ==> seen@.contains(d) || work@.contains(d)),
            forall|d: OpId| #[trigger] starts@.contains(d) ==> seen@.contains(d) || work@.contains(d),
            forall|s: Set<OpId>| #[trigger] walk_closed(m, starts@, s) ==>
                seen@.subset_of(s) && (forall|x: OpId| #[trigger] work@.contains(x) ==> s.contains(x)),
        decreases total - expanded@.len(), work@.len(),
    {
        proof {
            vstd::set_lib::lemma_len_subset(expanded@, m.dom());
        }
        let ghost work_before_pop = work@;
        let id = work.pop().unwrap();
        proof {
            assert(work_before_pop =~= work@.push(id));
            assert forall|d: OpId| #[trigger] work_before_pop.contains(d) implies d == id || work@.contains(d) by {
                let w = choose|w: int| 0 <= w < work_before_pop.len() && work_before_pop[w] == d;
                if w < work@.len() {
                    assert(work@[w] == d);
                }
            }
            assert forall|x: OpId| #[trigger] work@.contains(x) implies work_before_pop.contains(x) by {
                let w = choose|w: int| 0 <= w < work@.len() && work@[w] == x;
                assert(work_before_pop[w] == x);
            }
        }
        if seen.contains(&id) {
            continue;
        }
        let ghost before_seen = seen@;
        let ghost before_expanded = expanded@;
        seen.insert(id);
        let meta = match store.get_meta(&id) {
            Some(meta) => meta,
            None => {
                proof {
                    assert(!positioned(m, id));
                    assert forall|s: Set<OpId>| #[trigger] walk_closed(m, starts@, s) implies
                        seen@.subset_of(s) && (forall|x: OpId| #[trigger] work@.contains(x) ==> s.contains(x)) by {
                        assert(work_before_pop.contains(id));
                        assert(s.contains(id));
                        assert forall|x: OpId| #[trigger] work@.contains(x) implies s.contains(x) by {
                            assert(work_before_pop.contains(x));
                        }
                    }
                    assert forall|e: OpId| #[trigger] expanded@.contains(e) implies
                        (forall|d: OpId| #[trigger] m[e].meta.deps@.contains(d) ==> seen@.contains(d) || work@.contains(d)) by {
                        assert forall|d: OpId| #[trigger] m[e].meta.deps@.contains(d) implies seen@.contains(d) || work@.contains(d) by {
                            if !before_seen.contains(d) && !seen@.contains(d) {
                                assert(work_before_pop.contains(d));
                            }
                        }
                    }
                    assert forall|d: OpId| #[trigger] starts@.contains(d) implies seen@.contains(d) || work@.contains(d) by {
                        if !before_seen.contains(d) && d != id {
                            assert(work_before_pop.contains(d));
                        }
                    }
                }
                continue;
            },
        };
        if !meta.topic_id.same(topic) {
            proof {
                assert(positioned(m, id));
                assert forall|s: Set<OpId>| #[trigger] walk_closed(m, starts@, s) implies s.contains(id) by {
                    assert(work_before_pop.contains(id));
                }
            }
            return Err(Error::TopicMismatch);
        }
        expanded.insert(id);
        let ghost before_work = work@;
        let next = meta.deps.to_vec();
        let mut j: usize = 0;
        while j < next.len()
            invariant
                j <= next@.len(),
                m == store.ops_map(),
                next@.to_set() == m[id].meta.deps@,
                work@ == before_work + next@.subrange(0, j as int),
            decreases next@.len() - j,
        {
            work.push(next[j]);
            j += 1;
            assert(work@ =~= before_work + next@.subrange(0, j as int));
        }
        proof {
            assert(next@.subrange(0, next@.len() as int) =~= next@);
            assert forall|x: OpId| before_work.contains(x) implies work@.contains(x) by {
                let w = choose|w: int| 0 <= w < before_work.len() && before_work[w] == x;
                assert(work@[w] == x);
            }
            assert forall|d: OpId| #[trigger] m[id].meta.deps@.contains(d) implies work@.contains(d) by {
                assert(next@.to_set().contains(d));
                let w = choose|w: int| 0 <= w < next@.len() && next@[w] == d;
                assert(work@[before_work.len() + w] == d);
            }
            assert(!before_expanded.contains(id));
            assert(expanded@.len() == before_expanded.len() + 1);
            assert(expanded@.subset_of(m.dom()));
            vstd::set_lib::lemma_len_subset(expanded@, m.dom());
            assert forall|e: OpId| #[trigger] expanded@.contains(e) implies
                (forall|d: OpId| #[trigger] m[e].meta.deps@.contains(d) ==> seen@.contains(d) || work@.contains(d)) by {
                assert forall|d: OpId| #[trigger] m[e].meta.deps@.contains(d) implies seen@.contains(d) || work@.contains(d) by {
                    if e != id && !seen@.contains(d) {
                        assert(work_before_pop.contains(d));
                        assert(before_work.contains(d));
                    }
                }
            }
            assert forall|d: OpId| #[trigger] starts@.contains(d) implies seen@.contains(d) || work@.contains(d) by {
                if !seen@.contains(d) {
                    assert(work_before_pop.contains(d));
                    assert(before_work.contains(d));
                }
            }
            assert forall|s: Set<OpId>| #[trigger] walk_closed(m, starts@, s) implies
                seen@.subset_of(s) && (forall|x: OpId| #[trigger] work@.contains(x) ==> s.contains(x)) by {
                assert(work_before_pop.contains(id));
                assert(s.contains(id));
                assert forall|x: OpId| #[trigger] work@.contains(x) implies s.contains(x) by {
                    let w = choose|w: int| 0 <= w < work@.len() && work@[w] == x;
                    if w < before_work.len() {
                        assert(before_work[w] == x);
                        assert(work_before_pop.contains(x));
                    } else {
                        assert(next@[w - before_work.len()] == x);
                        assert(m[id].meta.deps@.contains(x));
                    }
                }
            }
        }
    }
    proof {
        assert forall|id: OpId| #[trigger] seen@.contains(id) && positioned(m, id) implies m[id].meta.deps@.subset_of(seen@) by {
            assert(expanded@.contains(id));
        }
        assert(walk_closed(m, starts@, seen@));
    }
    Ok(seen)
}

/// Whether a query reads `set`, with `blocked` left out, in history order `order`.
pub open spec fn dag_read(s: MemoryStorage, topic: TopicId, q: DagQuery, set: Set<OpId>, blocked: Set<OpId>, order: Seq<OpId>) -> bool {
    &&& (if walks(q) { is_reach(s.ops_map(), query_starts(s, topic, q), set) } else { set == spec_topic_ids(s.ops_map(), topic) })
    &&& blocked_ok(s.ops_map(), set, blocked)
    &&& history_order(s.ops_map(), set, blocked, order)
}

/// Whether `v` holds copies of the stored ops `ids`, in order.
pub open spec fn shows_ops(v: Seq<Op>, ops: Map<OpId, StoredOp>, ids: Seq<OpId>) -> bool {
    &&& v.len() == ids.len()
    &&& forall|k: int| 0 <= k < v.len() ==> same_op(#[trigger] v[k], ops[ids[k]].op)
}

/// Whether `r` answers the DAG query `q` on `topic` in the store `s`: no ops for a
/// limit of zero; else, out of the set the query reads (reached from its heads
/// when it walks, the whole topic when not) in history order, the ops
/// [`query_result`] names. A positioned op of another topic on the walk fails
/// with `TopicMismatch`; an op that cannot be read fails with `Storage`.
pub open spec fn dag_answer(s: MemoryStorage, topic: TopicId, q: DagQuery, r: Result<Vec<Op>, Error>) -> bool {
    &&& q.limit == Some(0usize) ==> (r matches Ok(v) && v@.len() == 0)
    &&& (q.limit is None || q.limit->0 > 0) ==> (r matches Ok(v) ==> exists|set: Set<OpId>, order: Seq<OpId>, blocked: Set<OpId>|
        #[trigger] dag_read(s, topic, q, set, blocked, order) && shows_ops(v@, s.ops_map(), query_result(order, query_excluded(s, topic, q), q)))
    &&& r matches Err(e) ==> e is TopicMismatch || e is Storage
    &&& r matches Err(Error::TopicMismatch) ==> walks(q) && exists|x: OpId| #[trigger] positioned(s.ops_map(), x)
        && s.ops_map()[x].meta.topic_id != topic
        && forall|w: Set<OpId>| #[trigger] walk_closed(s.ops_map(), query_starts(s, topic, q), w) ==> w.contains(x)
}

/// The ops a DAG query returns; see [`dag_answer`].
pub fn dag_ops(store: &MemoryStorage, topic_id: TopicId, query: &DagQuery) -> (r: Result<Vec<Op>, Error>)
    ensures dag_answer(*store, topic_id, *query, r),
{
    let ghost m = store.ops_map();
    if let Some(n) = query.limit {
        if n == 0 {
            return Ok(Vec::new());
        }
    }
    let walk = query.order == HistoryOrder::NewestFirst || query.heads.len() > 0 || !query.include_heads;
    let starts = if query.heads.len() > 0 { IdSet::from_slice(query.heads.as_slice()) } else { store.heads(&topic_id) };
    proof { assert(starts@ == query_starts(*store, topic_id, *query)); }
    let excluded = if walk && !query.include_heads { starts.duplicate() } else { IdSet::new() };
    let ids = if walk { walk_back(store, &topic_id, &starts)? } else { store.list_op_ids(&topic_id) };
    let order = crate::oplog::topology::topological_ids(store, &ids)?;
    let ghost blocked = choose|b: Set<OpId>| #[trigger] blocked_ok(m, ids@, b) && history_order(m, ids@, b, order@);
    // Leave out the excluded heads.
    let mut kept: Vec<OpId> = Vec::new();
    let mut i: usize = 0;
    while i < order.len()
        invariant
            i <= order@.len(),
            kept@ == order@.take(i as int).filter(|id: OpId| !excluded@.contains(id)),
        decreases order@.len() - i,
    {
        let id = order[i];
        proof {
            assert(order@.take(i as int + 1).drop_last() =~= order@.take(i as int));
            assert(order@.take(i as int + 1).last() == id);
            order@.take(i as int).lemma_filter_push(id, |x: OpId| !excluded@.contains(x));
            assert(order@.take(i as int).push(id) =~= order@.take(i as int + 1));
        }
        if !excluded.contains(&id) {
            kept.push(id);
        }
        i += 1;
    }
    proof { assert(order@.take(order@.len() as int) =~= order@); }
    let listed = ordered(kept, query.order);
    let n: usize = match query.limit {
        Some(l) => if l < listed.len() { l } else { listed.len() },
        None => listed.len(),
    };
    let ghost res = query_result(order@, excluded@, *query);
    proof {
        assert(excluded@ == query_excluded(*store, topic_id, *query));
        assert(listed@ == listed_in(order@.filter(|id: OpId| !excluded@.contains(id)), query.order));
        assert(res.len() == n);
        assert forall|k: int| 0 <= k < n implies res[k] == listed@[k] by {}
    }
    let mut out: Vec<Op> = Vec::new();
    let mut k: usize = 0;
    while k < n
        invariant
            k <= n,
            n <= listed@.len(),
            query.limit is None || query.limit->0 > 0,
            res.len() == n,
            m == store.ops_map(),
            forall|j: int| 0 <= j < n ==> res[j] == listed@[j],
            out@.len() == k,
            forall|j: int| 0 <= j < k ==> same_op(#[trigger] out@[j], m[res[j]].op),
        decreases n - k,
    {
        let op = match store.get_op(&listed[k]) {
            Some(op) => op,
            None => return Err(Error::Storage(String::new())),
        };
        let ghost before = out@;
        out.push(op.duplicate());
        proof {
            assert forall|j: int| 0 <= j < k + 1 implies same_op(#[trigger] out@[j], m[res[j]].op) by {
                if j < k { assert(out@[j] == before[j]); }
            }
        }
        k += 1;
    }
    proof {
        assert(dag_read(*store, topic_id, *query, ids@, blocked, order@));
        assert(shows_ops(out@, m, res));
    }
    Ok(out)
}

impl Irokle {
    /// The ops `query` asks for in `topic_id`; see [`dag_answer`].
    pub fn topic_dag(&self, topic_id: TopicId, query: &DagQuery) -> (r: Result<Vec<Op>, Error>)
        ensures dag_answer(self.store(), topic_id, *query, r),
    {
        dag_ops(self.storage(), topic_id, query)
    }
}

impl Topic {
    /// The ops `query` asks for in this topic; see [`dag_answer`].
    pub fn dag(&self, node: &Irokle, query: &DagQuery) -> (r: Result<Vec<Op>, Error>)
        ensures dag_answer(node.store(), self.spec_topic_id(), *query, r),
    {
        node.topic_dag(self.id(), query)
    }
}

impl RawTopic {
    /// The ops `query` asks for in this topic; see [`dag_answer`].
    pub fn dag(&self, node: &Irokle, query: &DagQuery) -> (r: Result<Vec<Op>, Error>)
        ensures dag_answer(node.store(), self.spec_topic_id(), *query, r),
    {
        node.topic_dag(self.id(), query)
    }
}

} // verus!
