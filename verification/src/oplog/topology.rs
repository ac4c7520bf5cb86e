//! Deterministic history order: the ops of a set by generation, then id, leaving out
//! those still waiting for a dependency to be repaired.
use vstd::prelude::*;
use crate::ids::{Id32, OpId, TopicId, id_lt};
use crate::idset::IdSet;
use crate::op::{Op, same_op};
use crate::storage::{MemoryStorage, StoredOp, spec_topic_ids};
use crate::error::Error;
use crate::order::{SortKey, key_lt, keys_sorted, sort_keys, lemma_key_order};
use crate::oplog::local::held_whole;

verus! {

/// The history key of a held op: its generation, then its id.
pub open spec fn history_key(ops: Map<OpId, StoredOp>, id: OpId) -> SortKey {
    SortKey { major: ops[id].meta.generation, actor: id, minor: 0, id }
}

/// Whether `blocked` holds every id of `ids` that cannot be ordered yet: not held whole,
/// depending on an op outside `ids` that is not held whole, or depending on a blocked
/// op; and each blocked id is blocked for one of those reasons.
pub open spec fn blocked_ok(ops: Map<OpId, StoredOp>, ids: Set<OpId>, blocked: Set<OpId>) -> bool {
    &&& blocked.subset_of(ids)
    &&& forall|id: OpId| #[trigger] ids.contains(id) ==> (blocked.contains(id) <==> (
        !held_whole(ops, id)
        || (exists|d: OpId| #[trigger] ops[id].meta.deps@.contains(d) && !ids.contains(d) && !held_whole(ops, d))
        || (exists|d: OpId| #[trigger] ops[id].meta.deps@.contains(d) && blocked.contains(d))))
}

/// Whether `r` lists the ids of `ids` outside `blocked` once each, ordered by
/// generation then id, every dependency inside the set before its dependent.
pub open spec fn history_order(ops: Map<OpId, StoredOp>, ids: Set<OpId>, blocked: Set<OpId>, r: Seq<OpId>) -> bool {
    &&& r.to_set() == ids.difference(blocked)
    &&& r.no_duplicates()
    &&& forall|i: int, j: int| 0 <= i < j < r.len() ==> key_lt(history_key(ops, #[trigger] r[i]), history_key(ops, #[trigger] r[j]))
    &&& forall|j: int, d: OpId| 0 <= j < r.len() && #[trigger] ops[r[j]].meta.deps@.contains(d) && ids.contains(d)
        ==> exists|i: int| 0 <= i < j && r[i] == d
}

/// Whether every dependency inside `ids` of an op of `ids` has a smaller generation
/// than the op: the store is consistent, and history order can put dependencies first.
pub open spec fn gens_ordered(ops: Map<OpId, StoredOp>, ids: Set<OpId>) -> bool {
    forall|id: OpId, d: OpId| #[trigger] ids.contains(id) && #[trigger] ops[id].meta.deps@.contains(d) && ids.contains(d)
        ==> ops[d].meta.generation < ops[id].meta.generation
}

/// Whether the ops of `ids` can all be ordered: each of them and each of their
/// dependencies is held whole, and generations grow along dependencies.
pub open spec fn whole_ok(ops: Map<OpId, StoredOp>, ids: Set<OpId>) -> bool {
    &&& forall|id: OpId| #[trigger] ids.contains(id) ==> held_whole(ops, id)
    &&& forall|id: OpId, d: OpId| #[trigger] ids.contains(id) && #[trigger] ops[id].meta.deps@.contains(d) ==> held_whole(ops, d)
    &&& gens_ordered(ops, ids)
}

/// Every member of a blocked set that is ordered whole has a generation of at least `n`.
proof fn lemma_blocked_generation_floor(ops: Map<OpId, StoredOp>, ids: Set<OpId>, blocked: Set<OpId>, n: nat)
    requires
        whole_ok(ops, ids),
        blocked_ok(ops, ids, blocked),
    ensures
        forall|b: OpId| #[trigger] blocked.contains(b) ==> ops[b].meta.generation >= n,
    decreases n,
{
    if n > 0 {
        lemma_blocked_generation_floor(ops, ids, blocked, (n - 1) as nat);
        assert forall|b: OpId| #[trigger] blocked.contains(b) implies ops[b].meta.generation >= n by {
            assert(ids.contains(b));
            assert(held_whole(ops, b));
            if !(exists|d: OpId| #[trigger] ops[b].meta.deps@.contains(d) && blocked.contains(d)) {
                if exists|d: OpId| #[trigger] ops[b].meta.deps@.contains(d) && !ids.contains(d) && !held_whole(ops, d) {
                    let d = choose|d: OpId| #[trigger] ops[b].meta.deps@.contains(d) && !ids.contains(d) && !held_whole(ops, d);
                    assert(held_whole(ops, d));
                }
            }
            let d = choose|d: OpId| #[trigger] ops[b].meta.deps@.contains(d) && blocked.contains(d);
            assert(ids.contains(d));
            assert(ops[d].meta.generation >= n - 1);
        }
    }
}

/// When every op of `ids` can be ordered, nothing is blocked.
pub proof fn lemma_whole_nothing_blocked(ops: Map<OpId, StoredOp>, ids: Set<OpId>, blocked: Set<OpId>)
    requires
        whole_ok(ops, ids),
        blocked_ok(ops, ids, blocked),
    ensures
        blocked == Set::<OpId>::empty(),
{
    assert forall|b: OpId| !blocked.contains(b) by {
        if blocked.contains(b) {
            lemma_blocked_generation_floor(ops, ids, blocked, (ops[b].meta.generation + 1) as nat);
        }
    }
    assert(blocked =~= Set::<OpId>::empty());
}

/// Two orders of one set by one strict key are the same sequence: history order is
/// a function of the set of ops alone.
pub proof fn lemma_history_order_unique(ops: Map<OpId, StoredOp>, a: Seq<OpId>, b: Seq<OpId>)
    requires
        a.to_set() == b.to_set(),
        a.no_duplicates(),
        b.no_duplicates(),
        forall|i: int, j: int| 0 <= i < j < a.len() ==> key_lt(history_key(ops, #[trigger] a[i]), history_key(ops, #[trigger] a[j])),
        forall|i: int, j: int| 0 <= i < j < b.len() ==> key_lt(history_key(ops, #[trigger] b[i]), history_key(ops, #[trigger] b[j])),
    ensures
        a == b,
    decreases a.len(),
{
    lemma_key_order();
    a.unique_seq_to_set();
    b.unique_seq_to_set();
    if a.len() == 0 {
        assert(b.len() == 0);
        assert(a =~= b);
    } else {
        let x = a.last();
        let y = b.last();
        assert(a.to_set().contains(x));
        assert(b.to_set().contains(y));
        assert(b.contains(x));
        assert(a.contains(y));
        if x != y {
            let ix = choose|i: int| 0 <= i < b.len() && b[i] == x;
            let iy = choose|i: int| 0 <= i < a.len() && a[i] == y;
            assert(ix < b.len() - 1);
            assert(iy < a.len() - 1);
            assert(key_lt(history_key(ops, b[ix]), history_key(ops, b[b.len() - 1])));
            assert(key_lt(history_key(ops, a[iy]), history_key(ops, a[a.len() - 1])));
            assert(false);
        }
        let a2 = a.drop_last();
        let b2 = b.drop_last();
        assert forall|z: OpId| a2.to_set().contains(z) <==> b2.to_set().contains(z) by {
            if a2.contains(z) {
                let i = choose|i: int| 0 <= i < a2.len() && a2[i] == z;
                assert(a[i] == z);
                assert(a.contains(z));
                assert(a.to_set().contains(z));
                assert(b.to_set().contains(z));
                assert(b.contains(z));
                let k = choose|k: int| 0 <= k < b.len() && b[k] == z;
                if k == b.len() - 1 {
                    assert(a[i] == a[a.len() - 1]);
                }
                assert(b2[k] == z);
            }
            if b2.contains(z) {
                let i = choose|i: int| 0 <= i < b2.len() && b2[i] == z;
                assert(b[i] == z);
                assert(b.contains(z));
                assert(b.to_set().contains(z));
                assert(a.to_set().contains(z));
                assert(a.contains(z));
                let k = choose|k: int| 0 <= k < a.len() && a[k] == z;
                if k == a.len() - 1 {
                    assert(b[i] == b[b.len() - 1]);
                }
                assert(a2[k] == z);
            }
        }
        assert(a2.to_set() =~= b2.to_set());
        lemma_history_order_unique(ops, a2, b2);
        assert(a =~= a2.push(x));
        assert(b =~= b2.push(y));
    }
}

/// Whether `id` is held whole in the store.
fn whole(store: &MemoryStorage, id: &OpId) -> (r: bool)
    ensures r == held_whole(store.ops_map(), *id),
{
    match (store.get_op(id), store.get_meta(id)) {
        (Some(_), Some(_)) => store.dep_resolvable(id),
        _ => false,
    }
}

/// Whether `id` of `ids` cannot be ordered on its own account: it is not held whole,
/// or it depends on an op outside `ids` that is not.
pub open spec fn blocked_seed(ops: Map<OpId, StoredOp>, ids: Set<OpId>, id: OpId) -> bool {
    !held_whole(ops, id) || (exists|d: OpId| #[trigger] ops[id].meta.deps@.contains(d) && !ids.contains(d) && !held_whole(ops, d))
}

/// Whether `id`, which is held whole, depends on a member of `blocked` or is blocked by a
/// missing op outside `ids`, reading its dependencies.
fn depends_on_blocked(store: &MemoryStorage, ids: &IdSet, blocked: &IdSet, id: &OpId) -> (r: (bool, bool))
    requires held_whole(store.ops_map(), *id),
    ensures
        r.0 == (exists|d: OpId| #[trigger] store.ops_map()[*id].meta.deps@.contains(d) && blocked@.contains(d)),
        r.1 == (exists|d: OpId| #[trigger] store.ops_map()[*id].meta.deps@.contains(d) && !ids@.contains(d)
            && !held_whole(store.ops_map(), d)),
{
    let meta = match store.get_meta(id) {
        Some(m) => m,
        None => { proof { assert(false); } return (false, false); },
    };
    let deps = meta.deps.to_vec();
    let mut on_blocked = false;
    let mut dangling = false;
    let mut k: usize = 0;
    while k < deps.len()
        invariant
            k <= deps@.len(),
            deps@.to_set() == meta.deps@,
            *meta == store.ops_map()[*id].meta,
            on_blocked == (exists|j: int| 0 <= j < k && blocked@.contains(#[trigger] deps@[j])),
            dangling == (exists|j: int| 0 <= j < k && !ids@.contains(#[trigger] deps@[j]) && !held_whole(store.ops_map(), deps@[j])),
        decreases deps@.len() - k,
    {
        let d = deps[k];
        if blocked.contains(&d) {
            on_blocked = true;
        }
        if !ids.contains(&d) && !whole(store, &d) {
            dangling = true;
        }
        proof {
            if on_blocked && !blocked@.contains(d) {
                let j = choose|j: int| 0 <= j < k && blocked@.contains(#[trigger] deps@[j]);
                assert(0 <= j < k + 1);
            }
            if dangling && !(!ids@.contains(d) && !held_whole(store.ops_map(), d)) {
                let j = choose|j: int| 0 <= j < k && !ids@.contains(#[trigger] deps@[j]) && !held_whole(store.ops_map(), deps@[j]);
                assert(0 <= j < k + 1);
            }
        }
        k += 1;
    }
    proof {
        if on_blocked {
            let j = choose|j: int| 0 <= j < deps@.len() && blocked@.contains(#[trigger] deps@[j]);
            assert(deps@.to_set().contains(deps@[j]));
        }
        if exists|d: OpId| #[trigger] store.ops_map()[*id].meta.deps@.contains(d) && blocked@.contains(d) {
            let d = choose|d: OpId| #[trigger] store.ops_map()[*id].meta.deps@.contains(d) && blocked@.contains(d);
            assert(deps@.to_set().contains(d));
            let j = choose|j: int| 0 <= j < deps@.len() && deps@[j] == d;
            assert(blocked@.contains(deps@[j]));
        }
        if dangling {
            let j = choose|j: int| 0 <= j < deps@.len() && !ids@.contains(#[trigger] deps@[j]) && !held_whole(store.ops_map(), deps@[j]);
            assert(deps@.to_set().contains(deps@[j]));
        }
        if exists|d: OpId| #[trigger] store.ops_map()[*id].meta.deps@.contains(d) && !ids@.contains(d) && !held_whole(store.ops_map(), d) {
            let d = choose|d: OpId| #[trigger] store.ops_map()[*id].meta.deps@.contains(d) && !ids@.contains(d) && !held_whole(store.ops_map(), d);
            assert(deps@.to_set().contains(d));
            let j = choose|j: int| 0 <= j < deps@.len() && deps@[j] == d;
            assert(!ids@.contains(deps@[j]));
        }
    }
    (on_blocked, dangling)
}

/// The ids of `ids` that cannot be ordered yet: the least set holding every id that is
/// not held whole or depends on a missing op outside `ids`, and every id depending on one.
pub fn blocked_ids(store: &MemoryStorage, ids: &IdSet) -> (r: IdSet)
    ensures blocked_ok(store.ops_map(), ids@, r@),
{
    let ops = Ghost(store.ops_map());
    let v = ids.to_vec();
    let mut blocked = IdSet::new();
    let mut i: usize = 0;
    while i < v.len()
        invariant
            i <= v@.len(),
            v@.to_set() == ids@,
            ops@ == store.ops_map(),
            blocked@.subset_of(ids@),
            forall|id: OpId| #[trigger] blocked@.contains(id) ==> blocked_seed(ops@, ids@, id),
            forall|j: int| 0 <= j < i && blocked_seed(ops@, ids@, #[trigger] v@[j]) ==> blocked@.contains(v@[j]),
        decreases v@.len() - i,
    {
        let id = v[i];
        proof { assert(v@.to_set().contains(id)); }
        let seed = if !whole(store, &id) {
            true
        } else {
            let (_, dangling) = depends_on_blocked(store, ids, &blocked, &id);
            dangling
        };
        if seed {
            blocked.insert(id);
        }
        i += 1;
    }
    proof {
        assert forall|id: OpId| #[trigger] ids@.contains(id) && blocked_seed(ops@, ids@, id) implies blocked@.contains(id) by {
            assert(v@.to_set().contains(id));
            let j = choose|j: int| 0 <= j < v@.len() && v@[j] == id;
        }
    }
    let ghost cand = v@;
    proof { cand.lemma_cardinality_of_set(); v@.unique_seq_to_set(); }
    let n = v.len();
    let mut changed = true;
    while changed
        invariant
            v@.to_set() == ids@,
            ops@ == store.ops_map(),
            n == v@.len(),
            ids@.len() == n,
            ids@.finite(),
            blocked@.subset_of(ids@),
            forall|id: OpId| #[trigger] ids@.contains(id) && blocked_seed(ops@, ids@, id) ==> blocked@.contains(id),
            forall|id: OpId| #[trigger] blocked@.contains(id) ==> blocked_seed(ops@, ids@, id)
                || (exists|d: OpId| #[trigger] ops@[id].meta.deps@.contains(d) && blocked@.contains(d)),
            !changed ==> forall|id: OpId, d: OpId| #[trigger] ids@.contains(id) && #[trigger] ops@[id].meta.deps@.contains(d)
                && blocked@.contains(d) ==> blocked@.contains(id),
        decreases n - blocked@.len(), (if changed { 1int } else { 0int }),
    {
        proof { vstd::set_lib::lemma_len_subset(blocked@, ids@); }
        changed = false;
        let ghost start_len = blocked@.len();
        let ghost start_blocked = blocked@;
        let mut j: usize = 0;
        while j < v.len()
            invariant
                j <= v@.len(),
                v@.to_set() == ids@,
                ops@ == store.ops_map(),
                blocked@.subset_of(ids@),
                start_blocked.subset_of(blocked@),
                forall|id: OpId| #[trigger] ids@.contains(id) && blocked_seed(ops@, ids@, id) ==> blocked@.contains(id),
                forall|id: OpId| #[trigger] blocked@.contains(id) ==> blocked_seed(ops@, ids@, id)
                    || (exists|d: OpId| #[trigger] ops@[id].meta.deps@.contains(d) && blocked@.contains(d)),
                start_len == start_blocked.len(),
                changed ==> blocked@.len() > start_len,
                !changed ==> blocked@ == start_blocked,
                !changed ==> forall|k: int, d: OpId| 0 <= k < j && #[trigger] ops@[v@[k]].meta.deps@.contains(d)
                    && blocked@.contains(d) ==> blocked@.contains(v@[k]),
            decreases v@.len() - j,
        {
            let id = v[j];
            proof { assert(v@.to_set().contains(id)); }
            if !blocked.contains(&id) {
                proof {
                    if !held_whole(ops@, id) {
                        assert(blocked_seed(ops@, ids@, id));
                    }
                }
                let (on_blocked, _) = depends_on_blocked(store, ids, &blocked, &id);
                if on_blocked {
                    let ghost before = blocked@;
                    let _ = blocked.len();
                    blocked.insert(id);
                    let _ = blocked.len();
                    proof {
                        assert(blocked@ == before.insert(id));
                        vstd::set::axiom_set_insert_len(before, id);
                        assert(blocked@.len() == before.len() + 1);
                    }
                    changed = true;
                    proof {
                        assert forall|x: OpId| #[trigger] blocked@.contains(x) implies blocked_seed(ops@, ids@, x)
                            || (exists|d: OpId| #[trigger] ops@[x].meta.deps@.contains(d) && blocked@.contains(d)) by {
                            if x != id {
                                assert(before.contains(x));
                                if !blocked_seed(ops@, ids@, x) {
                                    let d = choose|d: OpId| #[trigger] ops@[x].meta.deps@.contains(d) && before.contains(d);
                                    assert(blocked@.contains(d));
                                }
                            } else {
                                let d = choose|d: OpId| #[trigger] ops@[id].meta.deps@.contains(d) && before.contains(d);
                                assert(blocked@.contains(d));
                            }
                        }
                    }
                }
            }
            j += 1;
        }
        proof {
            vstd::set_lib::lemma_len_subset(blocked@, ids@);
            if !changed {
                assert forall|id: OpId, d: OpId| #[trigger] ids@.contains(id) && #[trigger] ops@[id].meta.deps@.contains(d)
                    && blocked@.contains(d) implies blocked@.contains(id) by {
                    assert(v@.to_set().contains(id));
                    let k = choose|k: int| 0 <= k < v@.len() && v@[k] == id;
                }
            }
        }
    }
    blocked
}

/// The ids of `ids` in history order: by generation, then id, leaving out the ids that
/// wait for a dependency to be repaired. A dependency inside the set that does not sort
/// first is an inconsistent store and fails.
pub fn topological_ids(store: &MemoryStorage, ids: &IdSet) -> (r: Result<Vec<OpId>, Error>)
    ensures
        r matches Ok(v) ==> exists|blocked: Set<OpId>| #[trigger] blocked_ok(store.ops_map(), ids@, blocked)
            && history_order(store.ops_map(), ids@, blocked, v@),
        r matches Err(e) ==> e is Storage,
        gens_ordered(store.ops_map(), ids@) ==> r is Ok,
{
    let ops = Ghost(store.ops_map());
    let blocked = blocked_ids(store, ids);
    let v = ids.to_vec();
    let mut keys: Vec<SortKey> = Vec::new();
    let mut i: usize = 0;
    while i < v.len()
        invariant
            i <= v@.len(),
            v@.to_set() == ids@,
            v@.no_duplicates(),
            ops@ == store.ops_map(),
            blocked_ok(ops@, ids@, blocked@),
            forall|k: int| 0 <= k < keys@.len() ==> {
                let key = #[trigger] keys@[k];
                &&& key == history_key(ops@, key.id)
                &&& ids@.contains(key.id) && !blocked@.contains(key.id)
            },
            forall|j: int| 0 <= j < i && !blocked@.contains(#[trigger] v@[j]) ==> keys@.contains(history_key(ops@, v@[j])),
            forall|k: int| 0 <= k < keys@.len() ==> v@.subrange(0, i as int).contains(#[trigger] keys@[k].id),
            keys@.no_duplicates(),
        decreases v@.len() - i,
    {
        let id = v[i];
        proof { assert(v@.to_set().contains(id)); }
        if !blocked.contains(&id) {
            let meta = match store.get_meta(&id) {
                Some(m) => m,
                None => { proof { assert(false); } return Err(Error::Storage(String::new())); },
            };
            let ghost kb = keys@;
            keys.push(SortKey { major: meta.generation, actor: id, minor: 0, id });
            proof {
                assert(keys@[kb.len() as int] == history_key(ops@, id));
                assert forall|k: int| 0 <= k < keys@.len() implies v@.subrange(0, i as int + 1).contains(#[trigger] keys@[k].id) by {
                    if k < kb.len() {
                        let w = choose|w: int| 0 <= w < i && v@.subrange(0, i as int)[w] == kb[k].id;
                        assert(v@.subrange(0, i as int + 1)[w] == kb[k].id);
                    } else {
                        assert(v@.subrange(0, i as int + 1)[i as int] == id);
                    }
                }
                assert forall|a: int, b: int| 0 <= a < keys@.len() && 0 <= b < keys@.len() && a != b implies keys@[a] != keys@[b] by {
                    if a == kb.len() || b == kb.len() {
                        let other = if a == kb.len() { b } else { a };
                        let w = choose|w: int| 0 <= w < i && v@.subrange(0, i as int)[w] == kb[other].id;
                        assert(v@[w] == v@[i as int] ==> w == i);
                    }
                }
                assert forall|j: int| 0 <= j < i + 1 && !blocked@.contains(#[trigger] v@[j]) implies keys@.contains(history_key(ops@, v@[j])) by {
                    if j < i {
                        let w = choose|w: int| 0 <= w < kb.len() && kb[w] == history_key(ops@, v@[j]);
                        assert(keys@[w] == history_key(ops@, v@[j]));
                    }
                }
            }
        }
        proof {
            if blocked@.contains(id) {
                assert forall|k: int| 0 <= k < keys@.len() implies v@.subrange(0, i as int + 1).contains(#[trigger] keys@[k].id) by {
                    let w = choose|w: int| 0 <= w < i && v@.subrange(0, i as int)[w] == keys@[k].id;
                    assert(v@.subrange(0, i as int + 1)[w] == keys@[k].id);
                }
            }
        }
        i += 1;
    }
    let sorted = sort_keys(&keys);
    let mut out: Vec<OpId> = Vec::new();
    let mut t: usize = 0;
    while t < sorted.len()
        invariant
            t <= sorted@.len(),
            keys_sorted(sorted@),
            sorted@.to_set() == keys@.to_set(),
            out@.len() == t,
            forall|k: int| 0 <= k < keys@.len() ==> {
                let key = #[trigger] keys@[k];
                &&& key == history_key(ops@, key.id)
                &&& ids@.contains(key.id) && !blocked@.contains(key.id)
            },
            forall|k: int| 0 <= k < t ==> #[trigger] out@[k] == sorted@[k].id,
        decreases sorted@.len() - t,
    {
        out.push(sorted[t].id);
        t += 1;
    }
    proof {
        lemma_key_order();
        assert forall|k: int| 0 <= k < sorted@.len() implies #[trigger] sorted@[k] == history_key(ops@, sorted@[k].id)
            && ids@.contains(sorted@[k].id) && !blocked@.contains(sorted@[k].id) by {
            assert(sorted@.to_set().contains(sorted@[k]));
            assert(keys@.to_set().contains(sorted@[k]));
            let w = choose|w: int| 0 <= w < keys@.len() && keys@[w] == sorted@[k];
        }
        assert forall|a: int, b: int| 0 <= a < b < out@.len() implies key_lt(history_key(ops@, #[trigger] out@[a]), history_key(ops@, #[trigger] out@[b])) by {
            assert(!key_lt(sorted@[b], sorted@[a]));
            assert(sorted@[a] != sorted@[b]);
        }
        assert forall|k: int| 0 <= k < out@.len() implies #[trigger] ids@.contains(out@[k]) && !blocked@.contains(out@[k])
            && held_whole(ops@, out@[k]) by {
            assert(out@[k] == sorted@[k].id);
        }
    }
    let mut j: usize = 0;
    while j < out.len()
        invariant
            j <= out@.len(),
            ops@ == store.ops_map(),
            blocked_ok(ops@, ids@, blocked@),
            forall|k: int| 0 <= k < out@.len() ==> #[trigger] ids@.contains(out@[k]) && !blocked@.contains(out@[k])
                && held_whole(ops@, out@[k]),
            forall|k: int, d: OpId| 0 <= k < j && #[trigger] ops@[out@[k]].meta.deps@.contains(d) && ids@.contains(d)
                ==> ops@[d].meta.generation < ops@[out@[k]].meta.generation,
        decreases out@.len() - j,
    {
        let id = out[j];
        proof { assert(ids@.contains(out@[j as int])); }
        let meta = match store.get_meta(&id) {
            Some(m) => m,
            None => { proof { assert(false); } return Err(Error::Storage(String::new())); },
        };
        let deps = meta.deps.to_vec();
        let mut k: usize = 0;
        while k < deps.len()
            invariant
                k <= deps@.len(),
                deps@.to_set() == meta.deps@,
                *meta == ops@[id].meta,
                ops@ == store.ops_map(),
                blocked_ok(ops@, ids@, blocked@),
                ids@.contains(id) && !blocked@.contains(id),
                forall|w: int| 0 <= w < k && ids@.contains(#[trigger] deps@[w]) ==> ops@[deps@[w]].meta.generation < meta.generation,
            decreases deps@.len() - k,
        {
            let d = deps[k];
            if ids.contains(&d) {
                proof {
                    assert(deps@.to_set().contains(d));
                    assert(ops@[id].meta.deps@.contains(d));
                    if blocked@.contains(d) {
                        assert(blocked@.contains(id));
                    }
                }
                let dm = match store.get_meta(&d) {
                    Some(m) => m,
                    None => { proof { assert(false); } return Err(Error::Storage(String::new())); },
                };
                if dm.generation >= meta.generation {
                    proof {
                        assert(ids@.contains(id) && ops@[id].meta.deps@.contains(d) && ids@.contains(d));
                        assert(!gens_ordered(ops@, ids@));
                    }
                    return Err(Error::Storage(String::new()));
                }
            }
            k += 1;
        }
        proof {
            assert forall|k2: int, d: OpId| 0 <= k2 < j + 1 && #[trigger] ops@[out@[k2]].meta.deps@.contains(d) && ids@.contains(d)
                implies ops@[d].meta.generation < ops@[out@[k2]].meta.generation by {
                if k2 == j {
                    assert(deps@.to_set().contains(d));
                    let w = choose|w: int| 0 <= w < deps@.len() && deps@[w] == d;
                }
            }
        }
        j += 1;
    }
    proof {
        lemma_key_order();
        assert forall|x: OpId| out@.contains(x) <==> ids@.difference(blocked@).contains(x) by {
            if ids@.contains(x) && !blocked@.contains(x) {
                assert(v@.to_set().contains(x));
                let j0 = choose|j0: int| 0 <= j0 < v@.len() && v@[j0] == x;
                assert(keys@.contains(history_key(ops@, v@[j0])));
                assert(keys@.to_set().contains(history_key(ops@, x)));
                assert(sorted@.to_set().contains(history_key(ops@, x)));
                let w = choose|w: int| 0 <= w < sorted@.len() && sorted@[w] == history_key(ops@, x);
                assert(out@[w] == x);
            }
        }
        assert(out@.to_set() =~= ids@.difference(blocked@));
        assert forall|a: int, b: int| 0 <= a < out@.len() && 0 <= b < out@.len() && a != b implies out@[a] != out@[b] by {
            if a < b {
                assert(key_lt(history_key(ops@, out@[a]), history_key(ops@, out@[b])));
            } else {
                assert(key_lt(history_key(ops@, out@[b]), history_key(ops@, out@[a])));
            }
        }
        assert forall|j2: int, d: OpId| 0 <= j2 < out@.len() && #[trigger] ops@[out@[j2]].meta.deps@.contains(d) && ids@.contains(d)
            implies exists|i2: int| 0 <= i2 < j2 && out@[i2] == d by {
            if blocked@.contains(d) {
                assert(blocked@.contains(out@[j2]));
            }
            assert(ids@.difference(blocked@).contains(d));
            assert(out@.to_set().contains(d));
            let i2 = choose|i2: int| 0 <= i2 < out@.len() && out@[i2] == d;
            assert(ops@[d].meta.generation < ops@[out@[j2]].meta.generation);
            if i2 >= j2 {
                if i2 > j2 {
                    assert(key_lt(history_key(ops@, out@[j2]), history_key(ops@, out@[i2])));
                }
                assert(false);
            }
        }
        assert(history_order(ops@, ids@, blocked@, out@));
    }
    Ok(out)
}

/// The ops of `ids` in history order, leaving out those waiting for a repair.
pub fn topological_subset(store: &MemoryStorage, ids: &IdSet) -> (r: Result<Vec<Op>, Error>)
    ensures
        r matches Ok(v) ==> exists|order: Seq<OpId>, blocked: Set<OpId>| #[trigger] blocked_ok(store.ops_map(), ids@, blocked)
            && #[trigger] history_order(store.ops_map(), ids@, blocked, order)
            && v@.len() == order.len()
            && forall|k: int| 0 <= k < v@.len() ==> same_op(#[trigger] v@[k], store.ops_map()[order[k]].op),
        r matches Err(e) ==> e is Storage,
        gens_ordered(store.ops_map(), ids@) ==> r is Ok,
{
    let order = topological_ids(store, ids)?;
    proof {
        let blocked = choose|blocked: Set<OpId>| #[trigger] blocked_ok(store.ops_map(), ids@, blocked)
            && history_order(store.ops_map(), ids@, blocked, order@);
        assert forall|k: int| 0 <= k < order@.len() implies held_whole(store.ops_map(), #[trigger] order@[k]) by {
            assert(order@.to_set().contains(order@[k]));
            assert(ids@.contains(order@[k]));
        }
    }
    let mut out: Vec<Op> = Vec::new();
    let mut i: usize = 0;
    while i < order.len()
        invariant
            i <= order@.len(),
            out@.len() == i,
            forall|k: int| 0 <= k < order@.len() ==> held_whole(store.ops_map(), #[trigger] order@[k]),
            exists|blocked: Set<OpId>| #[trigger] blocked_ok(store.ops_map(), ids@, blocked)
                && history_order(store.ops_map(), ids@, blocked, order@),
            forall|k: int| 0 <= k < i ==> same_op(#[trigger] out@[k], store.ops_map()[order@[k]].op),
        decreases order@.len() - i,
    {
        let op = match store.get_op(&order[i]) {
            Some(op) => op,
            None => { proof { assert(held_whole(store.ops_map(), order@[i as int])); } return Err(Error::Storage(String::new())); },
        };
        out.push(op.duplicate());
        i += 1;
    }
    Ok(out)
}

/// The ops of `topic_id` in history order.
pub fn topological(store: &MemoryStorage, topic_id: &TopicId) -> (r: Result<Vec<Op>, Error>)
    ensures
        r matches Ok(v) ==> exists|order: Seq<OpId>, blocked: Set<OpId>|
            #[trigger] blocked_ok(store.ops_map(), spec_topic_ids(store.ops_map(), *topic_id), blocked)
            && #[trigger] history_order(store.ops_map(), spec_topic_ids(store.ops_map(), *topic_id), blocked, order)
            && v@.len() == order.len()
            && forall|k: int| 0 <= k < v@.len() ==> same_op(#[trigger] v@[k], store.ops_map()[order[k]].op),
        r matches Err(e) ==> e is Storage,
        gens_ordered(store.ops_map(), spec_topic_ids(store.ops_map(), *topic_id)) ==> r is Ok,
{
    let ids = store.list_op_ids(topic_id);
    topological_subset(store, &ids)
}

} // verus!
