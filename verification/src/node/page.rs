//! Incremental history reads: the events after a cursor, a bounded page at a
//! time, with the cursor that covers exactly the page returned.
use vstd::prelude::*;
use crate::ids::{Id32, OpId, TopicId, ActorId};
use crate::idset::IdSet;
use crate::clock::{ActorClock, clock_at};
use crate::op::{Op, same_op};
use crate::storage::{MemoryStorage, StoredOp, spec_topic_ids};
use crate::oplog::local::{held_whole, has_state};
use crate::oplog::topology::{history_order, blocked_ok};
use crate::oplog::inspect::is_hole;
use crate::error::Error;
use crate::reducer::{EventRecord, HistoryEntry, HistoryPage};
use crate::history::{HistoryCursor, HistoryOrder};
use crate::node::Irokle;
use crate::node::topic::Topic;
use crate::node::history::{event_ids, shows_event, shows_events, listed_in, records_of};

verus! {

/// Whether the clock `c` covers the actor position of the stored op `id`.
pub open spec fn covered(ops: Map<OpId, StoredOp>, c: Map<ActorId, u64>, id: OpId) -> bool {
    ops[id].meta.actor_seq <= clock_at(c, ops[id].meta.actor_id)
}

/// The ops of `topic` whose positions `c` does not cover.
pub open spec fn uncovered_ids(ops: Map<OpId, StoredOp>, topic: TopicId, c: Map<ActorId, u64>) -> Set<OpId> {
    spec_topic_ids(ops, topic).filter(|id: OpId| !covered(ops, c, id))
}

/// Whether `id` joins a page that holds `joined`: each of its dependencies
/// joined before it or is covered by `c`.
pub open spec fn joins(ops: Map<OpId, StoredOp>, c: Map<ActorId, u64>, joined: Seq<OpId>, id: OpId) -> bool {
    forall|d: OpId| #[trigger] ops[id].meta.deps@.contains(d) ==> joined.contains(d) || covered(ops, c, d)
}

/// The ids of `order` that join, in order.
pub open spec fn page_ids(ops: Map<OpId, StoredOp>, c: Map<ActorId, u64>, order: Seq<OpId>) -> Seq<OpId>
    decreases order.len(),
{
    if order.len() == 0 {
        Seq::empty()
    } else {
        let r = page_ids(ops, c, order.drop_last());
        if joins(ops, c, r, order.last()) { r.push(order.last()) } else { r }
    }
}

/// The first `n` items of `s`, or all of them when it holds fewer.
pub open spec fn first_n<A>(s: Seq<A>, n: int) -> Seq<A> {
    if n < s.len() { s.take(n) } else { s }
}

/// How many ops a page read with `limit` returns at most: at least one.
pub open spec fn page_limit(limit: Option<usize>) -> int {
    match limit {
        Some(l) => if l == 0 { 1 } else { l as int },
        None => usize::MAX as int,
    }
}

/// The clock `c` after observing `actor` at `seq`, as [`ActorClock::observe`] does.
pub open spec fn observe_view(c: Map<ActorId, u64>, actor: ActorId, seq: u64) -> Map<ActorId, u64> {
    if seq > clock_at(c, actor) || (seq == 0 && !c.contains_key(actor)) { c.insert(actor, seq) } else { c }
}

/// The clock `c` after observing the position of each op of `ids`, in order.
pub open spec fn observe_all(ops: Map<OpId, StoredOp>, c: Map<ActorId, u64>, ids: Seq<OpId>) -> Map<ActorId, u64>
    decreases ids.len(),
{
    if ids.len() == 0 {
        c
    } else {
        let last = ops[ids.last()].meta;
        observe_view(observe_all(ops, c, ids.drop_last()), last.actor_id, last.actor_seq)
    }
}

/// Whether `entries` are the decoded events `ids`, in order.
pub open spec fn shows_entries(entries: Seq<HistoryEntry>, ops: Map<OpId, StoredOp>, ids: Seq<OpId>) -> bool {
    &&& entries.len() == ids.len()
    &&& forall|i: int| 0 <= i < entries.len() ==> (#[trigger] entries[i] matches HistoryEntry::Event(rec) && shows_event(rec, ops, ids[i]))
}

/// Whether each actor of `topic` writes one chain: no two of its ops share a
/// position, and each op after the actor's first depends on the op just
/// before it. Admission keeps this for every stored topic.
pub open spec fn actor_chained(ops: Map<OpId, StoredOp>, topic: TopicId) -> bool {
    &&& forall|x: OpId, y: OpId| #[trigger] spec_topic_ids(ops, topic).contains(x) && #[trigger] spec_topic_ids(ops, topic).contains(y)
        && ops[x].meta.actor_id == ops[y].meta.actor_id && ops[x].meta.actor_seq == ops[y].meta.actor_seq ==> x == y
    &&& forall|x: OpId| #[trigger] spec_topic_ids(ops, topic).contains(x) && ops[x].meta.actor_seq > 1
        ==> exists|d: OpId| #[trigger] ops[x].meta.deps@.contains(d) && spec_topic_ids(ops, topic).contains(d)
            && ops[d].meta.actor_id == ops[x].meta.actor_id && ops[d].meta.actor_seq + 1 == ops[x].meta.actor_seq
}

/// What a page read after `cursor` returns for the candidates taken in `order`:
/// the ops that join, cut to the limit, their events, and the cursor moved past them.
pub open spec fn page_shows(ops: Map<OpId, StoredOp>, cursor: HistoryCursor, limit: Option<usize>, order: Seq<OpId>, page: HistoryPage) -> bool {
    let e = first_n(page_ids(ops, cursor.clock@, order), page_limit(limit));
    &&& shows_entries(page.entries@, ops, event_ids(ops, e, None))
    &&& page.cursor.genesis == cursor.genesis
    &&& page.cursor.clock@ == observe_all(ops, cursor.clock@, e)
}

/// Each op the page holds joined: its dependencies joined before it or are covered.
pub proof fn lemma_page_joins(ops: Map<OpId, StoredOp>, c: Map<ActorId, u64>, order: Seq<OpId>)
    ensures
        forall|j: int| 0 <= j < page_ids(ops, c, order).len() ==> joins(ops, c, page_ids(ops, c, order).take(j), #[trigger] page_ids(ops, c, order)[j]),
        forall|j: int| 0 <= j < page_ids(ops, c, order).len() ==> order.contains(#[trigger] page_ids(ops, c, order)[j]),
    decreases order.len(),
{
    if order.len() > 0 {
        let p0 = page_ids(ops, c, order.drop_last());
        let p = page_ids(ops, c, order);
        lemma_page_joins(ops, c, order.drop_last());
        assert forall|j: int| 0 <= j < p.len() implies joins(ops, c, p.take(j), #[trigger] p[j]) && order.contains(p[j]) by {
            if j < p0.len() {
                assert(p[j] == p0[j]);
                assert(p.take(j) =~= p0.take(j));
                assert(joins(ops, c, p0.take(j), p0[j]));
                assert(order.drop_last().contains(p0[j]));
                let w = choose|w: int| 0 <= w < order.drop_last().len() && order.drop_last()[w] == p0[j];
                assert(order[w] == p0[j]);
            } else {
                assert(p.take(j) =~= p0);
                assert(p[j] == order.last());
                assert(order[order.len() - 1] == p[j]);
            }
        }
    }
}

/// A clock moved past `ids` covers each of them, covers at least what `c` did,
/// and reaches past `c` for an actor only at the position of one of them.
pub proof fn lemma_observe_all(ops: Map<OpId, StoredOp>, c: Map<ActorId, u64>, ids: Seq<OpId>)
    ensures
        forall|a: ActorId| #[trigger] clock_at(observe_all(ops, c, ids), a) >= clock_at(c, a),
        forall|i: int| 0 <= i < ids.len() ==> covered(ops, observe_all(ops, c, ids), #[trigger] ids[i]),
        forall|a: ActorId| #[trigger] clock_at(observe_all(ops, c, ids), a) > clock_at(c, a) ==>
            exists|i: int| 0 <= i < ids.len() && ops[#[trigger] ids[i]].meta.actor_id == a
                && ops[ids[i]].meta.actor_seq == clock_at(observe_all(ops, c, ids), a),
    decreases ids.len(),
{
    if ids.len() > 0 {
        let t = ids.drop_last();
        lemma_observe_all(ops, c, t);
        let n0 = observe_all(ops, c, t);
        let n = observe_all(ops, c, ids);
        let last = ops[ids.last()].meta;
        assert(n == observe_view(n0, last.actor_id, last.actor_seq));
        assert forall|a: ActorId| #[trigger] clock_at(n, a) >= clock_at(c, a) by {
            assert(clock_at(n0, a) >= clock_at(c, a));
        }
        assert forall|i: int| 0 <= i < ids.len() implies covered(ops, n, #[trigger] ids[i]) by {
            if i < t.len() {
                assert(t[i] == ids[i]);
                assert(covered(ops, n0, t[i]));
            }
        }
        assert forall|a: ActorId| #[trigger] clock_at(n, a) > clock_at(c, a) implies
            exists|i: int| 0 <= i < ids.len() && ops[#[trigger] ids[i]].meta.actor_id == a
                && ops[ids[i]].meta.actor_seq == clock_at(n, a) by {
            if clock_at(n, a) == clock_at(n0, a) && clock_at(n0, a) > clock_at(c, a) && !(a == last.actor_id && clock_at(n, a) == last.actor_seq) {
                let i = choose|i: int| 0 <= i < t.len() && ops[#[trigger] t[i]].meta.actor_id == a
                    && ops[t[i]].meta.actor_seq == clock_at(n0, a);
                assert(ids[i] == t[i]);
            } else {
                assert(ids[ids.len() - 1] == ids.last());
            }
        }
    }
}

/// Every position of an actor between `c` and a paged op of that actor is held
/// by a paged op at or before it, when actors write chains.
proof fn lemma_chain_paged(ops: Map<OpId, StoredOp>, topic: TopicId, c: Map<ActorId, u64>, p: Seq<OpId>, j: int, k: u64)
    requires
        actor_chained(ops, topic),
        forall|i: int| 0 <= i < p.len() ==> #[trigger] spec_topic_ids(ops, topic).contains(p[i]),
        forall|i: int| 0 <= i < p.len() ==> joins(ops, c, p.take(i), #[trigger] p[i]),
        0 <= j < p.len(),
        clock_at(c, ops[p[j]].meta.actor_id) < k <= ops[p[j]].meta.actor_seq,
    ensures
        exists|i: int| 0 <= i <= j && ops[#[trigger] p[i]].meta.actor_id == ops[p[j]].meta.actor_id && ops[p[i]].meta.actor_seq == k,
    decreases j,
{
    let e = p[j];
    let a = ops[e].meta.actor_id;
    if k < ops[e].meta.actor_seq {
        assert(spec_topic_ids(ops, topic).contains(e));
        let d = choose|d: OpId| #[trigger] ops[e].meta.deps@.contains(d) && spec_topic_ids(ops, topic).contains(d)
            && ops[d].meta.actor_id == ops[e].meta.actor_id && ops[d].meta.actor_seq + 1 == ops[e].meta.actor_seq;
        assert(!covered(ops, c, d));
        assert(joins(ops, c, p.take(j), p[j]));
        assert(p.take(j).contains(d));
        let i = choose|i: int| 0 <= i < p.take(j).len() && p.take(j)[i] == d;
        assert(p[i] == d);
        lemma_chain_paged(ops, topic, c, p, i, k);
        let w = choose|w: int| 0 <= w <= i && ops[#[trigger] p[w]].meta.actor_id == ops[p[i]].meta.actor_id && ops[p[w]].meta.actor_seq == k;
        assert(0 <= w <= j && ops[p[w]].meta.actor_id == a);
    } else {
        assert(ops[p[j]].meta.actor_seq == k);
    }
}

/// The cursor a page read returns covers exactly what the old cursor covered
/// and the ops of the page, when every actor of the topic writes one chain.
pub proof fn lemma_page_cursor_exact(ops: Map<OpId, StoredOp>, topic: TopicId, c: Map<ActorId, u64>, order: Seq<OpId>, n: int)
    requires
        actor_chained(ops, topic),
        order.to_set().subset_of(spec_topic_ids(ops, topic)),
        n >= 0,
    ensures ({
        let e = first_n(page_ids(ops, c, order), n);
        forall|x: OpId| #[trigger] spec_topic_ids(ops, topic).contains(x) ==>
            (covered(ops, observe_all(ops, c, e), x) <==> covered(ops, c, x) || e.contains(x))
    }),
{
    let p = page_ids(ops, c, order);
    let e = first_n(p, n);
    let nc = observe_all(ops, c, e);
    lemma_page_joins(ops, c, order);
    lemma_observe_all(ops, c, e);
    assert forall|i: int| 0 <= i < p.len() implies #[trigger] spec_topic_ids(ops, topic).contains(p[i]) by {
        assert(order.contains(p[i]));
        assert(order.to_set().contains(p[i]));
    }
    assert forall|x: OpId| #[trigger] spec_topic_ids(ops, topic).contains(x) implies
        (covered(ops, nc, x) <==> covered(ops, c, x) || e.contains(x)) by {
        let a = ops[x].meta.actor_id;
        if e.contains(x) {
            let i = choose|i: int| 0 <= i < e.len() && e[i] == x;
            assert(covered(ops, nc, e[i]));
        }
        if covered(ops, nc, x) && !covered(ops, c, x) {
            assert(clock_at(nc, a) > clock_at(c, a));
            let i = choose|i: int| 0 <= i < e.len() && ops[#[trigger] e[i]].meta.actor_id == a
                && ops[e[i]].meta.actor_seq == clock_at(nc, a);
            assert(e[i] == p[i]);
            lemma_chain_paged(ops, topic, c, p, i, ops[x].meta.actor_seq);
            let w = choose|w: int| 0 <= w <= i && ops[#[trigger] p[w]].meta.actor_id == ops[p[i]].meta.actor_id && ops[p[w]].meta.actor_seq == ops[x].meta.actor_seq;
            assert(spec_topic_ids(ops, topic).contains(p[w]));
            assert(p[w] == x);
            assert(e[w] == p[w]);
        }
    }
}

/// The decoded entries of `recs`, in order.
fn wrap_entries(recs: Vec<EventRecord>) -> (r: Vec<HistoryEntry>)
    ensures
        r@.len() == recs@.len(),
        forall|i: int| 0 <= i < r@.len() ==> #[trigger] r@[i] == HistoryEntry::Event(recs@[i]),
{
    let ghost all = recs@;
    let mut rest = recs;
    let mut out: Vec<HistoryEntry> = Vec::new();
    while rest.len() > 0
        invariant
            out@.len() + rest@.len() == all.len(),
            rest@ == all.subrange(out@.len() as int, all.len() as int),
            forall|i: int| 0 <= i < out@.len() ==> #[trigger] out@[i] == HistoryEntry::Event(all[i]),
        decreases rest@.len(),
    {
        let rec = rest.remove(0);
        out.push(HistoryEntry::Event(rec));
        proof {
            assert(rest@ =~= all.subrange(out@.len() as int, all.len() as int));
        }
    }
    out
}

impl Irokle {
    /// The uncovered ops of `ids`: those whose positions `clock` does not cover.
    fn uncovered_of(&self, ids: &IdSet, clock: &ActorClock) -> (r: Result<IdSet, Error>)
        ensures
            r matches Ok(u) ==> u@ == ids@.filter(|id: OpId| !covered(self.store().ops_map(), clock@, id)),
            r matches Err(e) ==> e is Storage,
            (forall|id: OpId| #[trigger] ids@.contains(id) ==> crate::oplog::local::held_whole(self.store().ops_map(), id)) ==> r is Ok,
    {
        let store = self.storage();
        let ghost m = store.ops_map();
        let ghost fine = forall|id: OpId| #[trigger] ids@.contains(id) ==> crate::oplog::local::held_whole(self.store().ops_map(), id);
        let v = ids.to_vec();
        let mut out = IdSet::new();
        let mut i: usize = 0;
        while i < v.len()
            invariant
                i <= v@.len(),
                v@.to_set() == ids@,
                m == self.store().ops_map(),
                m == store.ops_map(),
                out@ == v@.take(i as int).to_set().filter(|id: OpId| !covered(m, clock@, id)),
                fine == (forall|id: OpId| #[trigger] ids@.contains(id) ==> crate::oplog::local::held_whole(m, id)),
            decreases v@.len() - i,
        {
            let id = v[i];
            proof { if fine { assert(v@.to_set().contains(v@[i as int])); } }
            let meta = match store.get_meta(&id) {
                Some(meta) => meta,
                None => return Err(Error::Storage(String::new())),
            };
            let ghost before = out@;
            if !clock.covers(&meta.actor_id, meta.actor_seq) {
                out.insert(id);
            }
            proof {
                let f = |x: OpId| !covered(m, clock@, x);
                assert(v@.take(i as int + 1) =~= v@.take(i as int).push(id));
                assert forall|x: OpId| #[trigger] out@.contains(x) <==> v@.take(i as int + 1).to_set().filter(f).contains(x) by {
                    if v@.take(i as int + 1).to_set().contains(x) && x != id {
                        let w = choose|w: int| 0 <= w < i + 1 && #[trigger] v@.take(i as int + 1)[w] == x;
                        assert(w < i);
                        assert(v@.take(i as int)[w] == x);
                        assert(v@.take(i as int).to_set().contains(x));
                    }
                    if v@.take(i as int).to_set().contains(x) {
                        let w = choose|w: int| 0 <= w < i && #[trigger] v@.take(i as int)[w] == x;
                        assert(v@.take(i as int + 1)[w] == x);
                    }
                    assert(v@.take(i as int + 1)[i as int] == id);
                }
                assert(out@ =~= v@.take(i as int + 1).to_set().filter(f));
            }
            i += 1;
        }
        proof {
            assert(v@.take(v@.len() as int) =~= v@);
            assert(out@ =~= ids@.filter(|id: OpId| !covered(m, clock@, id)));
        }
        Ok(out)
    }

    /// Whether `id` joins a page holding `joined`, by each dependency's position.
    fn joins_page(&self, id: &OpId, joined: &IdSet, clock: &ActorClock) -> (r: Result<bool, Error>)
        requires self.store().ops_map().contains_key(*id),
        ensures
            r matches Ok(b) ==> b == forall|d: OpId| #[trigger] self.store().ops_map()[*id].meta.deps@.contains(d)
                ==> joined@.contains(d) || covered(self.store().ops_map(), clock@, d),
            r matches Err(e) ==> e is Storage,
            (forall|d: OpId| #[trigger] self.store().ops_map()[*id].meta.deps@.contains(d)
                ==> crate::oplog::local::held_whole(self.store().ops_map(), d)) ==> r is Ok,
    {
        let store = self.storage();
        let ghost m = store.ops_map();
        let ghost fine = forall|d: OpId| #[trigger] self.store().ops_map()[*id].meta.deps@.contains(d)
                ==> crate::oplog::local::held_whole(self.store().ops_map(), d);
        let entry = match store.ops_entry(id) {
            Some(e) => e,
            None => return Err(Error::Storage(String::new())),
        };
        let deps = entry.meta.deps.to_vec();
        let mut k: usize = 0;
        while k < deps.len()
            invariant
                k <= deps@.len(),
                m.contains_key(*id),
                deps@.to_set() == m[*id].meta.deps@,
                m == self.store().ops_map(),
                m == store.ops_map(),
                forall|j: int| 0 <= j < k ==> joined@.contains(#[trigger] deps@[j]) || covered(m, clock@, deps@[j]),
                fine == (forall|d: OpId| #[trigger] m[*id].meta.deps@.contains(d) ==> crate::oplog::local::held_whole(m, d)),
            decreases deps@.len() - k,
        {
            let d = deps[k];
            proof { assert(deps@.to_set().contains(d)); if fine { assert(crate::oplog::local::held_whole(m, d)); } }
            if !joined.contains(&d) {
                let dm = match store.get_meta(&d) {
                    Some(dm) => dm,
                    None => return Err(Error::Storage(String::new())),
                };
                if !clock.covers(&dm.actor_id, dm.actor_seq) {
                    proof {
                        assert(m[*id].meta.deps@.contains(d));
                        assert(!covered(m, clock@, d));
                    }
                    return Ok(false);
                }
                proof { assert(covered(m, clock@, d)); }
            }
            k += 1;
        }
        proof {
            assert forall|d: OpId| #[trigger] m[*id].meta.deps@.contains(d) implies joined@.contains(d) || covered(m, clock@, d) by {
                assert(deps@.to_set().contains(d));
                let j = choose|j: int| 0 <= j < deps@.len() && deps@[j] == d;
            }
        }
        Ok(true)
    }

    /// The events after `cursor`, at most `limit` ops (at least one), read as one
    /// view, with the cursor that covers exactly the page. An op joins the page
    /// once each dependency is covered by the cursor or joined before it, in
    /// history order; the page is that sequence cut to the limit, and its events
    /// are returned oldest first. A topic with an op that cannot be read fails,
    /// and a cursor of a replaced genesis fails with `StaleIncarnation`.
    pub fn history_page(&self, topic_id: TopicId, cursor: &HistoryCursor, limit: Option<usize>) -> (r: Result<HistoryPage, Error>)
        ensures
            (exists|id: OpId| is_hole(self.store().ops_map(), topic_id, id)) ==> r matches Err(Error::Storage(_)),
            (forall|id: OpId| !is_hole(self.store().ops_map(), topic_id, id)) && !has_state(self.store(), topic_id)
                ==> r matches Err(Error::TopicNotFound),
            (forall|id: OpId| !is_hole(self.store().ops_map(), topic_id, id)) && has_state(self.store(), topic_id)
                && self.store().topics_map()[topic_id].state.genesis != cursor.genesis
                ==> r matches Err(Error::StaleIncarnation),
            r matches Ok(pg) ==> exists|order: Seq<OpId>|
                #[trigger] history_order(self.store().ops_map(), uncovered_ids(self.store().ops_map(), topic_id, cursor.clock@), Set::empty(), order)
                && page_shows(self.store().ops_map(), *cursor, limit, order, pg)
                && (actor_chained(self.store().ops_map(), topic_id) ==> forall|x: OpId| #[trigger] spec_topic_ids(self.store().ops_map(), topic_id).contains(x)
                    ==> (covered(self.store().ops_map(), pg.cursor.clock@, x) <==> covered(self.store().ops_map(), cursor.clock@, x)
                        || first_n(page_ids(self.store().ops_map(), cursor.clock@, order), page_limit(limit)).contains(x))),
            has_state(self.store(), topic_id) && self.store().topics_map()[topic_id].state.genesis == cursor.genesis
                && crate::oplog::topology::whole_ok(self.store().ops_map(), spec_topic_ids(self.store().ops_map(), topic_id))
                ==> r is Ok,
    {
        let store = self.storage();
        let ghost m = store.ops_map();
        let ghost c = cursor.clock@;
        let ghost owed = has_state(self.store(), topic_id) && self.store().topics_map()[topic_id].state.genesis == cursor.genesis
                && crate::oplog::topology::whole_ok(self.store().ops_map(), spec_topic_ids(self.store().ops_map(), topic_id));
        proof {
            if owed {
                assert forall|id: OpId| !is_hole(m, topic_id, id) by {
                    if spec_topic_ids(m, topic_id).contains(id) { assert(crate::oplog::local::held_whole(m, id)); }
                    if exists|x: OpId| #[trigger] spec_topic_ids(m, topic_id).contains(x) && m[x].has_meta
                        && m[x].meta.deps@.contains(id) && !crate::storage::spec_resolvable(m, id) {
                        let x = choose|x: OpId| #[trigger] spec_topic_ids(m, topic_id).contains(x) && m[x].has_meta
                            && m[x].meta.deps@.contains(id) && !crate::storage::spec_resolvable(m, id);
                        assert(crate::oplog::local::held_whole(m, id));
                    }
                }
            }
        }
        if !self.oplog().history_whole(&topic_id) {
            return Err(Error::Storage(String::new()));
        }
        let genesis = match store.topic_state(&topic_id) {
            Some(s) => s.genesis,
            None => return Err(Error::TopicNotFound),
        };
        if !genesis.same(&cursor.genesis) {
            return Err(Error::StaleIncarnation);
        }
        let lim: usize = match limit {
            Some(l) => if l == 0 { 1 } else { l },
            None => usize::MAX,
        };
        let ids = store.list_op_ids(&topic_id);
        let uncovered = self.uncovered_of(&ids, &cursor.clock)?;
        proof { assert(uncovered@ =~= uncovered_ids(m, topic_id, c)); }
        proof {
            if owed {
                assert forall|id: OpId, d: OpId| #[trigger] uncovered@.contains(id) && #[trigger] m[id].meta.deps@.contains(d) && uncovered@.contains(d)
                    implies m[d].meta.generation < m[id].meta.generation by {
                    assert(spec_topic_ids(m, topic_id).contains(id));
                    assert(spec_topic_ids(m, topic_id).contains(d));
                }
                assert(crate::oplog::topology::whole_ok(m, uncovered@)) by {
                    assert forall|id: OpId| #[trigger] uncovered@.contains(id) implies crate::oplog::local::held_whole(m, id) by {
                        assert(spec_topic_ids(m, topic_id).contains(id));
                    }
                    assert forall|id: OpId, d: OpId| #[trigger] uncovered@.contains(id) && #[trigger] m[id].meta.deps@.contains(d)
                        implies crate::oplog::local::held_whole(m, d) by {
                        assert(spec_topic_ids(m, topic_id).contains(id));
                    }
                }
            }
        }
        let order = crate::oplog::topology::topological_ids(store, &uncovered)?;
        proof {
            if owed {
                let b = choose|b: Set<OpId>| #[trigger] blocked_ok(m, uncovered@, b) && history_order(m, uncovered@, b, order@);
                crate::oplog::topology::lemma_whole_nothing_blocked(m, uncovered@, b);
                assert(order@.to_set() =~= uncovered@);
                order@.unique_seq_to_set();
            }
        }
        if order.len() != uncovered.len() {
            return Err(Error::Storage(String::new()));
        }
        let ghost blocked = choose|b: Set<OpId>| #[trigger] blocked_ok(m, uncovered@, b) && history_order(m, uncovered@, b, order@);
        proof {
            self.lemma_order_whole(uncovered@, blocked, order@, uncovered@.len() as int);
            assert(order@.to_set() == uncovered@);
        }
        // Join the candidates in history order.
        let mut joined = IdSet::new();
        let mut page: Vec<OpId> = Vec::new();
        let mut i: usize = 0;
        while i < order.len()
            invariant
                i <= order@.len(),
                m == self.store().ops_map(),
                m == store.ops_map(),
                c == cursor.clock@,
                has_state(self.store(), topic_id),
                self.store().topics_map()[topic_id].state.genesis == cursor.genesis,
                forall|x: OpId| !is_hole(self.store().ops_map(), topic_id, x),
                order@.to_set() == uncovered@,
                uncovered@ == uncovered_ids(m, topic_id, c),
                page@ == page_ids(m, c, order@.take(i as int)),
                joined@ == page@.to_set(),
                owed ==> crate::oplog::topology::whole_ok(m, spec_topic_ids(m, topic_id)),
            decreases order@.len() - i,
        {
            let id = order[i];
            proof {
                assert(order@.to_set().contains(id));
                assert(order@.take(i as int + 1).drop_last() =~= order@.take(i as int));
                assert(order@.take(i as int + 1).last() == id);
            }
            let j = self.joins_page(&id, &joined, &cursor.clock)?;
            proof {
                assert(j == joins(m, c, page@, id)) by {
                    assert forall|d: OpId| joined@.contains(d) == page@.contains(d) by {
                        if page@.contains(d) {
                            assert(page@.to_set().contains(d));
                        }
                    }
                }
            }
            if j {
                let ghost before = page@;
                joined.insert(id);
                page.push(id);
                proof {
                    assert forall|x: OpId| #[trigger] joined@.contains(x) <==> page@.to_set().contains(x) by {
                        if before.to_set().contains(x) {
                            let w = choose|w: int| 0 <= w < before.len() && before[w] == x;
                            assert(page@[w] == x);
                        }
                        if page@.to_set().contains(x) && x != id {
                            let w = choose|w: int| 0 <= w < page@.len() && page@[w] == x;
                            assert(w < before.len());
                            assert(before[w] == x);
                            assert(before.to_set().contains(x));
                        }
                        assert(page@[before.len() as int] == id);
                    }
                    assert(joined@ =~= page@.to_set());
                }
            }
            i += 1;
        }
        proof { assert(order@.take(order@.len() as int) =~= order@); }
        let ghost p = page@;
        // Cut to the limit, and move the cursor past each op kept.
        let n: usize = if lim < page.len() { lim } else { page.len() };
        let ghost e = first_n(p, lim as int);
        proof {
            assert(e.len() == n);
            crate::node::page::lemma_page_joins(m, c, order@);
        }
        let mut ops: Vec<Op> = Vec::new();
        let mut clock = cursor.clock.duplicate();
        let mut k: usize = 0;
        while k < n
            invariant
                k <= n,
                n == e.len(),
                m == store.ops_map(),
                has_state(self.store(), topic_id),
                self.store().topics_map()[topic_id].state.genesis == cursor.genesis,
                forall|x: OpId| !is_hole(self.store().ops_map(), topic_id, x),
                n <= p.len(),
                p == page@,
                e == first_n(p, lim as int),
                m == self.store().ops_map(),
                c == cursor.clock@,
                order@.to_set() == uncovered@,
                forall|w: int| 0 <= w < order@.len() ==> held_whole(m, #[trigger] order@[w]),
                forall|w: int| 0 <= w < p.len() ==> order@.contains(#[trigger] p[w]),
                ops@.len() == k,
                forall|w: int| 0 <= w < k ==> same_op(#[trigger] ops@[w], m[e[w]].op) && held_whole(m, e[w]),
                clock@ == observe_all(m, c, e.take(k as int)),
            decreases n - k,
        {
            let id = page[k];
            proof {
                assert(e[k as int] == p[k as int]);
                assert(order@.contains(p[k as int]));
                let w = choose|w: int| 0 <= w < order@.len() && order@[w] == p[k as int];
                assert(held_whole(m, order@[w]));
            }
            let op = match store.get_op(&id) {
                Some(op) => op,
                None => return Err(Error::Storage(String::new())),
            };
            let meta = match store.get_meta(&id) {
                Some(meta) => meta,
                None => return Err(Error::Storage(String::new())),
            };
            let ghost ops_before = ops@;
            ops.push(op.duplicate());
            clock.observe(meta.actor_id, meta.actor_seq);
            proof {
                assert(e[k as int] == id);
                assert forall|w: int| 0 <= w < k + 1 implies same_op(#[trigger] ops@[w], m[e[w]].op) && held_whole(m, e[w]) by {
                    if w < k {
                        assert(ops@[w] == ops_before[w]);
                    }
                }
                assert(e.take(k as int + 1).drop_last() =~= e.take(k as int));
                assert(e.take(k as int + 1).last() == id);
            }
            k += 1;
        }
        proof { assert(e.take(n as int) =~= e); }
        let recs = records_of(store, &ops, Ghost(e), None);
        let entries = wrap_entries(recs);
        let pg = HistoryPage { entries, cursor: HistoryCursor { genesis: cursor.genesis, clock } };
        proof {
            assert(history_order(m, uncovered_ids(m, topic_id, c), Set::empty(), order@));
            assert(shows_entries(pg.entries@, m, event_ids(m, e, None)));
            if actor_chained(m, topic_id) {
                assert(order@.to_set().subset_of(spec_topic_ids(m, topic_id)));
                lemma_page_cursor_exact(m, topic_id, c, order@, lim as int);
            }
            assert(page_limit(limit) == lim as int);
        }
        Ok(pg)
    }
}

impl Topic {
    /// The events after `cursor`, at most `limit` ops, with the cursor that covers
    /// exactly them; see [`Irokle::history_page`].
    pub fn history_page(&self, node: &Irokle, cursor: &HistoryCursor, limit: Option<usize>) -> (r: Result<HistoryPage, Error>)
        ensures
            r is Ok ==> exists|order: Seq<OpId>|
                #[trigger] history_order(node.store().ops_map(), uncovered_ids(node.store().ops_map(), self.spec_topic_id(), cursor.clock@), Set::empty(), order)
                && page_shows(node.store().ops_map(), *cursor, limit, order, r->Ok_0),
            (exists|id: OpId| is_hole(node.store().ops_map(), self.spec_topic_id(), id)) ==> r matches Err(Error::Storage(_)),
            has_state(node.store(), self.spec_topic_id()) && node.store().topics_map()[self.spec_topic_id()].state.genesis == cursor.genesis
                && crate::oplog::topology::whole_ok(node.store().ops_map(), spec_topic_ids(node.store().ops_map(), self.spec_topic_id()))
                ==> r is Ok,
    {
        node.history_page(self.id(), cursor, limit)
    }
}

impl Irokle {
    /// The topic's events in `order`, each as an entry of its own; a topic with
    /// an op that cannot be read yet fails, as [`Irokle::topic_history`] does.
    pub fn topic_entries(&self, topic_id: TopicId, order: HistoryOrder) -> (r: Result<Vec<HistoryEntry>, Error>)
        ensures
            (exists|id: OpId| is_hole(self.store().ops_map(), topic_id, id)) ==> r is Err,
            crate::oplog::topology::whole_ok(self.store().ops_map(), spec_topic_ids(self.store().ops_map(), topic_id)) ==> r is Ok,
            r matches Ok(v) ==> exists|ids: Seq<OpId>| #[trigger] history_order(self.store().ops_map(),
                spec_topic_ids(self.store().ops_map(), topic_id), Set::empty(), ids)
                && shows_entries(v@, self.store().ops_map(), listed_in(event_ids(self.store().ops_map(), ids, None), order)),
    {
        let recs = self.topic_history(topic_id, order)?;
        let entries = wrap_entries(recs);
        proof {
            let m = self.store().ops_map();
            let ids = choose|ids: Seq<OpId>| #[trigger] history_order(m, spec_topic_ids(m, topic_id), Set::empty(), ids)
                && shows_events(recs@, m, event_ids(m, ids, None), order);
            assert(history_order(m, spec_topic_ids(m, topic_id), Set::empty(), ids));
        }
        Ok(entries)
    }
}

impl Topic {
    /// The topic's events in `order`, each as an entry of its own; see [`Irokle::topic_entries`].
    pub fn history_entries(&self, node: &Irokle, order: HistoryOrder) -> (r: Result<Vec<HistoryEntry>, Error>)
        ensures
            (exists|id: OpId| is_hole(node.store().ops_map(), self.spec_topic_id(), id)) ==> r is Err,
            crate::oplog::topology::whole_ok(node.store().ops_map(), spec_topic_ids(node.store().ops_map(), self.spec_topic_id())) ==> r is Ok,
            r matches Ok(v) ==> exists|ids: Seq<OpId>| #[trigger] history_order(node.store().ops_map(),
                spec_topic_ids(node.store().ops_map(), self.spec_topic_id()), Set::empty(), ids)
                && shows_entries(v@, node.store().ops_map(), listed_in(event_ids(node.store().ops_map(), ids, None), order)),
    {
        node.topic_entries(self.id(), order)
    }
}

} // verus!
