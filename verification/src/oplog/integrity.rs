//! Holes of a topic: ids its stored records reference but cannot resolve. A scan
//! reads a topic's listing in bounded steps and resumes where it stopped.
use vstd::prelude::*;
use crate::ids::{Id32, OpId, TopicId, id_lt, lemma_id_order};
use crate::idset::IdSet;
use crate::idmap::IdMap;
use crate::storage::{MemoryStorage, StoredOp, spec_resolvable, spec_topic_ids};

verus! {

/// Unresolved ids, each with its generation when its position is stored.
pub type Holes = IdMap<Option<u64>>;

/// The stored position of a listed id: its generation and dependencies.
#[derive(Debug)]
pub struct ListedPosition {
    pub generation: u64,
    pub deps: Vec<OpId>,
}

/// A listed id of a topic, with its position when stored.
#[derive(Debug)]
pub struct ListedOp {
    pub id: OpId,
    pub position: Option<ListedPosition>,
}

/// What a scan reads of a topic: its listed ids in ascending order with their
/// positions, and the ids stored whole.
#[derive(Debug)]
pub struct Listing {
    pub ops: Vec<ListedOp>,
    pub stored: IdSet,
}

/// Where a scan resumes inside the dependencies of one id.
#[derive(Clone, Copy, Debug)]
pub struct DependencyCursor {
    pub offset: usize,
    pub after: Option<OpId>,
}

/// Where a scan resumes: after the last id it finished, and inside the
/// dependencies of the next one when a step ended there.
#[derive(Clone, Copy, Debug)]
pub struct Cursor {
    pub after: Option<OpId>,
    pub open: Option<(OpId, DependencyCursor)>,
}

/// What one step read: where the scan stands, its new holes, and whether it ended.
#[derive(Debug)]
pub struct Step {
    pub cursor: Cursor,
    pub holes: Holes,
    pub done: bool,
}

/// Whether `id` is a hole of `l` with generation `at`: listed without a position; or
/// listed with a position of generation `at` but not stored whole; or a dependency of
/// a listed position that is not stored whole.
pub open spec fn hole_in(l: Listing, id: OpId, at: Option<u64>) -> bool {
    ||| (exists|i: int| 0 <= i < l.ops@.len() && #[trigger] l.ops@[i].id == id && l.ops@[i].position is None && at is None)
    ||| (exists|i: int| 0 <= i < l.ops@.len() && #[trigger] l.ops@[i].id == id && !l.stored@.contains(id)
        && (l.ops@[i].position matches Some(p) && at == Some(p.generation)))
    ||| (exists|i: int, k: int| #[trigger] dep_of(l, i, k) == Some(id) && !l.stored@.contains(id) && at is None)
}

/// The `k`th dependency of the `i`th listed position, if there is one.
pub open spec fn dep_of(l: Listing, i: int, k: int) -> Option<OpId> {
    if 0 <= i < l.ops@.len() && (l.ops@[i].position matches Some(p) && 0 <= k < p.deps@.len()) {
        Some(l.ops@[i].position.unwrap().deps@[k])
    } else {
        None
    }
}

/// Whether every hole `h` names is a hole of `l` with the generation it gives.
pub open spec fn holes_sound(l: Listing, h: Map<OpId, Option<u64>>) -> bool {
    forall|id: OpId| #[trigger] h.contains_key(id) ==> hole_in(l, id, h[id])
}

impl Cursor {
    /// The cursor of a scan that has read nothing.
    pub fn start() -> (r: Cursor)
        ensures r.after is None, r.open is None,
    {
        Cursor { after: None, open: None }
    }
}

impl Listing {
    /// A listing of `ops`, with `stored` the ids stored whole.
    pub fn new(ops: Vec<ListedOp>, stored: IdSet) -> (r: Listing)
        ensures r.ops == ops, r.stored@ == stored@,
    {
        Listing { ops, stored }
    }
}

/// Whether `l` lists its ids once each, in ascending order.
pub open spec fn listing_sorted(l: Listing) -> bool {
    forall|i: int, j: int| 0 <= i < j < l.ops@.len() ==> id_lt(#[trigger] l.ops@[i].id, #[trigger] l.ops@[j].id)
}

/// Whether a scan at cursor `c` has not yet reached `id`: it lies after the last id finished.
pub open spec fn beyond(c: Cursor, id: OpId) -> bool {
    match c.after { Some(a) => id_lt(a, id), None => true }
}

/// Whether a scan at `c` finished the listed id at `i`, its position and every edge.
pub open spec fn id_done(l: Listing, c: Cursor, i: int) -> bool {
    !beyond(c, l.ops@[i].id)
}

/// Whether a scan at `c` read the presence and position of the listed id at `i`.
pub open spec fn node_read(l: Listing, c: Cursor, i: int) -> bool {
    id_done(l, c, i) || (c.open matches Some(o) && o.0 == l.ops@[i].id)
}

/// Whether a scan at `c` read the `k`th dependency edge of the listed id at `i`.
pub open spec fn edge_read(l: Listing, c: Cursor, i: int, k: int) -> bool {
    id_done(l, c, i) || (c.open matches Some(o) && o.0 == l.ops@[i].id && k < o.1.offset)
}

/// Whether the listed id at `i` is a hole itself: without a position, or not stored whole.
pub open spec fn node_hole(l: Listing, i: int) -> bool {
    l.ops@[i].position is None || !l.stored@.contains(l.ops@[i].id)
}

/// Whether `id` is a hole of `l`, at any generation.
pub open spec fn listed_hole(l: Listing, id: OpId) -> bool {
    ||| exists|i: int| 0 <= i < l.ops@.len() && #[trigger] l.ops@[i].id == id && node_hole(l, i)
    ||| exists|i: int, k: int| #[trigger] dep_of(l, i, k) == Some(id) && !l.stored@.contains(id)
}

/// Whether `id` is a hole of `l` that a scan at `c` has read.
pub open spec fn read_hole(l: Listing, c: Cursor, id: OpId) -> bool {
    ||| exists|i: int| 0 <= i < l.ops@.len() && #[trigger] l.ops@[i].id == id && node_hole(l, i) && node_read(l, c, i)
    ||| exists|i: int, k: int| #[trigger] dep_of(l, i, k) == Some(id) && !l.stored@.contains(id) && edge_read(l, c, i, k)
}

/// Whether `holes` holds every hole a scan read between cursors `c0` and `c`.
pub open spec fn gained(l: Listing, c0: Cursor, c: Cursor, holes: Map<OpId, Option<u64>>) -> bool {
    forall|id: OpId| #[trigger] read_hole(l, c, id) && !read_hole(l, c0, id) ==> holes.contains_key(id)
}

/// Whether an open cursor resumes the first listed id past the last finished one.
pub open spec fn cursor_ok(l: Listing, c: Cursor) -> bool {
    c.open matches Some(o) ==> forall|i: int| 0 <= i < l.ops@.len() && beyond(c, #[trigger] l.ops@[i].id) ==> !id_lt(l.ops@[i].id, o.0)
}

/// Records `id` as a hole with `at` unless it is known already.
fn note_hole(holes: &mut Holes, id: OpId, at: Option<u64>)
    ensures
        old(holes)@.contains_key(id) ==> final(holes)@ == old(holes)@,
        !old(holes)@.contains_key(id) ==> final(holes)@ == old(holes)@.insert(id, at),
{
    if !holes.contains_key(&id) {
        holes.insert(id, at);
    }
}

/// Checks the dependencies of the listed op at `index` from `from` on, spending `left`.
/// Returns whether all were read, and then marks the op finished; otherwise the
/// cursor keeps where they resume.
fn read_edges(l: &Listing, index: usize, from: DependencyCursor, left: &mut usize, step: &mut Step) -> (r: bool)
    requires
        index < l.ops@.len(),
        holes_sound(*l, old(step).holes@),
    ensures
        holes_sound(*l, final(step).holes@),
        *final(left) <= *old(left),
        !r ==> *final(left) == 0,
        final(step).done == old(step).done,
        forall|x: OpId| #[trigger] old(step).holes@.contains_key(x) ==> final(step).holes@.contains_key(x),
        r ==> final(step).cursor.after == Some(l.ops@[index as int].id) && final(step).cursor.open == old(step).cursor.open,
        l.ops@[index as int].position is None ==> r && final(step).holes@.contains_key(l.ops@[index as int].id),
        !r ==> final(step).cursor.after == old(step).cursor.after && (final(step).cursor.open matches Some(o)
            && o.0 == l.ops@[index as int].id && o.1.offset >= from.offset
            && forall|k: int| from.offset <= k < o.1.offset && #[trigger] dep_of(*l, index as int, k) is Some
                && !l.stored@.contains(dep_of(*l, index as int, k)->Some_0) ==> final(step).holes@.contains_key(dep_of(*l, index as int, k)->Some_0)),
        r && l.ops@[index as int].position is Some ==> forall|k: int| from.offset <= k && #[trigger] dep_of(*l, index as int, k) is Some
            && !l.stored@.contains(dep_of(*l, index as int, k)->Some_0) ==> final(step).holes@.contains_key(dep_of(*l, index as int, k)->Some_0),
{
    let id = l.ops[index].id;
    let ghost start_holes = step.holes@;
    let pos = match &l.ops[index].position {
        None => {
            let ghost before = step.holes@;
            note_hole(&mut step.holes, id, None);
            proof {
                assert forall|x: OpId| #[trigger] step.holes@.contains_key(x) implies hole_in(*l, x, step.holes@[x]) by {
                    if x == id && !before.contains_key(id) {
                        assert(l.ops@[index as int].id == id);
                    }
                }
            }
            step.cursor.after = Some(id);
            return true;
        },
        Some(p) => p,
    };
    let mut offset = from.offset;
    loop
        invariant
            index < l.ops@.len(),
            l.ops@[index as int].position == Some(*pos),
            l.ops@[index as int].id == id,
            holes_sound(*l, step.holes@),
            *left <= *old(left),
            offset >= from.offset,
            step.cursor == old(step).cursor,
            step.done == old(step).done,
            forall|x: OpId| #[trigger] old(step).holes@.contains_key(x) ==> step.holes@.contains_key(x),
            forall|k: int| from.offset <= k < offset && #[trigger] dep_of(*l, index as int, k) is Some
                && !l.stored@.contains(dep_of(*l, index as int, k)->Some_0) ==> step.holes@.contains_key(dep_of(*l, index as int, k)->Some_0),
        decreases *left,
    {
        if *left == 0 {
            step.cursor.open = Some((id, DependencyCursor { offset, after: None }));
            return false;
        }
        let asked = *left;
        let mut taken: usize = 0;
        let mut k = offset;
        while k < pos.deps.len() && taken < asked
            invariant
                index < l.ops@.len(),
                l.ops@[index as int].position == Some(*pos),
                holes_sound(*l, step.holes@),
                taken <= asked,
                offset <= k,
                k - offset == taken,
                offset >= from.offset,
                step.cursor == old(step).cursor,
                step.done == old(step).done,
                forall|x: OpId| #[trigger] old(step).holes@.contains_key(x) ==> step.holes@.contains_key(x),
                forall|j: int| from.offset <= j < k && #[trigger] dep_of(*l, index as int, j) is Some
                    && !l.stored@.contains(dep_of(*l, index as int, j)->Some_0) ==> step.holes@.contains_key(dep_of(*l, index as int, j)->Some_0),
            decreases pos.deps@.len() - k,
        {
            let dep = pos.deps[k];
            proof { assert(dep_of(*l, index as int, k as int) == Some(dep)); }
            if !l.stored.contains(&dep) {
                let ghost before = step.holes@;
                note_hole(&mut step.holes, dep, None);
                proof {
                    assert forall|x: OpId| #[trigger] step.holes@.contains_key(x) implies hole_in(*l, x, step.holes@[x]) by {
                        if x == dep && !before.contains_key(dep) {
                            assert(dep_of(*l, index as int, k as int) == Some(x));
                        }
                    }
                }
            }
            taken += 1;
            k += 1;
        }
        *left = *left - taken;
        if taken < asked {
            proof {
                assert forall|j: int| from.offset <= j && #[trigger] dep_of(*l, index as int, j) is Some
                    && !l.stored@.contains(dep_of(*l, index as int, j)->Some_0) implies step.holes@.contains_key(dep_of(*l, index as int, j)->Some_0) by {
                    assert(j < pos.deps@.len());
                }
            }
            step.cursor.after = Some(id);
            return true;
        }
        offset = k;
    }
}

/// Whether every hole the listed id at `i` shows, itself or by its edges, is in `h`.
pub open spec fn fully_read(l: Listing, i: int, h: Map<OpId, Option<u64>>) -> bool {
    &&& (node_hole(l, i) ==> h.contains_key(l.ops@[i].id))
    &&& forall|k: int| #[trigger] dep_of(l, i, k) is Some && !l.stored@.contains(dep_of(l, i, k)->Some_0)
        ==> h.contains_key(dep_of(l, i, k)->Some_0)
}

/// What was fully read stays so as holes are added.
proof fn lemma_fully_read_grows(l: Listing, i: int, h1: Map<OpId, Option<u64>>, h2: Map<OpId, Option<u64>>)
    requires
        fully_read(l, i, h1),
        forall|x: OpId| #[trigger] h1.contains_key(x) ==> h2.contains_key(x),
    ensures fully_read(l, i, h2),
{
}

/// In a sorted listing each id is listed once.
proof fn lemma_sorted_unique(l: Listing, i: int, j: int)
    requires
        listing_sorted(l),
        0 <= i < l.ops@.len(),
        0 <= j < l.ops@.len(),
        l.ops@[i].id == l.ops@[j].id,
    ensures i == j,
{
    lemma_id_order();
    if i < j {
        assert(id_lt(l.ops@[i].id, l.ops@[j].id));
    } else if j < i {
        assert(id_lt(l.ops@[j].id, l.ops@[i].id));
    }
}

/// Dropping an open cursor's partial read reads no hole the open cursor had not.
proof fn lemma_read_hole_less_open(l: Listing, c0: Cursor, c: Cursor, id: OpId)
    requires c.after == c0.after, c.open is None,
    ensures read_hole(l, c, id) ==> read_hole(l, c0, id),
{
    if read_hole(l, c, id) {
        if exists|i: int| 0 <= i < l.ops@.len() && #[trigger] l.ops@[i].id == id && node_hole(l, i) && node_read(l, c, i) {
            let i = choose|i: int| 0 <= i < l.ops@.len() && #[trigger] l.ops@[i].id == id && node_hole(l, i) && node_read(l, c, i);
            assert(node_read(l, c0, i));
        } else {
            let (i, k) = choose|i: int, k: int| #[trigger] dep_of(l, i, k) == Some(id) && !l.stored@.contains(id) && edge_read(l, c, i, k);
            assert(edge_read(l, c0, i, k));
        }
    }
}

/// Resuming an open id's edges reads, past `c0`, only holes the step recorded.
proof fn lemma_resume_gained(l: Listing, c0: Cursor, idx: int, from: DependencyCursor, c: Cursor, h: Map<OpId, Option<u64>>, done_all: bool)
    requires
        listing_sorted(l),
        cursor_ok(l, c0),
        0 <= idx < l.ops@.len(),
        c0.open == Some((l.ops@[idx].id, from)),
        done_all ==> c.after == Some(l.ops@[idx].id) && c.open is None
            && (l.ops@[idx].position is Some ==> forall|k: int| from.offset <= k && #[trigger] dep_of(l, idx, k) is Some
                && !l.stored@.contains(dep_of(l, idx, k)->Some_0) ==> h.contains_key(dep_of(l, idx, k)->Some_0)),
        !done_all ==> c.after == c0.after && (c.open matches Some(o) && o.0 == l.ops@[idx].id && o.1.offset >= from.offset
            && forall|k: int| from.offset <= k < o.1.offset && #[trigger] dep_of(l, idx, k) is Some
                && !l.stored@.contains(dep_of(l, idx, k)->Some_0) ==> h.contains_key(dep_of(l, idx, k)->Some_0)),
    ensures
        gained(l, c0, c, h),
        cursor_ok(l, c),
{
    lemma_id_order();
    let oid = l.ops@[idx].id;
    assert forall|id: OpId| #[trigger] read_hole(l, c, id) && !read_hole(l, c0, id) implies h.contains_key(id) by {
        if exists|i: int| 0 <= i < l.ops@.len() && #[trigger] l.ops@[i].id == id && node_hole(l, i) && node_read(l, c, i) {
            let i = choose|i: int| 0 <= i < l.ops@.len() && #[trigger] l.ops@[i].id == id && node_hole(l, i) && node_read(l, c, i);
            if beyond(c0, l.ops@[i].id) {
                if done_all {
                    assert(!id_lt(l.ops@[i].id, oid));
                    assert(l.ops@[i].id == oid);
                }
            }
            assert(node_read(l, c0, i));
            assert(false);
        } else {
            let (i, k) = choose|i: int, k: int| #[trigger] dep_of(l, i, k) == Some(id) && !l.stored@.contains(id) && edge_read(l, c, i, k);
            assert(0 <= i < l.ops@.len());
            if edge_read(l, c0, i, k) {
                assert(false);
            }
            if done_all {
                assert(beyond(c0, l.ops@[i].id));
                assert(!id_lt(l.ops@[i].id, oid));
                assert(l.ops@[i].id == oid);
                lemma_sorted_unique(l, i, idx);
                assert(k >= from.offset);
                assert(dep_of(l, idx, k) == Some(id));
            } else {
                assert(l.ops@[i].id == oid);
                lemma_sorted_unique(l, i, idx);
                assert(dep_of(l, idx, k) == Some(id));
            }
        }
    }
}

/// After the picked ids before `m` were fully read, a cursor at the last of them
/// read, past `c0`, only holes recorded.
proof fn lemma_prefix_gained(l: Listing, c0: Cursor, c1: Cursor, h1: Map<OpId, Option<u64>>, picked: Seq<usize>, n: int, m: int,
    c: Cursor, h: Map<OpId, Option<u64>>)
    requires
        listing_sorted(l),
        c1.open is None,
        gained(l, c0, c1, h1),
        forall|x: OpId| #[trigger] h1.contains_key(x) ==> h.contains_key(x),
        0 <= n <= l.ops@.len(),
        picks(l, c1, picked, n),
        0 <= m <= picked.len(),
        forall|t: int| 0 <= t < m ==> fully_read(l, picked[t] as int, h),
        c.open is None,
        c.after == (if m == 0 { c1.after } else { Some(l.ops@[picked[m - 1] as int].id) }),
    ensures
        gained(l, c0, c, h),
        cursor_ok(l, c),
{
    lemma_id_order();
    assert forall|i: int| 0 <= i < l.ops@.len() && id_done(l, c, i) && !id_done(l, c1, i)
        implies exists|t: int| 0 <= t < m && picked[t] as int == i by {
        assert(m > 0);
        let last = picked[m - 1] as int;
        assert(!id_lt(l.ops@[last].id, l.ops@[i].id));
        assert(i <= last) by {
            if i > last { assert(id_lt(l.ops@[last].id, l.ops@[i].id)); }
        }
        let t = choose|t: int| 0 <= t < picked.len() && picked[t] as int == i;
        assert(t < m) by {
            if t >= m {
                if t > m - 1 { assert(picked[m - 1] < picked[t]); }
            }
        }
    }
    assert forall|id: OpId| #[trigger] read_hole(l, c, id) && !read_hole(l, c0, id) implies h.contains_key(id) by {
        if exists|i: int| 0 <= i < l.ops@.len() && #[trigger] l.ops@[i].id == id && node_hole(l, i) && node_read(l, c, i) {
            let i = choose|i: int| 0 <= i < l.ops@.len() && #[trigger] l.ops@[i].id == id && node_hole(l, i) && node_read(l, c, i);
            if id_done(l, c1, i) {
                assert(read_hole(l, c1, id));
                assert(h1.contains_key(id));
            } else {
                let t = choose|t: int| 0 <= t < m && picked[t] as int == i;
                assert(fully_read(l, picked[t] as int, h));
            }
        } else {
            let (i, k) = choose|i: int, k: int| #[trigger] dep_of(l, i, k) == Some(id) && !l.stored@.contains(id) && edge_read(l, c, i, k);
            assert(0 <= i < l.ops@.len());
            if id_done(l, c1, i) {
                assert(edge_read(l, c1, i, k));
                assert(read_hole(l, c1, id));
                assert(h1.contains_key(id));
            } else {
                let t = choose|t: int| 0 <= t < m && picked[t] as int == i;
                assert(fully_read(l, picked[t] as int, h));
                assert(dep_of(l, picked[t] as int, k) is Some);
            }
        }
    }
}

/// A step that stopped inside the edges of picked id `index` read, past `c0`, only
/// holes recorded, and left a cursor that resumes the right id.
proof fn lemma_stop_gained(l: Listing, c0: Cursor, c1: Cursor, h1: Map<OpId, Option<u64>>, picked: Seq<usize>, n: int, index: int,
    c: Cursor, h: Map<OpId, Option<u64>>)
    requires
        listing_sorted(l),
        c1.open is None,
        gained(l, c0, c1, h1),
        forall|x: OpId| #[trigger] h1.contains_key(x) ==> h.contains_key(x),
        0 <= n <= l.ops@.len(),
        picks(l, c1, picked, n),
        0 <= index < picked.len(),
        forall|t: int| 0 <= t < index ==> fully_read(l, picked[t] as int, h),
        node_hole(l, picked[index] as int) ==> h.contains_key(l.ops@[picked[index] as int].id),
        c.after == (if index == 0 { c1.after } else { Some(l.ops@[picked[index - 1] as int].id) }),
        c.open matches Some(o) && o.0 == l.ops@[picked[index] as int].id
            && forall|k: int| 0 <= k < o.1.offset && #[trigger] dep_of(l, picked[index] as int, k) is Some
                && !l.stored@.contains(dep_of(l, picked[index] as int, k)->Some_0) ==> h.contains_key(dep_of(l, picked[index] as int, k)->Some_0),
    ensures
        gained(l, c0, c, h),
        cursor_ok(l, c),
{
    lemma_id_order();
    let p = picked[index] as int;
    let cc = Cursor { after: c.after, open: None };
    lemma_prefix_gained(l, c0, c1, h1, picked, n, index, cc, h);
    assert forall|id: OpId| #[trigger] read_hole(l, c, id) && !read_hole(l, c0, id) implies h.contains_key(id) by {
        if read_hole(l, cc, id) {
        } else if exists|i: int| 0 <= i < l.ops@.len() && #[trigger] l.ops@[i].id == id && node_hole(l, i) && node_read(l, c, i) {
            let i = choose|i: int| 0 <= i < l.ops@.len() && #[trigger] l.ops@[i].id == id && node_hole(l, i) && node_read(l, c, i);
            if id_done(l, c, i) {
                assert(node_read(l, cc, i));
            } else {
                lemma_sorted_unique(l, i, p);
            }
        } else {
            let (i, k) = choose|i: int, k: int| #[trigger] dep_of(l, i, k) == Some(id) && !l.stored@.contains(id) && edge_read(l, c, i, k);
            assert(0 <= i < l.ops@.len());
            if id_done(l, c, i) {
                assert(edge_read(l, cc, i, k));
            } else {
                lemma_sorted_unique(l, i, p);
                assert(dep_of(l, p, k) == Some(id));
            }
        }
    }
    assert forall|i: int| 0 <= i < l.ops@.len() && beyond(c, #[trigger] l.ops@[i].id) implies !id_lt(l.ops@[i].id, l.ops@[p].id) by {
        if i < n {
            if index == 0 {
                assert(beyond(c1, l.ops@[i].id));
            } else {
                let q = picked[index - 1] as int;
                assert(id_lt(l.ops@[q].id, l.ops@[i].id));
                assert(q < i) by {
                    if i <= q {
                        if i < q { assert(id_lt(l.ops@[i].id, l.ops@[q].id)); }
                    }
                }
                assert(beyond(c1, l.ops@[q].id));
                assert(beyond(c1, l.ops@[i].id)) by {
                    match c1.after {
                        Some(a) => { assert(id_lt(a, l.ops@[q].id)); }
                        None => {}
                    }
                }
            }
            let t = choose|t: int| 0 <= t < picked.len() && picked[t] as int == i;
            if t < index {
                if index > 0 {
                    let q = picked[index - 1] as int;
                    if t < index - 1 { assert(picked[t] < picked[index - 1]); }
                    assert(i <= q);
                    if i < q { assert(id_lt(l.ops@[i].id, l.ops@[q].id)); }
                }
            } else if t > index {
                assert(picked[index] < picked[t]);
                assert(id_lt(l.ops@[p].id, l.ops@[i].id));
            }
        } else {
            assert(p < n);
            assert(p < i);
            assert(id_lt(l.ops@[p].id, l.ops@[i].id));
        }
    }
}

/// A step that picked every unreached id and read them all read every hole.
proof fn lemma_done_reads_all(l: Listing, c1: Cursor, picked: Seq<usize>, c: Cursor)
    requires
        listing_sorted(l),
        picks(l, c1, picked, l.ops@.len() as int),
        c.after == (if picked.len() == 0 { c1.after } else { Some(l.ops@[picked[picked.len() - 1] as int].id) }),
    ensures
        forall|id: OpId| #[trigger] listed_hole(l, id) ==> read_hole(l, c, id),
{
    lemma_id_order();
    assert forall|i: int| 0 <= i < l.ops@.len() implies id_done(l, c, i) by {
        if beyond(c1, l.ops@[i].id) {
            let t = choose|t: int| 0 <= t < picked.len() && picked[t] as int == i;
            let last = picked[picked.len() - 1] as int;
            if t < picked.len() - 1 {
                assert(picked[t] < picked[picked.len() - 1]);
                assert(id_lt(l.ops@[i].id, l.ops@[last].id));
            }
        } else if picked.len() > 0 {
            let last = picked[picked.len() - 1] as int;
            assert(beyond(c1, l.ops@[last].id));
            match c1.after {
                Some(a) => { assert(!id_lt(a, l.ops@[i].id)); assert(id_lt(a, l.ops@[last].id)); }
                None => {}
            }
        }
    }
    assert forall|id: OpId| #[trigger] listed_hole(l, id) implies read_hole(l, c, id) by {
        if exists|i: int| 0 <= i < l.ops@.len() && #[trigger] l.ops@[i].id == id && node_hole(l, i) {
            let i = choose|i: int| 0 <= i < l.ops@.len() && #[trigger] l.ops@[i].id == id && node_hole(l, i);
            assert(node_read(l, c, i));
        } else {
            let (i, k) = choose|i: int, k: int| #[trigger] dep_of(l, i, k) == Some(id) && !l.stored@.contains(id);
            assert(0 <= i < l.ops@.len());
            assert(edge_read(l, c, i, k));
        }
    }
}

/// Whether `picked` lists, in ascending order, the indices below `n` of the ids `c` has not reached.
pub open spec fn picks(l: Listing, c: Cursor, picked: Seq<usize>, n: int) -> bool {
    &&& forall|t: int| 0 <= t < picked.len() ==> #[trigger] picked[t] < n && beyond(c, l.ops@[picked[t] as int].id)
    &&& forall|t: int, u: int| 0 <= t < u < picked.len() ==> #[trigger] picked[t] < #[trigger] picked[u]
    &&& forall|i: int| 0 <= i < n && beyond(c, #[trigger] l.ops@[i].id) ==> exists|t: int| 0 <= t < picked.len() && picked[t] as int == i
}

/// Reads `l` on from `cursor`: each listed id's position and presence, then each
/// dependency edge, at most `reads` ids and edges (at least one). Every hole it
/// reports is a hole of the listing. On a sorted listing, with a cursor that
/// resumes where a step stopped, it reports every hole it read past `cursor`,
/// hands back such a cursor, and a step that reports `done` has read them all.
pub fn scan_step(l: &Listing, cursor: Cursor, reads: usize) -> (r: Step)
    ensures
        holes_sound(*l, r.holes@),
        listing_sorted(*l) && cursor_ok(*l, cursor) ==> {
            &&& gained(*l, cursor, r.cursor, r.holes@)
            &&& cursor_ok(*l, r.cursor)
            &&& r.done ==> forall|id: OpId| #[trigger] listed_hole(*l, id) ==> read_hole(*l, r.cursor, id)
        },
{
    proof { lemma_id_order(); }
    let ghost c0 = cursor;
    let ghost good = listing_sorted(*l) && cursor_ok(*l, cursor);
    let mut step = Step { cursor, holes: IdMap::new(), done: false };
    let mut left: usize = if reads == 0 { 1 } else { reads };
    match step.cursor.open {
        Some((open_id, from)) => {
            step.cursor.open = None;
            let mut idx: usize = 0;
            while idx < l.ops.len() && !l.ops[idx].id.same(&open_id)
                invariant
                    idx <= l.ops@.len(),
                    forall|j: int| 0 <= j < idx ==> l.ops@[j].id != open_id,
                decreases l.ops@.len() - idx,
            {
                idx += 1;
            }
            if idx < l.ops.len() {
                let ghost mid = step.cursor;
                let done_all = read_edges(l, idx, from, &mut left, &mut step);
                proof {
                    if good {
                        lemma_resume_gained(*l, c0, idx as int, from, step.cursor, step.holes@, done_all);
                    }
                }
                if !done_all {
                    return step;
                }
            } else {
                proof {
                    if good {
                        assert forall|id: OpId| #[trigger] read_hole(*l, step.cursor, id) implies read_hole(*l, c0, id) by {
                            lemma_read_hole_less_open(*l, c0, step.cursor, id);
                        }
                    }
                }
            }
        },
        None => {},
    }
    if left == 0 {
        return step;
    }
    let asked = left;
    let start_after = step.cursor.after;
    let ghost c1 = step.cursor;
    let ghost h1 = step.holes@;
    let mut picked: Vec<usize> = Vec::new();
    let mut i: usize = 0;
    while i < l.ops.len() && picked.len() < asked
        invariant
            i <= l.ops@.len(),
            picked@.len() <= asked,
            c1.after == start_after,
            picks(*l, c1, picked@, i as int),
        decreases l.ops@.len() - i,
    {
        let beyond_now = match start_after { Some(a) => a.lt(&l.ops[i].id), None => true };
        if beyond_now {
            let ghost pb = picked@;
            picked.push(i);
            proof {
                assert forall|t: int, u: int| 0 <= t < u < picked@.len() implies #[trigger] picked@[t] < #[trigger] picked@[u] by {
                    if u < pb.len() { assert(picked@[t] == pb[t] && picked@[u] == pb[u]); } else { assert(picked@[t] == pb[t]); }
                }
                assert forall|j: int| 0 <= j < i + 1 && beyond(c1, #[trigger] l.ops@[j].id) implies exists|t: int| 0 <= t < picked@.len() && picked@[t] as int == j by {
                    if j < i {
                        let w = choose|w: int| 0 <= w < pb.len() && pb[w] as int == j;
                        assert(picked@[w] == pb[w]);
                    } else {
                        assert(picked@[pb.len() as int] as int == j);
                    }
                }
            }
        } else {
            proof {
                assert forall|j: int| 0 <= j < i + 1 && beyond(c1, #[trigger] l.ops@[j].id) implies exists|t: int| 0 <= t < picked@.len() && picked@[t] as int == j by {
                    if j == i { assert(false); }
                }
            }
        }
        i += 1;
    }
    let listed = picked.len();
    let ghost all_picked = i == l.ops.len();
    let mut index: usize = 0;
    while index < picked.len()
        invariant
            holes_sound(*l, step.holes@),
            c0 == cursor,
            good == (listing_sorted(*l) && cursor_ok(*l, cursor)),
            listed == picked@.len(),
            listed <= asked,
            index <= picked@.len(),
            picks(*l, c1, picked@, i as int),
            i <= l.ops@.len(),
            all_picked == (i == l.ops@.len()),
            (!all_picked ==> picked@.len() == asked),
            step.cursor.open is None,
            step.done == false,
            c1.open is None || !good,
            c1.after == start_after,
            step.cursor.after == (if index == 0 { start_after } else { Some(l.ops@[picked@[index - 1] as int].id) }),
            good ==> listing_sorted(*l),
            good ==> gained(*l, c0, c1, h1),
            forall|x: OpId| #[trigger] h1.contains_key(x) ==> step.holes@.contains_key(x),
            good ==> forall|t: int| 0 <= t < index ==> fully_read(*l, picked@[t] as int, step.holes@),
            left <= asked,
        decreases picked@.len() - index,
    {
        let at = picked[index];
        let entry = &l.ops[at];
        if left > 0 {
            left -= 1;
        }
        let ghost hb = step.holes@;
        match &entry.position {
            None => {
                let ghost before = step.holes@;
                note_hole(&mut step.holes, entry.id, None);
                proof {
                    assert forall|x: OpId| #[trigger] step.holes@.contains_key(x) implies hole_in(*l, x, step.holes@[x]) by {
                        if x == entry.id && !before.contains_key(x) {
                            assert(l.ops@[at as int].id == x);
                        }
                    }
                }
                step.cursor.after = Some(entry.id);
                proof {
                    if good {
                        assert forall|t: int| 0 <= t < index + 1 implies fully_read(*l, picked@[t] as int, step.holes@) by {
                            if t < index {
                                lemma_fully_read_grows(*l, picked@[t] as int, hb, step.holes@);
                            } else {
                                assert(step.holes@.contains_key(entry.id));
                            }
                        }
                    }
                }
            },
            Some(p) => {
                if !l.stored.contains(&entry.id) {
                    let ghost before = step.holes@;
                    step.holes.insert(entry.id, Some(p.generation));
                    proof {
                        assert forall|x: OpId| #[trigger] step.holes@.contains_key(x) implies hole_in(*l, x, step.holes@[x]) by {
                            if x == entry.id {
                                assert(l.ops@[at as int].id == x);
                            }
                        }
                    }
                }
                let ghost hm = step.holes@;
                let ghost cm = step.cursor;
                let finished = read_edges(l, at, DependencyCursor { offset: 0, after: None }, &mut left, &mut step);
                proof {
                    assert forall|x: OpId| #[trigger] hb.contains_key(x) implies step.holes@.contains_key(x) by {
                        assert(hm.contains_key(x));
                    }
                    if node_hole(*l, at as int) {
                        assert(hm.contains_key(entry.id));
                    }
                }
                if !finished {
                    proof {
                        if good {
                            lemma_stop_gained(*l, c0, c1, h1, picked@, i as int, index as int, step.cursor, step.holes@);
                        }
                    }
                    return step;
                }
                proof {
                    if good {
                        assert forall|t: int| 0 <= t < index + 1 implies fully_read(*l, picked@[t] as int, step.holes@) by {
                            if t < index {
                                lemma_fully_read_grows(*l, picked@[t] as int, hb, step.holes@);
                            } else {
                                assert(picked@[t] == at);
                            }
                        }
                    }
                }
            },
        }
        if left == 0 && index + 1 < listed {
            proof {
                if good {
                    lemma_prefix_gained(*l, c0, c1, h1, picked@, i as int, index as int + 1, step.cursor, step.holes@);
                }
            }
            return step;
        }
        index += 1;
    }
    step.done = listed < asked;
    proof {
        if good {
            lemma_prefix_gained(*l, c0, c1, h1, picked@, i as int, index as int, step.cursor, step.holes@);
            if step.done {
                lemma_done_reads_all(*l, c1, picked@, step.cursor);
            }
        }
    }
    step
}

/// A scan run from the start, step after step over one sorted listing, until a
/// step reports that it read everything, finds exactly the holes of the listing:
/// each hole in some step, and nothing else.
pub proof fn lemma_scan_finds_every_hole(l: Listing, cursors: Seq<Cursor>, holes: Seq<Map<OpId, Option<u64>>>)
    requires
        listing_sorted(l),
        cursors.len() == holes.len() + 1,
        cursors[0].after is None && cursors[0].open is None,
        forall|k: int| 0 <= k < holes.len() ==> #[trigger] gained(l, cursors[k], cursors[k + 1], holes[k]),
        forall|k: int| 0 <= k < holes.len() ==> #[trigger] holes_sound(l, holes[k]),
        forall|id: OpId| #[trigger] listed_hole(l, id) ==> read_hole(l, cursors.last(), id),
    ensures
        forall|id: OpId| #[trigger] listed_hole(l, id) <==> exists|k: int| 0 <= k < holes.len() && #[trigger] holes[k].contains_key(id),
{
    lemma_read_holes_found(l, cursors, holes);
    assert forall|id: OpId| #[trigger] listed_hole(l, id) <==> exists|k: int| 0 <= k < holes.len() && #[trigger] holes[k].contains_key(id) by {
        if exists|k: int| 0 <= k < holes.len() && #[trigger] holes[k].contains_key(id) {
            let k = choose|k: int| 0 <= k < holes.len() && #[trigger] holes[k].contains_key(id);
            assert(holes_sound(l, holes[k]));
            assert(hole_in(l, id, holes[k][id]));
            if exists|i: int| 0 <= i < l.ops@.len() && #[trigger] l.ops@[i].id == id && l.ops@[i].position is None && holes[k][id] is None {
                let i = choose|i: int| 0 <= i < l.ops@.len() && #[trigger] l.ops@[i].id == id && l.ops@[i].position is None && holes[k][id] is None;
                assert(node_hole(l, i));
            } else if exists|i: int| 0 <= i < l.ops@.len() && #[trigger] l.ops@[i].id == id && !l.stored@.contains(id)
                && (l.ops@[i].position matches Some(p) && holes[k][id] == Some(p.generation)) {
                let i = choose|i: int| 0 <= i < l.ops@.len() && #[trigger] l.ops@[i].id == id && !l.stored@.contains(id)
                    && (l.ops@[i].position matches Some(p) && holes[k][id] == Some(p.generation));
                assert(node_hole(l, i));
            }
        }
    }
}

/// Every hole read by the last of a chain of steps from the start was found by one of them.
proof fn lemma_read_holes_found(l: Listing, cursors: Seq<Cursor>, holes: Seq<Map<OpId, Option<u64>>>)
    requires
        cursors.len() == holes.len() + 1,
        cursors[0].after is None && cursors[0].open is None,
        forall|k: int| 0 <= k < holes.len() ==> #[trigger] gained(l, cursors[k], cursors[k + 1], holes[k]),
    ensures
        forall|id: OpId| #[trigger] read_hole(l, cursors.last(), id) ==> exists|k: int| 0 <= k < holes.len() && #[trigger] holes[k].contains_key(id),
    decreases holes.len(),
{
    if holes.len() == 0 {
        assert forall|id: OpId| #[trigger] read_hole(l, cursors.last(), id) implies false by {
            let c = cursors[0];
            if exists|i: int| 0 <= i < l.ops@.len() && #[trigger] l.ops@[i].id == id && node_hole(l, i) && node_read(l, c, i) {
                let i = choose|i: int| 0 <= i < l.ops@.len() && #[trigger] l.ops@[i].id == id && node_hole(l, i) && node_read(l, c, i);
                assert(beyond(c, l.ops@[i].id));
            } else {
                let (i, k) = choose|i: int, k: int| #[trigger] dep_of(l, i, k) == Some(id) && !l.stored@.contains(id) && edge_read(l, c, i, k);
                assert(beyond(c, l.ops@[i].id));
            }
        }
    } else {
        let n = holes.len() - 1;
        let cs = cursors.drop_last();
        let hs = holes.drop_last();
        assert forall|k: int| 0 <= k < hs.len() implies #[trigger] gained(l, cs[k], cs[k + 1], hs[k]) by {
            assert(gained(l, cursors[k], cursors[k + 1], holes[k]));
        }
        lemma_read_holes_found(l, cs, hs);
        assert forall|id: OpId| #[trigger] read_hole(l, cursors.last(), id) implies exists|k: int| 0 <= k < holes.len() && #[trigger] holes[k].contains_key(id) by {
            assert(gained(l, cursors[n], cursors[n + 1], holes[n]));
            if read_hole(l, cs.last(), id) {
                let k = choose|k: int| 0 <= k < hs.len() && #[trigger] hs[k].contains_key(id);
                assert(holes[k] == hs[k]);
            } else {
                assert(holes[n].contains_key(id));
            }
        }
    }
}

/// The listing of `topic_id` in `store`: its ids in ascending order with their
/// positions, and which of them and their dependencies are stored whole.
pub fn listing_of(store: &MemoryStorage, topic_id: &TopicId) -> (r: Listing)
    ensures
        r.ops@.len() == spec_topic_ids(store.ops_map(), *topic_id).len(),
        forall|i: int| 0 <= i < r.ops@.len() ==> spec_topic_ids(store.ops_map(), *topic_id).contains(#[trigger] r.ops@[i].id),
        forall|id: OpId| #[trigger] r.stored@.contains(id) ==> spec_resolvable(store.ops_map(), id),
        listing_sorted(r),
{
    let ids = store.list_op_ids(topic_id);
    let v = ids.to_vec();
    proof { v@.unique_seq_to_set(); }
    let mut ops: Vec<ListedOp> = Vec::new();
    let mut stored = IdSet::new();
    let mut i: usize = 0;
    while i < v.len()
        invariant
            i <= v@.len(),
            v@.to_set() == ids@,
            ops@.len() == i,
            forall|k: int| 0 <= k < i ==> (#[trigger] ops@[k]).id == v@[k],
            forall|id: OpId| #[trigger] stored@.contains(id) ==> spec_resolvable(store.ops_map(), id),
        decreases v@.len() - i,
    {
        let id = v[i];
        if store.dep_resolvable(&id) {
            stored.insert(id);
        }
        let position = match store.get_meta(&id) {
            Some(meta) => {
                let deps = meta.deps.to_vec();
                let mut k: usize = 0;
                while k < deps.len()
                    invariant
                        k <= deps@.len(),
                        forall|x: OpId| #[trigger] stored@.contains(x) ==> spec_resolvable(store.ops_map(), x),
                    decreases deps@.len() - k,
                {
                    if store.dep_resolvable(&deps[k]) {
                        stored.insert(deps[k]);
                    }
                    k += 1;
                }
                Some(ListedPosition { generation: meta.generation, deps })
            },
            None => None,
        };
        ops.push(ListedOp { id, position });
        i += 1;
    }
    proof {
        assert forall|k: int| 0 <= k < ops@.len() implies spec_topic_ids(store.ops_map(), *topic_id).contains(#[trigger] ops@[k].id) by {
            assert(v@.to_set().contains(v@[k]));
        }
        assert forall|a: int, b: int| 0 <= a < b < ops@.len() implies id_lt(#[trigger] ops@[a].id, #[trigger] ops@[b].id) by {
            assert(ops@[a].id == v@[a] && ops@[b].id == v@[b]);
        }
    }
    Listing { ops, stored }
}

/// What is known about the holes of a topic on its current branch and data epoch.
#[derive(Debug)]
pub enum Integrity {
    /// No step has read the topic.
    Unknown,
    /// A scan is under way and found these holes so far; more may follow.
    Scanning(Holes),
    /// A complete scan found these holes, less those a question has since found stored.
    Incomplete(Holes),
    /// A complete scan found no hole, and admission never creates one.
    Whole,
}

impl Integrity {
    pub fn is_whole(&self) -> (r: bool)
        ensures r == (*self is Whole),
    {
        match self { Integrity::Whole => true, _ => false }
    }

    /// Whether a scan reached the end of the topic.
    pub fn is_complete(&self) -> (r: bool)
        ensures r == (*self is Whole || *self is Incomplete),
    {
        match self { Integrity::Whole | Integrity::Incomplete(_) => true, _ => false }
    }

    /// The holes known now: all of them once complete, those found so far before.
    pub fn holes(&self) -> (r: Option<&Holes>)
        ensures
            r matches Some(h) ==> (*self matches Integrity::Scanning(x) && *h == x) || (*self matches Integrity::Incomplete(x) && *h == x),
            r is None <==> (*self is Unknown || *self is Whole),
    {
        match self {
            Integrity::Scanning(holes) | Integrity::Incomplete(holes) => Some(holes),
            Integrity::Unknown | Integrity::Whole => None,
        }
    }

    /// The known holes with the dependencies buffered ops wait for, `pending_missing`.
    pub fn unresolved(&self, pending_missing: &IdSet) -> (r: IdSet)
        ensures
            r@ == pending_missing@.union(match *self {
                Integrity::Scanning(h) => h@.dom(),
                Integrity::Incomplete(h) => h@.dom(),
                _ => Set::empty(),
            }),
    {
        let mut r = pending_missing.duplicate();
        match self.holes() {
            Some(h) => {
                let keys = h.key_set();
                r.extend(&keys);
            },
            None => {},
        }
        r
    }

    /// Whether the topic may be certified: scanned whole, with no buffered op waiting.
    pub fn certifies(&self, pending_missing: &IdSet) -> (r: bool)
        ensures r == (*self is Whole && pending_missing@.len() == 0),
    {
        self.is_whole() && pending_missing.is_empty()
    }
}

/// Listed ids and dependency edges one scan step reads.
pub const STEP_READS: usize = 65536;

/// The topic a question is about: its branch, data epoch, and the dependencies its
/// buffered ops wait for.
#[derive(Debug)]
pub struct TopicView {
    pub topic_id: TopicId,
    pub genesis: OpId,
    pub epoch: u64,
    pub pending_missing: IdSet,
}

/// Holes found so far, and the last one a question checked again for presence.
#[derive(Debug)]
pub struct Found {
    pub holes: Holes,
    pub checked: Option<OpId>,
}

/// Where a topic's scan or verdict stands.
#[derive(Debug)]
pub enum ScanState {
    Scanning { cursor: Cursor, found: Found },
    Incomplete(Found),
    Whole,
}

/// A topic's scan or verdict under one branch and data epoch.
#[derive(Debug)]
pub struct Entry {
    pub genesis: OpId,
    pub epoch: u64,
    pub state: ScanState,
}

impl Found {
    /// Up to `reads` cached holes after the last one checked, in ascending order. A
    /// shorter slice reached the end, so the next question starts from the first hole.
    pub fn next(&mut self, reads: usize) -> (r: Vec<OpId>)
        ensures
            r@.len() <= reads,
            final(self).holes@ == old(self).holes@,
            forall|k: int| 0 <= k < r@.len() ==> old(self).holes@.contains_key(#[trigger] r@[k]),
            r@.len() < reads ==> final(self).checked is None,
    {
        let mut slice: Vec<OpId> = Vec::new();
        self.holes.check_keys();
        let n = self.holes.len();
        let mut i: usize = 0;
        while i < n && slice.len() < reads
            invariant
                i <= n,
                n == self.holes.key_seq().len(),
                slice@.len() <= reads,
                forall|j: int| 0 <= j < n ==> self.holes@.contains_key(#[trigger] self.holes.key_seq()[j]),
                forall|k: int| 0 <= k < slice@.len() ==> self.holes@.contains_key(#[trigger] slice@[k]),
            decreases n - i,
        {
            let id = self.holes.key_at(i);
            let after = match self.checked { Some(c) => c.lt(&id), None => true };
            if after {
                slice.push(id);
            }
            i += 1;
        }
        self.checked = if slice.len() < reads || slice.len() == 0 { None } else { Some(slice[slice.len() - 1]) };
        slice
    }

    /// Records holes newly found, keeping a known generation.
    fn merge(&mut self, holes: &Holes)
        ensures
            forall|id: OpId| #[trigger] final(self).holes@.contains_key(id) <==> old(self).holes@.contains_key(id) || holes@.contains_key(id),
    {
        holes.check_keys();
        let n = holes.len();
        let mut i: usize = 0;
        while i < n
            invariant
                i <= n,
                n == holes.key_seq().len(),
                forall|j: int| 0 <= j < n ==> holes@.contains_key(#[trigger] holes.key_seq()[j]),
                forall|k: OpId| holes@.contains_key(k) <==> holes.key_seq().contains(k),
                forall|id: OpId| #[trigger] self.holes@.contains_key(id) <==> old(self).holes@.contains_key(id)
                    || holes.key_seq().subrange(0, i as int).contains(id),
            decreases n - i,
        {
            let id = holes.key_at(i);
            let at = *holes.value_at(i);
            let known = match self.holes.get(&id) {
                Some(k) => Some(*k),
                None => None,
            };
            let merged = match known {
                Some(Some(g)) => Some(g),
                _ => at,
            };
            self.holes.insert(id, merged);
            proof {
                let s = holes.key_seq().subrange(0, i as int + 1);
                let t = holes.key_seq().subrange(0, i as int);
                assert forall|y: OpId| s.contains(y) <==> t.contains(y) || y == id by {
                    if s.contains(y) {
                        let w = choose|w: int| 0 <= w < s.len() && s[w] == y;
                        if w < i { assert(t[w] == y); }
                    }
                    if t.contains(y) {
                        let w = choose|w: int| 0 <= w < t.len() && t[w] == y;
                        assert(s[w] == y);
                    }
                    if y == id { assert(s[i as int] == y); }
                }
            }
            i += 1;
        }
        proof {
            assert(holes.key_seq().subrange(0, n as int) =~= holes.key_seq());
        }
    }
}

impl Entry {
    fn start(genesis: OpId, epoch: u64) -> (r: Entry)
        ensures r.genesis == genesis, r.epoch == epoch, r.state is Scanning,
    {
        Entry {
            genesis,
            epoch,
            state: ScanState::Scanning { cursor: Cursor::start(), found: Found { holes: IdMap::new(), checked: None } },
        }
    }

    /// The answer to a question that takes no step.
    fn answer(&self) -> (r: Integrity)
        ensures
            self.state is Whole ==> r is Whole,
            self.state is Incomplete ==> r is Incomplete,
            self.state is Scanning ==> r is Scanning,
            answers(*self, r),
    {
        match &self.state {
            ScanState::Whole => Integrity::Whole,
            ScanState::Incomplete(found) => Integrity::Incomplete(found.holes.duplicate()),
            ScanState::Scanning { found, .. } => Integrity::Scanning(found.holes.duplicate()),
        }
    }

    /// Forgets hole `id`; a complete verdict left without holes is whole.
    fn remove(&mut self, id: &OpId)
        ensures
            old(self).state is Whole ==> final(self).state is Whole,
            old(self).state is Scanning ==> final(self).state is Scanning,
            final(self).genesis == old(self).genesis,
            final(self).epoch == old(self).epoch,
            removed_from(old(self).state, final(self).state, *id),
    {
        let mut state = ScanState::Whole;
        std::mem::swap(&mut state, &mut self.state);
        self.state = match state {
            ScanState::Scanning { cursor, mut found } => {
                let _ = found.holes.remove(id);
                ScanState::Scanning { cursor, found }
            },
            ScanState::Incomplete(mut found) => {
                let _ = found.holes.remove(id);
                if found.holes.len() == 0 {
                    ScanState::Whole
                } else {
                    ScanState::Incomplete(found)
                }
            },
            ScanState::Whole => ScanState::Whole,
        };
    }
}

/// Whether `r` is the answer the scan or verdict of `e` gives: its holes, found so
/// far or complete, or that the topic is whole.
pub open spec fn answers(e: Entry, r: Integrity) -> bool {
    match e.state {
        ScanState::Whole => r is Whole,
        ScanState::Scanning { found, .. } => r matches Integrity::Scanning(h) && h@ == found.holes@,
        ScanState::Incomplete(found) => r matches Integrity::Incomplete(h) && h@ == found.holes@,
    }
}

/// Whether `new` is `old` without the hole `id`: a scan keeps its cursor, and a
/// complete verdict left without holes becomes whole.
pub open spec fn removed_from(old: ScanState, new: ScanState, id: OpId) -> bool {
    match old {
        ScanState::Whole => new is Whole,
        ScanState::Scanning { cursor, found } => new matches ScanState::Scanning { cursor: c2, found: f2 }
            && c2 == cursor && f2.holes@ == found.holes@.remove(id) && f2.checked == found.checked,
        ScanState::Incomplete(found) => if found.holes@.remove(id).len() == 0 {
            new is Whole
        } else {
            new matches ScanState::Incomplete(f2) && f2.holes@ == found.holes@.remove(id) && f2.checked == found.checked
        },
    }
}

/// Integrity scans and verdicts of an oplog's topics, each under one branch and epoch.
#[derive(Debug)]
pub struct Inspections {
    topics: IdMap<Entry>,
    reads: usize,
    checks: usize,
}

impl Inspections {
    /// No topic scanned, steps of [`STEP_READS`] reads.
    pub fn new() -> (r: Inspections)
        ensures r.step_reads() == STEP_READS,
    {
        Inspections { topics: IdMap::new(), reads: STEP_READS, checks: 0 }
    }

    /// The reads one step takes.
    pub closed spec fn step_reads(&self) -> usize {
        self.reads
    }

    /// Sets the reads one step takes.
    pub fn set_reads(&mut self, reads: usize)
        ensures final(self).step_reads() == reads,
    {
        self.reads = reads;
    }

    /// The scan or verdict of each topic, by topic.
    pub closed spec fn spec_entries(&self) -> Map<TopicId, Entry> {
        self.topics@
    }

    /// Presence checks the last question made of cached holes.
    pub closed spec fn spec_checks(&self) -> usize {
        self.checks
    }

    /// Presence checks the last question made of cached holes.
    pub fn last_checks(&self) -> (r: usize)
        ensures r == self.spec_checks(),
    {
        self.checks
    }

    /// Forgets every topic.
    pub fn clear(&mut self)
        ensures
            final(self).step_reads() == old(self).step_reads(),
            final(self).spec_checks() == old(self).spec_checks(),
            final(self).spec_entries() == Map::<TopicId, Entry>::empty(),
    {
        self.topics = IdMap::new();
    }

    /// What is known of `view`'s topic after one step of its scan read from `listing`,
    /// and one slice of its cached holes checked again there.
    pub fn step(&mut self, listing: &Listing, view: &TopicView) -> (r: Integrity)
        ensures
            final(self).step_reads() == old(self).step_reads(),
            final(self).spec_checks() <= (if old(self).step_reads() == 0 { 1 } else { old(self).step_reads() }),
            final(self).spec_entries().contains_key(view.topic_id),
            final(self).spec_entries()[view.topic_id].genesis == view.genesis,
            final(self).spec_entries()[view.topic_id].epoch == view.epoch,
            answers(final(self).spec_entries()[view.topic_id], r),
            final(self).spec_entries().remove(view.topic_id) == old(self).spec_entries().remove(view.topic_id),
    {
        self.checks = 0;
        let integrity = self.advance(listing, view);
        let has_holes = match integrity.holes() {
            Some(h) => h.len() > 0,
            None => false,
        };
        if has_holes {
            return self.recheck(listing, view);
        }
        integrity
    }

    /// One step of the scan, or the verdict when the scan is complete.
    fn advance(&mut self, listing: &Listing, view: &TopicView) -> (r: Integrity)
        ensures
            final(self).step_reads() == old(self).step_reads(),
            final(self).spec_checks() == old(self).spec_checks(),
            final(self).spec_entries().contains_key(view.topic_id),
            final(self).spec_entries()[view.topic_id].genesis == view.genesis,
            final(self).spec_entries()[view.topic_id].epoch == view.epoch,
            answers(final(self).spec_entries()[view.topic_id], r),
            final(self).spec_entries().remove(view.topic_id) == old(self).spec_entries().remove(view.topic_id),
    {
        let current = self.topics.remove(&view.topic_id);
        let mut entry = match current {
            Some(e) => if e.genesis.same(&view.genesis) && e.epoch == view.epoch { e } else { Entry::start(view.genesis, view.epoch) },
            None => Entry::start(view.genesis, view.epoch),
        };
        let mut state = ScanState::Whole;
        std::mem::swap(&mut state, &mut entry.state);
        let (state, answer) = match state {
            ScanState::Scanning { cursor, mut found } => {
                let step = scan_step(listing, cursor, self.reads);
                found.merge(&step.holes);
                if !step.done {
                    let answer = Integrity::Scanning(found.holes.duplicate());
                    (ScanState::Scanning { cursor: step.cursor, found }, answer)
                } else if found.holes.len() == 0 {
                    (ScanState::Whole, Integrity::Whole)
                } else {
                    let answer = Integrity::Incomplete(found.holes.duplicate());
                    (ScanState::Incomplete(Found { holes: found.holes, checked: None }), answer)
                }
            },
            ScanState::Incomplete(found) => {
                let answer = Integrity::Incomplete(found.holes.duplicate());
                (ScanState::Incomplete(found), answer)
            },
            ScanState::Whole => (ScanState::Whole, Integrity::Whole),
        };
        entry.state = state;
        self.topics.insert(view.topic_id, entry);
        answer
    }

    /// Checks the next slice of the cached holes of `view`'s topic for presence in
    /// `listing`, at most one step's reads, and drops the ones stored.
    fn recheck(&mut self, listing: &Listing, view: &TopicView) -> (r: Integrity)
        ensures
            final(self).step_reads() == old(self).step_reads(),
            final(self).spec_checks() == old(self).spec_checks()
                || final(self).spec_checks() <= (if old(self).step_reads() == 0 { 1 } else { old(self).step_reads() }),
            r is Unknown <==> !(old(self).spec_entries().contains_key(view.topic_id)
                && old(self).spec_entries()[view.topic_id].genesis == view.genesis
                && old(self).spec_entries()[view.topic_id].epoch == view.epoch),
            r is Unknown ==> final(self).spec_entries() == old(self).spec_entries(),
            !(r is Unknown) ==> final(self).spec_entries().contains_key(view.topic_id)
                && final(self).spec_entries()[view.topic_id].genesis == view.genesis
                && final(self).spec_entries()[view.topic_id].epoch == view.epoch
                && answers(final(self).spec_entries()[view.topic_id], r)
                && final(self).spec_entries().remove(view.topic_id) == old(self).spec_entries().remove(view.topic_id),
    {
        let reads = if self.reads == 0 { 1 } else { self.reads };
        let current = self.topics.remove(&view.topic_id);
        let mut entry = match current {
            Some(e) => e,
            None => return Integrity::Unknown,
        };
        if !(entry.genesis.same(&view.genesis) && entry.epoch == view.epoch) {
            self.topics.insert(view.topic_id, entry);
            return Integrity::Unknown;
        }
        let slice = match &mut entry.state {
            ScanState::Scanning { found, .. } => found.next(reads),
            ScanState::Incomplete(found) => found.next(reads),
            ScanState::Whole => Vec::new(),
        };
        self.checks = slice.len();
        let mut i: usize = 0;
        while i < slice.len()
            invariant
                i <= slice@.len(),
                entry.genesis == view.genesis,
                entry.epoch == view.epoch,
                self.topics@ == old(self).topics@.remove(view.topic_id),
            decreases slice@.len() - i,
        {
            if listing.stored.contains(&slice[i]) {
                entry.remove(&slice[i]);
            }
            i += 1;
        }
        let answer = entry.answer();
        self.topics.insert(view.topic_id, entry);
        answer
    }
}

} // verus!
