//! Choosing which members to sync a topic with, within its replication policy
//! and the reachability this node has observed.
use vstd::prelude::*;
use crate::ids::{Id32, PeerId, TopicId, id_lt, lemma_id_order, lex_lt_from};
use crate::idset::{IdSet, sorted_ids, lemma_sorted_no_dup};
use crate::idmap::IdMap;
use crate::crypto::{spec_blake3, blake3_digest};
use crate::order::{SortKey, key_lt, sort_keys, lemma_key_order, lemma_sorted_unique};
use crate::storage::TopicState;

verus! {

broadcast use vstd::seq_lib::group_seq_properties, vstd::set_lib::group_set_properties;

/// Consecutive failed attempts a peer may collect before selection passes it over.
pub const PEER_FAILURE_LIMIT: u64 = 2;
/// Alternates reachable by rotation when the whole budget is a single peer.
pub const PEER_PROBE_WINDOW: usize = 4;
/// Rotation epochs between probes that retry a peer past its retry budget.
pub const PEER_PROBE_PERIOD: u64 = 4;
/// Peers one health table tracks at once; further peers count as healthy.
pub const MAX_TRACKED_PEERS: usize = 1024;
/// Preferred peers every node of a topic shares, so a few hubs see every write.
pub const SHARED_OVERLAP: usize = 2;

/// Whether `peer` has used up its retry budget in `attempts`.
pub open spec fn demoted_in(attempts: Map<PeerId, u64>, peer: PeerId) -> bool {
    attempts.contains_key(peer) && attempts[peer] >= PEER_FAILURE_LIMIT
}

/// The rotation offset of `epoch` over an order of `len` peers.
pub open spec fn rotation_of(epoch: u64, len: nat) -> nat {
    if len == 0 { 0 } else { (epoch as nat) % len }
}

/// Whether `epoch` spends one slot retrying a peer past its retry budget.
pub open spec fn probes_in(epoch: u64) -> bool {
    epoch != 0 && epoch % PEER_PROBE_PERIOD == 0
}

/// Failed attempt counts per peer and the rotation epoch: local observation,
/// kept apart from signed topic state.
#[derive(Debug)]
pub struct PeerHealth {
    pub attempts: IdMap<u64>,
    pub epoch: u64,
}

impl PeerHealth {
    /// A view over `attempts` at `epoch`.
    pub fn new(attempts: IdMap<u64>, epoch: u64) -> (r: PeerHealth)
        ensures r.attempts@ == attempts@, r.epoch == epoch,
    {
        PeerHealth { attempts, epoch }
    }

    /// A view without attempt history: selection by replication policy alone.
    pub fn empty() -> (r: PeerHealth)
        ensures r.attempts@ == Map::<PeerId, u64>::empty(), r.epoch == 0,
    {
        PeerHealth { attempts: IdMap::new(), epoch: 0 }
    }

    /// Whether `peer` has used up its retry budget.
    pub fn demoted(&self, peer: &PeerId) -> (r: bool)
        ensures r == demoted_in(self.attempts@, *peer),
    {
        match self.attempts.get(peer) {
            Some(failures) => *failures >= PEER_FAILURE_LIMIT,
            None => false,
        }
    }

    /// The rotation offset over an order of `len` peers.
    pub fn rotation(&self, len: usize) -> (r: usize)
        ensures r == rotation_of(self.epoch, len as nat), len > 0 ==> r < len,
    {
        if len == 0 {
            0
        } else {
            let l: u64 = len as u64;
            (self.epoch % l) as usize
        }
    }

    /// Whether this epoch spends one slot retrying a peer past its retry budget.
    pub fn probes_demoted(&self) -> (r: bool)
        ensures r == probes_in(self.epoch),
    {
        self.epoch != 0 && self.epoch % PEER_PROBE_PERIOD == 0
    }
}

/// Runtime peer reachability, updated from real attempts and shared by every
/// selection path.
#[derive(Debug)]
pub struct PeerHealthStore {
    health: PeerHealth,
}

impl PeerHealthStore {
    /// Failure counts per peer.
    pub closed spec fn attempts(&self) -> Map<PeerId, u64> {
        self.health.attempts@
    }

    /// The rotation epoch.
    pub closed spec fn epoch(&self) -> u64 {
        self.health.epoch
    }

    /// A table with no failure and epoch zero.
    pub fn new() -> (r: PeerHealthStore)
        ensures r.attempts() == Map::<PeerId, u64>::empty(), r.epoch() == 0,
    {
        PeerHealthStore { health: PeerHealth::empty() }
    }

    /// Records one unreachable attempt and advances the rotation epoch. A peer
    /// the full table does not track stays untracked. Returns whether the peer
    /// now has a failure on record.
    pub fn record_failure(&mut self, peer: PeerId) -> (r: bool)
        ensures
            old(self).attempts().contains_key(peer) ==> final(self).attempts() == old(self).attempts().insert(
                peer,
                if old(self).attempts()[peer] == u64::MAX { u64::MAX } else { (old(self).attempts()[peer] + 1) as u64 },
            ),
            !old(self).attempts().contains_key(peer) && old(self).attempts().len() < MAX_TRACKED_PEERS
                ==> final(self).attempts() == old(self).attempts().insert(peer, 1),
            !old(self).attempts().contains_key(peer) && old(self).attempts().len() >= MAX_TRACKED_PEERS
                ==> final(self).attempts() == old(self).attempts(),
            r == (old(self).attempts().contains_key(peer) || old(self).attempts().len() < MAX_TRACKED_PEERS),
            final(self).epoch() == (if old(self).epoch() == u64::MAX { 0 } else { (old(self).epoch() + 1) as u64 }),
    {
        let held = self.health.attempts.len();
        let failures: u64 = match self.health.attempts.get(&peer) {
            Some(f) => (*f).saturating_add(1),
            None => if held < MAX_TRACKED_PEERS { 1 } else { 0 },
        };
        if failures > 0 {
            self.health.attempts.insert(peer, failures);
        }
        self.health.epoch = self.health.epoch.wrapping_add(1);
        failures > 0
    }

    /// Clears a peer's failure record once an attempt reaches it again; with no
    /// peer failing, the epoch returns to zero. Returns whether it had failures.
    pub fn record_success(&mut self, peer: &PeerId) -> (r: bool)
        ensures
            final(self).attempts() == old(self).attempts().remove(*peer),
            r == old(self).attempts().contains_key(*peer),
            final(self).epoch() == (if final(self).attempts().len() == 0 { 0 } else { old(self).epoch() }),
    {
        let failed = self.health.attempts.remove(peer).is_some();
        if self.health.attempts.len() == 0 {
            self.health.epoch = 0;
        }
        failed
    }

    /// The current view, for one selection.
    pub fn view(&self) -> (r: &PeerHealth)
        ensures r.attempts@ == self.attempts(), r.epoch == self.epoch(),
    {
        &self.health
    }

    /// Consecutive failures recorded for `peer`.
    pub fn failures(&self, peer: &PeerId) -> (r: u64)
        ensures r == (if self.attempts().contains_key(*peer) { self.attempts()[*peer] } else { 0 }),
    {
        match self.health.attempts.get(peer) {
            Some(f) => *f,
            None => 0,
        }
    }
}

/// The peers `take_slots` holds after visiting `order` from position `step`
/// on: each visit looks at the peer `step` places after `start`, wrapping,
/// and stops once `limit` peers are held.
pub open spec fn take_from(
    sel: Set<PeerId>,
    order: Seq<PeerId>,
    start: int,
    limit: int,
    attempts: Map<PeerId, u64>,
    demoted_allowed: bool,
    step: int,
) -> Set<PeerId>
    decreases order.len() - step,
{
    if step >= order.len() || step < 0 || sel.len() >= limit {
        sel
    } else {
        let peer = order[(start + step) % (order.len() as int)];
        let next = if demoted_allowed || !demoted_in(attempts, peer) { sel.insert(peer) } else { sel };
        take_from(next, order, start, limit, attempts, demoted_allowed, step + 1)
    }
}

/// The position `step` places after `start` in an order of `len`, wrapping.
fn wrap_index(start: usize, step: usize, len: usize) -> (r: usize)
    requires step < len,
    ensures r < len, r == (start as int + step as int) % (len as int),
{
    let s = start % len;
    proof {
        vstd::arithmetic::div_mod::lemma_add_mod_noop(start as int, step as int, len as int);
        vstd::arithmetic::div_mod::lemma_small_mod(step as nat, len as nat);
    }
    if s >= len - step {
        let r = s - (len - step);
        proof {
            let t = s as int + step as int;
            assert(len <= t < 2 * len);
            assert(t % (len as int) == t - len) by {
                vstd::arithmetic::div_mod::lemma_mod_sub_multiples_vanish(t, len as int);
                vstd::arithmetic::div_mod::lemma_small_mod((t - len) as nat, len as nat);
            }
        }
        r
    } else {
        let r = s + step;
        proof { vstd::arithmetic::div_mod::lemma_small_mod(r as nat, len as nat); }
        r
    }
}

/// Fills `selected` from `order`, starting at `start` and wrapping once, until
/// it holds `limit` peers. Peers past their retry budget are taken only when
/// `demoted_allowed`.
pub fn take_slots(
    selected: &mut IdSet,
    order: &[PeerId],
    start: usize,
    limit: usize,
    health: &PeerHealth,
    demoted_allowed: bool,
)
    ensures
        final(selected)@ == take_from(old(selected)@, order@, start as int, limit as int, health.attempts@, demoted_allowed, 0),
{
    if order.len() == 0 {
        return;
    }
    let mut step: usize = 0;
    while step < order.len()
        invariant
            0 <= step <= order@.len(),
            order@.len() > 0,
            take_from(selected@, order@, start as int, limit as int, health.attempts@, demoted_allowed, step as int)
                == take_from(old(selected)@, order@, start as int, limit as int, health.attempts@, demoted_allowed, 0),
        decreases order@.len() - step,
    {
        if selected.len() >= limit {
            return;
        }
        let peer = order[wrap_index(start, step, order.len())];
        if demoted_allowed || !health.demoted(&peer) {
            selected.insert(peer);
        }
        step += 1;
    }
}

/// What `take_from` keeps and adds: the result contains the start set, adds
/// only visited peers, stays within `limit` when it starts within it, and adds
/// no demoted peer unless allowed.
pub proof fn lemma_take_bounds(
    sel: Set<PeerId>,
    order: Seq<PeerId>,
    start: int,
    limit: int,
    attempts: Map<PeerId, u64>,
    demoted_allowed: bool,
    step: int,
)
    requires sel.finite(),
    ensures ({
        let r = take_from(sel, order, start, limit, attempts, demoted_allowed, step);
        &&& r.finite()
        &&& sel.subset_of(r)
        &&& forall|p: PeerId| #[trigger] r.contains(p) && !sel.contains(p) ==> order.contains(p)
            && (demoted_allowed || !demoted_in(attempts, p))
        &&& sel.len() <= limit ==> r.len() <= limit
        &&& r.len() >= sel.len()
    }),
    decreases order.len() - step,
{
    if step >= order.len() || step < 0 || sel.len() >= limit {
    } else {
        let n = order.len() as int;
        let i = (start + step) % n;
        vstd::arithmetic::div_mod::lemma_mod_bound(start + step, n);
        let peer = order[i];
        let next = if demoted_allowed || !demoted_in(attempts, peer) { sel.insert(peer) } else { sel };
        lemma_take_bounds(next, order, start, limit, attempts, demoted_allowed, step + 1);
        assert(order.contains(peer));
    }
}

/// Every peer `take_from` visits from `step` on and may take is held at the
/// end, unless the limit was reached.
pub proof fn lemma_take_fills(
    sel: Set<PeerId>,
    order: Seq<PeerId>,
    start: int,
    limit: int,
    attempts: Map<PeerId, u64>,
    demoted_allowed: bool,
    step: int,
)
    requires sel.finite(), 0 <= step,
    ensures ({
        let r = take_from(sel, order, start, limit, attempts, demoted_allowed, step);
        r.len() >= limit || forall|s: int| step <= s < order.len()
            && (demoted_allowed || !demoted_in(attempts, #[trigger] order[(start + s) % (order.len() as int)]))
            ==> r.contains(order[(start + s) % (order.len() as int)])
    }),
    decreases order.len() - step,
{
    if step >= order.len() || sel.len() >= limit {
    } else {
        let n = order.len() as int;
        let peer = order[(start + step) % n];
        let next = if demoted_allowed || !demoted_in(attempts, peer) { sel.insert(peer) } else { sel };
        lemma_take_fills(next, order, start, limit, attempts, demoted_allowed, step + 1);
        lemma_take_bounds(next, order, start, limit, attempts, demoted_allowed, step + 1);
    }
}

/// Every peer of `order` is visited by some step of a wrapping walk from `start`.
pub proof fn lemma_wrap_covers(n: int, start: int, j: int) -> (s: int)
    requires 0 < n, 0 <= start, 0 <= j < n,
    ensures 0 <= s < n, (start + s) % n == j,
{
    let s = (j - start % n + n) % n;
    vstd::arithmetic::div_mod::lemma_mod_bound(j - start % n + n, n);
    vstd::arithmetic::div_mod::lemma_mod_bound(start, n);
    vstd::arithmetic::div_mod::lemma_add_mod_noop(start, s, n);
    vstd::arithmetic::div_mod::lemma_mod_twice(j - start % n + n, n);
    vstd::arithmetic::div_mod::lemma_add_mod_noop(start % n, j - start % n + n, n);
    vstd::arithmetic::div_mod::lemma_mod_twice(start, n);
    assert((start % n + (j - start % n + n)) % n == j) by {
        vstd::arithmetic::div_mod::lemma_mod_add_multiples_vanish(j, n);
        vstd::arithmetic::div_mod::lemma_small_mod(j as nat, n as nat);
    }
    s
}

/// The peers of a finite set in ascending order.
pub open spec fn sorted_of(s: Set<PeerId>) -> Seq<PeerId> {
    choose|q: Seq<PeerId>| sorted_ids(q) && q.to_set() == s
}

/// A sorted sequence is the sorted sequence of its set.
pub proof fn lemma_sorted_of(q: Seq<PeerId>)
    requires sorted_ids(q),
    ensures sorted_of(q.to_set()) == q,
{
    let c = sorted_of(q.to_set());
    assert(sorted_ids(c) && c.to_set() == q.to_set());
    lemma_id_order();
    let lt = |x: PeerId, y: PeerId| id_lt(x, y);
    assert forall|x: PeerId, y: PeerId| q.contains(x) && q.contains(y) implies !(#[trigger] lt(x, y) && #[trigger] lt(y, x)) by {
        assert(!(id_lt(x, y) && id_lt(y, x)));
    }
    assert forall|i: int, j: int| 0 <= i < j < q.len() implies #[trigger] lt(q[i], q[j]) by {
        assert(id_lt(q[i], q[j]));
    }
    assert forall|i: int, j: int| 0 <= i < j < c.len() implies #[trigger] lt(c[i], c[j]) by {
        assert(id_lt(c[i], c[j]));
    }
    lemma_sorted_unique(lt, q, c);
}

/// Appends `peer` to a ring under construction unless it is the local peer or already there.
pub open spec fn ring_push(acc: Seq<PeerId>, peer: PeerId, local: PeerId) -> Seq<PeerId> {
    if peer != local && !acc.contains(peer) { acc.push(peer) } else { acc }
}

/// The ring built from `acc` by visiting offsets `offset..nodes.len()` around
/// position `li`: at each offset the node that far after, then the node that
/// far before.
pub open spec fn ring_from(nodes: Seq<PeerId>, li: int, local: PeerId, acc: Seq<PeerId>, offset: int) -> Seq<PeerId>
    decreases nodes.len() - offset,
{
    if offset >= nodes.len() || offset < 1 {
        acc
    } else {
        let n = nodes.len() as int;
        let a = ring_push(acc, nodes[(li + offset) % n], local);
        let b = ring_push(a, nodes[(li + (n - offset)) % n], local);
        ring_from(nodes, li, local, b, offset + 1)
    }
}

/// Neighbours of `local` among `nodes`, nearest first, alternating sides;
/// empty when `local` is not among them.
pub open spec fn ring_of(nodes: Seq<PeerId>, local: PeerId) -> Seq<PeerId> {
    if nodes.contains(local) {
        ring_from(nodes, nodes.index_of(local), local, Seq::empty(), 1)
    } else {
        Seq::empty()
    }
}

proof fn lemma_ring_from(nodes: Seq<PeerId>, li: int, local: PeerId, acc: Seq<PeerId>, offset: int)
    requires
        0 <= li < nodes.len(),
        1 <= offset,
        acc.no_duplicates(),
        !acc.contains(local),
    ensures ({
        let r = ring_from(nodes, li, local, acc, offset);
        &&& r.no_duplicates()
        &&& !r.contains(local)
        &&& forall|p: PeerId| acc.contains(p) ==> r.contains(p)
        &&& forall|p: PeerId| r.contains(p) ==> acc.contains(p) || nodes.contains(p)
        &&& forall|o: int| offset <= o < nodes.len() ==> nodes[(li + o) % (nodes.len() as int)] == local
            || r.contains(#[trigger] nodes[(li + o) % (nodes.len() as int)])
    }),
    decreases nodes.len() - offset,
{
    if offset >= nodes.len() {
    } else {
        let n = nodes.len() as int;
        let i1 = (li + offset) % n;
        let i2 = (li + (n - offset)) % n;
        vstd::arithmetic::div_mod::lemma_mod_bound(li + offset, n);
        vstd::arithmetic::div_mod::lemma_mod_bound(li + (n - offset), n);
        let a = ring_push(acc, nodes[i1], local);
        let b = ring_push(a, nodes[i2], local);
        assert(nodes.contains(nodes[i1]) && nodes.contains(nodes[i2]));
        lemma_ring_from(nodes, li, local, b, offset + 1);
    }
}

/// The ring holds every node but `local`, once each.
pub proof fn lemma_ring_of(nodes: Seq<PeerId>, local: PeerId)
    requires nodes.no_duplicates(), nodes.contains(local),
    ensures
        ring_of(nodes, local).no_duplicates(),
        ring_of(nodes, local).to_set() == nodes.to_set().remove(local),
{
    let li = nodes.index_of(local);
    let n = nodes.len() as int;
    lemma_ring_from(nodes, li, local, Seq::empty(), 1);
    let r = ring_of(nodes, local);
    assert forall|p: PeerId| r.to_set().contains(p) <==> nodes.to_set().remove(local).contains(p) by {
        if nodes.to_set().remove(local).contains(p) {
            let j = choose|j: int| 0 <= j < nodes.len() && nodes[j] == p;
            let s = lemma_wrap_covers(n, li, j);
            if s == 0 {
                vstd::arithmetic::div_mod::lemma_small_mod(li as nat, n as nat);
                assert(nodes[li] == local);
            }
            assert(nodes[(li + s) % n] == p);
        }
    }
    assert(r.to_set() =~= nodes.to_set().remove(local));
}

/// A probe order under construction extended from position `i` of `src`,
/// keeping the first occurrence of each peer, up to the probe window.
pub open spec fn probe_from(acc: Seq<PeerId>, src: Seq<PeerId>, i: int) -> Seq<PeerId>
    decreases src.len() - i,
{
    if i >= src.len() || i < 0 || acc.len() >= PEER_PROBE_WINDOW {
        acc
    } else {
        probe_from(if acc.contains(src[i]) { acc } else { acc.push(src[i]) }, src, i + 1)
    }
}

/// The rotation order for a single-peer budget: the top hub, then the ring,
/// without repeats, at most the probe window long.
pub open spec fn probe_of(hubs: Seq<PeerId>, ring: Seq<PeerId>) -> Seq<PeerId> {
    probe_from(Seq::empty(), (if hubs.len() > 0 { hubs.take(1) } else { Seq::empty() }) + ring, 0)
}

proof fn lemma_probe_from(acc: Seq<PeerId>, src: Seq<PeerId>, i: int)
    requires 0 <= i,
    ensures
        forall|p: PeerId| #[trigger] probe_from(acc, src, i).contains(p) ==> acc.contains(p) || src.contains(p),
    decreases src.len() - i,
{
    if i >= src.len() || acc.len() >= PEER_PROBE_WINDOW {
    } else {
        let next = if acc.contains(src[i]) { acc } else { acc.push(src[i]) };
        assert(probe_from(acc, src, i) == probe_from(next, src, i + 1));
        lemma_probe_from(next, src, i + 1);
        assert(src.contains(src[i]));
        assert forall|p: PeerId| next.contains(p) implies acc.contains(p) || src.contains(p) by {
            if !acc.contains(src[i]) && next.contains(p) && !acc.contains(p) {
                let w = choose|w: int| 0 <= w < next.len() && next[w] == p;
                assert(w == acc.len());
            }
        }
    }
}

/// Builds the ring of `local` within `scope`: neighbours in ascending order,
/// nearest first, alternating sides.
pub fn ring_order(scope: &IdSet, local: PeerId) -> (r: Vec<PeerId>)
    ensures
        r@ == ring_of(sorted_of(scope@), local),
        sorted_ids(sorted_of(scope@)),
        sorted_of(scope@).to_set() == scope@,
{
    let nodes = scope.to_vec();
    proof { lemma_sorted_of(nodes@); }
    let n = nodes.len();
    let mut ring: Vec<PeerId> = Vec::new();
    let mut li: usize = 0;
    while li < n && !nodes[li].same(&local)
        invariant
            li <= n,
            n == nodes@.len(),
            forall|j: int| 0 <= j < li ==> nodes@[j] != local,
        decreases n - li,
    {
        li += 1;
    }
    if li == n {
        return ring;
    }
    proof {
        assert(nodes@.contains(local));
        let k = nodes@.index_of(local);
        assert(nodes@[k] == local);
        assert(k == li);
    }
    let mut seen = IdSet::new();
    let mut offset: usize = 1;
    while offset < n
        invariant
            1 <= offset,
            li < n,
            n == nodes@.len(),
            nodes@.contains(local),
            nodes@.index_of(local) == li,
            seen@ == ring@.to_set(),
            ring_from(nodes@, li as int, local, ring@, offset as int)
                == ring_from(nodes@, li as int, local, Seq::empty(), 1),
        decreases n - offset,
    {
        let i1 = wrap_index(li, offset, n);
        let p1 = nodes[i1];
        if !p1.same(&local) && seen.insert(p1) {
            ring.push(p1);
        }
        let i2 = wrap_index(li, n - offset, n);
        let p2 = nodes[i2];
        if !p2.same(&local) && seen.insert(p2) {
            ring.push(p2);
        }
        offset += 1;
    }
    ring
}

/// Builds the probe order: the top hub, then the ring, without repeats, at
/// most the probe window long.
pub fn probe_order(hubs: &Vec<PeerId>, ring: &Vec<PeerId>) -> (r: Vec<PeerId>)
    ensures r@ == probe_of(hubs@, ring@),
{
    let mut src: Vec<PeerId> = Vec::new();
    if hubs.len() > 0 {
        src.push(hubs[0]);
    }
    let mut k: usize = 0;
    while k < ring.len()
        invariant
            k <= ring@.len(),
            src@ == (if hubs@.len() > 0 { hubs@.take(1) } else { Seq::<PeerId>::empty() }) + ring@.take(k as int),
        decreases ring@.len() - k,
    {
        src.push(ring[k]);
        k += 1;
        assert(ring@.take(k as int) =~= ring@.take(k - 1) + seq![ring@[k - 1]]);
    }
    assert(ring@.take(k as int) =~= ring@);
    let mut probe: Vec<PeerId> = Vec::new();
    let mut i: usize = 0;
    while i < src.len() && probe.len() < PEER_PROBE_WINDOW
        invariant
            i <= src@.len(),
            probe_from(probe@, src@, i as int) == probe_from(Seq::empty(), src@, 0),
        decreases src@.len() - i,
    {
        if !crate::ids::contains_id(&probe, &src[i]) {
            probe.push(src[i]);
        }
        i += 1;
    }
    probe
}

/// "irokle-sync-peer-v1", the domain of sync peer scores.
pub open spec fn score_domain() -> Seq<u8> {
    seq![105u8, 114u8, 111u8, 107u8, 108u8, 101u8, 45u8, 115u8, 121u8, 110u8, 99u8, 45u8, 112u8, 101u8, 101u8, 114u8, 45u8, 118u8, 49u8]
}

/// "shared", hashed into the peer every node scores hubs against.
pub open spec fn shared_seed() -> Seq<u8> {
    seq![115u8, 104u8, 97u8, 114u8, 101u8, 100u8]
}

/// The score of `peer` against `local` in `topic`.
pub open spec fn score_of(topic: TopicId, local: PeerId, peer: PeerId) -> Seq<u8> {
    spec_blake3(score_domain() + topic.bytes@ + local.bytes@ + peer.bytes@)
}

/// The hub score of `peer` in `topic`: the same on every node.
pub open spec fn hub_score(topic: TopicId, peer: PeerId) -> Seq<u8> {
    spec_blake3(score_domain() + topic.bytes@ + spec_blake3(shared_seed()) + peer.bytes@)
}

/// Whether `a` comes before `b` among the hubs of `topic`: higher score
/// first, then lower peer id.
pub open spec fn hub_before(topic: TopicId, a: PeerId, b: PeerId) -> bool {
    if hub_score(topic, a) == hub_score(topic, b) {
        id_lt(a, b)
    } else {
        lex_lt_from(hub_score(topic, b), hub_score(topic, a), 0)
    }
}

/// Whether `q` lists peers strictly in hub order.
pub open spec fn hub_sorted(topic: TopicId, q: Seq<PeerId>) -> bool {
    forall|i: int, j: int| 0 <= i < j < q.len() ==> hub_before(topic, #[trigger] q[i], #[trigger] q[j])
}

/// The peers of `s` in hub order.
pub open spec fn hubs_of(topic: TopicId, s: Set<PeerId>) -> Seq<PeerId> {
    choose|q: Seq<PeerId>| hub_sorted(topic, q) && q.to_set() == s
}

/// The peer every node scores hubs against.
pub fn shared_peer() -> (r: PeerId)
    ensures r.bytes@ == spec_blake3(shared_seed()),
{
    let seed: [u8; 6] = [115u8, 104u8, 97u8, 114u8, 101u8, 100u8];
    proof { assert(seed@ =~= shared_seed()); }
    Id32::hash(seed.as_slice())
}

/// The blake3 score of `peer` against `local_peer` in `topic_id`.
pub fn sync_peer_score(topic_id: TopicId, local_peer: PeerId, peer: PeerId) -> (r: [u8; 32])
    ensures r@ == score_of(topic_id, local_peer, peer),
{
    let domain: [u8; 19] = [105u8, 114u8, 111u8, 107u8, 108u8, 101u8, 45u8, 115u8, 121u8, 110u8, 99u8, 45u8, 112u8, 101u8, 101u8, 114u8, 45u8, 118u8, 49u8];
    proof { assert(domain@ =~= score_domain()); }
    let mut data: Vec<u8> = Vec::new();
    crate::codec::push_raw(&mut data, domain.as_slice());
    crate::codec::push_id(&mut data, &topic_id);
    crate::codec::push_id(&mut data, &local_peer);
    crate::codec::push_id(&mut data, &peer);
    blake3_digest(data.as_slice())
}

proof fn lemma_complement_order(x: Seq<u8>, y: Seq<u8>, cx: Seq<u8>, cy: Seq<u8>, i: nat)
    requires
        x.len() == 32, y.len() == 32, cx.len() == 32, cy.len() == 32,
        forall|k: int| 0 <= k < 32 ==> #[trigger] cx[k] == 255 - x[k],
        forall|k: int| 0 <= k < 32 ==> #[trigger] cy[k] == 255 - y[k],
    ensures lex_lt_from(cx, cy, i) == lex_lt_from(y, x, i),
    decreases 32 - i,
{
    if i < 32 {
        assert(cx[i as int] == 255 - x[i as int]);
        assert(cy[i as int] == 255 - y[i as int]);
        lemma_complement_order(x, y, cx, cy, i + 1);
    }
}

/// The sort key putting `peer` in hub order: its score complemented, so that
/// ascending keys mean descending scores, then the peer id.
fn hub_key(shared: &PeerId, topic_id: TopicId, peer: PeerId) -> (k: SortKey)
    requires shared.bytes@ == spec_blake3(shared_seed()),
    ensures
        k.major == 0, k.minor == 0, k.id == peer,
        hub_score(topic_id, peer).len() == 32,
        forall|i: int| 0 <= i < 32 ==> #[trigger] k.actor.bytes@[i] == 255 - hub_score(topic_id, peer)[i],
{
    let score = sync_peer_score(topic_id, *shared, peer);
    let mut bytes: [u8; 32] = [0u8; 32];
    let mut i: usize = 0;
    while i < 32
        invariant
            i <= 32,
            score@ == hub_score(topic_id, peer),
            forall|j: int| 0 <= j < i ==> #[trigger] bytes@[j] == 255 - score@[j],
        decreases 32 - i,
    {
        bytes.set(i, 255 - score[i]);
        i += 1;
    }
    SortKey { major: 0, actor: Id32 { bytes }, minor: 0, id: peer }
}

/// Lists `candidates` in hub order: highest shared score first, ties by peer id.
pub fn sort_hubs(topic_id: TopicId, candidates: &Vec<PeerId>) -> (r: Vec<PeerId>)
    requires candidates@.no_duplicates(),
    ensures
        hub_sorted(topic_id, r@),
        r@.to_set() == candidates@.to_set(),
        r@ == hubs_of(topic_id, candidates@.to_set()),
{
    let shared = shared_peer();
    let mut keys: Vec<SortKey> = Vec::new();
    let mut i: usize = 0;
    while i < candidates.len()
        invariant
            i <= candidates@.len(),
            shared.bytes@ == spec_blake3(shared_seed()),
            keys@.len() == i,
            forall|j: int| 0 <= j < i ==> (#[trigger] keys@[j]).id == candidates@[j] && keys@[j].major == 0 && keys@[j].minor == 0
                && hub_score(topic_id, candidates@[j]).len() == 32
                && forall|b: int| 0 <= b < 32 ==> #[trigger] keys@[j].actor.bytes@[b] == 255 - hub_score(topic_id, candidates@[j])[b],
        decreases candidates@.len() - i,
    {
        let k = hub_key(&shared, topic_id, candidates[i]);
        keys.push(k);
        i += 1;
    }
    let ghost good = |k: SortKey| k.major == 0 && k.minor == 0 && hub_score(topic_id, k.id).len() == 32
        && forall|b: int| 0 <= b < 32 ==> #[trigger] k.actor.bytes@[b] == 255 - hub_score(topic_id, k.id)[b];
    proof {
        assert forall|j: int| 0 <= j < keys@.len() implies #[trigger] good(keys@[j]) by {}
        assert(keys@.no_duplicates()) by {
            assert forall|a: int, b: int| 0 <= a < keys@.len() && 0 <= b < keys@.len() && a != b implies keys@[a] != keys@[b] by {
                assert(candidates@[a] != candidates@[b]);
            }
        }
    }
    let sorted = sort_keys(&keys);
    let mut r: Vec<PeerId> = Vec::new();
    let mut j: usize = 0;
    while j < sorted.len()
        invariant
            j <= sorted@.len(),
            r@.len() == j,
            forall|t: int| 0 <= t < j ==> r@[t] == (#[trigger] sorted@[t]).id,
        decreases sorted@.len() - j,
    {
        r.push(sorted[j].id);
        j += 1;
    }
    proof {
        lemma_key_order();
        assert forall|k: SortKey| #[trigger] sorted@.contains(k) implies good(k) by {
            assert(sorted@.to_set().contains(k));
            assert(keys@.to_set().contains(k));
            let w = choose|w: int| 0 <= w < keys@.len() && keys@[w] == k;
            assert(good(keys@[w]));
        }
        assert forall|a: SortKey, b: SortKey| good(a) && good(b) implies
            (key_lt(a, b) == hub_before(topic_id, a.id, b.id)) && (a.actor == b.actor <==> hub_score(topic_id, a.id) == hub_score(topic_id, b.id)) by {
            let sa = hub_score(topic_id, a.id);
            let sb = hub_score(topic_id, b.id);
            lemma_complement_order(sa, sb, a.actor.bytes@, b.actor.bytes@, 0);
            if a.actor == b.actor {
                assert(sa =~= sb) by {
                    assert forall|t: int| 0 <= t < 32 implies sa[t] == sb[t] by {
                        assert(a.actor.bytes@[t] == 255 - sa[t]);
                        assert(b.actor.bytes@[t] == 255 - sb[t]);
                    }
                }
            }
            if sa == sb {
                assert(a.actor.bytes@ =~= b.actor.bytes@) by {
                    assert forall|t: int| 0 <= t < 32 implies a.actor.bytes@[t] == b.actor.bytes@[t] by {
                        assert(a.actor.bytes@[t] == 255 - sa[t]);
                        assert(b.actor.bytes@[t] == 255 - sb[t]);
                    }
                }
                crate::ids::lemma_id_bytes_eq(a.actor, b.actor);
            }
        }
        assert forall|a: int, b: int| 0 <= a < b < r@.len() implies hub_before(topic_id, #[trigger] r@[a], #[trigger] r@[b]) by {
            assert(sorted@.contains(sorted@[a]) && sorted@.contains(sorted@[b]));
            assert(sorted@[a] != sorted@[b]);
            assert(!key_lt(sorted@[b], sorted@[a]));
            assert(key_lt(sorted@[a], sorted@[b]));
        }
        assert forall|p: PeerId| r@.contains(p) <==> candidates@.contains(p) by {
            if r@.contains(p) {
                let w = choose|w: int| 0 <= w < r@.len() && r@[w] == p;
                assert(sorted@.to_set().contains(sorted@[w]));
                let u = choose|u: int| 0 <= u < keys@.len() && keys@[u] == sorted@[w];
                assert(candidates@[u] == p);
            }
            if candidates@.contains(p) {
                let u = choose|u: int| 0 <= u < candidates@.len() && candidates@[u] == p;
                assert(keys@.to_set().contains(keys@[u]));
                assert(sorted@.to_set().contains(keys@[u]));
                let w = choose|w: int| 0 <= w < sorted@.len() && sorted@[w] == keys@[u];
                assert(r@[w] == p);
            }
        }
        assert(r@.to_set() =~= candidates@.to_set());
        let c = hubs_of(topic_id, candidates@.to_set());
        assert(hub_sorted(topic_id, c) && c.to_set() == candidates@.to_set());
        let lt = |x: PeerId, y: PeerId| hub_before(topic_id, x, y);
        assert forall|x: PeerId, y: PeerId| r@.contains(x) && r@.contains(y) implies !(#[trigger] lt(x, y) && #[trigger] lt(y, x)) by {
            lemma_id_order();
            crate::ids::lemma_lex_asymmetric(hub_score(topic_id, x), hub_score(topic_id, y), 0);
        }
        assert forall|a: int, b: int| 0 <= a < b < r@.len() implies #[trigger] lt(r@[a], r@[b]) by {
            assert(hub_before(topic_id, r@[a], r@[b]));
        }
        assert forall|a: int, b: int| 0 <= a < b < c.len() implies #[trigger] lt(c[a], c[b]) by {
            assert(hub_before(topic_id, c[a], c[b]));
        }
        lemma_sorted_unique(lt, r@, c);
    }
    r
}

/// The peers a topic's policy lets `local` sync with, plus `local` itself:
/// the members, or the selected peers among them when the policy names any.
pub open spec fn scope_of(members: Set<PeerId>, selected: Set<PeerId>, local: PeerId) -> Set<PeerId> {
    (if selected.len() == 0 { members } else { selected.intersect(members) }).insert(local)
}

/// The slots spent on hubs when the budget `max` exceeds one: the shared
/// overlap and one more, leaving at least one slot for a ring neighbour.
pub open spec fn preferred_slots(max: int) -> int {
    if SHARED_OVERLAP + 1 < max - 1 { SHARED_OVERLAP + 1 } else { max - 1 }
}

/// The peers a topic is synced with from `local`, out of the candidates `cands`
/// and the orders built from them.
pub open spec fn choose_targets(
    cands: Set<PeerId>,
    candidates: Seq<PeerId>,
    hubs: Seq<PeerId>,
    ring: Seq<PeerId>,
    probe: Seq<PeerId>,
    max: int,
    attempts: Map<PeerId, u64>,
    epoch: u64,
) -> Set<PeerId> {
    if max == 0 || cands.len() == 0 {
        Set::empty()
    } else if cands.len() <= max {
        cands
    } else {
        let rot = rotation_of(epoch, probe.len()) as int;
        let s1 = if probes_in(epoch) { take_from(Set::empty(), probe, rot, 1, attempts, true, 0) } else { Set::empty() };
        let s2 = if max == 1 {
            take_from(s1, probe, rot, max, attempts, false, 0)
        } else {
            take_from(s1, hubs, 0, preferred_slots(max), attempts, false, 0)
        };
        let s3 = take_from(s2, ring, rot, max, attempts, false, 0);
        take_from(s3, candidates, rot, max, attempts, true, 0)
    }
}

/// The sync targets of `topic` for `local`: every candidate when the budget
/// allows; otherwise a rotation of the probe order when probing, the shared
/// hubs (or the probe order for a budget of one), the ring neighbours, and
/// then any candidate, skipping peers past their retry budget in all but the
/// probe and the last pass.
pub open spec fn selection_of(
    topic: TopicId,
    local: PeerId,
    members: Set<PeerId>,
    selected: Set<PeerId>,
    max: int,
    attempts: Map<PeerId, u64>,
    epoch: u64,
) -> Set<PeerId> {
    let scope = scope_of(members, selected, local);
    let cands = scope.remove(local);
    let hubs = hubs_of(topic, cands);
    let ring = ring_of(sorted_of(scope), local);
    choose_targets(cands, sorted_of(cands), hubs, ring, probe_of(hubs, ring), max, attempts, epoch)
}

/// Whether every candidate is past its retry budget, so no peer is worth attempting.
pub open spec fn blocked_of(cands: Set<PeerId>, max: int, attempts: Map<PeerId, u64>) -> bool {
    max > 0 && cands.len() > 0 && forall|p: PeerId| cands.contains(p) ==> demoted_in(attempts, p)
}

/// The candidates still within their retry budget.
pub open spec fn healthy_in(cands: Set<PeerId>, attempts: Map<PeerId, u64>) -> Set<PeerId> {
    cands.filter(|p: PeerId| !demoted_in(attempts, p))
}

/// Candidate orders derived from membership and policy for one local peer.
#[derive(Debug)]
pub struct CandidateOrder {
    /// Every candidate but the local peer, in ascending order.
    pub candidates: Vec<PeerId>,
    /// The candidates by shared score: the peers every node prefers.
    pub hubs: Vec<PeerId>,
    /// The neighbours of the local peer, nearest first.
    pub ring: Vec<PeerId>,
    /// The rotation order for a single-peer budget.
    pub probe: Vec<PeerId>,
}

/// Builds the candidate orders of `topic_id` for `local_peer`.
pub fn build_order(topic_id: TopicId, local_peer: PeerId, state: &TopicState) -> (r: CandidateOrder)
    ensures ({
        let scope = scope_of(state.members@, state.replication_policy.selected_peers@, local_peer);
        let cands = scope.remove(local_peer);
        &&& r.candidates@ == sorted_of(cands)
        &&& r.hubs@ == hubs_of(topic_id, cands)
        &&& r.ring@ == ring_of(sorted_of(scope), local_peer)
        &&& r.probe@ == probe_of(r.hubs@, r.ring@)
        &&& sorted_ids(r.candidates@)
        &&& r.candidates@.to_set() == cands
        &&& hub_sorted(topic_id, r.hubs@)
        &&& r.hubs@.to_set() == cands
        &&& r.ring@.to_set() == cands
        &&& r.ring@.no_duplicates()
        &&& forall|p: PeerId| #[trigger] r.probe@.contains(p) ==> cands.contains(p)
        &&& cands.finite()
        &&& cands.len() == r.candidates@.len()
    }),
{
    let mut scope = if state.replication_policy.selected_peers.is_empty() {
        state.members.duplicate()
    } else {
        let chosen = state.replication_policy.selected_peers.to_vec();
        let mut both = IdSet::new();
        let mut i: usize = 0;
        while i < chosen.len()
            invariant
                i <= chosen@.len(),
                chosen@.to_set() == state.replication_policy.selected_peers@,
                both@ == chosen@.take(i as int).to_set().intersect(state.members@),
            decreases chosen@.len() - i,
        {
            if state.members.contains(&chosen[i]) {
                both.insert(chosen[i]);
            }
            i += 1;
            assert(chosen@.take(i as int) =~= chosen@.take(i - 1).push(chosen@[i - 1]));
            assert(both@ =~= chosen@.take(i as int).to_set().intersect(state.members@));
        }
        assert(chosen@.take(i as int) =~= chosen@);
        both
    };
    scope.insert(local_peer);
    let ghost scope_set = scope@;
    assert(scope_set =~= scope_of(state.members@, state.replication_policy.selected_peers@, local_peer));
    let mut others = scope.duplicate();
    others.remove(&local_peer);
    let candidates = others.to_vec();
    proof {
        lemma_sorted_of(candidates@);
        candidates@.unique_seq_to_set();
    }
    let hubs = sort_hubs(topic_id, &candidates);
    let ring = ring_order(&scope, local_peer);
    proof {
        let nodes = sorted_of(scope_set);
        lemma_sorted_no_dup(nodes);
        assert(nodes.to_set().contains(local_peer));
        lemma_ring_of(nodes, local_peer);
    }
    let probe = probe_order(&hubs, &ring);
    proof {
        lemma_probe_from(Seq::empty(), (if hubs@.len() > 0 { hubs@.take(1) } else { Seq::<PeerId>::empty() }) + ring@, 0);
        assert forall|p: PeerId| #[trigger] probe@.contains(p) implies others@.contains(p) by {
            let src = (if hubs@.len() > 0 { hubs@.take(1) } else { Seq::<PeerId>::empty() }) + ring@;
            assert(src.contains(p));
            let w = choose|w: int| 0 <= w < src.len() && src[w] == p;
            if hubs@.len() > 0 && w == 0 {
                assert(hubs@.contains(p));
            } else {
                assert(ring@.contains(p));
            }
        }
    }
    CandidateOrder { candidates, hubs, ring, probe }
}

/// Chosen sync targets, and whether no candidate is within its retry budget.
#[derive(Debug)]
pub struct PeerSelection {
    pub peers: Vec<PeerId>,
    pub blocked: bool,
}

/// Chooses which peers to sync `topic_id` with from `local_peer`, within the
/// topic's replication policy and the observed peer health.
pub fn select_sync_targets(topic_id: TopicId, local_peer: PeerId, state: &TopicState, health: &PeerHealth) -> (r: PeerSelection)
    ensures ({
        let members = state.members@;
        let chosen = state.replication_policy.selected_peers@;
        let max = state.replication_policy.max_sync_peers as int;
        let cands = scope_of(members, chosen, local_peer).remove(local_peer);
        let attempts = health.attempts@;
        &&& sorted_ids(r.peers@)
        &&& r.peers@.to_set() == selection_of(topic_id, local_peer, members, chosen, max, attempts, health.epoch)
        &&& r.blocked == blocked_of(cands, max, attempts)
        &&& r.peers@.to_set().subset_of(cands)
        &&& r.peers@.len() == (if cands.len() < max { cands.len() as int } else { max })
        &&& !probes_in(health.epoch) && healthy_in(cands, attempts).len() >= max
            ==> forall|p: PeerId| #[trigger] r.peers@.contains(p) ==> !demoted_in(attempts, p)
    }),
{
    let max = state.replication_policy.max_sync_peers;
    let order = build_order(topic_id, local_peer, state);
    let ghost cands = scope_of(state.members@, state.replication_policy.selected_peers@, local_peer).remove(local_peer);
    let ghost attempts = health.attempts@;
    if max == 0 || order.candidates.len() == 0 {
        proof {
            if order.candidates.len() == 0 {
                assert(cands.len() == 0);
            }
        }
        return PeerSelection { peers: Vec::new(), blocked: false };
    }
    let mut blocked = true;
    let mut i: usize = 0;
    while i < order.candidates.len()
        invariant
            i <= order.candidates@.len(),
            blocked == forall|j: int| 0 <= j < i ==> demoted_in(health.attempts@, #[trigger] order.candidates@[j]),
        decreases order.candidates@.len() - i,
    {
        if !health.demoted(&order.candidates[i]) {
            blocked = false;
        }
        i += 1;
    }
    proof {
        assert(blocked == blocked_of(cands, max as int, attempts)) by {
            if blocked {
                assert forall|p: PeerId| cands.contains(p) implies demoted_in(attempts, p) by {
                    assert(order.candidates@.to_set().contains(p));
                    let w = choose|w: int| 0 <= w < order.candidates@.len() && order.candidates@[w] == p;
                }
            } else {
                let j = choose|j: int| 0 <= j < i && !demoted_in(attempts, #[trigger] order.candidates@[j]);
                assert(order.candidates@.contains(order.candidates@[j]));
                assert(cands.contains(order.candidates@[j]));
            }
        }
        lemma_healthy_bound(cands, attempts);
    }
    if order.candidates.len() <= max {
        proof {
            if healthy_in(cands, attempts).len() >= max as int {
                assert forall|p: PeerId| #[trigger] order.candidates@.contains(p) implies !demoted_in(attempts, p) by {
                    if demoted_in(attempts, p) {
                        assert(order.candidates@.to_set().contains(p));
                        assert(healthy_in(cands, attempts).subset_of(cands.remove(p)));
                        vstd::set_lib::lemma_len_subset(healthy_in(cands, attempts), cands.remove(p));
                    }
                }
            }
            lemma_sorted_no_dup(order.candidates@);
            order.candidates@.unique_seq_to_set();
        }
        return PeerSelection { peers: order.candidates, blocked };
    }
    let ghost n = order.candidates@.len();
    let ghost rot = rotation_of(health.epoch, order.probe@.len()) as int;
    let mut selected = IdSet::new();
    let rotation = health.rotation(order.probe.len());
    let probing = health.probes_demoted();
    if probing {
        take_slots(&mut selected, order.probe.as_slice(), rotation, 1, health, true);
    }
    let ghost s1 = selected@;
    proof {
        lemma_take_bounds(Set::empty(), order.probe@, rot, 1, attempts, true, 0);
        assert(s1.finite() && s1.len() <= 1 && s1.subset_of(cands));
        assert(!probing ==> s1 == Set::<PeerId>::empty());
    }
    if max == 1 {
        take_slots(&mut selected, order.probe.as_slice(), rotation, max, health, false);
        proof { lemma_take_bounds(s1, order.probe@, rot, max as int, attempts, false, 0); }
    } else {
        let preferred: usize = if SHARED_OVERLAP + 1 < max - 1 { SHARED_OVERLAP + 1 } else { max - 1 };
        take_slots(&mut selected, order.hubs.as_slice(), 0, preferred, health, false);
        proof { lemma_take_bounds(s1, order.hubs@, 0, preferred as int, attempts, false, 0); }
    }
    let ghost s2 = selected@;
    proof {
        assert(s2.finite() && s2.len() <= max && s2.subset_of(cands));
        assert(!probing ==> forall|p: PeerId| s2.contains(p) ==> !demoted_in(attempts, p));
    }
    take_slots(&mut selected, order.ring.as_slice(), rotation, max, health, false);
    let ghost s3 = selected@;
    proof {
        lemma_take_bounds(s2, order.ring@, rot, max as int, attempts, false, 0);
        lemma_take_fills(s2, order.ring@, rot, max as int, attempts, false, 0);
        assert(s3.finite() && s3.len() <= max && s3.subset_of(cands));
        if !probing && healthy_in(cands, attempts).len() >= max as int {
            assert(healthy_in(cands, attempts).subset_of(s3) || s3.len() >= max) by {
                if s3.len() < max {
                    assert forall|p: PeerId| healthy_in(cands, attempts).contains(p) implies s3.contains(p) by {
                        assert(order.ring@.to_set().contains(p));
                        let j = choose|j: int| 0 <= j < order.ring@.len() && order.ring@[j] == p;
                        let st = lemma_wrap_covers(order.ring@.len() as int, rot, j);
                        assert(order.ring@[(rot + st) % (order.ring@.len() as int)] == p);
                    }
                }
            }
            if s3.len() < max {
                vstd::set_lib::lemma_len_subset(healthy_in(cands, attempts), s3);
            }
            assert(s3.len() == max);
        }
    }
    take_slots(&mut selected, order.candidates.as_slice(), rotation, max, health, true);
    let ghost s4 = selected@;
    proof {
        lemma_take_bounds(s3, order.candidates@, rot, max as int, attempts, true, 0);
        lemma_take_fills(s3, order.candidates@, rot, max as int, attempts, true, 0);
        assert(s4.len() == max) by {
            if s4.len() < max {
                assert forall|p: PeerId| cands.contains(p) implies s4.contains(p) by {
                    assert(order.candidates@.to_set().contains(p));
                    let j = choose|j: int| 0 <= j < n && order.candidates@[j] == p;
                    let st = lemma_wrap_covers(n as int, rot, j);
                    assert(order.candidates@[(rot + st) % (n as int)] == p);
                }
                vstd::set_lib::lemma_len_subset(cands, s4);
            }
        }
        if !probing && healthy_in(cands, attempts).len() >= max as int {
            assert(s4 == s3);
            assert forall|p: PeerId| s4.contains(p) implies !demoted_in(attempts, p) by {
                if !s2.contains(p) {
                    assert(s3.contains(p) && !s2.contains(p));
                }
            }
        }
        assert(s4 == selection_of(topic_id, local_peer, state.members@, state.replication_policy.selected_peers@, max as int, attempts, health.epoch));
    }
    let peers = selected.to_vec();
    proof {
        peers@.unique_seq_to_set();
        assert forall|p: PeerId| #[trigger] peers@.contains(p) implies s4.contains(p) by {
            assert(peers@.to_set().contains(p));
        }
    }
    PeerSelection { peers, blocked }
}

/// The healthy candidates are a finite part of the candidates.
proof fn lemma_healthy_bound(cands: Set<PeerId>, attempts: Map<PeerId, u64>)
    requires cands.finite(),
    ensures
        healthy_in(cands, attempts).finite(),
        healthy_in(cands, attempts).subset_of(cands),
        healthy_in(cands, attempts).len() <= cands.len(),
{
    cands.lemma_len_filter(|p: PeerId| !demoted_in(attempts, p));
}

/// Two peer selections for one topic, local peer, membership and policy are the
/// same list: both are sorted and hold the same peers.
pub proof fn lemma_selection_repeats(topic_id: TopicId, local_peer: PeerId, state: TopicState, first: Seq<PeerId>, second: Seq<PeerId>)
    requires
        sorted_ids(first),
        sorted_ids(second),
        first.to_set() == selection_of(topic_id, local_peer, state.members@, state.replication_policy.selected_peers@,
            state.replication_policy.max_sync_peers as int, Map::empty(), 0),
        second.to_set() == selection_of(topic_id, local_peer, state.members@, state.replication_policy.selected_peers@,
            state.replication_policy.max_sync_peers as int, Map::empty(), 0),
    ensures
        first == second,
{
    lemma_sorted_of(first);
    lemma_sorted_of(second);
}

/// The sync targets of `topic_id` for `local_peer` by replication policy alone.
pub fn select_sync_peers(topic_id: TopicId, local_peer: PeerId, state: &TopicState) -> (r: Vec<PeerId>)
    ensures
        sorted_ids(r@),
        r@.to_set() == selection_of(topic_id, local_peer, state.members@, state.replication_policy.selected_peers@,
            state.replication_policy.max_sync_peers as int, Map::empty(), 0),
{
    let health = PeerHealth::empty();
    select_sync_targets(topic_id, local_peer, state, &health).peers
}

impl crate::node::Irokle {
    /// The sync targets of `topic_id` from this node, by its replication policy
    /// and the reachability observed so far.
    pub fn sync_peers(&self, topic_id: TopicId, state: &TopicState) -> (r: Vec<PeerId>)
        ensures
            sorted_ids(r@),
            r@.to_set() == selection_of(topic_id, self.spec_peer_id(), state.members@,
                state.replication_policy.selected_peers@, state.replication_policy.max_sync_peers as int,
                self.spec_health().attempts(), self.spec_health().epoch()),
    {
        let local = self.peer_id();
        select_sync_targets(topic_id, local, state, self.peer_health.view()).peers
    }

    /// The reachability this node has observed of its peers.
    pub fn peer_health(&self) -> (r: &PeerHealthStore)
        ensures *r == self.spec_health(),
    {
        &self.peer_health
    }

    /// Records one attempt's reachability: reaching the peer clears its
    /// failures; an unreachable result adds one; anything else changes
    /// nothing. Returns whether selection may have moved.
    pub fn note_peer_outcome(&mut self, peer_id: PeerId, reached: bool, unreachable: bool) -> (r: bool)
        ensures
            final(self).store() == old(self).store(),
            final(self).spec_peer_id() == old(self).spec_peer_id(),
            reached ==> final(self).spec_health().attempts() == old(self).spec_health().attempts().remove(peer_id)
                && r == old(self).spec_health().attempts().contains_key(peer_id),
            !reached && unreachable ==> r == (old(self).spec_health().attempts().contains_key(peer_id)
                || old(self).spec_health().attempts().len() < MAX_TRACKED_PEERS),
            !reached && !unreachable ==> final(self).spec_health() == old(self).spec_health() && !r,
    {
        if reached {
            self.peer_health.record_success(&peer_id)
        } else if unreachable {
            self.peer_health.record_failure(peer_id)
        } else {
            false
        }
    }
}

} // verus!
