//! Data of topics this node does not hold is staged apart, per source, until
//! its history proves that this node and the source are members; then the
//! staged topic becomes visible at once.
use vstd::prelude::*;
use crate::ids::{Id32, OpId, PeerId, TopicId, id_lt};
use crate::idset::IdSet;
use crate::clock::ActorClock;
use crate::op::{Op, is_structural_genesis, spec_is_structural_genesis};
use crate::topic::TopicPayload;
use crate::storage::MemoryStorage;
use crate::oplog::Oplog;
use crate::error::Error;
use crate::order::{SortKey, key_lt, lemma_sorted_unique, sorted_keys_of};
use crate::node::Irokle;

verus! {

/// Milliseconds a staging may go without new data before it is discarded.
pub const MAX_STAGED_IDLE_MS: u64 = 600000;
/// Bytes one source may have staged at once.
pub const MAX_STAGED_SOURCE_BYTES: u64 = 67108864;
/// Bytes all stagings of a node may hold at once.
pub const MAX_STAGED_BYTES: u64 = 268435456;

/// The receipt of a staging: its branch, session, contiguous clock and bytes.
/// It certifies nothing of admission.
#[derive(Debug)]
pub struct StagedTopic {
    pub genesis: Option<OpId>,
    pub session: u64,
    pub clock: ActorClock,
    pub bytes: u64,
}

impl StagedTopic {
    /// The receipt of data that nothing anchors to a branch yet.
    pub fn empty() -> (r: StagedTopic)
        ensures r.genesis is None, r.session == 0, r.clock@ == Map::<crate::ids::ActorId, u64>::empty(), r.bytes == 0,
    {
        StagedTopic { genesis: None, session: 0, clock: ActorClock::new(), bytes: 0 }
    }
}

/// The data one source sent of one unknown topic, held in a log of its own.
#[derive(Debug)]
pub struct Staging {
    pub source: PeerId,
    pub topic_id: TopicId,
    /// The genesis the staged branch starts from.
    pub genesis: OpId,
    /// Distinguishes this staging from earlier ones of the same source and topic.
    pub session: u64,
    /// When data last reached this staging.
    pub updated_ms: u64,
    /// Bytes of the operations staged.
    pub bytes: u64,
    pub log: Oplog,
}

impl Staging {
    /// The store holding the staged operations.
    pub open spec fn staged_store(&self) -> MemoryStorage {
        self.log.store()
    }

    /// The store holding the staged operations.
    pub fn storage(&self) -> (r: &MemoryStorage)
        ensures *r == self.staged_store(),
    {
        self.log.storage()
    }
}

/// Whether staging `x` holds a topic state that makes `me` and `source` members.
pub open spec fn staging_proves(x: Staging, me: PeerId, source: PeerId) -> bool {
    &&& x.staged_store().topics_map().contains_key(x.topic_id)
    &&& x.staged_store().topics_map()[x.topic_id].state.members@.contains(me)
    &&& x.staged_store().topics_map()[x.topic_id].state.members@.contains(source)
}

/// Whether some staging in `s` holds `topic` from `source`.
pub open spec fn has_staging(s: Seq<Staging>, source: PeerId, topic: TopicId) -> bool {
    exists|i: int| 0 <= i < s.len() && (#[trigger] s[i]).source == source && s[i].topic_id == topic
}

/// Whether `i` is the first position of `s` staging `topic` from `source`.
pub open spec fn first_staging(s: Seq<Staging>, source: PeerId, topic: TopicId, i: int) -> bool {
    &&& 0 <= i < s.len()
    &&& s[i].source == source
    &&& s[i].topic_id == topic
    &&& forall|j: int| 0 <= j < i ==> !((#[trigger] s[j]).source == source && s[j].topic_id == topic)
}

/// Whether some staging in `s` holds `topic`, from any source.
pub open spec fn topic_staged(s: Seq<Staging>, topic: TopicId) -> bool {
    exists|i: int| 0 <= i < s.len() && (#[trigger] s[i]).topic_id == topic
}

/// The time `MAX_STAGED_IDLE_MS` before `now_ms`, or zero.
pub open spec fn idle_cutoff(now_ms: u64) -> u64 {
    if now_ms >= MAX_STAGED_IDLE_MS { (now_ms - MAX_STAGED_IDLE_MS) as u64 } else { 0 }
}

/// The stagings of `s` touched at or after `cutoff`, in order.
pub open spec fn live_stagings(s: Seq<Staging>, cutoff: u64) -> Seq<Staging>
    decreases s.len(),
{
    if s.len() == 0 {
        Seq::empty()
    } else {
        let r = live_stagings(s.drop_last(), cutoff);
        if s.last().updated_ms >= cutoff { r.push(s.last()) } else { r }
    }
}

impl Irokle {
    /// The position of the staging of `topic_id` from `source`, if any.
    pub fn staging_index(&self, source: &PeerId, topic_id: &TopicId) -> (r: Option<usize>)
        ensures
            r matches Some(i) ==> first_staging(self.spec_stagings(), *source, *topic_id, i as int),
            r is None <==> !has_staging(self.spec_stagings(), *source, *topic_id),
    {
        let mut i: usize = 0;
        while i < self.stagings.len()
            invariant
                i <= self.stagings@.len(),
                self.stagings@ == self.spec_stagings(),
                forall|j: int| 0 <= j < i ==> !((#[trigger] self.stagings@[j]).source == *source && self.stagings@[j].topic_id == *topic_id),
            decreases self.stagings@.len() - i,
        {
            if self.stagings[i].source.same(source) && self.stagings[i].topic_id.same(topic_id) {
                return Some(i);
            }
            i += 1;
        }
        None
    }

    /// Whether any source has staged data of `topic_id`.
    pub fn is_topic_staged(&self, topic_id: &TopicId) -> (r: bool)
        ensures r == topic_staged(self.spec_stagings(), *topic_id),
    {
        let mut i: usize = 0;
        while i < self.stagings.len()
            invariant
                i <= self.stagings@.len(),
                self.stagings@ == self.spec_stagings(),
                forall|j: int| 0 <= j < i ==> (#[trigger] self.stagings@[j]).topic_id != *topic_id,
            decreases self.stagings@.len() - i,
        {
            if self.stagings[i].topic_id.same(topic_id) {
                return true;
            }
            i += 1;
        }
        false
    }

    /// Ends the stagings that received nothing for `MAX_STAGED_IDLE_MS` before `now_ms`.
    pub fn expire_bootstraps(&mut self, now_ms: u64)
        ensures
            final(self).spec_stagings() == live_stagings(old(self).spec_stagings(), idle_cutoff(now_ms)),
            final(self).store() == old(self).store(),
            final(self).spec_peer_id() == old(self).spec_peer_id(),
            final(self).spec_now() == old(self).spec_now(),
            final(self).spec_statuses() == old(self).spec_statuses(),
    {
        let cutoff: u64 = if now_ms >= MAX_STAGED_IDLE_MS { now_ms - MAX_STAGED_IDLE_MS } else { 0 };
        let mut rest: Vec<Staging> = Vec::new();
        std::mem::swap(&mut rest, &mut self.stagings);
        let ghost orig = rest@;
        assert(orig.len() == rest.len());
        let mut kept: Vec<Staging> = Vec::new();
        let mut i: usize = 0;
        while rest.len() > 0
            invariant
                i <= orig.len(),
                orig.len() <= usize::MAX,
                i + rest@.len() == orig.len(),
                rest@ == orig.skip(i as int),
                kept@ == live_stagings(orig.take(i as int), cutoff),
            decreases rest@.len(),
        {
            let x = rest.remove(0);
            proof {
                assert(x == orig[i as int]);
                assert(orig.take(i as int + 1).drop_last() =~= orig.take(i as int));
                assert(orig.take(i as int + 1).last() == x);
            }
            if x.updated_ms >= cutoff {
                kept.push(x);
            }
            i += 1;
            proof { assert(rest@ =~= orig.skip(i as int)); }
        }
        proof { assert(orig.take(i as int) =~= orig); }
        self.stagings = kept;
    }

    /// The receipt of the staging at `index`.
    fn staged_of(&self, index: usize) -> (r: StagedTopic)
        requires index < self.spec_stagings().len(),
        ensures
            r.genesis == Some(self.spec_stagings()[index as int].genesis),
            r.session == self.spec_stagings()[index as int].session,
            r.bytes == self.spec_stagings()[index as int].bytes,
    {
        let x = &self.stagings[index];
        StagedTopic {
            genesis: Some(x.genesis),
            session: x.session,
            clock: x.log.storage().actor_clock(&x.topic_id),
            bytes: x.bytes,
        }
    }

    /// What `source` staged here of `topic_id`: its branch, session, contiguous
    /// clock and bytes; `None` when nothing is staged.
    pub fn staged_topic(&self, source: PeerId, topic_id: TopicId) -> (r: Option<StagedTopic>)
        ensures
            r is None <==> !has_staging(self.spec_stagings(), source, topic_id),
            r matches Some(t) ==> exists|i: int| #[trigger] first_staging(self.spec_stagings(), source, topic_id, i)
                && t.genesis == Some(self.spec_stagings()[i].genesis) && t.session == self.spec_stagings()[i].session
                && t.bytes == self.spec_stagings()[i].bytes,
    {
        match self.staging_index(&source, &topic_id) {
            Some(i) => Some(self.staged_of(i)),
            None => None,
        }
    }

    /// Makes the staging at `index` the topic it stages, when its state holds
    /// this node and its source as members: its state, heads and admitted
    /// operations move into the store at once, and the staging ends. Otherwise
    /// nothing changes. Returns whether it moved.
    fn activate_proven(&mut self, index: usize) -> (r: bool)
        requires
            index < old(self).spec_stagings().len(),
            !old(self).store().topics_map().contains_key(old(self).spec_stagings()[index as int].topic_id),
        ensures ({
            let x = old(self).spec_stagings()[index as int];
            &&& r == staging_proves(x, old(self).spec_peer_id(), x.source)
            &&& r ==> final(self).store().topics_map().contains_key(x.topic_id)
                && final(self).store().topics_map()[x.topic_id].state == x.staged_store().topics_map()[x.topic_id].state
                && final(self).store().topics_map().remove(x.topic_id) == old(self).store().topics_map()
                && final(self).spec_stagings() == old(self).spec_stagings().remove(index as int)
                && (forall|k: OpId| x.staged_store().ops_map().contains_key(k) && x.staged_store().ops_map()[k].topic_id == x.topic_id
                    ==> #[trigger] final(self).store().ops_map().contains_key(k))
                && (forall|k: OpId| x.staged_store().ops_map().contains_key(k) && x.staged_store().ops_map()[k].topic_id == x.topic_id
                    && !old(self).store().ops_map().contains_key(k)
                    ==> #[trigger] final(self).store().ops_map()[k] == x.staged_store().ops_map()[k])
                && crate::oplog::receive::keeps_entries(old(self).store().ops_map(), final(self).store().ops_map())
            &&& !r ==> final(self).store() == old(self).store() && final(self).spec_stagings() == old(self).spec_stagings()
            &&& final(self).spec_peer_id() == old(self).spec_peer_id()
            &&& final(self).spec_now() == old(self).spec_now()
        }),
            final(self).spec_statuses() == old(self).spec_statuses(),
    {
        let me = self.peer_id();
        let proven = {
            let x = &self.stagings[index];
            match x.log.storage().topic_record(&x.topic_id) {
                Some(record) => record.state.members.contains(&me) && record.state.members.contains(&x.source),
                None => false,
            }
        };
        if !proven {
            return false;
        }
        let x = self.stagings.remove(index);
        let topic_id = x.topic_id;
        let Staging { log, .. } = x;
        let store = log.into_storage();
        self.oplog.storage_mut().import_topic(store, &topic_id);
        proof {
            assert forall|k: OpId| old(self).store().ops_map().contains_key(k) implies
                #[trigger] self.store().ops_map().contains_key(k) by {}
        }
        true
    }

    /// Finishes the bootstrap of `topic_id` from `source` when its staged
    /// history already proves membership. Returns whether the topic is held.
    pub fn finish_bootstrap(&mut self, source: PeerId, topic_id: TopicId) -> (r: bool)
        ensures
            old(self).store().topics_map().contains_key(topic_id) ==> r && final(self).store() == old(self).store()
                && final(self).spec_stagings() == old(self).spec_stagings(),
            r <==> final(self).store().topics_map().contains_key(topic_id),
            !old(self).store().topics_map().contains_key(topic_id) ==> (r <==> (exists|i: int|
                #[trigger] first_staging(old(self).spec_stagings(), source, topic_id, i)
                && staging_proves(old(self).spec_stagings()[i], old(self).spec_peer_id(), source))),
            !r ==> final(self).store() == old(self).store() && final(self).spec_stagings() == old(self).spec_stagings(),
            r && !old(self).store().topics_map().contains_key(topic_id) ==> final(self).store().topics_map().contains_key(topic_id)
                && final(self).store().topics_map()[topic_id].state.members@.contains(old(self).spec_peer_id())
                && final(self).store().topics_map()[topic_id].state.members@.contains(source),
            final(self).spec_statuses() == old(self).spec_statuses(),
    {
        if self.storage().topic_record(&topic_id).is_some() {
            return true;
        }
        match self.staging_index(&source, &topic_id) {
            None => false,
            Some(i) => {
                let r = self.activate_proven(i);
                proof {
                    assert(first_staging(old(self).spec_stagings(), source, topic_id, i as int));
                    assert forall|j: int| #[trigger] first_staging(old(self).spec_stagings(), source, topic_id, j) implies j == i by {
                        if j < i {
                            assert(old(self).spec_stagings()[j].source == source);
                        } else if j > i {
                            assert(!(old(self).spec_stagings()[i as int].source == source && old(self).spec_stagings()[i as int].topic_id == topic_id));
                        }
                    }
                }
                r
            },
        }
    }
}

/// `a + b`, or `u64::MAX` when that does not fit.
pub open spec fn sat_add(a: u64, b: u64) -> u64 {
    if a + b > u64::MAX { u64::MAX } else { (a + b) as u64 }
}

/// The bytes `source` has staged in `s`, summed without overflow.
pub open spec fn source_bytes(s: Seq<Staging>, source: PeerId) -> u64
    decreases s.len(),
{
    if s.len() == 0 {
        0
    } else {
        let r = source_bytes(s.drop_last(), source);
        if s.last().source == source { sat_add(r, s.last().bytes) } else { r }
    }
}

/// The bytes of every staging in `s`, summed without overflow.
pub open spec fn total_bytes(s: Seq<Staging>) -> u64
    decreases s.len(),
{
    if s.len() == 0 { 0 } else { sat_add(total_bytes(s.drop_last()), s.last().bytes) }
}

/// The rank of a staging: by bytes, then source.
pub open spec fn staging_key(x: Staging) -> SortKey {
    SortKey { major: x.bytes, actor: x.source, minor: 0, id: x.topic_id }
}

/// The rank of what `source` stages of `topic`: that staging's, or the
/// weakest rank of the source when it stages nothing.
pub open spec fn own_key(s: Seq<Staging>, source: PeerId, topic: TopicId) -> SortKey {
    if has_staging(s, source, topic) {
        staging_key(s[choose|i: int| first_staging(s, source, topic, i)])
    } else {
        SortKey { major: 0, actor: source, minor: 0, id: topic }
    }
}

/// Whether `x` stages `topic` from another source than `source` and ranks below `own`.
pub open spec fn is_loser(x: Staging, source: PeerId, topic: TopicId, own: SortKey) -> bool {
    x.topic_id == topic && x.source != source && key_lt(staging_key(x), own)
}

/// The ranks of the stagings of `s` that lose to `own`.
pub open spec fn loser_keys(s: Seq<Staging>, source: PeerId, topic: TopicId, own: SortKey) -> Set<SortKey> {
    Set::new(|k: SortKey| exists|i: int| 0 <= i < s.len() && is_loser(#[trigger] s[i], source, topic, own) && staging_key(s[i]) == k)
}

/// The stagings of `s` whose rank is not in `ks`, in order.
pub open spec fn without_keys(s: Seq<Staging>, ks: Set<SortKey>) -> Seq<Staging>
    decreases s.len(),
{
    if s.len() == 0 {
        Seq::empty()
    } else {
        let r = without_keys(s.drop_last(), ks);
        if ks.contains(staging_key(s.last())) { r } else { r.push(s.last()) }
    }
}

/// The ranks of the stagings that lose to what `source` stages of `topic`, weakest first.
pub open spec fn weakest_first(s: Seq<Staging>, source: PeerId, topic: TopicId) -> Seq<SortKey> {
    sorted_keys_of(loser_keys(s, source, topic, own_key(s, source, topic)))
}

/// Whether `incoming` bytes fit the node-wide budget once the `k` weakest
/// losers of `s` are removed.
pub open spec fn room_after(s: Seq<Staging>, source: PeerId, topic: TopicId, incoming: u64, k: int) -> bool {
    crate::staging::fits_after(total_bytes(s) as int, incoming as int, MAX_STAGED_BYTES as int,
        key_sizes(weakest_first(s, source, topic)), k)
}

/// The sizes of the ranks in `q`.
pub open spec fn key_sizes(q: Seq<SortKey>) -> Seq<u64> {
    q.map_values(|k: SortKey| k.major)
}

/// Whether `k` is one of `v`.
fn contains_key_of(v: &Vec<SortKey>, k: &SortKey) -> (r: bool)
    ensures r == v@.contains(*k),
{
    let mut i: usize = 0;
    while i < v.len()
        invariant
            i <= v@.len(),
            forall|j: int| 0 <= j < i ==> v@[j] != *k,
        decreases v@.len() - i,
    {
        let x = &v[i];
        if x.major == k.major && x.actor.same(&k.actor) && x.minor == k.minor && x.id.same(&k.id) {
            return true;
        }
        i += 1;
    }
    false
}

impl Irokle {
    /// Refuses `incoming` bytes for the staging of `topic_id` from `source`
    /// unless they fit the per-source quota and, after removing weaker
    /// stagings of the same topic from other sources weakest first, the
    /// node-wide budget. Removes only as many as needed; a refusal removes
    /// nothing.
    pub fn make_room(&mut self, source: PeerId, topic_id: TopicId, incoming: u64) -> (r: Result<(), Error>)
        ensures ({
            let s = old(self).spec_stagings();
            let order = weakest_first(s, source, topic_id);
            &&& sat_add(source_bytes(s, source), incoming) > MAX_STAGED_SOURCE_BYTES ==> r is Err
            &&& r is Ok <==> sat_add(source_bytes(s, source), incoming) <= MAX_STAGED_SOURCE_BYTES
                && exists|k: int| 0 <= k <= order.len() && #[trigger] room_after(s, source, topic_id, incoming, k)
            &&& r is Ok ==> exists|k: int| 0 <= k <= order.len() && #[trigger] room_after(s, source, topic_id, incoming, k)
                && (forall|j: int| 0 <= j < k ==> !#[trigger] room_after(s, source, topic_id, incoming, j))
                && final(self).spec_stagings() == without_keys(s, order.take(k).to_set())
            &&& r is Err ==> (r matches Err(Error::StagingCapacity(_))) && final(self).spec_stagings() == s
            &&& final(self).store() == old(self).store()
            &&& final(self).spec_peer_id() == old(self).spec_peer_id()
            &&& final(self).spec_now() == old(self).spec_now()
        }),
            final(self).spec_statuses() == old(self).spec_statuses(),
    {
        let ghost s = self.stagings@;
        let mut from_source: u64 = 0;
        let mut total: u64 = 0;
        let mut i: usize = 0;
        while i < self.stagings.len()
            invariant
                i <= s.len(),
                self.stagings@ == s,
                from_source == source_bytes(s.take(i as int), source),
                total == total_bytes(s.take(i as int)),
            decreases s.len() - i,
        {
            proof { assert(s.take(i as int + 1).drop_last() =~= s.take(i as int)); }
            let bytes = self.stagings[i].bytes;
            if self.stagings[i].source.same(&source) {
                from_source = from_source.saturating_add(bytes);
            }
            total = total.saturating_add(bytes);
            i += 1;
        }
        proof { assert(s.take(i as int) =~= s); }
        if from_source.saturating_add(incoming) > MAX_STAGED_SOURCE_BYTES {
            return Err(Error::StagingCapacity(String::new()));
        }
        let own = match self.staging_index(&source, &topic_id) {
            Some(j) => {
                proof {
                    assert(has_staging(s, source, topic_id));
                    let c = choose|c: int| first_staging(s, source, topic_id, c);
                    if c < j { assert(s[c].source == source); }
                    if c > j { assert(!(s[j as int].source == source && s[j as int].topic_id == topic_id)); }
                }
                SortKey { major: self.stagings[j].bytes, actor: source, minor: 0, id: topic_id }
            },
            None => SortKey { major: 0, actor: source, minor: 0, id: topic_id },
        };
        assert(own == own_key(s, source, topic_id));
        let mut losers: Vec<SortKey> = Vec::new();
        let mut i: usize = 0;
        while i < self.stagings.len()
            invariant
                i <= s.len(),
                self.stagings@ == s,
                losers@.no_duplicates(),
                losers@.to_set() == loser_keys(s.take(i as int), source, topic_id, own),
            decreases s.len() - i,
        {
            let x = &self.stagings[i];
            let k = SortKey { major: x.bytes, actor: x.source, minor: 0, id: x.topic_id };
            let ghost before = losers@;
            if x.topic_id.same(&topic_id) && !x.source.same(&source) && crate::order::key_less(&k, &own) {
                if !contains_key_of(&losers, &k) {
                    losers.push(k);
                }
            }
            proof {
                let t = s.take(i as int);
                let u = s.take(i as int + 1);
                let cond = is_loser(s[i as int], source, topic_id, own);
                assert(k == staging_key(s[i as int]));
                assert(u[i as int] == s[i as int]);
                assert forall|y: SortKey| #[trigger] loser_keys(u, source, topic_id, own).contains(y)
                    <==> loser_keys(t, source, topic_id, own).contains(y) || (cond && y == k) by {
                    if loser_keys(u, source, topic_id, own).contains(y) {
                        let w = choose|w: int| 0 <= w < u.len() && is_loser(#[trigger] u[w], source, topic_id, own) && staging_key(u[w]) == y;
                        if w < i {
                            assert(t[w] == u[w]);
                        }
                    }
                    if loser_keys(t, source, topic_id, own).contains(y) {
                        let w = choose|w: int| 0 <= w < t.len() && is_loser(#[trigger] t[w], source, topic_id, own) && staging_key(t[w]) == y;
                        assert(u[w] == t[w]);
                    }
                    if cond && y == k {
                        assert(is_loser(u[i as int], source, topic_id, own));
                    }
                }
                assert forall|y: SortKey| #[trigger] losers@.to_set().contains(y) <==> before.to_set().contains(y) || (cond && y == k) by {
                    if losers@.to_set().contains(y) && !before.contains(y) {
                        assert(losers@ == before.push(k));
                        let w = choose|w: int| 0 <= w < losers@.len() && losers@[w] == y;
                        assert(w == before.len());
                    }
                    if before.to_set().contains(y) {
                        let w = choose|w: int| 0 <= w < before.len() && before[w] == y;
                        assert(losers@[w] == y);
                    }
                    if cond && y == k && !before.contains(k) {
                        assert(losers@[before.len() as int] == k);
                    }
                }
                assert(losers@.to_set() =~= loser_keys(u, source, topic_id, own));
                assert(losers@.no_duplicates()) by {
                    if losers@ != before {
                        assert(losers@ == before.push(k));
                        assert forall|a: int, b: int| 0 <= a < losers@.len() && 0 <= b < losers@.len() && a != b implies losers@[a] != losers@[b] by {
                            if a == before.len() { assert(!before.contains(k)); assert(before[b] == losers@[b]); }
                            else if b == before.len() { assert(!before.contains(k)); assert(before[a] == losers@[a]); }
                        }
                    }
                }
            }
            i += 1;
        }
        proof { assert(s.take(i as int) =~= s); }
        let sorted = crate::order::sort_keys(&losers);
        let ghost order = weakest_first(s, source, topic_id);
        proof {
            crate::order::lemma_key_order();
            let lt = |a: SortKey, b: SortKey| key_lt(a, b);
            assert forall|a: int, b: int| 0 <= a < b < sorted@.len() implies #[trigger] lt(sorted@[a], sorted@[b]) by {
                assert(sorted@[a] != sorted@[b]);
                assert(!key_lt(sorted@[b], sorted@[a]));
            }
            assert forall|a: int, b: int| 0 <= a < b < order.len() implies #[trigger] lt(order[a], order[b]) by {
                assert(key_lt(order[a], order[b]));
            }
            assert forall|x: SortKey, y: SortKey| sorted@.contains(x) && sorted@.contains(y) implies !(#[trigger] lt(x, y) && #[trigger] lt(y, x)) by {}
            assert(sorted@.to_set() == order.to_set());
            lemma_sorted_unique(lt, sorted@, order);
        }
        let mut sizes: Vec<u64> = Vec::new();
        let mut i: usize = 0;
        while i < sorted.len()
            invariant
                i <= sorted@.len(),
                sizes@ == key_sizes(sorted@).take(i as int),
            decreases sorted@.len() - i,
        {
            sizes.push(sorted[i].major);
            i += 1;
            proof { assert(sizes@ =~= key_sizes(sorted@).take(i as int)); }
        }
        proof { assert(sizes@ =~= key_sizes(sorted@)); }
        let count = match crate::staging::reclaim_count(total, incoming, MAX_STAGED_BYTES, sizes.as_slice()) {
            Some(c) => c,
            None => { return Err(Error::StagingCapacity(String::new())); },
        };
        let mut gone: Vec<SortKey> = Vec::new();
        let mut i: usize = 0;
        while i < count
            invariant
                i <= count <= sorted@.len(),
                gone@ == sorted@.take(i as int),
            decreases count - i,
        {
            gone.push(sorted[i]);
            i += 1;
            proof { assert(gone@ =~= sorted@.take(i as int)); }
        }
        proof {
            assert(total as int == total_bytes(s) as int);
            assert(room_after(s, source, topic_id, incoming, count as int));
            assert(gone@.to_set() == order.take(count as int).to_set());
        }
        let mut rest: Vec<Staging> = Vec::new();
        std::mem::swap(&mut rest, &mut self.stagings);
        let mut kept: Vec<Staging> = Vec::new();
        let mut i: usize = 0;
        while rest.len() > 0
            invariant
                i <= s.len(),
                s.len() <= usize::MAX,
                i + rest@.len() == s.len(),
                rest@ == s.skip(i as int),
                kept@ == without_keys(s.take(i as int), gone@.to_set()),
            decreases rest@.len(),
        {
            let x = rest.remove(0);
            proof {
                assert(x == s[i as int]);
                assert(s.take(i as int + 1).drop_last() =~= s.take(i as int));
                assert(s.take(i as int + 1).last() == x);
            }
            let k = SortKey { major: x.bytes, actor: x.source, minor: 0, id: x.topic_id };
            if !contains_key_of(&gone, &k) {
                kept.push(x);
            }
            i += 1;
            proof { assert(rest@ =~= s.skip(i as int)); }
        }
        proof { assert(s.take(i as int) =~= s); }
        self.stagings = kept;
        Ok(())
    }
}

/// Where data of a topic stands after it reached the bootstrap.
#[derive(Debug)]
pub enum Bootstrap {
    /// The topic is held already: the data goes to it.
    Known,
    /// The data opens the topic with a genesis naming this node and the source,
    /// and no staging of the topic exists: the data goes to the store directly.
    Direct,
    /// The staged history proved membership and became the topic; these ids
    /// of the data are held now.
    Active(IdSet),
    /// The data is staged; the receipt certifies nothing.
    Staged(StagedTopic),
}

/// Whether `joined` holds `topic` with `me` and `source` among its members,
/// where `before` held no such topic and the other topics stay as they were.
pub open spec fn joined(before: MemoryStorage, after: MemoryStorage, topic: TopicId, me: PeerId, source: PeerId) -> bool {
    &&& after.topics_map().contains_key(topic)
    &&& after.topics_map()[topic].state.members@.contains(me)
    &&& after.topics_map()[topic].state.members@.contains(source)
    &&& after.topics_map().remove(topic) == before.topics_map()
}

/// Whether `ops[i]` is the first genesis among `ops`.
pub open spec fn first_genesis(ops: Seq<Op>, i: int) -> bool {
    &&& 0 <= i < ops.len()
    &&& spec_is_structural_genesis(ops[i])
    &&& forall|j: int| 0 <= j < i ==> !spec_is_structural_genesis(#[trigger] ops[j])
}

/// Each staging `live_stagings` keeps is one of `s`.
proof fn lemma_live_from(s: Seq<Staging>, cutoff: u64, i: int)
    requires 0 <= i < live_stagings(s, cutoff).len(),
    ensures exists|j: int| 0 <= j < s.len() && s[j] == live_stagings(s, cutoff)[i],
    decreases s.len(),
{
    let r = live_stagings(s.drop_last(), cutoff);
    if i < r.len() {
        lemma_live_from(s.drop_last(), cutoff, i);
        let j = choose|j: int| 0 <= j < s.drop_last().len() && s.drop_last()[j] == r[i];
        assert(s[j] == s.drop_last()[j]);
    } else {
        assert(live_stagings(s, cutoff)[i] == s.last());
        assert(s[s.len() - 1] == s.last());
    }
}

/// Each staging `without_keys` keeps is one of `s`.
proof fn lemma_without_keys_from(s: Seq<Staging>, ks: Set<SortKey>, i: int)
    requires 0 <= i < without_keys(s, ks).len(),
    ensures exists|j: int| 0 <= j < s.len() && s[j] == without_keys(s, ks)[i],
    decreases s.len(),
{
    let r = without_keys(s.drop_last(), ks);
    if ks.contains(staging_key(s.last())) {
        lemma_without_keys_from(s.drop_last(), ks, i);
        let j = choose|j: int| 0 <= j < s.drop_last().len() && s.drop_last()[j] == r[i];
        assert(s[j] == s.drop_last()[j]);
    } else if i < r.len() {
        lemma_without_keys_from(s.drop_last(), ks, i);
        let j = choose|j: int| 0 <= j < s.drop_last().len() && s.drop_last()[j] == r[i];
        assert(s[j] == s.drop_last()[j]);
    } else {
        assert(without_keys(s, ks)[i] == s.last());
        assert(s[s.len() - 1] == s.last());
    }
}

/// The position of the first genesis among `ops`.
fn genesis_in(ops: &Vec<Op>) -> (r: Option<usize>)
    ensures
        r matches Some(i) ==> i < ops@.len() && spec_is_structural_genesis(ops@[i as int])
            && forall|j: int| 0 <= j < i ==> !spec_is_structural_genesis(#[trigger] ops@[j]),
        r is None ==> forall|j: int| 0 <= j < ops@.len() ==> !spec_is_structural_genesis(#[trigger] ops@[j]),
{
    let mut i: usize = 0;
    while i < ops.len()
        invariant
            i <= ops@.len(),
            forall|j: int| 0 <= j < i ==> !spec_is_structural_genesis(#[trigger] ops@[j]),
        decreases ops@.len() - i,
    {
        if is_structural_genesis(&ops[i]) {
            return Some(i);
        }
        i += 1;
    }
    None
}

/// Whether `op` is a genesis naming both `a` and `b` among its initial peers.
fn names_both(op: &Op, a: &PeerId, b: &PeerId) -> (r: bool)
    ensures r == (op.signed.body.payload matches TopicPayload::Genesis(g) && g.initial_peers@.contains(*a) && g.initial_peers@.contains(*b)),
{
    match &op.signed.body.payload {
        TopicPayload::Genesis(g) => g.initial_peers.contains(a) && g.initial_peers.contains(b),
        _ => false,
    }
}

impl Irokle {
    /// Opens an empty staging of `topic_id` from `source` on `genesis` and
    /// returns its position.
    fn open_staging(&mut self, source: PeerId, topic_id: TopicId, genesis: OpId) -> (r: usize)
        ensures
            r == old(self).spec_stagings().len(),
            final(self).spec_stagings().len() == r + 1,
            final(self).spec_stagings().take(r as int) == old(self).spec_stagings(),
            final(self).spec_stagings()[r as int].source == source,
            final(self).spec_stagings()[r as int].topic_id == topic_id,
            final(self).spec_stagings()[r as int].genesis == genesis,
            final(self).store() == old(self).store(),
            final(self).spec_peer_id() == old(self).spec_peer_id(),
            final(self).spec_now() == old(self).spec_now(),
            final(self).spec_statuses() == old(self).spec_statuses(),
    {
        let session = self.next_session;
        self.next_session = if self.next_session < u64::MAX { self.next_session + 1 } else { self.next_session };
        let mut log = Oplog::new();
        log.set_now(self.now_ms);
        let at = self.stagings.len();
        self.stagings.push(Staging { source, topic_id, genesis, session, updated_ms: self.now_ms, bytes: 0, log });
        proof { assert(self.stagings@.take(at as int) =~= old(self).spec_stagings()); }
        at
    }

    /// Routes data of `topic_id` from `source`: to the held topic, straight to
    /// the store when its genesis names this node and the source and nothing
    /// of the topic is staged, or into the staging of this source, which
    /// becomes the topic once its history makes both members. A smaller
    /// genesis replaces the staging; a larger one is refused as stale. Staging
    /// never changes what the store holds except by that activation.
    pub fn bootstrap_unknown(&mut self, source: PeerId, topic_id: TopicId, ops: &Vec<Op>) -> (r: Result<Bootstrap, Error>)
        ensures ({
            let me = old(self).spec_peer_id();
            let before = old(self).store();
            let after = final(self).store();
            &&& before.topics_map().contains_key(topic_id) ==> (r matches Ok(Bootstrap::Known)) && after == before
            &&& r matches Ok(Bootstrap::Known) ==> before.topics_map().contains_key(topic_id)
            &&& (r matches Ok(Bootstrap::Direct)) ==> after == before
                && crate::node::sync::proves_members(ops@, topic_id, me, source)
            &&& r matches Ok(Bootstrap::Staged(_)) ==> after == before
            &&& r matches Ok(Bootstrap::Active(held)) ==> joined(before, after, topic_id, me, source)
                && crate::oplog::receive::all_held(after.ops_map(), held@)
            &&& r is Err ==> after == before || joined(before, after, topic_id, me, source)
            &&& final(self).spec_peer_id() == old(self).spec_peer_id()
            &&& final(self).spec_now() == old(self).spec_now()
        }),
            final(self).spec_statuses() == old(self).spec_statuses(),
            !has_staging(old(self).spec_stagings(), source, topic_id) ==> (r matches Ok(Bootstrap::Staged(st))
                ==> forall|i: int| #[trigger] first_genesis(ops@, i) ==> st.genesis == Some(ops@[i].id)),
    {
        if self.storage().topic_record(&topic_id).is_some() {
            return Ok(Bootstrap::Known);
        }
        let now = self.now_ms;
        let ghost before_expiry = self.spec_stagings();
        self.expire_bootstraps(now);
        proof {
            if !has_staging(before_expiry, source, topic_id) && has_staging(self.spec_stagings(), source, topic_id) {
                let i = choose|i: int| 0 <= i < self.spec_stagings().len() && (#[trigger] self.spec_stagings()[i]).source == source
                    && self.spec_stagings()[i].topic_id == topic_id;
                lemma_live_from(before_expiry, idle_cutoff(now), i);
                let j = choose|j: int| 0 <= j < before_expiry.len() && before_expiry[j] == live_stagings(before_expiry, idle_cutoff(now))[i];
                assert(before_expiry[j].source == source);
            }
        }
        let me = self.peer_id();
        let found = genesis_in(ops);
        match found {
            Some(gi) => {
                if ops[gi].signed.body.topic_id.same(&topic_id) && names_both(&ops[gi], &me, &source)
                    && !self.is_topic_staged(&topic_id) {
                    proof {
                        assert(crate::node::sync::proves_members(ops@, topic_id, me, source)) by {
                            assert(spec_is_structural_genesis(ops@[gi as int]));
                        }
                    }
                    return Ok(Bootstrap::Direct);
                }
            },
            None => {},
        }
        let current = self.staging_index(&source, &topic_id);
        let ghost fresh_id = match found { Some(gi) => ops@[gi as int].id, None => ops@[0].id };
        let ghost fresh = current is None && found is Some;
        proof {
            if let Some(gi) = found {
                assert forall|i: int| #[trigger] first_genesis(ops@, i) implies ops@[i].id == fresh_id by {
                    if i < gi { assert(!spec_is_structural_genesis(ops@[i])); }
                    if gi < i { assert(!spec_is_structural_genesis(ops@[gi as int])); }
                }
            }
        }
        let index = match (current, found) {
            (Some(i), Some(gi)) => {
                let fragment = ops[gi].id;
                if fragment.lt(&self.stagings[i].genesis) {
                    let _ = self.stagings.remove(i);
                    self.open_staging(source, topic_id, fragment)
                } else if self.stagings[i].genesis.lt(&fragment) {
                    return Err(Error::StaleIncarnation);
                } else {
                    i
                }
            },
            (Some(i), None) => i,
            (None, Some(gi)) => self.open_staging(source, topic_id, ops[gi].id),
            (None, None) => { return Ok(Bootstrap::Staged(StagedTopic::empty())); },
        };
        let mut bytes: u64 = 0;
        let mut k: usize = 0;
        while k < ops.len()
            invariant k <= ops@.len(),
            decreases ops@.len() - k,
        {
            bytes = bytes.saturating_add(ops[k].encoded_len() as u64);
            k += 1;
        }
        let ghost opened = self.spec_stagings();
        proof {
            if current is None && found is Some {
                assert forall|j: int| 0 <= j < opened.len() && (#[trigger] opened[j]).source == source && opened[j].topic_id == topic_id
                    implies opened[j].genesis == fresh_id by {
                    if j < opened.len() - 1 {
                        assert(opened.take(opened.len() - 1)[j] == opened[j]);
                    }
                }
            }
        }
        self.make_room(source, topic_id, bytes)?;
        let index = match self.staging_index(&source, &topic_id) {
            Some(i) => i,
            None => { return Err(Error::AdmissionConflict); },
        };
        proof {
            if current is None && found is Some {
                let k = choose|k: int| 0 <= k <= weakest_first(opened, source, topic_id).len()
                    && #[trigger] room_after(opened, source, topic_id, bytes, k)
                    && (forall|j: int| 0 <= j < k ==> !#[trigger] room_after(opened, source, topic_id, bytes, j))
                    && self.spec_stagings() == without_keys(opened, weakest_first(opened, source, topic_id).take(k).to_set());
                let ks = weakest_first(opened, source, topic_id).take(k).to_set();
                lemma_without_keys_from(opened, ks, index as int);
                let j = choose|j: int| 0 <= j < opened.len() && opened[j] == without_keys(opened, ks)[index as int];
                assert(opened[j].source == source && opened[j].topic_id == topic_id);
                assert(self.spec_stagings()[index as int].genesis == fresh_id);
            }
        }
        let mut copies: Vec<Op> = Vec::new();
        let mut k: usize = 0;
        while k < ops.len()
            invariant k <= ops@.len(),
            decreases ops@.len() - k,
        {
            copies.push(ops[k].duplicate());
            k += 1;
        }
        let mut staging = self.stagings.remove(index);
        let admitted = staging.log.receive_ops_from_peer(Some(source), copies);
        staging.updated_ms = now;
        staging.bytes = staging.bytes.saturating_add(bytes);
        self.stagings.insert(index, staging);
        proof {
            if fresh {
                assert(self.spec_stagings()[index as int].genesis == fresh_id);
            }
        }
        let ghost mid = self.store();
        let outcome = if self.activate_proven(index) {
            let mut held = IdSet::new();
            let mut k: usize = 0;
            while k < ops.len()
                invariant
                    k <= ops@.len(),
                    crate::oplog::receive::all_held(self.store().ops_map(), held@),
                decreases ops@.len() - k,
            {
                if self.oplog.is_duplicate(&ops[k]) {
                    held.insert(ops[k].id);
                }
                k += 1;
            }
            Bootstrap::Active(held)
        } else {
            Bootstrap::Staged(self.staged_of(index))
        };
        match admitted {
            Ok(_) => Ok(outcome),
            Err(e) => Err(e),
        }
    }
}

} // verus!
