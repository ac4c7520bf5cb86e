//! Actor clocks: for each actor of a topic, the highest position seen.
use vstd::prelude::*;
use crate::ids::{ActorId, Id32};
use crate::idmap::IdMap;

verus! {

/// For each actor, the highest sequence number observed. Absent actors are at 0.
#[derive(Debug)]
pub struct ActorClock {
    entries: IdMap<u64>,
}

/// The position of `actor` in a clock map.
pub open spec fn clock_at(m: Map<Id32, u64>, actor: Id32) -> u64 {
    if m.contains_key(actor) { m[actor] } else { 0 }
}

impl View for ActorClock {
    type V = Map<Id32, u64>;

    closed spec fn view(&self) -> Map<Id32, u64> {
        self.entries@
    }
}

impl ActorClock {
    /// The clock that has seen nothing.
    pub fn new() -> (r: ActorClock)
        ensures r@ == Map::<Id32, u64>::empty(),
    {
        ActorClock { entries: IdMap::new() }
    }

    /// The actors with a position, in ascending order.
    pub closed spec fn actors(&self) -> Seq<Id32> {
        self.entries.key_seq()
    }

    /// Number of actors with a position.
    pub fn len(&self) -> (r: usize)
        ensures r == self@.len(), r == self.actors().len(),
    {
        self.entries.len()
    }

    /// The actor at position `i` in ascending order, with its sequence number.
    pub fn entry_at(&self, i: usize) -> (r: (ActorId, u64))
        requires i < self.actors().len(),
        ensures
            r.0 == self.actors()[i as int],
            self@.contains_key(r.0),
            self@[r.0] == r.1,
    {
        let k = self.entries.key_at(i);
        let v = *self.entries.value_at(i);
        (k, v)
    }

    /// Each actor with its position, in ascending actor order.
    pub fn entries(&self) -> (r: Vec<(ActorId, u64)>)
        ensures clock_entries(r@, self@),
    {
        self.check_actors();
        let n = self.len();
        let mut out: Vec<(ActorId, u64)> = Vec::new();
        let mut i: usize = 0;
        while i < n
            invariant
                i <= n,
                n == self.actors().len(),
                out@.len() == i,
                forall|k: Id32| self@.contains_key(k) <==> self.actors().contains(k),
                self.actors().no_duplicates(),
                forall|j: int| 0 <= j < i ==> (#[trigger] out@[j]).0 == self.actors()[j] && self@.contains_key(out@[j].0)
                    && self@[out@[j].0] == out@[j].1,
            decreases n - i,
        {
            out.push(self.entry_at(i));
            i += 1;
        }
        proof {
            assert forall|k: Id32| #[trigger] self@.contains_key(k) implies exists|j: int| 0 <= j < out@.len() && out@[j].0 == k by {
                assert(self.actors().contains(k));
                let j = choose|j: int| 0 <= j < self.actors().len() && self.actors()[j] == k;
                assert(out@[j].0 == k);
            }
            assert forall|a: int, b: int| 0 <= a < out@.len() && 0 <= b < out@.len() && a != b implies out@[a].0 != out@[b].0 by {
                assert(out@[a].0 == self.actors()[a]);
                assert(out@[b].0 == self.actors()[b]);
            }
        }
        out
    }

    /// The sequence number of `actor`, 0 when unseen.
    pub fn get(&self, actor: &ActorId) -> (r: u64)
        ensures r == clock_at(self@, *actor),
    {
        match self.entries.get(actor) {
            Some(v) => *v,
            None => 0,
        }
    }

    /// Records that `actor` reached `seq`; a lower position changes nothing.
    pub fn observe(&mut self, actor: ActorId, seq: u64)
        ensures
            final(self)@ == (if seq > clock_at(old(self)@, actor) || (seq == 0 && !old(self)@.contains_key(actor)) {
                old(self)@.insert(actor, seq)
            } else {
                old(self)@
            }),
    {
        let current = self.entries.get(&actor);
        match current {
            Some(v) => {
                if seq > *v {
                    self.entries.insert(actor, seq);
                }
            },
            None => {
                self.entries.insert(actor, seq);
            },
        }
    }

    /// Whether `actor` reached `seq`.
    pub fn covers(&self, actor: &ActorId, seq: u64) -> (r: bool)
        ensures r == (clock_at(self@, *actor) >= seq),
    {
        self.get(actor) >= seq
    }

    /// A copy of this clock.
    pub fn duplicate(&self) -> (r: ActorClock)
        ensures r@ == self@,
    {
        self.check_actors();
        let mut r = ActorClock::new();
        let mut i: usize = 0;
        let n = self.entries.len();
        while i < n
            invariant
                i <= n,
                n == self.actors().len(),
                r@ == Map::new(|k: Id32| self.actors().subrange(0, i as int).contains(k), |k: Id32| self@[k]),
                forall|j: int| 0 <= j < n ==> self@.contains_key(#[trigger] self.actors()[j]),
                self.actors().no_duplicates(),
            decreases n - i,
        {
            let (k, v) = self.entry_at(i);
            r.entries.insert(k, v);
            proof {
                let s = self.actors().subrange(0, i as int + 1);
                let t = self.actors().subrange(0, i as int);
                assert forall|y: Id32| s.contains(y) <==> t.contains(y) || y == k by {
                    if s.contains(y) {
                        let w = choose|w: int| 0 <= w < s.len() && s[w] == y;
                        if w < i { assert(t[w] == y); }
                    }
                    if t.contains(y) {
                        let w = choose|w: int| 0 <= w < t.len() && t[w] == y;
                        assert(s[w] == y);
                    }
                    if y == k { assert(s[i as int] == y); }
                }
                assert(r@ =~= Map::new(|k: Id32| s.contains(k), |k: Id32| self@[k]));
            }
            i += 1;
        }
        proof {
            assert(self.actors().subrange(0, n as int) =~= self.actors());
            assert(r@ =~= self@);
        }
        r
    }

    /// Raises each actor to the higher position of the two clocks.
    pub fn merge(&mut self, other: &ActorClock)
        ensures
            forall|a: Id32| #[trigger] clock_at(final(self)@, a) == (if clock_at(old(self)@, a) >= clock_at(other@, a) {
                clock_at(old(self)@, a)
            } else {
                clock_at(other@, a)
            }),
            forall|a: Id32| #[trigger] final(self)@.contains_key(a) <==> old(self)@.contains_key(a) || other@.contains_key(a),
    {
        other.check_actors();
        let n = other.len();
        let mut i: usize = 0;
        let ghost start = self@;
        while i < n
            invariant
                i <= n,
                n == other.actors().len(),
                other.actors().no_duplicates(),
                forall|j: int| 0 <= j < n ==> other@.contains_key(#[trigger] other.actors()[j]),
                forall|a: Id32| #[trigger] clock_at(self@, a) == (if other.actors().subrange(0, i as int).contains(a) && clock_at(other@, a) > clock_at(start, a) {
                    clock_at(other@, a)
                } else {
                    clock_at(start, a)
                }),
                forall|a: Id32| #[trigger] self@.contains_key(a) <==> start.contains_key(a) || other.actors().subrange(0, i as int).contains(a),
            decreases n - i,
        {
            let (k, v) = other.entry_at(i);
            let ghost before = self@;
            self.observe(k, v);
            proof {
                let s = other.actors().subrange(0, i as int + 1);
                let t = other.actors().subrange(0, i as int);
                assert forall|y: Id32| s.contains(y) <==> t.contains(y) || y == k by {
                    if s.contains(y) {
                        let w = choose|w: int| 0 <= w < s.len() && s[w] == y;
                        if w < i { assert(t[w] == y); }
                    }
                    if t.contains(y) {
                        let w = choose|w: int| 0 <= w < t.len() && t[w] == y;
                        assert(s[w] == y);
                    }
                    if y == k { assert(s[i as int] == y); }
                }
                assert(!t.contains(k)) by {
                    if t.contains(k) {
                        let w = choose|w: int| 0 <= w < t.len() && t[w] == k;
                        assert(other.actors()[w] == other.actors()[i as int]);
                    }
                }
                assert(clock_at(other@, k) == v);
                assert forall|a: Id32| #[trigger] clock_at(self@, a) == (if s.contains(a) && clock_at(other@, a) > clock_at(start, a) {
                    clock_at(other@, a)
                } else {
                    clock_at(start, a)
                }) by {
                    if a == k {
                        assert(clock_at(before, k) == clock_at(start, k));
                    } else {
                        assert(clock_at(self@, a) == clock_at(before, a));
                    }
                }
                assert forall|a: Id32| #[trigger] self@.contains_key(a) <==> start.contains_key(a) || s.contains(a) by {
                    if a != k {
                        assert(self@.contains_key(a) == before.contains_key(a));
                    }
                }
            }
            i += 1;
        }
        proof {
            assert(other.actors().subrange(0, n as int) =~= other.actors());
        }
    }

    /// For each actor both clocks hold, the lower position; actors either lacks are dropped.
    pub fn intersect(&self, other: &ActorClock) -> (r: ActorClock)
        ensures
            forall|a: Id32| #[trigger] r@.contains_key(a) <==> self@.contains_key(a) && other@.contains_key(a),
            forall|a: Id32| #[trigger] r@.contains_key(a) ==> r@[a] == (if self@[a] <= other@[a] { self@[a] } else { other@[a] }),
    {
        self.check_actors();
        let mut r = ActorClock::new();
        let n = self.len();
        let mut i: usize = 0;
        while i < n
            invariant
                i <= n,
                n == self.actors().len(),
                self.actors().no_duplicates(),
                forall|j: int| 0 <= j < n ==> self@.contains_key(#[trigger] self.actors()[j]),
                forall|a: Id32| #[trigger] r@.contains_key(a) <==> self.actors().subrange(0, i as int).contains(a) && other@.contains_key(a),
                forall|a: Id32| #[trigger] r@.contains_key(a) ==> r@[a] == (if self@[a] <= other@[a] { self@[a] } else { other@[a] }),
            decreases n - i,
        {
            let (k, v) = self.entry_at(i);
            let ghost before = r@;
            match other.entries.get(&k) {
                Some(w) => {
                    let m = if v <= *w { v } else { *w };
                    r.entries.insert(k, m);
                },
                None => {},
            }
            proof {
                let s = self.actors().subrange(0, i as int + 1);
                let t = self.actors().subrange(0, i as int);
                assert forall|y: Id32| s.contains(y) <==> t.contains(y) || y == k by {
                    if s.contains(y) {
                        let w = choose|w: int| 0 <= w < s.len() && s[w] == y;
                        if w < i { assert(t[w] == y); }
                    }
                    if t.contains(y) {
                        let w = choose|w: int| 0 <= w < t.len() && t[w] == y;
                        assert(s[w] == y);
                    }
                    if y == k { assert(s[i as int] == y); }
                }
                assert(!t.contains(k)) by {
                    if t.contains(k) {
                        let w = choose|w: int| 0 <= w < t.len() && t[w] == k;
                        assert(self.actors()[w] == self.actors()[i as int]);
                    }
                }
                assert forall|a: Id32| #[trigger] r@.contains_key(a) <==> s.contains(a) && other@.contains_key(a) by {
                    if a != k {
                        assert(r@.contains_key(a) == before.contains_key(a));
                    }
                }
                assert forall|a: Id32| #[trigger] r@.contains_key(a) implies r@[a] == (if self@[a] <= other@[a] { self@[a] } else { other@[a] }) by {
                    if a != k {
                        assert(before.contains_key(a));
                    }
                }
            }
            i += 1;
        }
        proof {
            assert(self.actors().subrange(0, n as int) =~= self.actors());
        }
        r
    }
}

/// Whether `pairs` lists each actor of `clock` once, with its position.
pub open spec fn clock_entries(pairs: Seq<(Id32, u64)>, clock: Map<Id32, u64>) -> bool {
    &&& forall|j: int| 0 <= j < pairs.len() ==> clock.contains_key((#[trigger] pairs[j]).0) && clock[pairs[j].0] == pairs[j].1
    &&& forall|k: Id32| #[trigger] clock.contains_key(k) ==> exists|j: int| 0 <= j < pairs.len() && pairs[j].0 == k
    &&& forall|a: int, b: int| 0 <= a < pairs.len() && 0 <= b < pairs.len() && a != b ==> pairs[a].0 != pairs[b].0
}

impl ActorClock {
    /// The actors of a clock are exactly its keys, without duplicates.
    pub fn check_actors(&self)
        ensures
            forall|k: Id32| self@.contains_key(k) <==> self.actors().contains(k),
            self.actors().no_duplicates(),
            forall|j: int| 0 <= j < self.actors().len() ==> self@.contains_key(#[trigger] self.actors()[j]),
    {
        self.entries.check_keys();
    }
}

} // verus!
