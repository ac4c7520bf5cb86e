//! Maps keyed by identifiers, kept in ascending key order.
use vstd::prelude::*;
use crate::ids::{Id32, id_lt, lemma_id_order, contains_id};
use crate::idset::{sorted_ids, lemma_sorted_no_dup, IdSet};

verus! {

broadcast use vstd::seq_lib::group_seq_properties;

/// The value a sorted key sequence and its values give `k`.
pub open spec fn pairs_map<V>(keys: Seq<Id32>, vals: Seq<V>) -> Map<Id32, V> {
    Map::new(|k: Id32| keys.contains(k), |k: Id32| vals[keys.index_of(k)])
}

pub proof fn lemma_index_of_unique(keys: Seq<Id32>, i: int)
    requires keys.no_duplicates(), 0 <= i < keys.len(),
    ensures keys.index_of(keys[i]) == i,
{
    assert(keys.contains(keys[i]));
    let j = keys.index_of(keys[i]);
    assert(0 <= j < keys.len() && keys[j] == keys[i]);
}

pub proof fn lemma_pairs_map_at<V>(keys: Seq<Id32>, vals: Seq<V>, i: int)
    requires keys.no_duplicates(), 0 <= i < keys.len(),
    ensures
        pairs_map(keys, vals).contains_key(keys[i]),
        pairs_map(keys, vals)[keys[i]] == vals[i],
{
    lemma_index_of_unique(keys, i);
}

/// A map from identifiers to values, in ascending key order.
#[derive(Debug)]
pub struct IdMap<V> {
    keys: Vec<Id32>,
    vals: Vec<V>,
}

impl<V> View for IdMap<V> {
    type V = Map<Id32, V>;

    closed spec fn view(&self) -> Map<Id32, V> {
        pairs_map(self.keys@, self.vals@)
    }
}

impl<V> IdMap<V> {
    #[verifier::type_invariant]
    spec fn inv(&self) -> bool {
        &&& sorted_ids(self.keys@)
        &&& self.keys@.len() == self.vals@.len()
    }

    /// The keys in ascending order.
    pub closed spec fn key_seq(&self) -> Seq<Id32> {
        self.keys@
    }

    /// The values, in the order of their keys.
    pub closed spec fn val_seq(&self) -> Seq<V> {
        self.vals@
    }

    /// The keys of the map are exactly the members of its key sequence.
    pub proof fn lemma_dom(&self)
        ensures
            forall|k: Id32| self@.contains_key(k) <==> self.key_seq().contains(k),
            forall|j: int| 0 <= j < self.key_seq().len() ==> self@.contains_key(#[trigger] self.key_seq()[j]),
    {
        assert forall|j: int| 0 <= j < self.key_seq().len() implies self@.contains_key(#[trigger] self.key_seq()[j]) by {
            assert(self.keys@.contains(self.keys@[j]));
        }
    }

    /// The key sequence is sorted, free of duplicates, and as long as the value sequence.
    pub fn check_keys(&self)
        ensures
            sorted_ids(self.key_seq()),
            self.key_seq().no_duplicates(),
            self.key_seq().len() == self.val_seq().len(),
            forall|k: Id32| self@.contains_key(k) <==> self.key_seq().contains(k),
            forall|j: int| 0 <= j < self.key_seq().len() ==> self@.contains_key(#[trigger] self.key_seq()[j]),
            forall|j: int| 0 <= j < self.key_seq().len() ==> #[trigger] self@[self.key_seq()[j]] == self.val_seq()[j],
            self@.dom().finite(),
            self@.dom().len() == self.key_seq().len(),
    {
        proof {
            use_type_invariant(self);
            lemma_sorted_no_dup(self.keys@);
            self.keys@.unique_seq_to_set();
            assert(self@.dom() =~= self.keys@.to_set());
            self.lemma_dom();
            assert forall|j: int| 0 <= j < self.key_seq().len() implies #[trigger] self@[self.key_seq()[j]] == self.val_seq()[j] by {
                lemma_pairs_map_at(self.keys@, self.vals@, j);
            }
        }
    }

    /// The empty map.
    pub fn new() -> (r: IdMap<V>)
        ensures r@ == Map::<Id32, V>::empty(), r.key_seq() == Seq::<Id32>::empty(),
    {
        let r = IdMap { keys: Vec::new(), vals: Vec::new() };
        assert(r@ =~= Map::<Id32, V>::empty());
        r
    }

    /// Number of entries.
    pub fn len(&self) -> (r: usize)
        ensures r == self@.len(), r == self.key_seq().len(), r == self.val_seq().len(),
    {
        proof {
            use_type_invariant(self);
            lemma_sorted_no_dup(self.keys@);
            self.keys@.unique_seq_to_set();
            assert(self@.dom() =~= self.keys@.to_set());
        }
        self.keys.len()
    }

    /// The key at position `i` in ascending order.
    pub fn key_at(&self, i: usize) -> (r: Id32)
        requires i < self.key_seq().len(),
        ensures
            r == self.key_seq()[i as int],
            self@.contains_key(r),
            self@[r] == self.val_seq()[i as int],
    {
        proof {
            use_type_invariant(self);
            lemma_sorted_no_dup(self.keys@);
            lemma_pairs_map_at(self.keys@, self.vals@, i as int);
        }
        self.keys[i]
    }

    /// The value at position `i` in ascending key order.
    pub fn value_at(&self, i: usize) -> (r: &V)
        requires i < self.key_seq().len(),
        ensures
            *r == self.val_seq()[i as int],
            *r == self@[self.key_seq()[i as int]],
    {
        proof {
            use_type_invariant(self);
            lemma_sorted_no_dup(self.keys@);
            lemma_pairs_map_at(self.keys@, self.vals@, i as int);
        }
        &self.vals[i]
    }

    /// The keys in ascending order.
    pub fn keys(&self) -> (r: Vec<Id32>)
        ensures
            r@ == self.key_seq(),
            r@.to_set() == self@.dom(),
            sorted_ids(r@),
            r@.no_duplicates(),
    {
        proof {
            use_type_invariant(self);
            lemma_sorted_no_dup(self.keys@);
        }
        let mut r: Vec<Id32> = Vec::new();
        let mut i: usize = 0;
        while i < self.keys.len()
            invariant
                i <= self.keys@.len(),
                r@ == self.keys@.subrange(0, i as int),
            decreases self.keys@.len() - i,
        {
            r.push(self.keys[i]);
            i += 1;
            assert(r@ =~= self.keys@.subrange(0, i as int));
        }
        assert(r@ =~= self.keys@);
        assert(r@.to_set() =~= self@.dom());
        r
    }

    /// The keys as a set.
    pub fn key_set(&self) -> (r: IdSet)
        ensures r@ == self@.dom(),
    {
        let v = self.keys();
        IdSet::from_slice(v.as_slice())
    }

    /// The position of `k`, if present.
    pub fn find(&self, k: &Id32) -> (r: Option<usize>)
        ensures
            r is None <==> !self@.contains_key(*k),
            r matches Some(i) ==> i < self.key_seq().len() && self.key_seq()[i as int] == *k
                && self@[*k] == self.val_seq()[i as int],
    {
        proof {
            use_type_invariant(self);
            lemma_sorted_no_dup(self.keys@);
        }
        let mut i: usize = 0;
        while i < self.keys.len() && !self.keys[i].same(k)
            invariant
                i <= self.keys@.len(),
                forall|j: int| 0 <= j < i ==> self.keys@[j] != *k,
            decreases self.keys@.len() - i,
        {
            i += 1;
        }
        if i == self.keys.len() {
            None
        } else {
            proof { lemma_pairs_map_at(self.keys@, self.vals@, i as int); }
            Some(i)
        }
    }

    /// Whether `k` has an entry.
    pub fn contains_key(&self, k: &Id32) -> (r: bool)
        ensures r == self@.contains_key(*k),
    {
        self.find(k).is_some()
    }

    /// The value of `k`, if present.
    pub fn get(&self, k: &Id32) -> (r: Option<&V>)
        ensures
            r is None <==> !self@.contains_key(*k),
            r matches Some(v) ==> *v == self@[*k],
    {
        proof { use_type_invariant(self); }
        match self.find(k) {
            None => None,
            Some(i) => Some(&self.vals[i]),
        }
    }

    /// Sets the value of `k` to `v`.
    pub fn insert(&mut self, k: Id32, v: V)
        ensures final(self)@ == old(self)@.insert(k, v),
    {
        proof {
            use_type_invariant(&*self);
            lemma_id_order();
            lemma_sorted_no_dup(self.keys@);
        }
        let mut p: usize = 0;
        while p < self.keys.len() && self.keys[p].lt(&k)
            invariant
                p <= self.keys@.len(),
                sorted_ids(self.keys@),
                forall|j: int| 0 <= j < p ==> id_lt(self.keys@[j], k),
            decreases self.keys@.len() - p,
        {
            p += 1;
        }
        let ghost before_k = self.keys@;
        let ghost before_v = self.vals@;
        let mut cur = IdMap { keys: Vec::new(), vals: Vec::new() };
        std::mem::swap(&mut cur, self);
        let IdMap { mut keys, mut vals } = cur;
        if p < keys.len() && keys[p].same(&k) {
            let _old = vals.remove(p);
            vals.insert(p, v);
            proof {
                assert(vals@ == before_v.update(p as int, v));
                assert(pairs_map(keys@, vals@) =~= pairs_map(before_k, before_v).insert(k, v)) by {
                    assert forall|y: Id32| keys@.contains(y) implies
                        pairs_map(keys@, vals@)[y] == pairs_map(before_k, before_v).insert(k, v)[y] by {
                        let w = choose|w: int| 0 <= w < keys@.len() && keys@[w] == y;
                        lemma_pairs_map_at(keys@, vals@, w);
                        lemma_pairs_map_at(before_k, before_v, w);
                    }
                    assert(keys@.contains(k));
                }
            }
        } else {
            proof {
                assert forall|j: int| p <= j < before_k.len() implies id_lt(k, #[trigger] before_k[j]) by {
                    assert(id_lt(k, before_k[p as int]));
                    if j > p {
                        assert(id_lt(before_k[p as int], before_k[j]));
                    }
                }
                assert(!before_k.contains(k)) by {
                    if before_k.contains(k) {
                        let w = choose|w: int| 0 <= w < before_k.len() && before_k[w] == k;
                        if w < p {
                            assert(id_lt(before_k[w], k));
                        } else {
                            assert(id_lt(k, before_k[w]));
                        }
                    }
                }
            }
            keys.insert(p, k);
            vals.insert(p, v);
            proof {
                let after = keys@;
                assert forall|i: int, j: int| 0 <= i < j < after.len() implies id_lt(#[trigger] after[i], #[trigger] after[j]) by {
                    if j < p {
                    } else if j == p {
                    } else if i < p {
                        assert(id_lt(before_k[i], k));
                        assert(id_lt(k, before_k[j - 1]));
                    } else if i == p {
                    } else {
                    }
                }
                lemma_sorted_no_dup(after);
                assert(pairs_map(keys@, vals@) =~= pairs_map(before_k, before_v).insert(k, v)) by {
                    assert forall|y: Id32| keys@.contains(y) <==> before_k.contains(y) || y == k by {
                        if keys@.contains(y) {
                            let w = choose|w: int| 0 <= w < keys@.len() && keys@[w] == y;
                            if w < p {
                                assert(before_k[w] == y);
                            } else if w > p {
                                assert(before_k[w - 1] == y);
                            }
                        }
                        if before_k.contains(y) {
                            let w = choose|w: int| 0 <= w < before_k.len() && before_k[w] == y;
                            if w < p {
                                assert(keys@[w] == y);
                            } else {
                                assert(keys@[w + 1] == y);
                            }
                        }
                        if y == k {
                            assert(keys@[p as int] == y);
                        }
                    }
                    assert forall|y: Id32| keys@.contains(y) implies
                        pairs_map(keys@, vals@)[y] == pairs_map(before_k, before_v).insert(k, v)[y] by {
                        let w = choose|w: int| 0 <= w < keys@.len() && keys@[w] == y;
                        lemma_pairs_map_at(keys@, vals@, w);
                        if w < p {
                            lemma_pairs_map_at(before_k, before_v, w);
                        } else if w > p {
                            lemma_pairs_map_at(before_k, before_v, w - 1);
                        }
                    }
                }
            }
        }
        *self = IdMap { keys, vals };
    }

    /// Removes the entry of `k`, returning its value.
    pub fn remove(&mut self, k: &Id32) -> (r: Option<V>)
        ensures
            final(self)@ == old(self)@.remove(*k),
            r is None <==> !old(self)@.contains_key(*k),
            r matches Some(v) ==> v == old(self)@[*k],
    {
        proof {
            use_type_invariant(&*self);
            lemma_sorted_no_dup(self.keys@);
        }
        let found = self.find(k);
        match found {
            None => {
                assert(self@.remove(*k) =~= self@);
                None
            },
            Some(p) => {
                let ghost before_k = self.keys@;
                let ghost before_v = self.vals@;
                let mut cur = IdMap { keys: Vec::new(), vals: Vec::new() };
                std::mem::swap(&mut cur, self);
                let IdMap { mut keys, mut vals } = cur;
                keys.remove(p);
                let v = vals.remove(p);
                proof {
                    let after = keys@;
                    assert forall|i: int, j: int| 0 <= i < j < after.len() implies id_lt(#[trigger] after[i], #[trigger] after[j]) by {
                        if j < p {
                        } else if i < p {
                            assert(id_lt(before_k[i], before_k[j + 1]));
                        } else {
                            assert(id_lt(before_k[i + 1], before_k[j + 1]));
                        }
                    }
                    lemma_sorted_no_dup(after);
                    assert(pairs_map(keys@, vals@) =~= pairs_map(before_k, before_v).remove(*k)) by {
                        assert forall|y: Id32| keys@.contains(y) <==> (before_k.contains(y) && y != *k) by {
                            if keys@.contains(y) {
                                let w = choose|w: int| 0 <= w < keys@.len() && keys@[w] == y;
                                if w < p {
                                    assert(before_k[w] == y);
                                } else {
                                    assert(before_k[w + 1] == y);
                                }
                            }
                            if before_k.contains(y) && y != *k {
                                let w = choose|w: int| 0 <= w < before_k.len() && before_k[w] == y;
                                if w < p {
                                    assert(keys@[w] == y);
                                } else {
                                    assert(w != p);
                                    assert(keys@[w - 1] == y);
                                }
                            }
                        }
                        assert forall|y: Id32| keys@.contains(y) implies
                            pairs_map(keys@, vals@)[y] == pairs_map(before_k, before_v).remove(*k)[y] by {
                            let w = choose|w: int| 0 <= w < keys@.len() && keys@[w] == y;
                            lemma_pairs_map_at(keys@, vals@, w);
                            if w < p {
                                lemma_pairs_map_at(before_k, before_v, w);
                            } else {
                                lemma_pairs_map_at(before_k, before_v, w + 1);
                            }
                        }
                    }
                    lemma_pairs_map_at(before_k, before_v, p as int);
                }
                *self = IdMap { keys, vals };
                Some(v)
            },
        }
    }
}

impl<V: Copy> IdMap<V> {
    /// A copy of this map.
    pub fn duplicate(&self) -> (r: IdMap<V>)
        ensures r@ == self@, r.key_seq() == self.key_seq(), r.val_seq() == self.val_seq(),
    {
        proof { use_type_invariant(self); }
        let mut keys: Vec<Id32> = Vec::new();
        let mut vals: Vec<V> = Vec::new();
        let mut i: usize = 0;
        while i < self.keys.len()
            invariant
                i <= self.keys@.len(),
                self.keys@.len() == self.vals@.len(),
                keys@ == self.keys@.subrange(0, i as int),
                vals@ == self.vals@.subrange(0, i as int),
            decreases self.keys@.len() - i,
        {
            keys.push(self.keys[i]);
            vals.push(self.vals[i]);
            i += 1;
            assert(keys@ =~= self.keys@.subrange(0, i as int));
            assert(vals@ =~= self.vals@.subrange(0, i as int));
        }
        assert(keys@ =~= self.keys@);
        assert(vals@ =~= self.vals@);
        IdMap { keys, vals }
    }
}

} // verus!
