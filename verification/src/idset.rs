//! Ordered sets of identifiers, kept sorted so every replica walks them in the same order.
use vstd::prelude::*;
use crate::ids::{Id32, id_lt, lemma_id_order, contains_id};

verus! {

broadcast use vstd::seq_lib::group_seq_properties;

/// Whether `s` is strictly increasing, hence free of duplicates.
pub open spec fn sorted_ids(s: Seq<Id32>) -> bool {
    forall|i: int, j: int| 0 <= i < j < s.len() ==> id_lt(#[trigger] s[i], #[trigger] s[j])
}

pub proof fn lemma_sorted_no_dup(s: Seq<Id32>)
    requires sorted_ids(s),
    ensures s.no_duplicates(),
{
    lemma_id_order();
    assert forall|i: int, j: int| 0 <= i < s.len() && 0 <= j < s.len() && i != j implies s[i] != s[j] by {
        if i < j {
            assert(id_lt(s[i], s[j]));
        } else {
            assert(id_lt(s[j], s[i]));
        }
    }
}

/// A set of identifiers in ascending order.
#[derive(Debug)]
pub struct IdSet {
    items: Vec<Id32>,
}

impl View for IdSet {
    type V = Set<Id32>;

    closed spec fn view(&self) -> Set<Id32> {
        self.items@.to_set()
    }
}

impl IdSet {
    #[verifier::type_invariant]
    spec fn inv(&self) -> bool {
        sorted_ids(self.items@)
    }

    /// The members in ascending order.
    pub closed spec fn elems(&self) -> Seq<Id32> {
        self.items@
    }

    /// The members are exactly the listed ones.
    pub proof fn lemma_view_elems(&self)
        ensures self@ == self.elems().to_set(),
    {
    }

    /// A set with no members lists none.
    pub proof fn lemma_empty_elems(&self)
        requires self@ == Set::<Id32>::empty(),
        ensures self.elems() == Seq::<Id32>::empty(),
    {
        if self.items@.len() > 0 {
            assert(self.items@.to_set().contains(self.items@[0]));
        }
        assert(self.items@ =~= Seq::<Id32>::empty());
    }

    /// The empty set.
    pub fn new() -> (r: IdSet)
        ensures r@ == Set::<Id32>::empty(), r.elems() == Seq::<Id32>::empty(),
    {
        let r = IdSet { items: Vec::new() };
        assert(r.items@.to_set() =~= Set::<Id32>::empty());
        r
    }

    /// The set holding only `id`.
    pub fn singleton(id: Id32) -> (r: IdSet)
        ensures r@ == set![id],
    {
        let mut r = IdSet::new();
        r.insert(id);
        r
    }

    /// Number of members.
    pub fn len(&self) -> (r: usize)
        ensures r == self@.len(), r == self.elems().len(), self@.finite(),
    {
        proof {
            use_type_invariant(self);
            lemma_sorted_no_dup(self.items@);
            self.items@.unique_seq_to_set();
        }
        self.items.len()
    }

    /// Whether the set has no member.
    pub fn is_empty(&self) -> (r: bool)
        ensures r == (self@.len() == 0), r == (self@ == Set::<Id32>::empty()),
    {
        proof {
            use_type_invariant(self);
            lemma_sorted_no_dup(self.items@);
            self.items@.unique_seq_to_set();
            if self.items@.len() > 0 {
                assert(self@.contains(self.items@[0]));
            } else {
                assert(self@ =~= Set::<Id32>::empty());
            }
        }
        self.items.len() == 0
    }

    /// The member at position `i` in ascending order.
    pub fn get(&self, i: usize) -> (r: Id32)
        requires i < self.elems().len(),
        ensures r == self.elems()[i as int], self@.contains(r),
    {
        self.items[i]
    }

    /// The members in ascending order.
    pub fn to_vec(&self) -> (r: Vec<Id32>)
        ensures
            r@ == self.elems(),
            r@.to_set() == self@,
            sorted_ids(r@),
            r@.no_duplicates(),
    {
        proof {
            use_type_invariant(self);
            lemma_sorted_no_dup(self.items@);
        }
        let mut r: Vec<Id32> = Vec::new();
        let mut i: usize = 0;
        while i < self.items.len()
            invariant
                i <= self.items@.len(),
                r@ == self.items@.subrange(0, i as int),
            decreases self.items@.len() - i,
        {
            r.push(self.items[i]);
            i += 1;
            assert(r@ =~= self.items@.subrange(0, i as int));
        }
        assert(r@ =~= self.items@);
        r
    }

    /// Whether `id` is a member.
    pub fn contains(&self, id: &Id32) -> (r: bool)
        ensures r == self@.contains(*id),
    {
        contains_id(&self.items, id)
    }

    /// Adds `id`; returns whether it was absent.
    pub fn insert(&mut self, id: Id32) -> (r: bool)
        ensures
            final(self)@ == old(self)@.insert(id),
            r == !old(self)@.contains(id),
    {
        proof {
            use_type_invariant(&*self);
            lemma_id_order();
        }
        let mut k: usize = 0;
        while k < self.items.len() && self.items[k].lt(&id)
            invariant
                k <= self.items@.len(),
                sorted_ids(self.items@),
                forall|j: int| 0 <= j < k ==> id_lt(self.items@[j], id),
            decreases self.items@.len() - k,
        {
            k += 1;
        }
        if k < self.items.len() && self.items[k].same(&id) {
            assert(self.items@.contains(id));
            return false;
        }
        let ghost before = self.items@;
        proof {
            assert forall|j: int| k <= j < before.len() implies id_lt(id, #[trigger] before[j]) by {
                assert(id_lt(id, before[k as int]));
                if j > k {
                    assert(id_lt(before[k as int], before[j]));
                }
            }
            assert(!before.contains(id)) by {
                if before.contains(id) {
                    let w = choose|w: int| 0 <= w < before.len() && before[w] == id;
                    if w < k {
                        assert(id_lt(before[w], id));
                    } else {
                        assert(id_lt(id, before[w]));
                    }
                }
            }
        }
        let mut items = Vec::new();
        std::mem::swap(&mut items, &mut self.items);
        items.insert(k, id);
        proof {
            let after = items@;
            assert(after == before.insert(k as int, id));
            assert forall|i: int, j: int| 0 <= i < j < after.len() implies id_lt(#[trigger] after[i], #[trigger] after[j]) by {
                if j < k {
                } else if j == k {
                } else if i < k {
                    assert(id_lt(before[i], id));
                    assert(id_lt(id, before[j - 1]));
                } else if i == k {
                } else {
                }
            }
            assert(after.to_set() =~= before.to_set().insert(id)) by {
                assert forall|y: Id32| after.contains(y) <==> before.contains(y) || y == id by {
                    if after.contains(y) {
                        let w = choose|w: int| 0 <= w < after.len() && after[w] == y;
                        if w < k {
                            assert(before[w] == y);
                        } else if w > k {
                            assert(before[w - 1] == y);
                        }
                    }
                    if before.contains(y) {
                        let w = choose|w: int| 0 <= w < before.len() && before[w] == y;
                        if w < k {
                            assert(after[w] == y);
                        } else {
                            assert(after[w + 1] == y);
                        }
                    }
                    if y == id {
                        assert(after[k as int] == y);
                    }
                }
            }
        }
        self.items = items;
        true
    }

    /// Removes `id`; returns whether it was present.
    pub fn remove(&mut self, id: &Id32) -> (r: bool)
        ensures
            final(self)@ == old(self)@.remove(*id),
            r == old(self)@.contains(*id),
    {
        proof {
            use_type_invariant(&*self);
            lemma_sorted_no_dup(self.items@);
        }
        let mut k: usize = 0;
        while k < self.items.len() && !self.items[k].same(id)
            invariant
                k <= self.items@.len(),
                forall|j: int| 0 <= j < k ==> self.items@[j] != *id,
            decreases self.items@.len() - k,
        {
            k += 1;
        }
        if k == self.items.len() {
            assert(self.items@.to_set().remove(*id) =~= self.items@.to_set());
            return false;
        }
        let ghost before = self.items@;
        let mut items = Vec::new();
        std::mem::swap(&mut items, &mut self.items);
        items.remove(k);
        proof {
            let after = items@;
            assert(after == before.remove(k as int));
            assert forall|i: int, j: int| 0 <= i < j < after.len() implies id_lt(#[trigger] after[i], #[trigger] after[j]) by {
                if j < k {
                } else if i < k {
                    assert(id_lt(before[i], before[j + 1]));
                } else {
                    assert(id_lt(before[i + 1], before[j + 1]));
                }
            }
            assert(after.to_set() =~= before.to_set().remove(*id)) by {
                assert forall|y: Id32| after.contains(y) <==> (before.contains(y) && y != *id) by {
                    if after.contains(y) {
                        let w = choose|w: int| 0 <= w < after.len() && after[w] == y;
                        if w < k {
                            assert(before[w] == y);
                        } else {
                            assert(before[w + 1] == y);
                        }
                    }
                    if before.contains(y) && y != *id {
                        let w = choose|w: int| 0 <= w < before.len() && before[w] == y;
                        if w < k {
                            assert(after[w] == y);
                        } else {
                            assert(w != k);
                            assert(after[w - 1] == y);
                        }
                    }
                }
            }
        }
        self.items = items;
        true
    }

    /// A copy of this set.
    pub fn duplicate(&self) -> (r: IdSet)
        ensures r@ == self@, r.elems() == self.elems(),
    {
        proof { use_type_invariant(self); }
        let mut items: Vec<Id32> = Vec::new();
        let mut i: usize = 0;
        while i < self.items.len()
            invariant
                i <= self.items@.len(),
                items@ == self.items@.subrange(0, i as int),
            decreases self.items@.len() - i,
        {
            items.push(self.items[i]);
            i += 1;
            assert(items@ =~= self.items@.subrange(0, i as int));
        }
        assert(items@ =~= self.items@);
        IdSet { items }
    }

    /// The set of the identifiers in `ids`.
    pub fn from_slice(ids: &[Id32]) -> (r: IdSet)
        ensures r@ == ids@.to_set(),
    {
        let mut r = IdSet::new();
        let mut i: usize = 0;
        while i < ids.len()
            invariant
                i <= ids@.len(),
                r@ == ids@.subrange(0, i as int).to_set(),
            decreases ids@.len() - i,
        {
            r.insert(ids[i]);
            proof {
                let s = ids@.subrange(0, i as int + 1);
                assert(s.to_set() =~= ids@.subrange(0, i as int).to_set().insert(ids@[i as int])) by {
                    assert forall|y: Id32| s.contains(y) <==> ids@.subrange(0, i as int).contains(y) || y == ids@[i as int] by {
                        if s.contains(y) {
                            let w = choose|w: int| 0 <= w < s.len() && s[w] == y;
                            if w < i {
                                assert(ids@.subrange(0, i as int)[w] == y);
                            }
                        }
                        if ids@.subrange(0, i as int).contains(y) {
                            let w = choose|w: int| 0 <= w < i && ids@.subrange(0, i as int)[w] == y;
                            assert(s[w] == y);
                        }
                        if y == ids@[i as int] {
                            assert(s[i as int] == y);
                        }
                    }
                }
            }
            i += 1;
        }
        assert(ids@.subrange(0, ids@.len() as int) =~= ids@);
        r
    }

    /// Adds every member of `other`.
    pub fn extend(&mut self, other: &IdSet)
        ensures final(self)@ == old(self)@.union(other@),
    {
        let v = other.to_vec();
        let mut i: usize = 0;
        while i < v.len()
            invariant
                i <= v@.len(),
                v@.to_set() == other@,
                self@ == old(self)@.union(v@.subrange(0, i as int).to_set()),
            decreases v@.len() - i,
        {
            self.insert(v[i]);
            proof {
                let s = v@.subrange(0, i as int + 1);
                let t = v@.subrange(0, i as int);
                assert(s.to_set() =~= t.to_set().insert(v@[i as int])) by {
                    assert forall|y: Id32| s.contains(y) <==> t.contains(y) || y == v@[i as int] by {
                        if s.contains(y) {
                            let w = choose|w: int| 0 <= w < s.len() && s[w] == y;
                            if w < i {
                                assert(t[w] == y);
                            }
                        }
                        if t.contains(y) {
                            let w = choose|w: int| 0 <= w < t.len() && t[w] == y;
                            assert(s[w] == y);
                        }
                        if y == v@[i as int] {
                            assert(s[i as int] == y);
                        }
                    }
                }
                assert(old(self)@.union(s.to_set()) =~= old(self)@.union(t.to_set()).insert(v@[i as int]));
            }
            i += 1;
        }
        assert(v@.subrange(0, v@.len() as int) =~= v@);
    }

    /// Whether every member of this set is a member of `other`.
    pub fn is_subset_of(&self, other: &IdSet) -> (r: bool)
        ensures r == self@.subset_of(other@),
    {
        let v = self.to_vec();
        let mut i: usize = 0;
        while i < v.len()
            invariant
                i <= v@.len(),
                v@.to_set() == self@,
                forall|j: int| 0 <= j < i ==> other@.contains(v@[j]),
            decreases v@.len() - i,
        {
            if !other.contains(&v[i]) {
                assert(self@.contains(v@[i as int]));
                return false;
            }
            i += 1;
        }
        assert forall|y: Id32| self@.contains(y) implies other@.contains(y) by {
            let w = choose|w: int| 0 <= w < v@.len() && v@[w] == y;
        }
        true
    }

    /// Whether both sets have the same members.
    pub fn set_eq(&self, other: &IdSet) -> (r: bool)
        ensures r == (self@ == other@),
    {
        let a = self.is_subset_of(other);
        let b = other.is_subset_of(self);
        if a && b {
            assert(self@ =~= other@);
        }
        a && b
    }
}

} // verus!
