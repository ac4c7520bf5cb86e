//! Deterministic orders: sort keys of operations and a sort over them.
use vstd::prelude::*;
use crate::ids::{Id32, id_lt, lemma_id_order};

verus! {

/// A sort key, ordered by `major`, then `actor`, then `minor`, then `id`.
#[derive(Clone, Copy, Debug)]
pub struct SortKey {
    pub major: u64,
    pub actor: Id32,
    pub minor: u64,
    pub id: Id32,
}

/// The strict order of sort keys.
pub open spec fn key_lt(a: SortKey, b: SortKey) -> bool {
    if a.major != b.major {
        a.major < b.major
    } else if a.actor != b.actor {
        id_lt(a.actor, b.actor)
    } else if a.minor != b.minor {
        a.minor < b.minor
    } else {
        id_lt(a.id, b.id)
    }
}

/// The key order is a strict total order.
pub proof fn lemma_key_order()
    ensures
        forall|a: SortKey| !key_lt(a, a),
        forall|a: SortKey, b: SortKey| !(#[trigger] key_lt(a, b) && #[trigger] key_lt(b, a)),
        forall|a: SortKey, b: SortKey, c: SortKey| #[trigger] key_lt(a, b) && #[trigger] key_lt(b, c) ==> key_lt(a, c),
        forall|a: SortKey, b: SortKey| a == b || #[trigger] key_lt(a, b) || #[trigger] key_lt(b, a),
{
    lemma_id_order();
}

/// Whether `a` sorts strictly before `b`.
pub fn key_less(a: &SortKey, b: &SortKey) -> (r: bool)
    ensures r == key_lt(*a, *b),
{
    if a.major != b.major {
        a.major < b.major
    } else if !a.actor.same(&b.actor) {
        a.actor.lt(&b.actor)
    } else if a.minor != b.minor {
        a.minor < b.minor
    } else {
        a.id.lt(&b.id)
    }
}

/// Whether `s` never puts a key after a smaller one.
pub open spec fn keys_sorted(s: Seq<SortKey>) -> bool {
    forall|i: int, j: int| 0 <= i < j < s.len() ==> !key_lt(#[trigger] s[j], #[trigger] s[i])
}

/// The keys of `v` in ascending order.
pub fn sort_keys(v: &Vec<SortKey>) -> (r: Vec<SortKey>)
    ensures
        keys_sorted(r@),
        r@.len() == v@.len(),
        r@.to_set() == v@.to_set(),
        v@.no_duplicates() ==> r@.no_duplicates(),
{
    let mut r: Vec<SortKey> = Vec::new();
    let mut i: usize = 0;
    while i < v.len()
        invariant
            i <= v@.len(),
            r@.len() == i,
            keys_sorted(r@),
            r@.to_set() == v@.subrange(0, i as int).to_set(),
            v@.no_duplicates() ==> r@.no_duplicates(),
        decreases v@.len() - i,
    {
        let x = v[i];
        let mut p: usize = 0;
        while p < r.len() && !key_less(&x, &r[p])
            invariant
                p <= r@.len(),
                forall|j: int| 0 <= j < p ==> !key_lt(x, #[trigger] r@[j]),
            decreases r@.len() - p,
        {
            p += 1;
        }
        let ghost before = r@;
        r.insert(p, x);
        proof {
            lemma_key_order();
            assert(r@ == before.insert(p as int, x));
            assert forall|a: int, b: int| 0 <= a < b < r@.len() implies !key_lt(#[trigger] r@[b], #[trigger] r@[a]) by {
                if b < p {
                    assert(r@[a] == before[a] && r@[b] == before[b]);
                } else if b == p {
                    assert(r@[a] == before[a]);
                } else if a == p {
                    assert(r@[b] == before[b - 1]);
                    assert(p < before.len());
                    assert(key_lt(x, before[p as int]));
                    if p < b - 1 {
                        assert(!key_lt(before[b - 1], before[p as int]));
                    }
                } else if a < p {
                    assert(r@[a] == before[a] && r@[b] == before[b - 1]);
                } else {
                    assert(r@[a] == before[a - 1] && r@[b] == before[b - 1]);
                }
            }
            let s = v@.subrange(0, i as int + 1);
            let t = v@.subrange(0, i as int);
            assert forall|y: SortKey| r@.contains(y) <==> s.contains(y) by {
                if r@.contains(y) {
                    let w = choose|w: int| 0 <= w < r@.len() && r@[w] == y;
                    if w < p {
                        assert(before[w] == y);
                        assert(before.to_set().contains(y));
                        let u = choose|u: int| 0 <= u < t.len() && t[u] == y;
                        assert(s[u] == y);
                    } else if w == p {
                        assert(s[i as int] == y);
                    } else {
                        assert(before[w - 1] == y);
                        assert(before.to_set().contains(y));
                        let u = choose|u: int| 0 <= u < t.len() && t[u] == y;
                        assert(s[u] == y);
                    }
                }
                if s.contains(y) {
                    let u = choose|u: int| 0 <= u < s.len() && s[u] == y;
                    if u < i {
                        assert(t[u] == y);
                        assert(t.to_set().contains(y));
                        let w = choose|w: int| 0 <= w < before.len() && before[w] == y;
                        if w < p {
                            assert(r@[w] == y);
                        } else {
                            assert(r@[w + 1] == y);
                        }
                    } else {
                        assert(r@[p as int] == y);
                    }
                }
            }
            assert(r@.to_set() =~= s.to_set());
            if v@.no_duplicates() {
                assert(!before.contains(x)) by {
                    if before.contains(x) {
                        assert(before.to_set().contains(x));
                        assert(t.to_set().contains(x));
                        let u = choose|u: int| 0 <= u < t.len() && t[u] == x;
                        assert(v@[u] == v@[i as int]);
                    }
                }
                assert forall|a: int, b: int| 0 <= a < r@.len() && 0 <= b < r@.len() && a != b implies r@[a] != r@[b] by {
                    if a == p {
                        if b < p { assert(r@[b] == before[b]); assert(before.contains(before[b])); }
                        else { assert(r@[b] == before[b - 1]); assert(before.contains(before[b - 1])); }
                    } else if b == p {
                        if a < p { assert(r@[a] == before[a]); assert(before.contains(before[a])); }
                        else { assert(r@[a] == before[a - 1]); assert(before.contains(before[a - 1])); }
                    } else {
                        let a2 = if a < p { a } else { a - 1 };
                        let b2 = if b < p { b } else { b - 1 };
                        assert(r@[a] == before[a2]);
                        assert(r@[b] == before[b2]);
                    }
                }
            }
        }
        i += 1;
    }
    proof {
        assert(v@.subrange(0, v@.len() as int) =~= v@);
    }
    r
}

/// Two sequences strictly sorted by the same asymmetric order and holding the
/// same elements are equal.
pub proof fn lemma_sorted_unique<A>(lt: spec_fn(A, A) -> bool, a: Seq<A>, b: Seq<A>)
    requires
        forall|i: int, j: int| 0 <= i < j < a.len() ==> #[trigger] lt(a[i], a[j]),
        forall|i: int, j: int| 0 <= i < j < b.len() ==> #[trigger] lt(b[i], b[j]),
        forall|x: A, y: A| a.contains(x) && a.contains(y) ==> !(#[trigger] lt(x, y) && #[trigger] lt(y, x)),
        a.to_set() == b.to_set(),
    ensures a == b,
    decreases a.len(),
{
    assert(a.no_duplicates()) by {
        assert forall|i: int, j: int| 0 <= i < a.len() && 0 <= j < a.len() && i != j implies a[i] != a[j] by {
            if a[i] == a[j] {
                if i < j { assert(lt(a[i], a[j])); assert(a.contains(a[i])); } else { assert(lt(a[j], a[i])); assert(a.contains(a[j])); }
            }
        }
    }
    assert(b.no_duplicates()) by {
        assert forall|i: int, j: int| 0 <= i < b.len() && 0 <= j < b.len() && i != j implies b[i] != b[j] by {
            if b[i] == b[j] {
                assert(a.to_set().contains(b[i]));
                assert(a.contains(b[i]));
                if i < j { assert(lt(b[i], b[j])); } else { assert(lt(b[j], b[i])); }
            }
        }
    }
    a.unique_seq_to_set();
    b.unique_seq_to_set();
    if a.len() == 0 {
        assert(a =~= b);
    } else {
        assert(b.to_set().contains(a[0]));
        assert(a.to_set().contains(b[0]));
        let m = choose|m: int| 0 <= m < b.len() && b[m] == a[0];
        let k = choose|k: int| 0 <= k < a.len() && a[k] == b[0];
        if a[0] != b[0] {
            assert(m > 0 && k > 0);
            assert(lt(b[0], b[m]));
            assert(lt(a[0], a[k]));
            assert(a.contains(a[0]) && a.contains(a[k]));
            assert(false);
        }
        let ra = a.drop_first();
        let rb = b.drop_first();
        assert(ra.to_set() =~= a.to_set().remove(a[0])) by {
            assert forall|y: A| ra.contains(y) <==> a.to_set().remove(a[0]).contains(y) by {
                if ra.contains(y) {
                    let w = choose|w: int| 0 <= w < ra.len() && ra[w] == y;
                    assert(a[w + 1] == y);
                    assert(a.contains(y));
                }
                if a.to_set().remove(a[0]).contains(y) {
                    let w = choose|w: int| 0 <= w < a.len() && a[w] == y;
                    assert(w != 0);
                    assert(ra[w - 1] == y);
                }
            }
        }
        assert(rb.to_set() =~= b.to_set().remove(b[0])) by {
            assert forall|y: A| rb.contains(y) <==> b.to_set().remove(b[0]).contains(y) by {
                if rb.contains(y) {
                    let w = choose|w: int| 0 <= w < rb.len() && rb[w] == y;
                    assert(b[w + 1] == y);
                    assert(b.contains(y));
                }
                if b.to_set().remove(b[0]).contains(y) {
                    let w = choose|w: int| 0 <= w < b.len() && b[w] == y;
                    assert(w != 0);
                    assert(rb[w - 1] == y);
                }
            }
        }
        assert forall|i: int, j: int| 0 <= i < j < ra.len() implies #[trigger] lt(ra[i], ra[j]) by {
            assert(lt(a[i + 1], a[j + 1]));
        }
        assert forall|i: int, j: int| 0 <= i < j < rb.len() implies #[trigger] lt(rb[i], rb[j]) by {
            assert(lt(b[i + 1], b[j + 1]));
        }
        assert forall|x: A, y: A| ra.contains(x) && ra.contains(y) implies !(#[trigger] lt(x, y) && #[trigger] lt(y, x)) by {
            let wx = choose|w: int| 0 <= w < ra.len() && ra[w] == x;
            let wy = choose|w: int| 0 <= w < ra.len() && ra[w] == y;
            assert(a[wx + 1] == x && a[wy + 1] == y);
            assert(a.contains(x) && a.contains(y));
        }
        lemma_sorted_unique(lt, ra, rb);
        assert(a =~= seq![a[0]] + ra);
        assert(b =~= seq![b[0]] + rb);
    }
}

/// The keys of `ks` in ascending order.
pub open spec fn sorted_keys_of(ks: Set<SortKey>) -> Seq<SortKey> {
    choose|q: Seq<SortKey>| (forall|i: int, j: int| 0 <= i < j < q.len() ==> key_lt(#[trigger] q[i], #[trigger] q[j])) && q.to_set() == ks
}

/// A sorted sequence of distinct keys is strictly ascending, and it is the
/// sorted sequence of its set.
pub proof fn lemma_sorted_keys_of(q: Seq<SortKey>)
    requires keys_sorted(q), q.no_duplicates(),
    ensures
        forall|i: int, j: int| 0 <= i < j < q.len() ==> key_lt(#[trigger] q[i], #[trigger] q[j]),
        sorted_keys_of(q.to_set()) == q,
{
    lemma_key_order();
    assert forall|i: int, j: int| 0 <= i < j < q.len() implies key_lt(#[trigger] q[i], #[trigger] q[j]) by {
        assert(q[i] != q[j]);
        assert(!key_lt(q[j], q[i]));
    }
    let c = sorted_keys_of(q.to_set());
    assert((forall|i: int, j: int| 0 <= i < j < q.len() ==> key_lt(#[trigger] q[i], #[trigger] q[j])) && q.to_set() == q.to_set());
    let lt = |a: SortKey, b: SortKey| key_lt(a, b);
    assert forall|a: int, b: int| 0 <= a < b < q.len() implies #[trigger] lt(q[a], q[b]) by {
        assert(key_lt(q[a], q[b]));
    }
    assert forall|a: int, b: int| 0 <= a < b < c.len() implies #[trigger] lt(c[a], c[b]) by {
        assert(key_lt(c[a], c[b]));
    }
    assert forall|x: SortKey, y: SortKey| q.contains(x) && q.contains(y) implies !(#[trigger] lt(x, y) && #[trigger] lt(y, x)) by {}
    lemma_sorted_unique(lt, q, c);
}

} // verus!
