//! Fixed-size identifiers: operation, peer, topic and actor ids are 32-byte values.
use vstd::prelude::*;

verus! {

broadcast use vstd::array::group_array_axioms;

/// Length in bytes of every identifier.
pub const ID_LEN: usize = 32;

/// A 32-byte identifier. Operation, topic, actor and eviction ids are blake3
/// digests; a peer id is an ed25519 public key.
#[derive(Clone, Copy, Debug, PartialEq, Eq, PartialOrd, Ord, Hash)]
pub struct Id32 {
    pub bytes: [u8; 32],
}

/// Identifier of a signed operation: the digest of its signed encoding.
pub type OpId = Id32;

/// Identifier of a peer: its ed25519 verifying key.
pub type PeerId = Id32;

/// Identifier of a topic.
pub type TopicId = Id32;

/// Identifier of one writer position chain inside a topic.
pub type ActorId = Id32;

/// Identifier of a journalled eviction record.
pub type EvictionKey = Id32;

/// Lexicographic order of two byte strings of length 32, from position `i` on.
pub open spec fn lex_lt_from(a: Seq<u8>, b: Seq<u8>, i: nat) -> bool
    decreases 32 - i,
{
    if i >= 32 {
        false
    } else if a[i as int] < b[i as int] {
        true
    } else if a[i as int] > b[i as int] {
        false
    } else {
        lex_lt_from(a, b, i + 1)
    }
}

/// Strict order of identifiers: lexicographic over their bytes.
pub open spec fn id_lt(a: Id32, b: Id32) -> bool {
    lex_lt_from(a.bytes@, b.bytes@, 0)
}

/// Non-strict order of identifiers.
pub open spec fn id_le(a: Id32, b: Id32) -> bool {
    a == b || id_lt(a, b)
}

/// No byte string sorts before itself.
pub proof fn lemma_lex_irreflexive(a: Seq<u8>, i: nat)
    ensures !lex_lt_from(a, a, i),
    decreases 32 - i,
{
    if i < 32 {
        lemma_lex_irreflexive(a, i + 1);
    }
}

/// Two byte strings never sort before each other.
pub proof fn lemma_lex_asymmetric(a: Seq<u8>, b: Seq<u8>, i: nat)
    ensures !(lex_lt_from(a, b, i) && lex_lt_from(b, a, i)),
    decreases 32 - i,
{
    if i < 32 {
        lemma_lex_asymmetric(a, b, i + 1);
    }
}

/// The byte string order is transitive.
pub proof fn lemma_lex_transitive(a: Seq<u8>, b: Seq<u8>, c: Seq<u8>, i: nat)
    requires lex_lt_from(a, b, i), lex_lt_from(b, c, i),
    ensures lex_lt_from(a, c, i),
    decreases 32 - i,
{
    if i < 32 && a[i as int] == b[i as int] && b[i as int] == c[i as int] {
        lemma_lex_transitive(a, b, c, i + 1);
    }
}

/// Byte strings of length 32 neither of which sorts first agree from `i` on.
pub proof fn lemma_lex_total(a: Seq<u8>, b: Seq<u8>, i: nat)
    requires
        a.len() == 32,
        b.len() == 32,
        !lex_lt_from(a, b, i),
        !lex_lt_from(b, a, i),
    ensures forall|j: int| i <= j < 32 ==> a[j] == b[j],
    decreases 32 - i,
{
    if i < 32 {
        lemma_lex_total(a, b, i + 1);
    }
}

/// The order of identifiers is a strict total order.
pub proof fn lemma_id_order()
    ensures
        forall|a: Id32| !id_lt(a, a),
        forall|a: Id32, b: Id32| !(#[trigger] id_lt(a, b) && #[trigger] id_lt(b, a)),
        forall|a: Id32, b: Id32, c: Id32| #[trigger] id_lt(a, b) && #[trigger] id_lt(b, c) ==> id_lt(a, c),
        forall|a: Id32, b: Id32| a == b || #[trigger] id_lt(a, b) || #[trigger] id_lt(b, a),
{
    assert forall|a: Id32| !id_lt(a, a) by {
        lemma_lex_irreflexive(a.bytes@, 0);
    }
    assert forall|a: Id32, b: Id32| !(#[trigger] id_lt(a, b) && #[trigger] id_lt(b, a)) by {
        lemma_lex_asymmetric(a.bytes@, b.bytes@, 0);
    }
    assert forall|a: Id32, b: Id32, c: Id32| #[trigger] id_lt(a, b) && #[trigger] id_lt(b, c) implies id_lt(a, c) by {
        lemma_lex_transitive(a.bytes@, b.bytes@, c.bytes@, 0);
    }
    assert forall|a: Id32, b: Id32| a == b || #[trigger] id_lt(a, b) || #[trigger] id_lt(b, a) by {
        if !id_lt(a, b) && !id_lt(b, a) {
            lemma_lex_total(a.bytes@, b.bytes@, 0);
            assert(a.bytes =~= b.bytes);
        }
    }
}

/// Identifiers with the same bytes are equal.
pub proof fn lemma_id_bytes_eq(a: Id32, b: Id32)
    ensures (a.bytes@ == b.bytes@) == (a == b),
{
    if a.bytes@ == b.bytes@ {
        assert(a.bytes =~= b.bytes);
    }
}

impl Id32 {
    /// The identifier holding `bytes`.
    pub fn from_bytes(bytes: [u8; 32]) -> (r: Id32)
        ensures r.bytes == bytes,
    {
        Id32 { bytes }
    }

    /// The all-zero identifier.
    pub fn zero() -> (r: Id32)
        ensures forall|i: int| 0 <= i < 32 ==> r.bytes[i] == 0,
    {
        Id32 { bytes: [0u8; 32] }
    }

    /// The bytes of this identifier.
    pub fn to_bytes(&self) -> (r: [u8; 32])
        ensures r == self.bytes,
    {
        self.bytes
    }

    /// Whether two identifiers are equal.
    pub fn same(&self, other: &Id32) -> (r: bool)
        ensures r == (*self == *other),
    {
        let mut i: usize = 0;
        while i < 32
            invariant
                i <= 32,
                forall|j: int| 0 <= j < i ==> self.bytes[j] == other.bytes[j],
            decreases 32 - i,
        {
            if self.bytes[i] != other.bytes[i] {
                return false;
            }
            i += 1;
        }
        assert(self.bytes =~= other.bytes);
        true
    }

    /// Whether this identifier sorts strictly before `other`.
    pub fn lt(&self, other: &Id32) -> (r: bool)
        ensures r == id_lt(*self, *other),
    {
        let mut i: usize = 0;
        while i < 32
            invariant
                i <= 32,
                forall|j: int| 0 <= j < i ==> self.bytes[j] == other.bytes[j],
                lex_lt_from(self.bytes@, other.bytes@, 0) == lex_lt_from(self.bytes@, other.bytes@, i as nat),
            decreases 32 - i,
        {
            if self.bytes[i] < other.bytes[i] {
                return true;
            }
            if self.bytes[i] > other.bytes[i] {
                return false;
            }
            i += 1;
        }
        false
    }
}

/// Whether `id` is one of `ids`.
pub fn contains_id(ids: &Vec<Id32>, id: &Id32) -> (r: bool)
    ensures r == ids@.contains(*id),
{
    let mut i: usize = 0;
    while i < ids.len()
        invariant
            i <= ids.len(),
            forall|j: int| 0 <= j < i ==> ids@[j] != *id,
        decreases ids.len() - i,
    {
        if ids[i].same(id) {
            return true;
        }
        i += 1;
    }
    false
}

} // verus!
