//! Canonical byte encoding of the values an operation signs.
use vstd::prelude::*;
use crate::ids::Id32;
use crate::idset::IdSet;

verus! {

/// The eight big-endian bytes of `v`.
pub open spec fn be64_bytes(v: u64) -> Seq<u8> {
    seq![(v >> 56u64) as u8, (v >> 48u64) as u8, (v >> 40u64) as u8, (v >> 32u64) as u8,
         (v >> 24u64) as u8, (v >> 16u64) as u8, (v >> 8u64) as u8, v as u8]
}

/// A length-prefixed byte string.
pub open spec fn spec_blob(b: Seq<u8>) -> Seq<u8> {
    be64_bytes(b.len() as u64) + b
}

/// The concatenated bytes of `ids`.
pub open spec fn spec_id_seq(ids: Seq<Id32>) -> Seq<u8>
    decreases ids.len(),
{
    if ids.len() == 0 {
        Seq::empty()
    } else {
        spec_id_seq(ids.drop_last()) + ids.last().bytes@
    }
}

/// A count-prefixed list of identifiers.
pub open spec fn spec_id_list(ids: Seq<Id32>) -> Seq<u8> {
    be64_bytes(ids.len() as u64) + spec_id_seq(ids)
}

/// Appends the big-endian bytes of `v`.
pub fn push_u64(out: &mut Vec<u8>, v: u64)
    ensures final(out)@ == old(out)@ + be64_bytes(v),
{
    out.push((v >> 56u64) as u8);
    out.push((v >> 48u64) as u8);
    out.push((v >> 40u64) as u8);
    out.push((v >> 32u64) as u8);
    out.push((v >> 24u64) as u8);
    out.push((v >> 16u64) as u8);
    out.push((v >> 8u64) as u8);
    out.push(v as u8);
    assert(out@ =~= old(out)@ + be64_bytes(v));
}

/// Appends raw bytes.
pub fn push_raw(out: &mut Vec<u8>, b: &[u8])
    ensures final(out)@ == old(out)@ + b@,
{
    let mut i: usize = 0;
    while i < b.len()
        invariant
            i <= b@.len(),
            out@ == old(out)@ + b@.subrange(0, i as int),
        decreases b@.len() - i,
    {
        out.push(b[i]);
        i += 1;
        assert(out@ =~= old(out)@ + b@.subrange(0, i as int));
    }
    assert(b@.subrange(0, b@.len() as int) =~= b@);
}

/// Appends the bytes of `id`.
pub fn push_id(out: &mut Vec<u8>, id: &Id32)
    ensures final(out)@ == old(out)@ + id.bytes@,
{
    push_raw(out, id.bytes.as_slice());
}

/// Appends a length-prefixed byte string.
pub fn push_blob(out: &mut Vec<u8>, b: &[u8])
    ensures final(out)@ == old(out)@ + spec_blob(b@),
{
    push_u64(out, b.len() as u64);
    push_raw(out, b);
    assert(out@ =~= old(out)@ + spec_blob(b@));
}

/// Appends a count-prefixed list of the members of `ids` in ascending order.
pub fn push_id_set(out: &mut Vec<u8>, ids: &IdSet)
    ensures final(out)@ == old(out)@ + spec_id_list(ids.elems()),
{
    let v = ids.to_vec();
    push_u64(out, v.len() as u64);
    let ghost start = out@;
    let mut i: usize = 0;
    while i < v.len()
        invariant
            i <= v@.len(),
            out@ == start + spec_id_seq(v@.subrange(0, i as int)),
        decreases v@.len() - i,
    {
        push_id(out, &v[i]);
        proof {
            let s = v@.subrange(0, i as int + 1);
            assert(s.drop_last() =~= v@.subrange(0, i as int));
        }
        i += 1;
    }
    assert(v@.subrange(0, v@.len() as int) =~= v@);
    assert(out@ =~= old(out)@ + spec_id_list(ids.elems()));
}

} // verus!
