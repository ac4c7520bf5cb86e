//! Signed operation envelopes and operation-id validation.
use vstd::prelude::*;
use crate::ids::{Id32, OpId, PeerId, TopicId, ActorId};
use crate::idset::IdSet;
use crate::codec::{be64_bytes, spec_id_list, push_u64, push_id, push_id_set, push_raw};
use crate::crypto::{Ed25519Signer, spec_blake3, spec_verify, spec_key_valid, ed25519_verify, ed25519_key_valid};
use crate::topic::{TopicPayload, spec_payload_bytes, push_payload};
use crate::error::Error;

verus! {

/// The signed content of an operation.
#[derive(Debug)]
pub struct OpBody {
    pub topic_id: TopicId,
    pub author: PeerId,
    pub actor_id: ActorId,
    pub actor_seq: u64,
    pub actor_prev: Option<OpId>,
    pub deps: IdSet,
    pub generation: u64,
    pub payload: TopicPayload,
}

/// An operation body with its author's signature.
#[derive(Debug)]
pub struct SignedOp {
    pub body: OpBody,
    pub signature: [u8; 64],
}

/// A signed operation with its content-derived id.
#[derive(Debug)]
pub struct Op {
    pub id: OpId,
    pub signed: SignedOp,
}

/// The domain separator of operation signatures.
pub open spec fn op_signing_domain() -> Seq<u8> {
    seq![105u8, 114u8, 111u8, 107u8, 108u8, 101u8, 47u8, 111u8, 112u8, 47u8, 118u8, 49u8, 0u8]
}

/// Encoding of an optional identifier.
pub open spec fn spec_opt_id_bytes(id: Option<OpId>) -> Seq<u8> {
    match id {
        None => seq![0u8],
        Some(i) => seq![1u8] + i.bytes@,
    }
}

/// Canonical encoding of an operation body.
pub open spec fn spec_body_bytes(b: OpBody) -> Seq<u8> {
    b.topic_id.bytes@ + b.author.bytes@ + b.actor_id.bytes@ + be64_bytes(b.actor_seq)
        + spec_opt_id_bytes(b.actor_prev) + spec_id_list(b.deps.elems()) + be64_bytes(b.generation)
        + spec_payload_bytes(b.payload)
}

/// The message an author signs for a body.
pub open spec fn spec_signing_message(b: OpBody) -> Seq<u8> {
    op_signing_domain() + spec_body_bytes(b)
}

/// Canonical encoding of a signed operation.
pub open spec fn spec_signed_bytes(s: SignedOp) -> Seq<u8> {
    spec_body_bytes(s.body) + s.signature@
}

/// Whether `id` is the id of `signed`: the blake3 digest of its encoding.
pub open spec fn id_matches(id: OpId, signed: SignedOp) -> bool {
    id.bytes@ == spec_blake3(spec_signed_bytes(signed))
}

/// Whether the author's signature over the body verifies.
pub open spec fn signature_valid(s: SignedOp) -> bool {
    spec_key_valid(s.body.author.bytes@)
        && spec_verify(s.body.author.bytes@, spec_signing_message(s.body), s.signature@)
}

/// Whether an operation is content-addressed and signed by its author.
pub open spec fn spec_op_valid(op: Op) -> bool {
    id_matches(op.id, op.signed) && signature_valid(op.signed)
}

/// What [`SignedOp::verify`] answers.
pub open spec fn spec_verify_result(s: SignedOp) -> Result<(), Error> {
    if !spec_key_valid(s.body.author.bytes@) {
        Err(Error::InvalidPublicKey)
    } else if !spec_verify(s.body.author.bytes@, spec_signing_message(s.body), s.signature@) {
        Err(Error::InvalidSignature)
    } else {
        Ok(())
    }
}

/// What [`Op::validate`] answers.
pub open spec fn spec_validate_result(op: Op) -> Result<(), Error> {
    if !id_matches(op.id, op.signed) {
        Err(Error::InvalidOpId)
    } else {
        spec_verify_result(op.signed)
    }
}

/// Whether an operation opens a topic: a genesis at the first actor position with no dependency.
pub open spec fn spec_is_structural_genesis(op: Op) -> bool {
    &&& op.signed.body.payload is Genesis
    &&& op.signed.body.actor_seq == 1
    &&& op.signed.body.actor_prev is None
    &&& op.signed.body.deps@.len() == 0
}

/// Appends the canonical encoding of `body`.
pub fn push_body(out: &mut Vec<u8>, body: &OpBody)
    ensures final(out)@ == old(out)@ + spec_body_bytes(*body),
{
    push_id(out, &body.topic_id);
    push_id(out, &body.author);
    push_id(out, &body.actor_id);
    push_u64(out, body.actor_seq);
    match &body.actor_prev {
        None => { out.push(0u8); },
        Some(prev) => {
            out.push(1u8);
            push_id(out, prev);
        },
    }
    push_id_set(out, &body.deps);
    push_u64(out, body.generation);
    push_payload(out, &body.payload);
    assert(out@ =~= old(out)@ + spec_body_bytes(*body));
}

/// The canonical encoding of `body`.
pub fn body_bytes(body: &OpBody) -> (r: Vec<u8>)
    ensures r@ == spec_body_bytes(*body),
{
    let mut out: Vec<u8> = Vec::new();
    push_body(&mut out, body);
    assert(out@ =~= spec_body_bytes(*body));
    out
}

/// The message an author signs for `body`.
pub fn op_signing_message(body: &OpBody) -> (r: Vec<u8>)
    ensures r@ == spec_signing_message(*body),
{
    let mut out: Vec<u8> = Vec::new();
    let domain: [u8; 13] = [105u8, 114u8, 111u8, 107u8, 108u8, 101u8, 47u8, 111u8, 112u8, 47u8, 118u8, 49u8, 0u8];
    push_raw(&mut out, domain.as_slice());
    assert(domain@ =~= op_signing_domain());
    push_body(&mut out, body);
    assert(out@ =~= spec_signing_message(*body));
    out
}

/// The canonical encoding of a signed operation.
pub fn signed_bytes(signed: &SignedOp) -> (r: Vec<u8>)
    ensures r@ == spec_signed_bytes(*signed),
{
    let mut out = body_bytes(&signed.body);
    push_raw(&mut out, signed.signature.as_slice());
    out
}

impl SignedOp {
    /// Signs `body` with `signer`, who must be its author.
    pub fn sign(body: OpBody, signer: &Ed25519Signer) -> (r: Result<SignedOp, Error>)
        ensures
            body.author != signer.spec_peer_id() ==> r matches Err(Error::WrongSigner),
            body.author == signer.spec_peer_id() ==> (r matches Ok(s) && s.body == body
                && signature_valid(s)),
    {
        if !body.author.same(&signer.peer_id()) {
            return Err(Error::WrongSigner);
        }
        let msg = op_signing_message(&body);
        let signature = signer.sign(msg.as_slice());
        Ok(SignedOp { body, signature })
    }

    /// Checks the author's signature over the body.
    pub fn verify(&self) -> (r: Result<(), Error>)
        ensures
            r matches Ok(_) <==> signature_valid(*self),
            r matches Err(Error::InvalidPublicKey) <==> spec_verify_result(*self) matches Err(Error::InvalidPublicKey),
            r matches Err(Error::InvalidSignature) <==> spec_verify_result(*self) matches Err(Error::InvalidSignature),
    {
        let msg = op_signing_message(&self.body);
        if !ed25519_key_valid(&self.body.author.bytes) {
            return Err(Error::InvalidPublicKey);
        }
        if !ed25519_verify(&self.body.author.bytes, msg.as_slice(), &self.signature) {
            return Err(Error::InvalidSignature);
        }
        Ok(())
    }
}

impl Op {
    /// The id of a signed operation: the blake3 digest of its encoding.
    pub fn derive_id(signed: &SignedOp) -> (r: OpId)
        ensures id_matches(r, *signed),
    {
        let bytes = signed_bytes(signed);
        Id32::hash(bytes.as_slice())
    }

    /// An operation with the id its content derives.
    pub fn new(signed: SignedOp) -> (r: Op)
        ensures id_matches(r.id, r.signed), r.signed == signed,
    {
        let id = Op::derive_id(&signed);
        Op { id, signed }
    }

    /// Signs `body` with `signer` and derives the id.
    pub fn sign(body: OpBody, signer: &Ed25519Signer) -> (r: Result<Op, Error>)
        ensures
            body.author != signer.spec_peer_id() ==> r matches Err(Error::WrongSigner),
            body.author == signer.spec_peer_id() ==> (r matches Ok(op) && op.signed.body == body
                && id_matches(op.id, op.signed) && spec_op_valid(op)),
    {
        let signed = SignedOp::sign(body, signer)?;
        Ok(Op::new(signed))
    }

    /// Checks that the id matches the content and that the author signed it.
    pub fn validate(&self) -> (r: Result<(), Error>)
        ensures
            r matches Ok(_) <==> spec_op_valid(*self),
            r matches Err(Error::InvalidOpId) <==> spec_validate_result(*self) matches Err(Error::InvalidOpId),
            r matches Err(Error::InvalidPublicKey) <==> spec_validate_result(*self) matches Err(Error::InvalidPublicKey),
            r matches Err(Error::InvalidSignature) <==> spec_validate_result(*self) matches Err(Error::InvalidSignature),
            r matches Err(e) ==> e is InvalidOpId || e is InvalidPublicKey || e is InvalidSignature,
    {
        let derived = Op::derive_id(&self.signed);
        if !self.id.same(&derived) {
            proof {
                if id_matches(self.id, self.signed) {
                    assert(self.id.bytes =~= derived.bytes);
                }
            }
            return Err(Error::InvalidOpId);
        }
        self.signed.verify()
    }

    /// Bytes of this operation's signed encoding.
    pub fn encoded_len(&self) -> (r: usize)
        ensures r == spec_signed_bytes(self.signed).len(),
    {
        signed_bytes(&self.signed).len()
    }
}

/// Whether two bodies carry the same content.
pub open spec fn same_body(a: OpBody, b: OpBody) -> bool {
    &&& a.topic_id == b.topic_id
    &&& a.author == b.author
    &&& a.actor_id == b.actor_id
    &&& a.actor_seq == b.actor_seq
    &&& a.actor_prev == b.actor_prev
    &&& a.deps@ == b.deps@
    &&& a.deps.elems() == b.deps.elems()
    &&& a.generation == b.generation
    &&& crate::topic::same_payload(a.payload, b.payload)
}

/// Whether two operations are copies of one another.
pub open spec fn same_op(a: Op, b: Op) -> bool {
    &&& a.id == b.id
    &&& a.signed.signature == b.signed.signature
    &&& same_body(a.signed.body, b.signed.body)
}

impl OpBody {
    /// A copy of this body.
    pub fn duplicate(&self) -> (r: OpBody)
        ensures same_body(r, *self), spec_body_bytes(r) == spec_body_bytes(*self),
    {
        OpBody {
            topic_id: self.topic_id,
            author: self.author,
            actor_id: self.actor_id,
            actor_seq: self.actor_seq,
            actor_prev: self.actor_prev,
            deps: self.deps.duplicate(),
            generation: self.generation,
            payload: self.payload.duplicate(),
        }
    }
}

impl Op {
    /// A copy of this operation.
    pub fn duplicate(&self) -> (r: Op)
        ensures same_op(r, *self),
            spec_signed_bytes(r.signed) == spec_signed_bytes(self.signed),
            spec_op_valid(r) == spec_op_valid(*self),
    {
        Op { id: self.id, signed: SignedOp { body: self.signed.body.duplicate(), signature: self.signed.signature } }
    }
}

/// Whether `op` opens a topic: a genesis at the first position with no dependency.
pub fn is_structural_genesis(op: &Op) -> (r: bool)
    ensures r == spec_is_structural_genesis(*op),
{
    let body = &op.signed.body;
    matches!(body.payload, TopicPayload::Genesis(_))
        && body.actor_seq == 1
        && body.actor_prev.is_none()
        && body.deps.is_empty()
}

} // verus!
