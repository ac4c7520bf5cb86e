//! Hashing and signing: blake3 digests, ed25519 signatures and random seeds.
use vstd::prelude::*;
use crate::ids::Id32;

verus! {

/// The blake3 digest of `data`.
pub uninterp spec fn spec_blake3(data: Seq<u8>) -> Seq<u8>;

/// The ed25519 verifying key of a 32-byte secret key.
pub uninterp spec fn spec_public_key(secret: Seq<u8>) -> Seq<u8>;

/// The ed25519 signature of `msg` under a 32-byte secret key.
pub uninterp spec fn spec_sign(secret: Seq<u8>, msg: Seq<u8>) -> Seq<u8>;

/// Whether 32 bytes decode as an ed25519 verifying key.
pub uninterp spec fn spec_key_valid(key: Seq<u8>) -> bool;

/// Whether `sig` is a valid ed25519 signature of `msg` under verifying key `key`.
pub uninterp spec fn spec_verify(key: Seq<u8>, msg: Seq<u8>, sig: Seq<u8>) -> bool;

/// `blake3::hash`: returns the 32-byte blake3 digest of `data`, which depends on
/// `data` alone.
#[verifier::external_body]
pub fn blake3_digest(data: &[u8]) -> (r: [u8; 32])
    ensures r@ == spec_blake3(data@),
{
    *blake3::hash(data).as_bytes()
}

/// `SigningKey::from_bytes` then `verifying_key().to_bytes()`: the verifying key
/// of a secret key, a function of the secret key alone; it always decodes.
#[verifier::external_body]
pub fn ed25519_public_key(secret: &[u8; 32]) -> (r: [u8; 32])
    ensures
        r@ == spec_public_key(secret@),
        spec_key_valid(r@),
{
    ed25519_dalek::SigningKey::from_bytes(secret).verifying_key().to_bytes()
}

/// `Signer::sign` of a `SigningKey` built from `secret`: ed25519 signing is
/// deterministic, and the signature verifies under the key's verifying key.
#[verifier::external_body]
pub fn ed25519_sign(secret: &[u8; 32], msg: &[u8]) -> (r: [u8; 64])
    ensures
        r@ == spec_sign(secret@, msg@),
        spec_verify(spec_public_key(secret@), msg@, r@),
{
    let key = ed25519_dalek::SigningKey::from_bytes(secret);
    ed25519_dalek::Signer::sign(&key, msg).to_bytes()
}

/// `VerifyingKey::from_bytes`: whether 32 bytes decode as a verifying key.
#[verifier::external_body]
pub fn ed25519_key_valid(key: &[u8; 32]) -> (r: bool)
    ensures r == spec_key_valid(key@),
{
    ed25519_dalek::VerifyingKey::from_bytes(key).is_ok()
}

/// `VerifyingKey::verify`: whether `sig` signs `msg` under `key`; false when
/// `key` does not decode.
#[verifier::external_body]
pub fn ed25519_verify(key: &[u8; 32], msg: &[u8], sig: &[u8; 64]) -> (r: bool)
    ensures r == (spec_key_valid(key@) && spec_verify(key@, msg@, sig@)),
{
    match ed25519_dalek::VerifyingKey::from_bytes(key) {
        Ok(verifying) => ed25519_dalek::Verifier::verify(&verifying, msg, &ed25519_dalek::Signature::from_bytes(sig)).is_ok(),
        Err(_) => false,
    }
}

/// `getrandom::fill` over 32 bytes: a fresh random seed, or `None` when the
/// operating system refuses. Nothing is promised of the bytes.
#[verifier::external_body]
pub fn random_seed() -> (r: Option<[u8; 32]>)
{
    let mut seed = [0u8; 32];
    match getrandom::fill(&mut seed) {
        Ok(()) => Some(seed),
        Err(_) => None,
    }
}

impl Id32 {
    /// The identifier whose bytes are the blake3 digest of `data`.
    pub fn hash(data: &[u8]) -> (r: Id32)
        ensures r.bytes@ == spec_blake3(data@),
    {
        Id32 { bytes: blake3_digest(data) }
    }
}

/// The domain separator of actor identifiers.
pub open spec fn actor_domain() -> Seq<u8> {
    seq![105u8, 114u8, 111u8, 107u8, 108u8, 101u8, 47u8, 97u8, 99u8, 116u8, 111u8, 114u8, 47u8, 118u8, 49u8, 0u8]
}

/// Whether `actor` is the actor identity of `author` in `topic`.
pub open spec fn is_actor_of(actor: Id32, topic: Id32, author: Id32) -> bool {
    actor.bytes@ == spec_blake3(actor_domain() + topic.bytes@ + author.bytes@)
}

/// The actor identity of `author` in `topic`: one per writer and topic.
pub fn actor_id_for(topic: Id32, author: Id32) -> (r: Id32)
    ensures is_actor_of(r, topic, author),
{
    let mut data: Vec<u8> = Vec::new();
    let domain: [u8; 16] = [105u8, 114u8, 111u8, 107u8, 108u8, 101u8, 47u8, 97u8, 99u8, 116u8, 111u8, 114u8, 47u8, 118u8, 49u8, 0u8];
    crate::codec::push_raw(&mut data, domain.as_slice());
    proof { assert(domain@ =~= actor_domain()); }
    crate::codec::push_id(&mut data, &topic);
    crate::codec::push_id(&mut data, &author);
    Id32::hash(data.as_slice())
}

/// An ed25519 signing identity. Its peer id is its verifying key.
#[derive(Debug)]
pub struct Ed25519Signer {
    secret: [u8; 32],
    public: [u8; 32],
}

impl Ed25519Signer {
    /// The secret key bytes.
    pub closed spec fn secret_bytes(&self) -> Seq<u8> {
        self.secret@
    }

    /// The peer id of this signer.
    pub closed spec fn spec_peer_id(&self) -> Id32 {
        Id32 { bytes: self.public }
    }

    /// Whether the public half matches the secret half.
    pub closed spec fn wf(&self) -> bool {
        &&& self.public@ == spec_public_key(self.secret@)
        &&& spec_key_valid(self.public@)
    }

    /// Every signer's public half matches its secret half.
    #[verifier::type_invariant]
    spec fn signer_inv(&self) -> bool {
        self.wf()
    }

    /// The signer of a 32-byte ed25519 secret key.
    pub fn from_bytes(secret: [u8; 32]) -> (r: Ed25519Signer)
        ensures
            r.wf(),
            r.secret_bytes() == secret@,
            r.spec_peer_id().bytes@ == spec_public_key(secret@),
    {
        let public = ed25519_public_key(&secret);
        Ed25519Signer { secret, public }
    }

    /// A signer with a fresh random key; `None` when no randomness is available.
    pub fn generate() -> (r: Option<Ed25519Signer>)
        ensures r matches Some(s) ==> s.wf(),
    {
        match random_seed() {
            Some(secret) => Some(Ed25519Signer::from_bytes(secret)),
            None => None,
        }
    }

    /// A copy of this signer.
    pub fn duplicate(&self) -> (r: Ed25519Signer)
        ensures r == *self,
    {
        proof { use_type_invariant(self); }
        Ed25519Signer { secret: self.secret, public: self.public }
    }

    /// The peer id of this signer: its verifying key.
    pub fn peer_id(&self) -> (r: Id32)
        ensures r == self.spec_peer_id(), spec_key_valid(r.bytes@),
    {
        proof { use_type_invariant(self); }
        Id32 { bytes: self.public }
    }

    /// Signs `msg`.
    pub fn sign(&self, msg: &[u8]) -> (r: [u8; 64])
        ensures
            r@ == spec_sign(self.secret_bytes(), msg@),
            spec_verify(self.spec_peer_id().bytes@, msg@, r@),
            spec_key_valid(self.spec_peer_id().bytes@),
    {
        proof { use_type_invariant(self); }
        let r = ed25519_sign(&self.secret, msg);
        proof {
            assert(self.spec_peer_id().bytes@ == spec_public_key(self.secret@));
        }
        r
    }
}

} // verus!
