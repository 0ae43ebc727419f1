//! Hemera digests, taken from `cyber_hemera`, and nox particle identities,
//! taken from `nox`.
use vstd::prelude::*;
use crate::Particle;

verus! {

/// The Hemera (Poseidon2 over Goldilocks) digest of a byte string.
pub uninterp spec fn hemera_hash(input: Seq<u8>) -> Seq<u8>;

/// Hemera gives different digests to different inputs: the collision
/// resistance the content identities rest on, as a premise of laws.
pub open spec fn hemera_collision_free() -> bool {
    forall|a: Seq<u8>, b: Seq<u8>| #[trigger] hemera_hash(a) == #[trigger] hemera_hash(b) ==> a == b
}

/// The nox tree-hash identity of canonically encoded nox data.
pub uninterp spec fn nox_particle(encoded: Seq<u8>) -> Seq<u8>;

/// The Goldilocks field modulus; nox atoms are field elements below it.
pub const FIELD_P: u64 = 0xffff_ffff_0000_0001;

/// The bytes nox accepts as canonical data: an 8-byte little-endian atom
/// below the field modulus, or a 64-byte pair of two child particles.
pub open spec fn nox_accepts(encoded: Seq<u8>) -> bool {
    ||| encoded.len() == 64
    ||| (encoded.len() == 8 && vstd::bytes::spec_u64_from_le_bytes(encoded) < FIELD_P)
}

/// Calls `cyber_hemera::hash`. Trusted: the result is the 32-byte digest
/// `Hash::as_bytes` of the input, named `hemera_hash`; nothing more about
/// the digest is claimed.
#[verifier::external_body]
pub(crate) fn hemera(input: &[u8]) -> (digest: Particle)
    ensures
        digest@ == hemera_hash(input@),
{
    *cyber_hemera::hash(input).as_bytes()
}

/// Calls `nox::encode::particle_of`. Trusted, as its source shows: an 8-byte
/// input is accepted when its little-endian value is below the field
/// modulus, a 64-byte input always, any other length never; an accepted
/// input yields its identity, named `nox_particle`.
#[verifier::external_body]
pub(crate) fn nox_particle_of(encoded: &[u8]) -> (particle: Option<Particle>)
    ensures
        particle is Some <==> nox_accepts(encoded@),
        particle matches Some(p) ==> p@ == nox_particle(encoded@),
{
    nox::encode::particle_of(encoded).ok()
}

} // verus!
