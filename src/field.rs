//! Field elements as their 32-byte big-endian encoding, and the Poseidon compression
//! of two of them.

use starknet_types_core::felt::Felt;
use starknet_types_core::hash::{Poseidon, StarkHash};
use vstd::prelude::*;

verus! {

/// An element of the Stark prime field, held as its 32-byte big-endian encoding.
///
/// The encoding is kept as given; the hash reads it modulo the field prime.
#[derive(Clone, Copy, Debug, PartialEq, Eq, Hash)]
pub struct FieldElement {
    bytes: [u8; 32],
}

impl View for FieldElement {
    type V = Seq<u8>;

    closed spec fn view(&self) -> Seq<u8> {
        self.bytes@
    }
}

impl FieldElement {
    /// Wraps a 32-byte big-endian encoding.
    pub fn from_bytes_be(bytes: [u8; 32]) -> (r: FieldElement)
        ensures
            r@ == bytes@,
    {
        FieldElement { bytes }
    }

    /// The 32-byte big-endian encoding.
    pub fn to_bytes_be(&self) -> (r: [u8; 32])
        ensures
            r@ == self@,
    {
        self.bytes
    }
}

/// The compression of two field elements into one: their Poseidon hash.
pub fn compress(a: &FieldElement, b: &FieldElement) -> (r: FieldElement)
    ensures
        r@ == poseidon_pair(a@, b@),
{
    poseidon_hash(a, b)
}

/// The Poseidon digest of two encoded field elements.
pub uninterp spec fn poseidon_pair(a: Seq<u8>, b: Seq<u8>) -> Seq<u8>;

/// Relies on `Poseidon::hash` of starknet-types-core, reached through `Felt::from_bytes_be`
/// and `Felt::to_bytes_be`: the digest is a function of the two encodings alone.
#[verifier::external_body]
pub(crate) fn poseidon_hash(a: &FieldElement, b: &FieldElement) -> (r: FieldElement)
    ensures
        r@ == poseidon_pair(a@, b@),
{
    let fa = Felt::from_bytes_be(&a.bytes);
    let fb = Felt::from_bytes_be(&b.bytes);
    FieldElement { bytes: Poseidon::hash(&fa, &fb).to_bytes_be() }
}

} // verus!
