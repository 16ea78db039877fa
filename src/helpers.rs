//! The chain of empty-subtree hashes, and the check of an inclusion proof.

use crate::field::{poseidon_hash, FieldElement};
use crate::model::{climb, hash_chain_at, null_leaf, pos, root_from_path, zero_hash};
use vstd::prelude::*;

verus! {

/// The views of a sequence of field elements.
pub open spec fn views(s: Seq<FieldElement>) -> Seq<Seq<u8>> {
    s.map_values(|f: FieldElement| f@)
}

/// The first `len` entries of the chain that starts at `base` and hashes each entry with
/// itself to get the next.
pub fn hash_chain(base: FieldElement, len: usize) -> (r: Vec<FieldElement>)
    ensures
        r@.len() == len,
        forall|l: int| 0 <= l < len ==> #[trigger] r@[l]@ == hash_chain_at(base@, l as nat),
{
    let mut hashes: Vec<FieldElement> = Vec::new();
    let mut current = base;
    let mut i: usize = 0;
    while i < len
        invariant
            i <= len,
            hashes@.len() == i,
            current@ == hash_chain_at(base@, i as nat),
            forall|l: int| 0 <= l < i ==> #[trigger] hashes@[l]@ == hash_chain_at(base@, l as nat),
        decreases len - i,
    {
        hashes.push(current);
        current = poseidon_hash(&current, &current);
        i += 1;
    }
    hashes
}

/// The empty-subtree hashes of levels `0 .. height` (just the empty leaf when `height` is 0):
/// the first is `null_leaf()`, and each next one the hash of the previous with itself.
pub fn precomputed_hashes(height: usize) -> (r: Vec<FieldElement>)
    ensures
        r@.len() == if height == 0 { 1 } else { height as nat },
        forall|l: int| 0 <= l < r@.len() ==> #[trigger] r@[l]@ == zero_hash(l as nat),
{
    let base_bytes: [u8; 32] = [
        2, 147, 211, 232, 168, 15, 64, 13, 170, 175, 253, 213, 147, 46, 43, 204, 136, 20, 186, 184,
        244, 20, 167, 93, 202, 207, 135, 49, 143, 139, 20, 197,
    ];
    let base = FieldElement::from_bytes_be(base_bytes);
    assert(base@ =~= null_leaf());
    let len: usize = if height == 0 {
        1
    } else {
        height
    };
    hash_chain(base, len)
}

/// The root that `hash_path` leads to from `leaf` at position `index`: at each level the
/// sibling goes on the left where the position there is odd, on the right where it is even.
pub fn compute_merkle_root_rust(leaf: FieldElement, index: u32, hash_path: &[FieldElement]) -> (r:
    FieldElement)
    ensures
        r@ == root_from_path(leaf@, index as nat, views(hash_path@)),
{
    let ghost path = views(hash_path@);
    let mut current = leaf;
    let mut idx = index;
    let mut k: usize = 0;
    while k < hash_path.len()
        invariant
            k <= hash_path@.len(),
            path == views(hash_path@),
            idx as nat == pos(index as nat, k as nat),
            current@ == climb(leaf@, index as nat, path, k as nat),
        decreases hash_path@.len() - k,
    {
        let sibling = &hash_path[k];
        if idx % 2 == 1 {
            current = poseidon_hash(sibling, &current);
        } else {
            current = poseidon_hash(&current, sibling);
        }
        idx = idx / 2;
        k += 1;
    }
    current
}

} // verus!
