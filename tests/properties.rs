use hybrid_merkle::field::{compress, FieldElement};
use hybrid_merkle::helpers::{compute_merkle_root_rust, hash_chain, precomputed_hashes};
use hybrid_merkle::merkle::{HybridMerkleTree, MerkleError};
use starknet_types_core::felt::Felt;
use starknet_types_core::hash::{Poseidon, StarkHash};

fn fe(n: u64) -> FieldElement {
    FieldElement::from_bytes_be(Felt::from(n).to_bytes_be())
}

fn hash(a: &FieldElement, b: &FieldElement) -> FieldElement {
    let fa = Felt::from_bytes_be(&a.to_bytes_be());
    let fb = Felt::from_bytes_be(&b.to_bytes_be());
    FieldElement::from_bytes_be(Poseidon::hash(&fa, &fb).to_bytes_be())
}

const NULL_LEAF: [u8; 32] = [
    2, 147, 211, 232, 168, 15, 64, 13, 170, 175, 253, 213, 147, 46, 43, 204, 136, 20, 186, 184,
    244, 20, 167, 93, 202, 207, 135, 49, 143, 139, 20, 197,
];

fn null_leaf() -> FieldElement {
    FieldElement::from_bytes_be(NULL_LEAF)
}

/// The root of a full tree of `height` levels over `leaves`, padded with the null leaf.
fn full_rebuild_root(leaves: &[FieldElement], height: usize) -> FieldElement {
    let width = 1usize << (height - 1);
    let mut level: Vec<FieldElement> = (0..width)
        .map(|j| if j < leaves.len() { leaves[j] } else { null_leaf() })
        .collect();
    while level.len() > 1 {
        level = level.chunks(2).map(|c| hash(&c[0], &c[1])).collect();
    }
    level[0]
}

fn tree_with(height: usize, leaves: &[FieldElement]) -> HybridMerkleTree {
    let mut tree = HybridMerkleTree::new(height);
    for leaf in leaves {
        tree.add_leaf(leaf).unwrap();
    }
    tree
}

#[test]
fn four_leaves_root_matches_full_rebuild() {
    let leaves = vec![fe(1), fe(2), fe(3), fe(4)];
    let tree = tree_with(3, &leaves);
    let expected = hash(&hash(&leaves[0], &leaves[1]), &hash(&leaves[2], &leaves[3]));
    assert_eq!(tree.root(), expected);
    assert_eq!(tree.root(), full_rebuild_root(&leaves, 3));
    let (proof, _bits) = tree.path(0).unwrap();
    assert_eq!(compute_merkle_root_rust(leaves[0], 0, &proof), tree.root());
}

#[test]
fn partial_tree_root_matches_padded_rebuild() {
    for n in 0..=8u64 {
        let leaves: Vec<FieldElement> = (0..n).map(|i| fe(10 + i)).collect();
        let tree = tree_with(4, &leaves);
        assert_eq!(tree.root(), full_rebuild_root(&leaves, 4), "{} leaves", n);
    }
}

#[test]
fn three_leaves_pad_with_null_leaf() {
    let leaves = vec![fe(7), fe(8), fe(9)];
    let tree = tree_with(3, &leaves);
    let expected = hash(&hash(&leaves[0], &leaves[1]), &hash(&leaves[2], &null_leaf()));
    assert_eq!(tree.root(), expected);
}

#[test]
fn every_proof_leads_back_to_root() {
    let leaves: Vec<FieldElement> = (0..5).map(|i| fe(100 + i)).collect();
    let tree = tree_with(4, &leaves);
    for (i, leaf) in leaves.iter().enumerate() {
        let (proof, bits) = tree.path(i).unwrap();
        assert_eq!(proof.len(), 3);
        assert_eq!(bits.len(), 3);
        assert_eq!(compute_merkle_root_rust(*leaf, i as u32, &proof), tree.root());
    }
}

#[test]
fn proof_of_wrong_leaf_does_not_lead_to_root() {
    let leaves = vec![fe(1), fe(2), fe(3)];
    let tree = tree_with(3, &leaves);
    let (proof, _bits) = tree.path(1).unwrap();
    assert_ne!(compute_merkle_root_rust(fe(99), 1, &proof), tree.root());
}

#[test]
fn path_siblings_and_bits_exact() {
    let leaves = vec![fe(1), fe(2), fe(3)];
    let tree = tree_with(3, &leaves);
    let zero = precomputed_hashes(3);
    let (proof, bits) = tree.path(2).unwrap();
    assert_eq!(proof, vec![zero[0], hash(&leaves[0], &leaves[1])]);
    assert_eq!(bits, vec![false, true]);
    let (proof, bits) = tree.path(1).unwrap();
    assert_eq!(proof, vec![leaves[0], hash(&leaves[2], &zero[0])]);
    assert_eq!(bits, vec![true, false]);
}

#[test]
fn empty_tree_root_is_top_null_hash() {
    let tree = HybridMerkleTree::new(5);
    assert_eq!(tree.root(), precomputed_hashes(5)[4]);
    assert_eq!(tree.leaf_count(), 0);
    assert_eq!(tree.height(), 5);
}

#[test]
fn root_is_stable_between_insertions() {
    let tree = tree_with(3, &[fe(5), fe(6)]);
    let first = tree.root();
    let second = tree.root();
    assert_eq!(first, second);
}

#[test]
fn root_changes_on_insertion() {
    let mut tree = tree_with(3, &[fe(5)]);
    let before = tree.root();
    tree.add_leaf(&fe(6)).unwrap();
    assert_ne!(before, tree.root());
}

#[test]
fn path_past_leaf_count_is_refused() {
    let tree = tree_with(3, &[fe(1), fe(2)]);
    assert!(tree.path(1).is_ok());
    assert_eq!(tree.path(2), Err(MerkleError::LeafNotFound));
    assert_eq!(tree.path(usize::MAX), Err(MerkleError::LeafNotFound));
}

#[test]
fn insertion_past_capacity_is_refused() {
    let mut tree = tree_with(3, &[fe(1), fe(2), fe(3), fe(4)]);
    let root = tree.root();
    assert_eq!(tree.add_leaf(&fe(5)), Err(MerkleError::CapacityExceeded));
    assert_eq!(tree.leaf_count(), 4);
    assert_eq!(tree.root(), root);
}

#[test]
fn single_level_tree_holds_one_leaf() {
    let mut tree = HybridMerkleTree::new(1);
    assert_eq!(tree.root(), null_leaf());
    tree.add_leaf(&fe(3)).unwrap();
    assert_eq!(tree.root(), fe(3));
    assert_eq!(tree.path(0), Ok((vec![], vec![])));
    assert_eq!(tree.add_leaf(&fe(4)), Err(MerkleError::CapacityExceeded));
}

#[test]
fn layer_sizes_are_ceilings() {
    let leaves: Vec<FieldElement> = (0..11).map(fe).collect();
    let tree = tree_with(6, &leaves);
    let expected = [11, 6, 3, 2, 1, 1];
    for (level, size) in expected.iter().enumerate() {
        assert_eq!(tree.layer_size(level), *size);
    }
}

#[test]
fn null_hash_chain_values() {
    let chain = precomputed_hashes(4);
    assert_eq!(chain.len(), 4);
    assert_eq!(chain[0], null_leaf());
    for i in 1..4 {
        assert_eq!(chain[i], hash(&chain[i - 1], &chain[i - 1]));
    }
    assert_ne!(chain[1], chain[0]);
    assert_eq!(precomputed_hashes(0), vec![null_leaf()]);
    assert_eq!(precomputed_hashes(1), vec![null_leaf()]);
}

#[test]
fn proof_check_orientation_follows_index_parity() {
    let leaf = fe(1);
    let sibling = fe(2);
    assert_eq!(compute_merkle_root_rust(leaf, 0, &[sibling]), hash(&leaf, &sibling));
    assert_eq!(compute_merkle_root_rust(leaf, 1, &[sibling]), hash(&sibling, &leaf));
    assert_eq!(compute_merkle_root_rust(leaf, 7, &[]), leaf);
    let upper = fe(3);
    assert_eq!(
        compute_merkle_root_rust(leaf, 2, &[sibling, upper]),
        hash(&upper, &hash(&leaf, &sibling))
    );
}

#[test]
fn field_element_bytes_round_trip() {
    let bytes = Felt::from(123456789u64).to_bytes_be();
    let element = FieldElement::from_bytes_be(bytes);
    assert_eq!(element.to_bytes_be(), bytes);
    assert_eq!(element, fe(123456789));
}

#[test]
fn compress_is_poseidon() {
    let a = fe(1);
    let b = fe(2);
    let expected = FieldElement::from_bytes_be(
        Poseidon::hash(&Felt::from(1u64), &Felt::from(2u64)).to_bytes_be(),
    );
    assert_eq!(compress(&a, &b), expected);
    assert_ne!(compress(&a, &b), compress(&b, &a));
}

#[test]
fn hash_chain_from_zero_pair() {
    let zero = FieldElement::from_bytes_be([0u8; 32]);
    let base = compress(&zero, &zero);
    let chain = hash_chain(base, 13);
    assert_eq!(chain.len(), 13);
    let mut current = Poseidon::hash(&Felt::from(0u64), &Felt::from(0u64));
    for entry in &chain {
        assert_eq!(entry.to_bytes_be(), current.to_bytes_be());
        current = Poseidon::hash(&current, &current);
    }
    assert!(hash_chain(base, 0).is_empty());
}
