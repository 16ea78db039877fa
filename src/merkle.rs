//! The incremental accumulator: per-level node arrays, a left fringe, and a count.

use crate::field::{poseidon_hash, FieldElement};
use crate::helpers::{precomputed_hashes, views};
use crate::model::{
    capacity, lemma_node_empty, lemma_node_push_other, lemma_pos_monotone, lemma_pos_step,
    lemma_pos_zero_iff, layer_len, merkle_root, node, pos, proof_siblings, side_bits, sibling_pos,
    zero_hash,
};
use vstd::arithmetic::power2::*;
use vstd::prelude::*;

verus! {

/// Why an operation on the accumulator was refused.
#[derive(Clone, Copy, Debug, PartialEq, Eq)]
pub enum MerkleError {
    /// The tree already holds as many leaves as its depth allows.
    CapacityExceeded,
    /// No leaf has been inserted at the requested index.
    LeafNotFound,
}

/// An append-only Merkle tree of fixed height that stores only the nodes above
/// inserted leaves, and updates one path per insertion.
pub struct HybridMerkleTree {
    height: usize,
    precomputed: Vec<FieldElement>,
    left_path: Vec<FieldElement>,
    layers: Vec<Vec<FieldElement>>,
    free_index: usize,
}

impl HybridMerkleTree {
    /// The number of levels, leaves included.
    pub closed spec fn height_spec(&self) -> nat {
        self.height as nat
    }

    /// The leaves inserted so far, in order.
    pub closed spec fn leaves(&self) -> Seq<Seq<u8>> {
        views(self.layers@[0]@)
    }

    /// The tree is well formed: every stored node is the node of the padded full tree over
    /// the inserted leaves at its place, each level stores exactly the nodes above some
    /// leaf, the fringe holds the left sibling wherever the next leaf's path goes through a
    /// right child, and its top entry is the root.
    pub closed spec fn wf(&self) -> bool {
        let h = self.height as nat;
        let n = self.free_index as nat;
        &&& h >= 1
        &&& self.precomputed@.len() == h
        &&& self.left_path@.len() == h
        &&& self.layers@.len() == h
        &&& n <= capacity(h)
        &&& self.layers@[0]@.len() == n
        &&& forall|l: int| 0 <= l < h ==> #[trigger] self.precomputed@[l]@ == zero_hash(l as nat)
        &&& forall|l: int|
            0 <= l < h ==> #[trigger] self.layers@[l]@.len() == layer_len(n, l as nat)
        &&& forall|l: int, p: int|
            0 <= l < h && 0 <= p < self.layers@[l]@.len() ==> #[trigger] self.layers@[l]@[p]@
                == node(self.leaves(), l as nat, p as nat)
        &&& forall|l: int|
            0 <= l < h - 1 && pos(n, l as nat) % 2 == 1 ==> #[trigger] self.left_path@[l]@
                == node(self.leaves(), l as nat, (pos(n, l as nat) - 1) as nat)
        &&& self.left_path@[h - 1]@ == merkle_root(self.leaves(), h)
    }

    /// An empty tree of `height` levels, which holds up to `2^(height - 1)` leaves.
    pub fn new(height: usize) -> (r: Self)
        requires
            height >= 1,
        ensures
            r.wf(),
            r.height_spec() == height,
            r.leaves() == Seq::<Seq<u8>>::empty(),
    {
        let precomputed = precomputed_hashes(height);
        let mut left_path: Vec<FieldElement> = Vec::new();
        let mut layers: Vec<Vec<FieldElement>> = Vec::new();
        let mut i: usize = 0;
        while i < height
            invariant
                i <= height,
                precomputed@.len() == height,
                left_path@.len() == i,
                layers@.len() == i,
                forall|l: int| 0 <= l < height ==> #[trigger] precomputed@[l]@ == zero_hash(l as nat),
                forall|l: int| 0 <= l < i ==> #[trigger] left_path@[l]@ == zero_hash(l as nat),
                forall|l: int| 0 <= l < i ==> #[trigger] layers@[l]@.len() == 0,
            decreases height - i,
        {
            left_path.push(precomputed[i]);
            layers.push(Vec::new());
            i += 1;
        }
        let r = HybridMerkleTree { height, precomputed, left_path, layers, free_index: 0 };
        proof {
            assert(r.leaves() =~= Seq::<Seq<u8>>::empty());
            lemma_node_empty(r.leaves(), (height - 1) as nat, 0);
            assert forall|l: int| 0 <= l < height - 1 implies #[trigger] pos(0, l as nat) == 0 by {
                lemma_pow2_pos(l as nat);
                lemma_pos_zero_iff(0, l as nat);
            }
        }
        r
    }

    /// Appends `leaf` at the next free index and recomputes the nodes above it, one per
    /// level. Refused, with the tree left as it was, once the tree is full.
    pub fn add_leaf(&mut self, leaf: &FieldElement) -> (r: Result<(), MerkleError>)
        requires
            old(self).wf(),
        ensures
            final(self).wf(),
            final(self).height_spec() == old(self).height_spec(),
            old(self).leaves().len() < capacity(old(self).height_spec()) ==> r is Ok
                && final(self).leaves() == old(self).leaves().push(leaf@),
            old(self).leaves().len() >= capacity(old(self).height_spec()) ==> r == Err::<
                (),
                MerkleError,
            >(MerkleError::CapacityExceeded) && *final(self) == *old(self),
    {
        let ghost pre = *self;
        let height = self.height;
        let n = self.free_index;
        let mut q = n;
        let mut j: usize = 1;
        while j < height
            invariant
                1 <= j <= height,
                q as nat == pos(n as nat, (j - 1) as nat),
            decreases height - j,
        {
            q = q / 2;
            j += 1;
        }
        proof {
            lemma_pos_zero_iff(n as nat, (height - 1) as nat);
        }
        if q != 0 {
            return Err(MerkleError::CapacityExceeded);
        }
        let ghost leaves = pre.leaves().push(leaf@);
        let mut first: Vec<FieldElement> = Vec::new();
        self.layers.set_and_swap(0, &mut first);
        first.push(*leaf);
        self.free_index = first.len();
        self.layers.set_and_swap(0, &mut first);
        proof {
            assert(self.leaves() =~= leaves);
        }
        let mut hash_val = *leaf;
        let mut index = n;
        let mut i: usize = 1;
        while i < height
            invariant
                1 <= i <= height,
                height == self.height,
                height == pre.height,
                pre.wf(),
                n == pre.free_index,
                n < capacity(height as nat),
                leaves == pre.leaves().push(leaf@),
                self.leaves() == leaves,
                self.precomputed == pre.precomputed,
                self.free_index == n + 1,
                self.layers@.len() == height,
                self.left_path@.len() == height,
                index as nat == pos(n as nat, (i - 1) as nat),
                hash_val@ == node(leaves, (i - 1) as nat, index as nat),
                forall|l: int|
                    0 <= l < i ==> #[trigger] self.layers@[l]@.len() == layer_len(
                        (n + 1) as nat,
                        l as nat,
                    ),
                forall|l: int, p: int|
                    0 <= l < i && 0 <= p < self.layers@[l]@.len() ==> #[trigger] self.layers@[l]@[p]@
                        == node(leaves, l as nat, p as nat),
                forall|l: int| i <= l < height ==> #[trigger] self.layers@[l] == pre.layers@[l],
                forall|l: int|
                    0 <= l < i - 1 && pos((n + 1) as nat, l as nat) % 2 == 1
                        ==> #[trigger] self.left_path@[l]@ == node(
                        leaves,
                        l as nat,
                        (pos((n + 1) as nat, l as nat) - 1) as nat,
                    ),
                forall|l: int| i - 1 <= l < height ==> #[trigger] self.left_path@[l] == pre.left_path@[l],
            decreases height - i,
        {
            let s = i - 1;
            let ghost below = index as nat;
            proof {
                lemma_pos_step(n as nat, s as nat);
            }
            if index % 2 == 0 {
                proof {
                    lemma_node_empty(leaves, s as nat, below + 1);
                }
                let combined = poseidon_hash(&hash_val, &self.precomputed[s]);
                self.left_path.set(s, hash_val);
                hash_val = combined;
            } else {
                proof {
                    lemma_node_push_other(pre.leaves(), leaf@, s as nat, (below - 1) as nat);
                }
                hash_val = poseidon_hash(&self.left_path[s], &hash_val);
            }
            index = index / 2;
            proof {
                assert(hash_val@ == node(leaves, i as nat, index as nat));
                assert(index as nat == pos(n as nat, i as nat));
                assert(pre.layers@[i as int]@.len() == layer_len(n as nat, i as nat));
                if n > 0 {
                    lemma_pos_step((n - 1) as nat, i as nat);
                } else {
                    lemma_pow2_pos(i as nat);
                    lemma_pos_zero_iff(0, i as nat);
                }
            }
            let mut layer: Vec<FieldElement> = Vec::new();
            self.layers.set_and_swap(i, &mut layer);
            let ghost stale = layer@;
            proof {
                assert(stale == pre.layers@[i as int]@);
            }
            if layer.len() > index {
                layer.set(index, hash_val);
            } else {
                layer.push(hash_val);
            }
            let ghost fresh = layer@;
            proof {
                assert(stale.len() >= index);
                if stale.len() > index {
                    assert(fresh == stale.update(index as int, hash_val));
                } else {
                    assert(fresh == stale.push(hash_val));
                }
            }
            self.layers.set_and_swap(i, &mut layer);
            proof {
                assert(self.layers@[i as int]@ == fresh);
                assert forall|p: int| 0 <= p < fresh.len() implies #[trigger] fresh[p]@ == node(
                    leaves,
                    i as nat,
                    p as nat,
                ) by {
                    if p != index {
                        assert(p < stale.len());
                        assert(fresh[p] == stale[p]);
                        assert(pre.layers@[i as int]@[p]@ == node(pre.leaves(), i as nat, p as nat));
                        lemma_node_push_other(pre.leaves(), leaf@, i as nat, p as nat);
                    }
                }
            }
            i += 1;
        }
        proof {
            lemma_pos_zero_iff(n as nat, (height - 1) as nat);
        }
        self.left_path.set(height - 1, hash_val);
        Ok(())
    }

    /// The inclusion proof of the leaf at `index`: for each level below the root, lowest
    /// first, the sibling of the node on the leaf's path, and whether that node is a right
    /// child (its sibling on the left).
    pub fn path(&self, index: usize) -> (r: Result<(Vec<FieldElement>, Vec<bool>), MerkleError>)
        requires
            self.wf(),
        ensures
            index >= self.leaves().len() ==> r == Err::<(Vec<FieldElement>, Vec<bool>), MerkleError>(
                MerkleError::LeafNotFound,
            ),
            index < self.leaves().len() ==> r is Ok && views(r->Ok_0.0@) == proof_siblings(
                self.leaves(),
                self.height_spec(),
                index as nat,
            ) && r->Ok_0.1@ == side_bits(self.height_spec(), index as nat),
    {
        if index >= self.layers[0].len() {
            return Err(MerkleError::LeafNotFound);
        }
        let ghost leaves = self.leaves();
        let ghost n = self.free_index as nat;
        let mut elements: Vec<FieldElement> = Vec::new();
        let mut indices: Vec<bool> = Vec::new();
        let mut idx = index;
        let mut i: usize = 0;
        while i < self.height - 1
            invariant
                self.wf(),
                leaves == self.leaves(),
                n == self.free_index,
                index < n,
                i <= self.height - 1,
                idx as nat == pos(index as nat, i as nat),
                elements@.len() == i,
                indices@.len() == i,
                forall|l: int|
                    0 <= l < i ==> #[trigger] elements@[l]@ == node(
                        leaves,
                        l as nat,
                        sibling_pos(pos(index as nat, l as nat)),
                    ),
                forall|l: int| 0 <= l < i ==> #[trigger] indices@[l] == (pos(index as nat, l as nat) % 2 == 1),
            decreases self.height - 1 - i,
        {
            proof {
                lemma_pos_monotone(index as nat, (n - 1) as nat, i as nat);
                assert(self.layers@[i as int]@.len() == layer_len(n, i as nat));
            }
            let is_right = idx % 2 == 1;
            let sibling = if is_right {
                self.layers[i][idx - 1]
            } else if idx + 1 < self.layers[i].len() {
                self.layers[i][idx + 1]
            } else {
                proof {
                    lemma_node_empty(leaves, i as nat, (idx + 1) as nat);
                }
                self.precomputed[i]
            };
            elements.push(sibling);
            indices.push(is_right);
            idx = idx / 2;
            i += 1;
        }
        proof {
            assert(views(elements@) =~= proof_siblings(leaves, self.height as nat, index as nat));
            assert(indices@ =~= side_bits(self.height as nat, index as nat));
        }
        Ok((elements, indices))
    }

    /// The current root: the root of the full tree over the inserted leaves, padded
    /// with empty leaves.
    pub fn root(&self) -> (r: FieldElement)
        requires
            self.wf(),
        ensures
            r@ == merkle_root(self.leaves(), self.height_spec()),
    {
        self.left_path[self.height - 1]
    }

    /// The number of levels, leaves included.
    pub fn height(&self) -> (r: usize)
        requires
            self.wf(),
        ensures
            r == self.height_spec(),
    {
        self.height
    }

    /// The number of leaves inserted so far.
    pub fn leaf_count(&self) -> (r: usize)
        requires
            self.wf(),
        ensures
            r == self.leaves().len(),
    {
        self.layers[0].len()
    }

    /// How many nodes are stored at `level`: those above at least one inserted leaf.
    pub fn layer_size(&self, level: usize) -> (r: usize)
        requires
            self.wf(),
            level < self.height_spec(),
        ensures
            r == layer_len(self.leaves().len(), level as nat),
    {
        self.layers[level].len()
    }
}

} // verus!
