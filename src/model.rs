//! The mathematical model of the accumulator: the chain of empty-subtree hashes, the
//! padded full tree, inclusion proofs, and the laws that relate them.

use crate::field::poseidon_pair;
use vstd::arithmetic::power2::*;
use vstd::prelude::*;

verus! {

/// The encoding of the hash of an empty leaf.
pub open spec fn null_leaf() -> Seq<u8> {
    seq![
        2u8, 147u8, 211u8, 232u8, 168u8, 15u8, 64u8, 13u8, 170u8, 175u8, 253u8, 213u8, 147u8, 46u8,
        43u8, 204u8, 136u8, 20u8, 186u8, 184u8, 244u8, 20u8, 167u8, 93u8, 202u8, 207u8, 135u8,
        49u8, 143u8, 139u8, 20u8, 197u8,
    ]
}

/// The `level`-th entry of the chain that starts at `base` and hashes each entry with
/// itself to get the next.
pub open spec fn hash_chain_at(base: Seq<u8>, level: nat) -> Seq<u8>
    decreases level,
{
    if level == 0 {
        base
    } else {
        poseidon_pair(hash_chain_at(base, (level - 1) as nat), hash_chain_at(base, (level - 1) as nat))
    }
}

/// The hash of an empty subtree whose root sits `level` levels above the leaves.
pub open spec fn zero_hash(level: nat) -> Seq<u8> {
    hash_chain_at(null_leaf(), level)
}

/// The position, `level` levels up, of the node above leaf position `n`.
pub open spec fn pos(n: nat, level: nat) -> nat
    decreases level,
{
    if level == 0 {
        n
    } else {
        pos(n, (level - 1) as nat) / 2
    }
}

/// How many nodes of `level` lie above at least one of `n` leaves.
pub open spec fn layer_len(n: nat, level: nat) -> nat {
    if n == 0 {
        0
    } else {
        pos((n - 1) as nat, level) + 1
    }
}

/// The node at `level` and position `p` of the full tree over `leaves`, padded with
/// `null_leaf()` wherever no leaf stands.
pub open spec fn node(leaves: Seq<Seq<u8>>, level: nat, p: nat) -> Seq<u8>
    decreases level,
{
    if level == 0 {
        if p < leaves.len() {
            leaves[p as int]
        } else {
            null_leaf()
        }
    } else {
        poseidon_pair(
            node(leaves, (level - 1) as nat, 2 * p),
            node(leaves, (level - 1) as nat, 2 * p + 1),
        )
    }
}

/// The root of a tree of `height` levels (leaves at level 0, root at `height - 1`).
pub open spec fn merkle_root(leaves: Seq<Seq<u8>>, height: nat) -> Seq<u8> {
    node(leaves, (height - 1) as nat, 0)
}

/// The number of leaves that a tree of `height` levels holds.
pub open spec fn capacity(height: nat) -> nat {
    pow2((height - 1) as nat)
}

/// The position of the other child of the parent of position `q`.
pub open spec fn sibling_pos(q: nat) -> nat {
    if q % 2 == 1 {
        (q - 1) as nat
    } else {
        q + 1
    }
}

/// The siblings along the path from leaf `index` to the root, lowest first.
pub open spec fn proof_siblings(leaves: Seq<Seq<u8>>, height: nat, index: nat) -> Seq<Seq<u8>> {
    Seq::new(
        (height - 1) as nat,
        |l: int| node(leaves, l as nat, sibling_pos(pos(index, l as nat))),
    )
}

/// For each level below the root, whether the path from leaf `index` passes through a
/// right child there.
pub open spec fn side_bits(height: nat, index: nat) -> Seq<bool> {
    Seq::new((height - 1) as nat, |l: int| pos(index, l as nat) % 2 == 1)
}

/// The value reached after combining `leaf` with the first `k` siblings of `path`,
/// each on the side that the position of `index` at that level gives.
pub open spec fn climb(leaf: Seq<u8>, index: nat, path: Seq<Seq<u8>>, k: nat) -> Seq<u8>
    decreases k,
{
    if k == 0 {
        leaf
    } else {
        let below = climb(leaf, index, path, (k - 1) as nat);
        if pos(index, (k - 1) as nat) % 2 == 1 {
            poseidon_pair(path[k - 1], below)
        } else {
            poseidon_pair(below, path[k - 1])
        }
    }
}

/// The root that a proof claims for `leaf` at `index`.
pub open spec fn root_from_path(leaf: Seq<u8>, index: nat, path: Seq<Seq<u8>>) -> Seq<u8> {
    climb(leaf, index, path, path.len())
}

/// `leaves` padded with `null_leaf()` to `width` entries.
pub open spec fn padded(leaves: Seq<Seq<u8>>, width: nat) -> Seq<Seq<u8>> {
    Seq::new(width, |j: int| if j < leaves.len() { leaves[j] } else { null_leaf() })
}

/// One level of a full tree reduced pairwise into the level above it.
pub open spec fn reduce_level(s: Seq<Seq<u8>>) -> Seq<Seq<u8>> {
    Seq::new(s.len() / 2, |j: int| poseidon_pair(s[2 * j], s[2 * j + 1]))
}

/// A full level reduced `k` times.
pub open spec fn reduce(s: Seq<Seq<u8>>, k: nat) -> Seq<Seq<u8>>
    decreases k,
{
    if k == 0 {
        s
    } else {
        reduce_level(reduce(s, (k - 1) as nat))
    }
}

pub proof fn lemma_pos_shift(n: nat, level: nat)
    ensures
        pos(n, level + 1) == pos(n / 2, level),
    decreases level,
{
    assert(pos(n, level + 1) == pos(n, level) / 2);
    if level > 0 {
        lemma_pos_shift(n, (level - 1) as nat);
        assert(pos(n, level) == pos(n, (level - 1) as nat) / 2);
        assert(pos(n / 2, level) == pos(n / 2, (level - 1) as nat) / 2);
    } else {
        assert(pos(n, 0) == n);
        assert(pos(n / 2, 0) == n / 2);
    }
}

pub proof fn lemma_pos_zero_iff(n: nat, level: nat)
    ensures
        pos(n, level) == 0 <==> n < pow2(level),
    decreases level,
{
    if level > 0 {
        lemma_pos_shift(n, (level - 1) as nat);
        lemma_pos_zero_iff(n / 2, (level - 1) as nat);
        lemma_pow2_unfold(level);
    } else {
        lemma_pow2_0();
    }
}

pub proof fn lemma_pow2_0()
    ensures
        pow2(0) == 1,
{
    lemma2_to64();
}

pub proof fn lemma_pos_monotone(a: nat, b: nat, level: nat)
    requires
        a <= b,
    ensures
        pos(a, level) <= pos(b, level),
    decreases level,
{
    if level > 0 {
        lemma_pos_monotone(a, b, (level - 1) as nat);
    }
}

pub proof fn lemma_pos_step(n: nat, level: nat)
    ensures
        pos(n + 1, level) == pos(n, level) || pos(n + 1, level) == pos(n, level) + 1,
    decreases level,
{
    if level > 0 {
        lemma_pos_step(n, (level - 1) as nat);
    }
}

/// A node above no leaf is the empty-subtree hash of its level.
pub proof fn lemma_node_empty(leaves: Seq<Seq<u8>>, level: nat, p: nat)
    requires
        p >= layer_len(leaves.len(), level),
    ensures
        node(leaves, level, p) == zero_hash(level),
    decreases level,
{
    if level > 0 {
        let l1 = (level - 1) as nat;
        lemma_node_empty(leaves, l1, 2 * p);
        lemma_node_empty(leaves, l1, 2 * p + 1);
    }
}

/// Appending a leaf changes, at each level, only the node above it.
pub proof fn lemma_node_push_other(leaves: Seq<Seq<u8>>, v: Seq<u8>, level: nat, p: nat)
    requires
        p != pos(leaves.len(), level),
    ensures
        node(leaves.push(v), level, p) == node(leaves, level, p),
    decreases level,
{
    if level > 0 {
        let l1 = (level - 1) as nat;
        lemma_node_push_other(leaves, v, l1, 2 * p);
        lemma_node_push_other(leaves, v, l1, 2 * p + 1);
    }
}

/// A tree into which nothing has been inserted has the empty-subtree hash of its top
/// level as its root.
pub proof fn lemma_empty_root(height: nat)
    requires
        height >= 1,
    ensures
        merkle_root(Seq::<Seq<u8>>::empty(), height) == zero_hash((height - 1) as nat),
{
    lemma_node_empty(Seq::<Seq<u8>>::empty(), (height - 1) as nat, 0);
}

proof fn lemma_reduce_levels(leaves: Seq<Seq<u8>>, m: nat, k: nat)
    requires
        k <= m,
    ensures
        reduce(padded(leaves, pow2(m)), k).len() == pow2((m - k) as nat),
        forall|j: int|
            0 <= j < pow2((m - k) as nat) ==> #[trigger] reduce(padded(leaves, pow2(m)), k)[j]
                == node(leaves, k, j as nat),
    decreases k,
{
    if k > 0 {
        lemma_reduce_levels(leaves, m, (k - 1) as nat);
        lemma_pow2_unfold((m - k + 1) as nat);
        let prev = reduce(padded(leaves, pow2(m)), (k - 1) as nat);
        assert forall|j: int| 0 <= j < pow2((m - k) as nat) implies #[trigger] reduce(
            padded(leaves, pow2(m)),
            k,
        )[j] == node(leaves, k, j as nat) by {
            assert(prev[2 * j] == node(leaves, (k - 1) as nat, (2 * j) as nat));
            assert(prev[2 * j + 1] == node(leaves, (k - 1) as nat, (2 * j + 1) as nat));
        }
    }
}

/// The root kept by the accumulator is the root that a full rebuild gives: pad the
/// leaves with empty leaves up to the capacity, then hash pairwise level by level.
pub proof fn lemma_root_matches_full_rebuild(leaves: Seq<Seq<u8>>, height: nat)
    requires
        height >= 1,
        leaves.len() <= capacity(height),
    ensures
        reduce(padded(leaves, capacity(height)), (height - 1) as nat) == seq![
            merkle_root(leaves, height),
        ],
{
    let m = (height - 1) as nat;
    lemma_reduce_levels(leaves, m, m);
    lemma_pow2_0();
    assert(reduce(padded(leaves, capacity(height)), m) =~= seq![merkle_root(leaves, height)]);
}

proof fn lemma_climb(leaves: Seq<Seq<u8>>, height: nat, i: nat, k: nat)
    requires
        k <= height - 1,
        i < leaves.len(),
    ensures
        climb(leaves[i as int], i, proof_siblings(leaves, height, i), k) == node(
            leaves,
            k,
            pos(i, k),
        ),
    decreases k,
{
    if k > 0 {
        lemma_climb(leaves, height, i, (k - 1) as nat);
        let q = pos(i, (k - 1) as nat);
        assert(pos(i, k) == q / 2);
    }
}

/// The proof that `path` hands out for a leaf leads back to the current root.
pub proof fn lemma_path_round_trip(leaves: Seq<Seq<u8>>, height: nat, i: nat)
    requires
        height >= 1,
        leaves.len() <= capacity(height),
        i < leaves.len(),
    ensures
        root_from_path(leaves[i as int], i, proof_siblings(leaves, height, i)) == merkle_root(
            leaves,
            height,
        ),
{
    lemma_climb(leaves, height, i, (height - 1) as nat);
    lemma_pos_zero_iff(i, (height - 1) as nat);
}

proof fn lemma_bits_differ(i: nat, j: nat, m: nat) -> (l: nat)
    requires
        i != j,
        i < pow2(m),
        j < pow2(m),
    ensures
        l < m,
        pos(i, l) % 2 != pos(j, l) % 2,
    decreases m,
{
    if m == 0 {
        lemma_pow2_0();
        0
    } else if i % 2 != j % 2 {
        0
    } else {
        lemma_pow2_unfold(m);
        let l1 = lemma_bits_differ(i / 2, j / 2, (m - 1) as nat);
        lemma_pos_shift(i, l1);
        lemma_pos_shift(j, l1);
        l1 + 1
    }
}

/// Two distinct leaf positions get different side-bit patterns.
pub proof fn lemma_distinct_side_bits(height: nat, i: nat, j: nat)
    requires
        height >= 1,
        i < capacity(height),
        j < capacity(height),
        i != j,
    ensures
        side_bits(height, i) != side_bits(height, j),
{
    let l = lemma_bits_differ(i, j, (height - 1) as nat);
    assert(side_bits(height, i)[l as int] != side_bits(height, j)[l as int]);
}

/// Where the leaves are pairwise distinct and none is the empty leaf, two distinct
/// positions get different sibling sequences (they differ already at the lowest level).
pub proof fn lemma_distinct_siblings(leaves: Seq<Seq<u8>>, height: nat, i: nat, j: nat)
    requires
        height >= 1,
        leaves.len() <= capacity(height),
        i < leaves.len(),
        j < leaves.len(),
        i != j,
        forall|a: int, b: int|
            0 <= a < leaves.len() && 0 <= b < leaves.len() && a != b ==> #[trigger] leaves[a]
                != #[trigger] leaves[b],
        forall|a: int| 0 <= a < leaves.len() ==> #[trigger] leaves[a] != null_leaf(),
    ensures
        proof_siblings(leaves, height, i) != proof_siblings(leaves, height, j),
{
    if height == 1 {
        lemma_pow2_0();
    } else {
        let si = sibling_pos(i);
        let sj = sibling_pos(j);
        assert(proof_siblings(leaves, height, i)[0] == node(leaves, 0, si));
        assert(proof_siblings(leaves, height, j)[0] == node(leaves, 0, sj));
        if si < leaves.len() && sj < leaves.len() {
            assert(leaves[si as int] != leaves[sj as int]);
        } else if si < leaves.len() {
            assert(leaves[si as int] != null_leaf());
        } else if sj < leaves.len() {
            assert(leaves[sj as int] != null_leaf());
        }
    }
}

} // verus!
