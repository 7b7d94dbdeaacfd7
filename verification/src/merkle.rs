//! Model of the distribution Merkle tree and its inclusion proofs.
//!
//! A tree is a sequence of layers: layer 0 holds the leaf hashes in sorted
//! wallet order; each layer above pairs adjacent nodes left to right, the
//! last node of an odd layer pairing with itself; the topmost layer holds the
//! single root. An inclusion proof is the ordered list of sibling hashes met
//! on the way from a leaf to the root.

use vstd::prelude::*;
use crate::address::wallet_bytes;
use crate::hashing::compute_parent_hash;
use crate::hashing::leaf_hash;
use crate::hashing::lemma_parent_hash_symmetric;
use crate::hashing::parent_hash;
use crate::types::ClaimEntryView;
use crate::types::clone_bytes;

verus! {

/// The layer above a given layer: adjacent nodes are paired left to right,
/// and the last node of an odd-length layer is paired with itself.
pub open spec fn next_layer(layer: Seq<Seq<u8>>) -> Seq<Seq<u8>> {
    Seq::new(
        ((layer.len() + 1) / 2) as nat,
        |j: int|
            if 2 * j + 1 < layer.len() {
                parent_hash(layer[2 * j], layer[2 * j + 1])
            } else {
                parent_hash(layer[2 * j], layer[2 * j])
            },
    )
}

/// Number of layers of a tree with n leaves, the leaf layer included.
pub open spec fn num_layers(n: nat) -> nat
    decreases n,
{
    if n <= 1 {
        1
    } else {
        1 + num_layers((n + 1) / 2)
    }
}

/// Node count of layer l of a tree with n leaves.
pub open spec fn layer_size(n: nat, l: nat) -> nat
    decreases l,
{
    if l == 0 {
        n
    } else {
        (layer_size(n, (l - 1) as nat) + 1) / 2
    }
}

/// Layer l of the tree grown from the given leaf layer.
pub open spec fn layer_at(leaves: Seq<Seq<u8>>, l: nat) -> Seq<Seq<u8>>
    decreases l,
{
    if l == 0 {
        leaves
    } else {
        next_layer(layer_at(leaves, (l - 1) as nat))
    }
}

/// Root of a nonempty layer: pair upward until a single node remains.
pub open spec fn merkle_root(layer: Seq<Seq<u8>>) -> Seq<u8>
    recommends
        layer.len() >= 1,
    decreases layer.len(),
{
    if layer.len() <= 1 {
        if layer.len() == 1 {
            layer[0]
        } else {
            Seq::empty()
        }
    } else {
        merkle_root(next_layer(layer))
    }
}

/// The sibling of index i within a layer: its pair neighbour, or the node
/// itself when the neighbour lies past the end of the layer.
pub open spec fn sibling_in(layer: Seq<Seq<u8>>, i: int) -> Seq<u8> {
    let s = if i % 2 == 0 {
        i + 1
    } else {
        i - 1
    };
    if s < layer.len() {
        layer[s]
    } else {
        layer[i]
    }
}

/// The proof path of leaf index i: one sibling hash per layer below the root.
pub open spec fn proof_path(layer: Seq<Seq<u8>>, i: int) -> Seq<Seq<u8>>
    decreases layer.len(),
{
    if layer.len() <= 1 {
        Seq::empty()
    } else {
        seq![sibling_in(layer, i)] + proof_path(next_layer(layer), i / 2)
    }
}

/// Recombining a leaf with a proof path, bottom up, with the
/// order-independent parent rule at each step.
pub open spec fn fold_proof(leaf: Seq<u8>, path: Seq<Seq<u8>>) -> Seq<u8>
    decreases path.len(),
{
    if path.len() == 0 {
        leaf
    } else {
        fold_proof(parent_hash(leaf, path[0]), path.drop_first())
    }
}

/// The parent of node i in the layer above is the hash of node i and its
/// sibling, whichever of the two is the left one.
pub proof fn lemma_next_layer_entry(layer: Seq<Seq<u8>>, i: int)
    requires
        layer.len() >= 2,
        0 <= i < layer.len(),
    ensures
        0 <= i / 2 < next_layer(layer).len(),
        next_layer(layer)[i / 2] == parent_hash(layer[i], sibling_in(layer, i)),
{
    if i % 2 == 0 {
        assert(2 * (i / 2) == i);
    } else {
        assert(2 * (i / 2) == i - 1);
        lemma_parent_hash_symmetric(layer[i - 1], layer[i]);
    }
}

/// For any tree grown from at least one leaf, the proof path of every leaf
/// index recombines, via the order-independent parent rule, to exactly the
/// root of the tree.
pub proof fn lemma_proof_recombines_to_root(layer: Seq<Seq<u8>>, i: int)
    requires
        1 <= layer.len(),
        0 <= i < layer.len(),
    ensures
        fold_proof(layer[i], proof_path(layer, i)) == merkle_root(layer),
    decreases layer.len(),
{
    if layer.len() == 1 {
    } else {
        let next = next_layer(layer);
        lemma_next_layer_entry(layer, i);
        let sib = sibling_in(layer, i);
        let path = proof_path(layer, i);
        assert(path[0] == sib);
        assert(path.drop_first() =~= proof_path(next, i / 2));
        assert(fold_proof(layer[i], path) == fold_proof(parent_hash(layer[i], sib), path.drop_first()));
        lemma_proof_recombines_to_root(next, i / 2);
    }
}

/// A proof path holds exactly one sibling per layer below the root.
pub proof fn lemma_proof_path_len(layer: Seq<Seq<u8>>, i: int)
    requires
        1 <= layer.len(),
    ensures
        proof_path(layer, i).len() == num_layers(layer.len()) - 1,
    decreases layer.len(),
{
    if layer.len() > 1 {
        lemma_proof_path_len(next_layer(layer), i / 2);
    }
}

/// A single-leaf tree has the leaf itself as root and an empty proof path.
pub proof fn lemma_single_leaf(layer: Seq<Seq<u8>>)
    requires
        layer.len() == 1,
    ensures
        merkle_root(layer) == layer[0],
        proof_path(layer, 0) == Seq::<Seq<u8>>::empty(),
{
}

/// A three-leaf tree pairs its third leaf with itself at layer 0: the proof
/// path of leaf 2 starts with leaf 2's own hash and has length 2.
pub proof fn lemma_three_leaves(layer: Seq<Seq<u8>>)
    requires
        layer.len() == 3,
    ensures
        proof_path(layer, 2).len() == 2,
        proof_path(layer, 2)[0] == layer[2],
{
    lemma_proof_path_len(layer, 2);
    assert(num_layers(3) == 1 + num_layers(2));
    assert(num_layers(2) == 1 + num_layers(1));
    assert(sibling_in(layer, 2) == layer[2]);
    assert(proof_path(layer, 2)[0] == layer[2]);
}

/// Sizes of the layers of a tree: below the top every layer holds at least
/// two nodes, and the top layer holds exactly one.
pub proof fn lemma_layer_size_profile(n: nat, l: nat)
    requires
        1 <= n,
        l < num_layers(n),
    ensures
        l < num_layers(n) - 1 ==> layer_size(n, l) >= 2,
        l == num_layers(n) - 1 ==> layer_size(n, l) == 1,
    decreases n,
{
    if n == 1 {
    } else {
        let m = (n + 1) / 2;
        assert(num_layers(n) == 1 + num_layers(m));
        if l == 0 {
        } else {
            lemma_layer_size_shift(n, l);
            lemma_layer_size_profile(m, (l - 1) as nat);
        }
    }
}

/// Layer l of a tree with n leaves is layer l - 1 of the tree grown from the
/// layer above the leaves.
pub proof fn lemma_layer_size_shift(n: nat, l: nat)
    requires
        1 <= l,
    ensures
        layer_size(n, l) == layer_size((n + 1) / 2, (l - 1) as nat),
    decreases l,
{
    if l == 1 {
        assert(layer_size(n, 1) == (layer_size(n, 0) + 1) / 2);
        assert(layer_size((n + 1) / 2, 0) == (n + 1) / 2);
    } else {
        lemma_layer_size_shift(n, (l - 1) as nat);
        assert(layer_size(n, l) == (layer_size(n, (l - 1) as nat) + 1) / 2);
        assert(layer_size((n + 1) / 2, (l - 1) as nat) == (layer_size(
            (n + 1) / 2,
            (l - 2) as nat,
        ) + 1) / 2);
    }
}

/// Counting from the layer above the leaves shifts layer indices by one.
pub proof fn lemma_layer_at_shift(leaves: Seq<Seq<u8>>, l: nat)
    requires
        1 <= l,
    ensures
        layer_at(leaves, l) == layer_at(next_layer(leaves), (l - 1) as nat),
    decreases l,
{
    if l == 1 {
        assert(layer_at(leaves, 1) == next_layer(layer_at(leaves, 0)));
        assert(layer_at(next_layer(leaves), 0) == next_layer(leaves));
    } else {
        lemma_layer_at_shift(leaves, (l - 1) as nat);
        assert(layer_at(leaves, l) == next_layer(layer_at(leaves, (l - 1) as nat)));
        assert(layer_at(next_layer(leaves), (l - 1) as nat) == next_layer(
            layer_at(next_layer(leaves), (l - 2) as nat),
        ));
    }
}

/// Each layer's node count follows the size profile of the leaf count.
pub proof fn lemma_layer_at_size(leaves: Seq<Seq<u8>>, l: nat)
    ensures
        layer_at(leaves, l).len() == layer_size(leaves.len(), l),
    decreases l,
{
    if l > 0 {
        lemma_layer_at_size(leaves, (l - 1) as nat);
    }
}

/// The single node of the topmost layer is the root of the tree.
pub proof fn lemma_root_at_top(leaves: Seq<Seq<u8>>)
    requires
        1 <= leaves.len(),
    ensures
        layer_at(leaves, (num_layers(leaves.len()) - 1) as nat).len() == 1,
        layer_at(leaves, (num_layers(leaves.len()) - 1) as nat)[0] == merkle_root(leaves),
    decreases leaves.len(),
{
    let top = (num_layers(leaves.len()) - 1) as nat;
    lemma_layer_at_size(leaves, top);
    lemma_layer_size_profile(leaves.len(), top);
    if leaves.len() > 1 {
        let next = next_layer(leaves);
        lemma_root_at_top(next);
        lemma_layer_at_shift(leaves, top);
    }
}

/// A tree never has more layers than leaves.
pub proof fn lemma_num_layers_le(n: nat)
    requires
        1 <= n,
    ensures
        num_layers(n) <= n,
    decreases n,
{
    if n > 1 {
        lemma_num_layers_le((n + 1) / 2);
    }
}

/// No layer holds more nodes than the leaf layer.
pub proof fn lemma_layer_size_le(n: nat, l: nat)
    ensures
        layer_size(n, l) <= n,
    decreases l,
{
    if l > 0 {
        lemma_layer_size_le(n, (l - 1) as nat);
    }
}

/// Views of a vector of hashes.
pub open spec fn hashes_view(v: Seq<Vec<u8>>) -> Seq<Seq<u8>> {
    v.map_values(|h: Vec<u8>| h@)
}

/// Leaf hashes of a list of claim entries, in list order.
pub open spec fn leaves_of_entries(entries: Seq<ClaimEntryView>) -> Seq<Seq<u8>> {
    Seq::new(
        entries.len(),
        |i: int|
            leaf_hash(
                entries[i].epoch,
                entries[i].index,
                wallet_bytes(entries[i].wallet),
                entries[i].amount,
            ),
    )
}

/// Root frozen for a list of claim entries.
pub open spec fn entries_root(entries: Seq<ClaimEntryView>) -> Seq<u8> {
    merkle_root(leaves_of_entries(entries))
}

/// Building a tree from an identical sorted entry list always yields an
/// identical root: the root is a pure function of the entries.
pub proof fn lemma_root_pure_function_of_entries(a: Seq<ClaimEntryView>, b: Seq<ClaimEntryView>)
    requires
        a == b,
    ensures
        entries_root(a) == entries_root(b),
{
}

/// Recombines a leaf hash with an inclusion proof, bottom up.
pub fn fold_proof_hashes(leaf: &Vec<u8>, path: &Vec<Vec<u8>>) -> (r: Vec<u8>)
    ensures
        r@ == fold_proof(leaf@, hashes_view(path@)),
{
    let ghost full: Seq<Seq<u8>> = hashes_view(path@);
    let mut cur = clone_bytes(leaf);
    let mut i: usize = 0;
    proof {
        assert(full.skip(0) =~= full);
    }
    while i < path.len()
        invariant
            i <= path@.len(),
            full == hashes_view(path@),
            fold_proof(leaf@, full) == fold_proof(cur@, full.skip(i as int)),
        decreases path@.len() - i,
    {
        let parent = compute_parent_hash(&cur, &path[i]);
        proof {
            assert(full.skip(i as int)[0] == path@[i as int]@);
            assert(full.skip(i as int).drop_first() =~= full.skip(i as int + 1));
        }
        cur = parent;
        i = i + 1;
    }
    proof {
        assert(full.skip(path@.len() as int) =~= Seq::<Seq<u8>>::empty());
    }
    cur
}

/// Grows every layer of the tree from a nonempty leaf layer: layer 0 is the
/// leaf layer itself, each further layer pairs the one below, and the last
/// layer holds the single root.
pub fn build_layers(leaves: Vec<Vec<u8>>) -> (r: Vec<Vec<Vec<u8>>>)
    requires
        1 <= leaves@.len() < usize::MAX,
    ensures
        r@.len() == num_layers(leaves@.len() as nat),
        forall|l: int|
            0 <= l < r@.len() ==> hashes_view(#[trigger] r@[l]@) == layer_at(
                hashes_view(leaves@),
                l as nat,
            ),
        hashes_view(r@[r@.len() - 1]@).len() == 1,
        hashes_view(r@[r@.len() - 1]@)[0] == merkle_root(hashes_view(leaves@)),
        forall|l: int, j: int|
            0 <= l < r@.len() && 1 <= l && 0 <= j < r@[l]@.len() ==> (#[trigger] r@[l]@[j])@.len()
                == 32,
{
    let ghost leaf_views: Seq<Seq<u8>> = hashes_view(leaves@);
    let n = leaves.len();
    let mut layers: Vec<Vec<Vec<u8>>> = Vec::new();
    let mut cur = leaves;
    while cur.len() > 1
        invariant
            leaf_views == hashes_view(leaves@),
            1 <= leaf_views.len() < usize::MAX,
            1 <= cur@.len(),
            layers@.len() < num_layers(leaf_views.len()),
            hashes_view(cur@) == layer_at(leaf_views, layers@.len() as nat),
            forall|l: int|
                0 <= l < layers@.len() ==> hashes_view(#[trigger] layers@[l]@) == layer_at(
                    leaf_views,
                    l as nat,
                ),
            forall|l: int, j: int|
                0 <= l < layers@.len() && 1 <= l && 0 <= j < layers@[l]@.len() ==> (
                #[trigger] layers@[l]@[j])@.len() == 32,
            forall|j: int|
                1 <= layers@.len() && 0 <= j < cur@.len() ==> (#[trigger] cur@[j])@.len() == 32,
        decreases cur@.len(),
    {
        let ghost cur_views: Seq<Seq<u8>> = hashes_view(cur@);
        let ghost depth: nat = layers@.len() as nat;
        let m = cur.len();
        let half = m / 2 + m % 2;
        proof {
            assert(half == (m + 1) / 2);
        }
        let mut next: Vec<Vec<u8>> = Vec::new();
        let mut j: usize = 0;
        while j < half
            invariant
                m == cur@.len(),
                1 <= m,
                half == (m + 1) / 2,
                j <= half,
                cur_views == hashes_view(cur@),
                next@.len() == j,
                forall|k: int|
                    0 <= k < j ==> (#[trigger] next@[k])@ == next_layer(cur_views)[k],
                forall|k: int| 0 <= k < j ==> (#[trigger] next@[k])@.len() == 32,
            decreases half - j,
        {
            let li = 2 * j;
            let parent = if 2 * j + 1 < m {
                compute_parent_hash(&cur[li], &cur[li + 1])
            } else {
                compute_parent_hash(&cur[li], &cur[li])
            };
            next.push(parent);
            j = j + 1;
        }
        proof {
            assert(hashes_view(next@) =~= next_layer(cur_views));
            lemma_layer_at_size(leaf_views, depth);
            lemma_layer_size_profile(leaf_views.len(), depth);
            assert(layer_size(leaf_views.len(), depth) >= 2);
        }
        layers.push(cur);
        cur = next;
        proof {
            assert(hashes_view(cur@) == layer_at(leaf_views, layers@.len() as nat));
        }
    }
    proof {
        let depth = layers@.len() as nat;
        lemma_layer_at_size(leaf_views, depth);
        lemma_layer_size_profile(leaf_views.len(), depth);
        assert(depth == num_layers(leaf_views.len()) - 1);
        lemma_root_at_top(leaf_views);
    }
    layers.push(cur);
    layers
}

} // verus!
