//! The Merkle tree over deposit leaves that the genesis deposits are proved
//! against: 32 layers of pairwise SHA-256, padded with the hashes of empty
//! subtrees, and a root mixed with the number of leaves.

use vstd::prelude::*;
use crate::bytes::le_bytes;
use crate::hash::{H256, sha256_spec, hash_views};
use crate::shuffle::{hash_pair, merkle_fold};
use crate::utils::to_bytes;

verus! {

/// Depth of the deposit contract's tree.
pub const DEPOSIT_CONTRACT_TREE_DEPTH: usize = 32;

/// The largest number of leaves the tree holds.
pub const MAX_DEPOSIT_LEAVES: u64 = 0x1_0000_0000;

/// The hash of an empty subtree of height `k`.
pub open spec fn zero_hash(k: nat) -> Seq<u8>
    decreases k,
{
    if k == 0 {
        Seq::new(32, |i: int| 0u8)
    } else {
        sha256_spec(zero_hash((k - 1) as nat) + zero_hash((k - 1) as nat))
    }
}

/// A layer at height `h`, with the empty subtree's hash appended when it
/// has an odd number of nodes.
pub open spec fn padded(layer: Seq<Seq<u8>>, h: nat) -> Seq<Seq<u8>> {
    if layer.len() % 2 == 1 {
        layer.push(zero_hash(h))
    } else {
        layer
    }
}

/// The layer above a layer at height `h`: the hash of each pair.
pub open spec fn parent_layer(layer: Seq<Seq<u8>>, h: nat) -> Seq<Seq<u8>> {
    let p = padded(layer, h);
    Seq::new(p.len() / 2, |i: int| sha256_spec(p[2 * i] + p[2 * i + 1]))
}

/// The layer at height `h` above the leaves.
pub open spec fn tree_layer(leaves: Seq<Seq<u8>>, h: nat) -> Seq<Seq<u8>>
    decreases h,
{
    if h == 0 {
        leaves
    } else {
        parent_layer(tree_layer(leaves, (h - 1) as nat), (h - 1) as nat)
    }
}

/// The node that records the number of leaves.
pub open spec fn length_node(n: nat) -> Seq<u8> {
    le_bytes(n, 32)
}

/// The whole tree: the 32 layers below the top, the top layer with the
/// length node after its root, and the final root.
pub open spec fn deposit_tree_spec(leaves: Seq<Seq<u8>>) -> Seq<Seq<Seq<u8>>> {
    let top = tree_layer(leaves, 32);
    Seq::new(32, |h: int| tree_layer(leaves, h as nat))
        .push(top.push(length_node(leaves.len())))
        .push(seq![sha256_spec(top[0] + length_node(leaves.len()))])
}

/// The bytes of every node of a tree.
pub open spec fn tree_views(tree: Seq<Vec<H256>>) -> Seq<Seq<Seq<u8>>> {
    tree.map_values(|layer: Vec<H256>| hash_views(layer@))
}

/// `index` halved `h` times: the position of its ancestor at height `h`.
pub open spec fn halve(index: nat, h: nat) -> nat
    decreases h,
{
    if h == 0 {
        index
    } else {
        halve(index, (h - 1) as nat) / 2
    }
}

/// The position paired with `j` in its layer.
pub open spec fn sibling(j: nat) -> nat {
    if j % 2 == 0 {
        j + 1
    } else {
        (j - 1) as nat
    }
}

/// The node paired with position `j` of a layer at height `h`.
pub open spec fn sibling_node(layer: Seq<Seq<u8>>, h: nat, j: nat) -> Seq<u8> {
    if sibling(j) < layer.len() {
        layer[sibling(j) as int]
    } else {
        zero_hash(h)
    }
}

/// The proof for the leaf at `index`: the node paired with its ancestor in
/// each of the 32 lower layers, then the length node.
pub open spec fn deposit_proof_spec(tree: Seq<Seq<Seq<u8>>>, index: nat) -> Seq<Seq<u8>> {
    Seq::new(32, |i: int| sibling_node(tree[i], i as nat, halve(index, i as nat))).push(tree[32][1])
}

/// Two to the power `k`.
pub open spec fn two_pow(k: nat) -> nat
    decreases k,
{
    if k == 0 {
        1
    } else {
        2 * two_pow((k - 1) as nat)
    }
}

proof fn lemma_two_pow_32()
    ensures
        two_pow(32) == MAX_DEPOSIT_LEAVES,
{
    reveal_with_fuel(two_pow, 33);
}

/// Between the leaves and the top, each layer keeps at least one node and at
/// most a power of two that halves at every height.
proof fn lemma_layer_len(leaves: Seq<Seq<u8>>, h: nat)
    requires
        1 <= leaves.len() <= two_pow(32),
        h <= 32,
    ensures
        1 <= tree_layer(leaves, h).len() <= two_pow((32 - h) as nat),
    decreases h,
{
    if h > 0 {
        lemma_layer_len(leaves, (h - 1) as nat);
        assert(two_pow((32 - (h - 1)) as nat) == 2 * two_pow((32 - h) as nat));
    }
}

/// The ancestor of a position inside a layer lies inside the layer above.
proof fn lemma_ancestor_in_layer(leaves: Seq<Seq<u8>>, index: nat, h: nat)
    requires
        index < leaves.len(),
    ensures
        halve(index, h) < tree_layer(leaves, h).len(),
    decreases h,
{
    if h > 0 {
        lemma_ancestor_in_layer(leaves, index, (h - 1) as nat);
    }
}

/// Hashing a node with its sibling, in the order its position gives, yields
/// its parent.
proof fn lemma_parent_of(layer: Seq<Seq<u8>>, h: nat, j: nat)
    requires
        j < layer.len(),
    ensures
        j / 2 < parent_layer(layer, h).len(),
        parent_layer(layer, h)[(j / 2) as int] == (if j % 2 != 0 {
            sha256_spec(sibling_node(layer, h, j) + layer[j as int])
        } else {
            sha256_spec(layer[j as int] + sibling_node(layer, h, j))
        }),
{
    if j % 2 == 0 {
        assert(2 * (j / 2) == j);
        if j + 1 >= layer.len() {
            assert(layer.len() % 2 == 1);
        }
    } else {
        assert(2 * (j / 2) + 1 == j);
    }
}

/// Folding the proof of the leaf at `index` from height `h` up to the top
/// layer reaches the root of the top layer.
proof fn lemma_fold_from(leaves: Seq<Seq<u8>>, index: nat, h: nat)
    requires
        1 <= leaves.len() <= two_pow(32),
        index < leaves.len(),
        h <= 32,
    ensures
        merkle_fold(
            tree_layer(leaves, h)[halve(index, h) as int],
            deposit_proof_spec(deposit_tree_spec(leaves), index).subrange(h as int, 33),
            halve(index, h),
        ) == merkle_fold(
            tree_layer(leaves, 32)[0],
            deposit_proof_spec(deposit_tree_spec(leaves), index).subrange(32, 33),
            halve(index, 32),
        ),
    decreases 32 - h,
{
    if h < 32 {
        let proof_seq = deposit_proof_spec(deposit_tree_spec(leaves), index);
        let layer = tree_layer(leaves, h);
        let j = halve(index, h);
        lemma_ancestor_in_layer(leaves, index, h);
        lemma_parent_of(layer, h, j);
        assert(deposit_tree_spec(leaves)[h as int] == layer);
        assert(proof_seq.subrange(h as int, 33)[0] == sibling_node(layer, h, j));
        assert(proof_seq.subrange(h as int, 33).drop_first() =~= proof_seq.subrange(h + 1int, 33));
        lemma_fold_from(leaves, index, h + 1);
    } else {
        lemma_layer_len(leaves, 32);
        lemma_ancestor_in_layer(leaves, index, 32);
    }
}

/// Every leaf's proof verifies: folding the leaf at `index` with the proof
/// taken from the tree over `leaves`, bit by bit of `index`, gives the
/// tree's root.
pub proof fn lemma_deposit_proof_valid(leaves: Seq<Seq<u8>>, index: nat)
    requires
        1 <= leaves.len() <= MAX_DEPOSIT_LEAVES,
        index < leaves.len(),
    ensures
        deposit_proof_spec(deposit_tree_spec(leaves), index).len() == DEPOSIT_CONTRACT_TREE_DEPTH + 1,
        merkle_fold(leaves[index as int], deposit_proof_spec(deposit_tree_spec(leaves), index), index)
            == deposit_tree_spec(leaves)[33][0],
{
    lemma_two_pow_32();
    let proof_seq = deposit_proof_spec(deposit_tree_spec(leaves), index);
    let top = tree_layer(leaves, 32);
    let n = length_node(leaves.len());
    lemma_layer_len(leaves, 32);
    lemma_ancestor_in_layer(leaves, index, 32);
    lemma_fold_from(leaves, index, 0);
    assert(proof_seq.subrange(0, 33) =~= proof_seq);
    assert(halve(index, 32) == 0);
    assert(deposit_tree_spec(leaves)[32] == top.push(n));
    assert(proof_seq.subrange(32, 33)[0] == n);
    assert(proof_seq.subrange(32, 33).drop_first() =~= Seq::<Seq<u8>>::empty());
    let root = sha256_spec(top[0] + n);
    assert(merkle_fold(root, Seq::<Seq<u8>>::empty(), 0) == root);
    assert(merkle_fold(top[0], proof_seq.subrange(32, 33), 0) == root);
    assert(tree_layer(leaves, 0) == leaves);
    assert(halve(index, 0) == index);
}

/// The hashes of the empty subtrees of heights 0 to 31.
fn zero_hashes() -> (r: Vec<H256>)
    ensures
        r@.len() == 32,
        forall|k: int| 0 <= k < 32 ==> (#[trigger] r@[k])@ == zero_hash(k as nat),
{
    let mut z: Vec<H256> = Vec::new();
    let empty: H256 = [0u8; 32];
    proof {
        assert(empty@ =~= zero_hash(0));
    }
    z.push(empty);
    let mut layer: usize = 1;
    while layer < 32
        invariant
            1 <= layer <= 32,
            z@.len() == layer,
            forall|k: int| 0 <= k < layer ==> (#[trigger] z@[k])@ == zero_hash(k as nat),
        decreases 32 - layer,
    {
        let h = hash_pair(&z[layer - 1], &z[layer - 1]);
        z.push(h);
        layer = layer + 1;
    }
    z
}

/// A copy of a layer.
fn copy_layer(v: &[H256]) -> (r: Vec<H256>)
    ensures
        r@ == v@,
{
    let mut r: Vec<H256> = Vec::new();
    let mut i: usize = 0;
    while i < v.len()
        invariant
            i <= v@.len(),
            r@ == v@.subrange(0, i as int),
        decreases v@.len() - i,
    {
        r.push(v[i]);
        i = i + 1;
        proof {
            assert(r@ =~= v@.subrange(0, i as int));
        }
    }
    proof {
        assert(v@.subrange(0, v@.len() as int) =~= v@);
    }
    r
}

/// Builds the deposit tree over the leaves: the 32 layers below the top,
/// the top layer with the node that records the number of leaves, and the
/// root that mixes the two.
pub fn deposit_tree(leaves: &[H256]) -> (tree: Vec<Vec<H256>>)
    requires
        1 <= leaves@.len() <= MAX_DEPOSIT_LEAVES,
    ensures
        tree_views(tree@) == deposit_tree_spec(hash_views(leaves@)),
        tree@.len() == 34,
        tree@[32]@.len() == 2,
        tree@[33]@.len() == 1,
{
    let ghost l = hash_views(leaves@);
    proof {
        lemma_two_pow_32();
    }
    let zerohashes = zero_hashes();
    let mut values = copy_layer(leaves);
    let values_len = leaves.len();
    let mut tree: Vec<Vec<H256>> = Vec::new();
    tree.push(copy_layer(values.as_slice()));
    let mut h: usize = 0;
    while h < DEPOSIT_CONTRACT_TREE_DEPTH
        invariant
            h <= 32,
            1 <= l.len() <= two_pow(32),
            l == hash_views(leaves@),
            values_len == leaves@.len(),
            zerohashes@.len() == 32,
            forall|k: int| 0 <= k < 32 ==> (#[trigger] zerohashes@[k])@ == zero_hash(k as nat),
            hash_views(values@) == tree_layer(l, h as nat),
            tree@.len() == h + 1,
            forall|k: int| 0 <= k <= h ==> hash_views((#[trigger] tree@[k])@) == tree_layer(l, k as nat),
        decreases 32 - h,
    {
        let ghost layer = tree_layer(l, h as nat);
        if values.len() % 2 == 1 {
            values.push(zerohashes[h]);
        }
        let ghost p = padded(layer, h as nat);
        proof {
            assert(hash_views(values@) =~= p);
        }
        let mut new_values: Vec<H256> = Vec::new();
        let vlen = values.len();
        let half = vlen / 2;
        let mut i: usize = 0;
        while i < half
            invariant
                hash_views(values@) == p,
                vlen == values@.len(),
                half == values@.len() / 2,
                i <= half,
                new_values@.len() == i,
                forall|j: int| 0 <= j < i ==> (#[trigger] new_values@[j])@ == sha256_spec(p[2 * j] + p[2 * j + 1]),
            decreases half - i,
        {
            assert(i * 2 + 1 < values@.len());
            let x = hash_pair(&values[i * 2], &values[i * 2 + 1]);
            proof {
                assert(values@[i * 2]@ == p[2 * i]);
                assert(values@[i * 2 + 1]@ == p[2 * i + 1]);
            }
            new_values.push(x);
            i = i + 1;
        }
        values = new_values;
        proof {
            assert(hash_views(values@) =~= parent_layer(layer, h as nat));
        }
        tree.push(copy_layer(values.as_slice()));
        h = h + 1;
    }
    proof {
        lemma_layer_len(l, 32);
    }
    let length = to_bytes(values_len as u64);
    let mut top = tree.pop().unwrap();
    top.push(length);
    let root = hash_pair(&values[0], &length);
    tree.push(top);
    let mut last: Vec<H256> = Vec::new();
    last.push(root);
    tree.push(last);
    proof {
        let spec_tree = deposit_tree_spec(l);
        let t = tree_layer(l, 32);
        assert(hash_views(tree@[32]@) =~= t.push(length_node(l.len())));
        assert(hash_views(tree@[33]@) =~= seq![sha256_spec(t[0] + length_node(l.len()))]);
        assert forall|k: int| 0 <= k < 34 implies #[trigger] tree_views(tree@)[k] == spec_tree[k] by {
            if k < 32 {
                assert(tree_views(tree@)[k] == hash_views(tree@[k]@));
            }
        }
        assert(tree_views(tree@) =~= spec_tree);
        assert(hash_views(tree@[32]@).len() == tree@[32]@.len());
        assert(hash_views(tree@[33]@).len() == tree@[33]@.len());
    }
    tree
}

/// The root of a deposit tree: the one node of its last layer.
pub fn deposit_root(tree: &Vec<Vec<H256>>) -> (r: H256)
    requires
        tree@.len() > 0,
        tree@.last()@.len() > 0,
    ensures
        r == tree@.last()@[0],
{
    let last = tree.len() - 1;
    tree[last][0]
}

/// The proof for the leaf at `index`: the node paired with its ancestor in
/// each of the 32 lower layers, or the hash of an empty subtree where the
/// layer ends first, then the node that records the number of leaves.
pub fn deposit_proof(tree: &Vec<Vec<H256>>, item_index: usize) -> (proof: Vec<H256>)
    requires
        tree@.len() >= 33,
        tree@[32]@.len() >= 2,
    ensures
        hash_views(proof@) == deposit_proof_spec(tree_views(tree@), item_index as nat),
{
    let ghost t = tree_views(tree@);
    let zerohashes = zero_hashes();
    let mut proof: Vec<H256> = Vec::new();
    let mut index = item_index;
    let mut i: usize = 0;
    while i < DEPOSIT_CONTRACT_TREE_DEPTH
        invariant
            i <= 32,
            t == tree_views(tree@),
            tree@.len() >= 33,
            zerohashes@.len() == 32,
            forall|k: int| 0 <= k < 32 ==> (#[trigger] zerohashes@[k])@ == zero_hash(k as nat),
            index as nat == halve(item_index as nat, i as nat),
            proof@.len() == i,
            forall|k: int| 0 <= k < i ==> (#[trigger] proof@[k])@
                == sibling_node(t[k], k as nat, halve(item_index as nat, k as nat)),
        decreases 32 - i,
    {
        let subindex = index ^ 1;
        proof {
            assert(subindex == (if index % 2 == 0 { index + 1 } else { index - 1 })) by (bit_vector)
                requires
                    subindex == index ^ 1;
            assert(t[i as int] == hash_views(tree@[i as int]@));
        }
        if subindex < tree[i].len() {
            proof.push(tree[i][subindex]);
        } else {
            proof.push(zerohashes[i]);
        }
        index = index / 2;
        i = i + 1;
    }
    proof.push(tree[32][1]);
    proof {
        assert(t[32] == hash_views(tree@[32]@));
        assert(hash_views(proof@) =~= deposit_proof_spec(t, item_index as nat));
    }
    proof
}

} // verus!
