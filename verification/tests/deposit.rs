use sha2::Digest;
use shasper::deposit::{deposit_proof, deposit_root, deposit_tree};
use shasper::shuffle::is_valid_merkle_branch;

fn sha256(data: &[u8]) -> [u8; 32] {
    sha2::Sha256::digest(data).into()
}

fn hash2(a: &[u8; 32], b: &[u8; 32]) -> [u8; 32] {
    let mut both = a.to_vec();
    both.extend_from_slice(b);
    sha256(&both)
}

fn leaves(n: u8) -> Vec<[u8; 32]> {
    (0..n).map(|i| sha256(&[i])).collect()
}

#[test]
fn deposit_tree_has_its_layers() {
    let l = leaves(3);
    let tree = deposit_tree(&l);
    assert_eq!(tree.len(), 34);
    assert_eq!(tree[0], l);
    assert_eq!(tree[1].len(), 2);
    assert_eq!(tree[1][0], hash2(&l[0], &l[1]));
    assert_eq!(tree[1][1], hash2(&l[2], &[0u8; 32]));
    for h in 2..32 {
        assert_eq!(tree[h].len(), 1);
    }
    assert_eq!(tree[32].len(), 2);
    let mut length = [0u8; 32];
    length[0] = 3;
    assert_eq!(tree[32][1], length);
    assert_eq!(tree[33], vec![hash2(&tree[32][0], &length)]);
    assert_eq!(deposit_root(&tree), tree[33][0]);
}

#[test]
fn deposit_root_of_one_leaf() {
    let leaf = sha256(b"deposit");
    let tree = deposit_tree(&[leaf]);
    let mut zero = [0u8; 32];
    let mut node = leaf;
    for _ in 0..32 {
        node = hash2(&node, &zero);
        zero = hash2(&zero, &zero);
    }
    let mut length = [0u8; 32];
    length[0] = 1;
    assert_eq!(deposit_root(&tree), hash2(&node, &length));
}

#[test]
fn every_deposit_proof_verifies() {
    for n in 1..=6u8 {
        let l = leaves(n);
        let tree = deposit_tree(&l);
        let root = deposit_root(&tree);
        for (index, leaf) in l.iter().enumerate() {
            let proof = deposit_proof(&tree, index);
            assert_eq!(proof.len(), 33);
            assert!(is_valid_merkle_branch(*leaf, &proof, 33, index as u64, root));
            assert!(!is_valid_merkle_branch(sha256(b"other"), &proof, 33, index as u64, root));
        }
    }
}

#[test]
fn deposit_proof_uses_empty_subtrees_past_the_end() {
    let l = leaves(1);
    let tree = deposit_tree(&l);
    let proof = deposit_proof(&tree, 0);
    let mut zero = [0u8; 32];
    for i in 0..32 {
        assert_eq!(proof[i], zero);
        zero = hash2(&zero, &zero);
    }
    let mut length = [0u8; 32];
    length[0] = 1;
    assert_eq!(proof[32], length);
}
