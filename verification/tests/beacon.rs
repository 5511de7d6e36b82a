use sha2::Digest;
use shasper::isqrt::{integer_sqrt, integer_squareroot};
use shasper::order::compare_hash;
use shasper::shuffle::{compute_committee, is_valid_merkle_branch, shuffled_index, Error};
use shasper::utils::{bls_domain, to_bytes, to_uint, to_usize};
use std::cmp::Ordering;

fn sha256(data: &[u8]) -> [u8; 32] {
    sha2::Sha256::digest(data).into()
}

#[test]
fn to_bytes_is_little_endian_and_padded() {
    let b = to_bytes(0x0102);
    assert_eq!(b[0], 0x02);
    assert_eq!(b[1], 0x01);
    assert!(b[2..].iter().all(|x| *x == 0));
}

#[test]
fn to_uint_reads_back_to_bytes() {
    for v in [0u64, 1, 255, 256, 0xdead_beef, u64::MAX] {
        let b = to_bytes(v);
        assert_eq!(to_uint(&b[..8]), v);
        assert_eq!(to_usize(&b[..8]), v as usize);
    }
}

#[test]
fn integer_squareroot_values() {
    assert_eq!(integer_squareroot(0), 0);
    assert_eq!(integer_squareroot(1), 1);
    assert_eq!(integer_squareroot(15), 3);
    assert_eq!(integer_squareroot(16), 4);
    assert_eq!(integer_squareroot(17), 4);
    assert_eq!(integer_squareroot(u64::MAX - 1), 4294967295);
    assert_eq!(integer_sqrt(1_000_000), 1000);
    assert_eq!(integer_sqrt(999_999), 999);
}

#[test]
fn bls_domain_puts_fork_version_above_domain_type() {
    assert_eq!(bls_domain(1, [0, 0, 0, 0]), 1);
    assert_eq!(bls_domain(0x1_0000_0002, [1, 0, 0, 0]), 0x1_0000_0002);
    assert_eq!(bls_domain(3, [0, 1, 0, 0]), 3 + (1u64 << 40));
}

#[test]
fn compare_hash_is_lexicographic() {
    let mut a = [0u8; 32];
    let mut b = [0u8; 32];
    assert_eq!(compare_hash(&a, &b), Ordering::Equal);
    a[31] = 1;
    assert_eq!(compare_hash(&a, &b), Ordering::Greater);
    b[0] = 1;
    assert_eq!(compare_hash(&a, &b), Ordering::Less);
}

#[test]
fn shuffled_index_is_a_permutation() {
    let seed = sha256(b"seed");
    let count = 17u64;
    let mut seen = vec![false; count as usize];
    for i in 0..count {
        let j = shuffled_index(i, count, seed, 10).unwrap();
        assert!(j < count);
        assert!(!seen[j as usize]);
        seen[j as usize] = true;
    }
    assert_eq!(shuffled_index(count, count, seed, 10), Err(Error::IndexOutOfRange));
    assert_eq!(shuffled_index(3, count, seed, 0), Ok(3));
}

#[test]
fn compute_committee_splits_the_shuffle() {
    let seed = sha256(b"committee");
    let indices: Vec<u64> = (100..110).collect();
    let mut all = Vec::new();
    for k in 0..3 {
        all.extend(compute_committee(&indices, seed, k, 3, 5).unwrap());
    }
    all.sort();
    assert_eq!(all, indices);
    let first = compute_committee(&indices, seed, 0, 3, 5).unwrap();
    assert_eq!(first.len(), 3);
    assert_eq!(first[0], indices[shuffled_index(0, 10, seed, 5).unwrap() as usize]);
}

#[test]
fn merkle_branch_of_two_leaves() {
    let left = sha256(b"left");
    let right = sha256(b"right");
    let mut both = left.to_vec();
    both.extend_from_slice(&right);
    let root = sha256(&both);
    assert!(is_valid_merkle_branch(left, &[right], 1, 0, root));
    assert!(is_valid_merkle_branch(right, &[left], 1, 1, root));
    assert!(!is_valid_merkle_branch(left, &[right], 1, 1, root));
    assert!(!is_valid_merkle_branch(left, &[right], 2, 0, root));
}

#[test]
fn to_usize_reads_a_machine_word() {
    let bytes = [1u8, 2, 0, 0, 0, 0, 0, 0];
    assert_eq!(to_usize(&bytes[..core::mem::size_of::<usize>()]), 513);
}
