use shasper::pool::{own_attestation_bits, AttestationPool, PoolAttestation};

fn attestation(bits: &[bool], signature: u8) -> PoolAttestation {
    PoolAttestation {
        data: vec![7, 7],
        aggregation_bits: bits.to_vec(),
        custody_bits: vec![false; bits.len()],
        signature: vec![signature],
    }
}

#[test]
fn first_attestation_opens_its_root() {
    let mut pool = AttestationPool::new();
    assert!(pool.iter().is_empty());
    pool.push([1; 32], attestation(&[true, false], 1), None);
    let all = pool.iter();
    assert_eq!(all.len(), 1);
    assert_eq!(all[0].0, [1; 32]);
    assert_eq!(all[0].1.aggregation_bits, vec![true, false]);
    assert_eq!(all[0].1.signature, vec![1]);
}

#[test]
fn attestation_without_overlap_is_aggregated() {
    let mut pool = AttestationPool::new();
    pool.push([1; 32], attestation(&[true, false], 1), None);
    // none of the new bits is set: it is merged into the first one
    assert_eq!(pool.merge_target(&[1; 32], &[false, false]), Some(0));
    pool.push([1; 32], attestation(&[false, false], 2), Some(vec![1, 2]));
    let all = pool.iter();
    assert_eq!(all.len(), 1);
    assert_eq!(all[0].1.aggregation_bits, vec![true, false]);
    assert_eq!(all[0].1.custody_bits, vec![false, false]);
    assert_eq!(all[0].1.signature, vec![1, 2]);
}

#[test]
fn attestation_with_a_set_bit_is_kept_apart() {
    let mut pool = AttestationPool::new();
    pool.push([1; 32], attestation(&[true, false], 1), None);
    assert_eq!(pool.merge_target(&[1; 32], &[false, true]), None);
    pool.push([1; 32], attestation(&[false, true], 2), None);
    let all = pool.iter();
    assert_eq!(all.len(), 2);
    assert_eq!(all[1].1.aggregation_bits, vec![false, true]);
    assert_eq!(all[1].1.signature, vec![2]);
}

#[test]
fn roots_are_kept_apart_and_popped() {
    let mut pool = AttestationPool::new();
    pool.push([1; 32], attestation(&[true], 1), None);
    pool.push([2; 32], attestation(&[true], 2), None);
    assert_eq!(pool.merge_target(&[3; 32], &[true]), None);
    assert_eq!(pool.iter().len(), 2);
    pool.pop(&[1; 32]);
    let all = pool.iter();
    assert_eq!(all.len(), 1);
    assert_eq!(all[0].0, [2; 32]);
    pool.pop(&[9; 32]);
    assert_eq!(pool.iter().len(), 1);
}

#[test]
fn own_attestation_sets_the_first_position() {
    let (aggregation, custody) = own_attestation_bits(&[5, 9, 9, 3], 9);
    assert_eq!(aggregation, vec![false, true, false, false]);
    assert_eq!(custody, vec![false; 4]);
    let (aggregation, _) = own_attestation_bits(&[7], 7);
    assert_eq!(aggregation, vec![true]);
}

#[test]
fn pushing_keeps_every_signer_covered() {
    let mut pool = AttestationPool::new();
    pool.push([1; 32], attestation(&[true, false, false], 1), None);
    pool.push([1; 32], attestation(&[false, true, false], 2), None);
    pool.push([1; 32], attestation(&[false, false, false], 3), Some(vec![9]));
    let all = pool.iter();
    for bits in [[true, false, false], [false, true, false]] {
        assert!(all.iter().any(|(_, a)| (0..3).all(|i| !bits[i] || a.aggregation_bits[i])));
    }
}
