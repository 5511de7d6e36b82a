use shasper::latest::{highest_justified_leaf, LatestAttestations};

fn id(n: u8) -> [u8; 48] {
    [n; 48]
}

fn hash(n: u8) -> [u8; 32] {
    [n; 32]
}

#[test]
fn later_attestations_replace_earlier_ones() {
    let mut latest = LatestAttestations::new();
    latest.note_validator_attestation(id(1), 5, hash(1));
    assert_eq!(latest.get(&id(1)), Some((5, hash(1))));
    latest.note_validator_attestation(id(1), 7, hash(2));
    assert_eq!(latest.get(&id(1)), Some((7, hash(2))));
    // an older or equal slot does not replace
    latest.note_validator_attestation(id(1), 7, hash(3));
    latest.note_validator_attestation(id(1), 6, hash(4));
    assert_eq!(latest.get(&id(1)), Some((7, hash(2))));
    assert_eq!(latest.get(&id(2)), None);
    assert_eq!(latest.data.len(), 1);
}

#[test]
fn blocks_note_their_lists_in_order() {
    let mut latest = LatestAttestations::new();
    latest.note_block(None);
    assert!(latest.data.is_empty());
    let lists = vec![
        vec![(id(1), (3, hash(1))), (id(2), (3, hash(1)))],
        vec![(id(1), (3, hash(9))), (id(2), (4, hash(2)))],
    ];
    latest.note_block(Some(&lists));
    assert_eq!(latest.get(&id(1)), Some((3, hash(1))));
    assert_eq!(latest.get(&id(2)), Some((4, hash(2))));
}

#[test]
fn entries_read_back_with_later_ones_winning() {
    let latest = LatestAttestations::from_entries(&[
        (id(1), (9, hash(1))),
        (id(2), (1, hash(2))),
        (id(1), (2, hash(3))),
    ]);
    assert_eq!(latest.data.len(), 2);
    assert_eq!(latest.get(&id(1)), Some((2, hash(3))));
    assert_eq!(latest.get(&id(2)), Some((1, hash(2))));
}

#[test]
fn branches_are_scored_by_latest_attestations() {
    let mut latest = LatestAttestations::new();
    latest.note_validator_attestation(id(1), 1, hash(1));
    latest.note_validator_attestation(id(2), 1, hash(2));
    latest.note_validator_attestation(id(3), 2, hash(3));
    let current = [hash(1)];
    let new = [hash(2), hash(3)];
    assert_eq!(latest.score(&current), 1);
    assert_eq!(latest.score(&new), 2);
    assert_eq!(latest.score(&[]), 0);
    assert!(latest.is_new_best(&current, &new, 10, 1));
    assert!(!latest.is_new_best(&new, &current, 1, 10));
    // on a tie the height decides
    assert!(latest.is_new_best(&[hash(1)], &[hash(2)], 4, 4));
    assert!(!latest.is_new_best(&[hash(1)], &[hash(2)], 5, 4));
}

#[test]
fn highest_justified_leaf_takes_the_last_of_equals() {
    assert_eq!(highest_justified_leaf(&[]), None);
    let leaves = [(hash(1), 3), (hash(2), 5), (hash(3), 5), (hash(4), 1)];
    assert_eq!(highest_justified_leaf(&leaves), Some((hash(3), 5)));
}
