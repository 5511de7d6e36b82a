use shasper::attestation::CheckedAttestation;
use shasper::casper::{slashable, CasperContext};
use shasper::store::CasperStore;

fn attestation(validator_id: u64, source_epoch: u64, target_epoch: u64) -> CheckedAttestation {
    CheckedAttestation {
        slot: 0,
        source_epoch,
        target_epoch,
        validator_ids: vec![validator_id],
        is_slot_canon: true,
        is_source_canon: true,
        is_target_canon: true,
        inclusion_distance: 0,
    }
}

#[test]
fn four_epoch_with_four_validators() {
    let mut store = CasperStore::new();
    store.push_validator(0, 0, u64::MAX, 1);
    store.push_validator(1, 0, u64::MAX, 1);
    store.push_validator(2, 0, u64::MAX, 1);
    store.push_validator(3, 0, u64::MAX, 1);

    let mut casper = CasperContext::default();

    // Attesting on the zero round doesn't do anything, because it's already justified and finalized.
    store.epoch += 1;
    casper.advance_epoch(&mut store);

    // First round, four validators attest.
    store.pending_attestations.append(&mut vec![
        attestation(0, 0, 1),
        attestation(1, 0, 1),
        attestation(2, 0, 1),
        attestation(3, 0, 1),
    ]);
    store.epoch += 1;
    casper.advance_epoch(&mut store);
    assert_eq!(casper.epoch, 2);
    assert_eq!(casper.justified_epoch, 1);
    assert_eq!(casper.finalized_epoch, 0);

    // Second round, three validators attest.
    store.pending_attestations.append(&mut vec![
        attestation(0, 1, 2),
        attestation(1, 1, 2),
        attestation(2, 1, 2),
    ]);
    store.epoch += 1;
    casper.advance_epoch(&mut store);
    assert_eq!(casper.epoch, 3);
    assert_eq!(casper.justified_epoch, 2);
    assert_eq!(casper.finalized_epoch, 1);

    // Third round, three validators attest.
    store.pending_attestations.append(&mut vec![
        attestation(0, 2, 3),
        attestation(1, 2, 3),
        attestation(2, 2, 3),
    ]);
    store.epoch += 1;
    casper.advance_epoch(&mut store);
    assert_eq!(casper.epoch, 4);
    assert_eq!(casper.justified_epoch, 3);
    assert_eq!(casper.finalized_epoch, 2);

    // Fourth round, only two validators attest.
    store.pending_attestations.append(&mut vec![
        attestation(0, 3, 4),
        attestation(1, 3, 4),
    ]);
    store.epoch += 1;
    casper.advance_epoch(&mut store);
    assert_eq!(casper.epoch, 5);
    assert_eq!(casper.justified_epoch, 3);
    assert_eq!(casper.finalized_epoch, 2);
}

#[test]
fn advance_drops_attestations_of_past_targets() {
    let mut store = CasperStore::new();
    store.push_validator(0, 0, u64::MAX, 5);
    let mut casper = CasperContext::new(0);
    store.epoch = 1;
    casper.advance_epoch(&mut store);
    store.pending_attestations.push(attestation(0, 0, 1));
    store.epoch = 2;
    casper.advance_epoch(&mut store);
    assert_eq!(store.pending_attestations.len(), 1);
    store.epoch = 3;
    casper.advance_epoch(&mut store);
    assert_eq!(store.pending_attestations.len(), 0);
}

#[test]
fn slashable_finds_double_and_surround_votes() {
    let a = CheckedAttestation { validator_ids: vec![1, 2, 3], ..attestation(0, 0, 2) };
    let b = CheckedAttestation { validator_ids: vec![2, 3, 4], ..attestation(0, 1, 2) };
    assert_eq!(slashable(&a, &b), vec![2, 3]);
    let c = CheckedAttestation { validator_ids: vec![3], ..attestation(0, 1, 1) };
    let d = CheckedAttestation { validator_ids: vec![3], ..attestation(0, 0, 2) };
    assert_eq!(slashable(&c, &d), vec![3]);
    let e = CheckedAttestation { validator_ids: vec![3], ..attestation(0, 2, 3) };
    assert_eq!(slashable(&c, &e), Vec::<u64>::new());
}
