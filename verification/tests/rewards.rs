use shasper::attestation::CheckedAttestation;
use shasper::casper::CasperContext;
use shasper::reward::{
    beacon_rewards, casper_rewards, combined_validators, default_scheme_penalties, default_scheme_rewards,
    BeaconRewardType, CasperRewardType, DefaultSchemeConfig, RewardAction,
};
use shasper::store::CasperStore;

fn att(ids: Vec<u64>, target_epoch: u64, slot_canon: bool, target_canon: bool, distance: u64) -> CheckedAttestation {
    CheckedAttestation {
        slot: 0,
        source_epoch: 0,
        target_epoch,
        validator_ids: ids,
        is_slot_canon: slot_canon,
        is_source_canon: true,
        is_target_canon: target_canon,
        inclusion_distance: distance,
    }
}

fn store() -> CasperStore {
    let mut store = CasperStore::new();
    store.push_validator(0, 0, 10, 1_000_000);
    store.push_validator(1, 0, 10, 1_000_000);
    store.push_validator(2, 0, 10, 4_000_000);
    store.epoch = 3;
    store.pending_attestations.push(att(vec![0, 1], 2, true, false, 2));
    store.pending_attestations.push(att(vec![2], 2, false, true, 1));
    store.pending_attestations.push(att(vec![1], 3, true, true, 1));
    store
}

fn config() -> DefaultSchemeConfig {
    DefaultSchemeConfig {
        base_reward_quotient: 4,
        inactivity_penalty_quotient: 1_000,
        includer_reward_quotient: 8,
        min_attestation_inclusion_delay: 1,
        whistleblower_reward_quotient: 10,
    }
}

#[test]
fn beacon_rewards_of_the_previous_epoch() {
    let rewards = beacon_rewards(&store());
    assert_eq!(
        rewards,
        vec![
            (0, BeaconRewardType::InclusionDistance(2)),
            (1, BeaconRewardType::InclusionDistance(2)),
            (0, BeaconRewardType::ExpectedHead),
            (1, BeaconRewardType::ExpectedHead),
            (2, BeaconRewardType::InclusionDistance(1)),
            (2, BeaconRewardType::NoExpectedHead),
        ]
    );
}

#[test]
fn casper_rewards_of_the_previous_epoch() {
    let mut context = CasperContext::new(0);
    context.epoch = 3;
    let rewards = casper_rewards(&context, &store());
    assert_eq!(
        rewards,
        vec![
            (0, CasperRewardType::ExpectedSource),
            (1, CasperRewardType::ExpectedSource),
            (2, CasperRewardType::ExpectedSource),
            (2, CasperRewardType::ExpectedTarget),
            (0, CasperRewardType::NoExpectedTarget),
            (1, CasperRewardType::NoExpectedTarget),
        ]
    );
    let heads = combined_validators(&rewards, &CasperRewardType::ExpectedTarget, &CasperRewardType::NoExpectedTarget);
    assert_eq!(heads, vec![2, 0, 1]);
}

#[test]
fn default_scheme_near_finality() {
    let store = store();
    let beacon = beacon_rewards(&store);
    let mut context = CasperContext::new(0);
    context.epoch = 3;
    let casper = casper_rewards(&context, &store);
    let actions = default_scheme_rewards(&store, &beacon, &casper, 1, &config());
    // Total balance 6_000_000, square root 2449, over 4 is 612: base rewards
    // are a fifth of the balance over 612.
    let b0 = 1_000_000u128 / 612 / 5;
    let b2 = 4_000_000u128 / 612 / 5;
    assert_eq!(actions[0], (0, RewardAction::Add(b0 / 1 / 2)));
    assert_eq!(actions[2], (0, RewardAction::Add(b0 * 6_000_000 / 6_000_000)));
    assert_eq!(actions[4], (2, RewardAction::Add(b2)));
    assert_eq!(actions[5], (2, RewardAction::Sub(b2)));
    assert_eq!(actions[6], (0, RewardAction::Add(b0 * 6_000_000 / 6_000_000)));
    assert_eq!(actions.len(), beacon.len() + casper.len());
}

#[test]
fn default_scheme_far_from_finality() {
    let store = store();
    let beacon = beacon_rewards(&store);
    let mut context = CasperContext::new(0);
    context.epoch = 3;
    let casper = casper_rewards(&context, &store);
    let actions = default_scheme_rewards(&store, &beacon, &casper, 8, &config());
    let b2 = 4_000_000u128 / 612 / 5;
    let inactivity2 = b2 + 4_000_000u128 * 8 / 1_000 / 2;
    let b0 = 1_000_000u128 / 612 / 5;
    assert_eq!(actions[0], (0, RewardAction::Sub(b0 - b0 * 1 / 2)));
    assert!(actions.contains(&(2, RewardAction::Sub(inactivity2))));
    assert_eq!(actions.len(), 4);
}

#[test]
fn penalties_reward_the_whistleblower() {
    let store = store();
    let actions = default_scheme_penalties(&store, 9, &[2], 1, &config());
    assert_eq!(actions, vec![(9, RewardAction::Add(400_000)), (2, RewardAction::Penalize(400_000))]);
    let actions = default_scheme_penalties(&store, 9, &[2], 5, &config());
    let base = 1_000_000u128 / 612 / 5;
    let penalty = (base + 1_000_000u128 * 5 / 1_000 / 2) * 2 + base;
    assert_eq!(actions.len(), 4);
    assert_eq!(actions[2], (0, RewardAction::Sub(penalty)));
    assert_eq!(actions[3], (1, RewardAction::Sub(penalty)));
}
