use hash_db::Hasher;
use keccak_hasher::KeccakHasher;
use shasper::committee::{committee_count, CommitteeProcess, ShuffleConfig, ShuffleUpdate};
use shasper::fork_choice::{process, FinalizationState, ImportRequest, SimplifiedTreeRoute, VoteCounts, VotedTreeRoute};
use shasper::randao::{RandaoCommitment, RandaoConfig, RandaoMix, RandaoOnion, RandaoProducer};

fn h(n: u8) -> [u8; 32] {
    [n; 32]
}

fn keccak(data: &[u8]) -> [u8; 32] {
    KeccakHasher::hash(data)
}

#[test]
fn justify_keeps_slots_ordered_and_finalize_prunes() {
    let mut state = FinalizationState { finalized: (0, h(0)), justified: Vec::new() };
    state.justify((5, h(5)));
    state.justify((3, h(3)));
    state.justify((5, h(6)));
    state.justify((4, h(4)));
    let slots: Vec<(u64, u8)> = state.justified.iter().map(|b| (b.0, b.1[0])).collect();
    assert_eq!(slots, vec![(3, 3), (4, 4), (5, 5), (5, 6)]);
    assert_eq!(state.justified_head(10, 4), (5, h(6)));
    assert_eq!(state.justified_head(8, 4), (0, h(0)));
    state.finalize((3, h(3)), vec![(5, h(5))]);
    assert_eq!(state.finalized, (3, h(3)));
    let slots: Vec<(u64, u8)> = state.justified.iter().map(|b| (b.0, b.1[0])).collect();
    assert_eq!(slots, vec![(4, 4), (5, 6)]);
}

#[test]
fn vote_counts_follow_routes() {
    let mut counts = VoteCounts::new();
    counts.import_target(&SimplifiedTreeRoute {
        retracted: vec![],
        common: (0, h(0), 0),
        enacted: vec![(1, h(1), 0), (2, h(2), 0)],
    });
    counts.import_target(&SimplifiedTreeRoute {
        retracted: vec![(2, h(2), 0)],
        common: (1, h(1), 0),
        enacted: vec![(2, h(3), 0)],
    });
    assert_eq!(counts.get(&h(1)), Some(1));
    assert_eq!(counts.get(&h(2)), Some(0));
    assert_eq!(counts.get(&h(3)), Some(1));
    assert_eq!(counts.get(&h(9)), None);
    let route = SimplifiedTreeRoute {
        retracted: vec![(2, h(2), 5)],
        common: (1, h(1), 0),
        enacted: vec![(2, h(3), 0), (3, h(4), 0)],
    };
    assert!(VotedTreeRoute { vote_counts: &counts, route }.is_new_best());
    let route = SimplifiedTreeRoute {
        retracted: vec![(2, h(7), 2)],
        common: (1, h(1), 0),
        enacted: vec![(2, h(3), 0)],
    };
    assert!(!VotedTreeRoute { vote_counts: &counts, route }.is_new_best());
    assert_eq!(counts.drain(), vec![(h(1), 1), (h(2), 0), (h(3), 1)]);
}

#[test]
fn process_refuses_routes_that_retract_the_justified_head() {
    let mut state = FinalizationState { finalized: (0, h(0)), justified: Vec::new() };
    let request = ImportRequest {
        new_attestation_targets: vec![SimplifiedTreeRoute {
            retracted: vec![],
            common: (0, h(0), 0),
            enacted: vec![(1, h(1), 0)],
        }],
        finalize: None,
        justify: Some((1, h(1))),
        route: SimplifiedTreeRoute { retracted: vec![(1, h(1), 9)], common: (0, h(0), 0), enacted: vec![(1, h(2), 0)] },
        current_slot: 64,
    };
    let response = process(&mut state, request, 32);
    assert!(!response.is_new_best);
    assert_eq!(response.updated_vote_counts, vec![(h(1), 1)]);
    assert_eq!(state.justified, vec![(1, h(1))]);

    let request = ImportRequest {
        new_attestation_targets: vec![],
        finalize: Some(((1, h(1)), vec![])),
        justify: None,
        route: SimplifiedTreeRoute { retracted: vec![(2, h(5), 0)], common: (1, h(1), 0), enacted: vec![(2, h(6), 0)] },
        current_slot: 65,
    };
    let response = process(&mut state, request, 32);
    assert!(response.is_new_best);
    assert!(response.updated_vote_counts.is_empty());
    assert_eq!(state.finalized, (1, h(1)));
    assert!(state.justified.is_empty());
}

#[test]
fn committees_cover_the_validators_in_order() {
    let config = ShuffleConfig { round: 0, target_committee_len: 2, shard_count: 4, split_count: 2 };
    assert_eq!(committee_count(8, &config), 4);
    assert_eq!(committee_count(1, &config), 2);
    let process = CommitteeProcess::new(8, h(1), config);
    assert_eq!(process.current_committees_at(0), vec![vec![0, 1], vec![2, 3]]);
    assert_eq!(process.current_committees_at(1), vec![vec![4, 5], vec![6, 7]]);
    assert_eq!(process.previous_committees_at(1), vec![vec![4, 5], vec![6, 7]]);
    let mut process = process;
    process.advance_epoch(ShuffleUpdate::SeedAndLen { current_seed: h(2), previous_seed: h(1), len: 6 });
    assert_eq!(process.current_len, 6);
    assert_eq!(process.previous_len, 8);
    assert_eq!(process.current_shard_offset, 2 % 4);
    assert_eq!(process.current_committees_at(1), vec![vec![3, 4, 5]]);
}

#[test]
fn randao_commitments_reveal_layers() {
    let secret = h(42);
    let once = keccak(&secret);
    let twice = keccak(&once);
    let mut commitment = RandaoCommitment::new(twice);
    assert!(!commitment.try_reveal(&secret, 1));
    assert_eq!(commitment.data, twice);
    assert!(commitment.try_reveal(&secret, 2));
    assert_eq!(commitment.data, secret);

    let onion = RandaoOnion::generate(secret, 2);
    assert_eq!(onion.data, vec![secret, once, twice]);
    let mut onion = onion;
    assert_eq!(onion.pop(1), Some(once));
    assert_eq!(onion.pop(0), Some(secret));
    assert_eq!(onion.pop(0), None);
}

#[test]
fn onion_layers_open_the_commitment_to_its_top() {
    let onion = RandaoOnion::generate(h(5), 3);
    for i in 0..=3usize {
        let mut commitment = RandaoCommitment::new(onion.data[3]);
        assert!(commitment.try_reveal(&onion.data[i], 3 - i));
        assert_eq!(commitment.data, onion.data[i]);
    }
}

#[test]
fn reveal_commitment_255_layers() {
    let secret = h(0);
    let mut layer = secret;
    for _ in 0..255 {
        layer = keccak(&layer);
    }
    let mut commitment = RandaoCommitment::new(layer);
    assert!(!commitment.try_reveal(&secret, 254));
    assert_eq!(commitment.data, layer);
    assert!(commitment.try_reveal(&secret, 255));
    assert_eq!(commitment.data, secret);
}

#[test]
fn randao_mix_and_producer() {
    let mut mix = RandaoMix::new(h(1));
    mix.mix(&h(3));
    assert_eq!(mix.get(), keccak(&h(2)));

    let mut producer = RandaoProducer::new(h(7), RandaoConfig { lookahead: 1 });
    assert_eq!(producer.current(), h(7));
    producer.advance_epoch(&h(9), false);
    let mut input = h(7).to_vec();
    input.extend_from_slice(&h(9));
    assert_eq!(producer.history[0], keccak(&input));
    assert_eq!(producer.offset, 1);
    assert_eq!(producer.current(), h(7));
    producer.advance_epoch(&h(9), true);
    assert_eq!(producer.offset, 0);
    assert_eq!(producer.history.len(), 3);
    assert_eq!(producer.current(), keccak(&input));
    assert_eq!(producer.previous(), h(7));
}

#[test]
fn previous_seed_is_the_one_current_an_epoch_before() {
    let mut producer = RandaoProducer::new(h(7), RandaoConfig { lookahead: 2 });
    assert_eq!(producer.previous(), h(7));
    for i in 0..5u8 {
        let before = producer.current();
        producer.advance_epoch(&h(i), true);
        assert_eq!(producer.previous(), before);
        assert_eq!(producer.history.len(), 4);
    }
}
