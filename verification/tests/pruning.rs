use shasper::chain::ChainStore;
use shasper::log2::log2;
use shasper::pruning::{AncestorCache, PruningGhost};

#[test]
fn test_log2() {
    assert_eq!(log2(1), Some(0));
    assert_eq!(log2(2), Some(1));
    assert_eq!(log2(4), Some(2));
}

#[test]
fn log2_rounds_down_and_refuses_zero() {
    assert_eq!(log2(0), None);
    assert_eq!(log2(3), Some(1));
    assert_eq!(log2(7), Some(2));
    assert_eq!(log2(8), Some(3));
    assert_eq!(log2(usize::MAX), Some(usize::BITS as usize - 1));
}

#[test]
fn test_ancestor_cache() {
    let mut cache = AncestorCache::new();

    cache.push_block(1, 1, None);
    cache.push_block(2, 2, Some(1));
    assert_eq!(cache.lookup(&2, 2, 2), Some(2));
    cache.push_block(3, 3, Some(2));
    assert_eq!(cache.lookup(&3, 3, 2), Some(2));
    assert_eq!(cache.lookup(&3, 3, 1), Some(1));
    assert_eq!(cache.lookup(&3, 3, 0), None);
}

#[test]
fn test_ghost() {
    let mut backend = ChainStore::new_with_genesis(0, 0);
    let mut ghost = PruningGhost::new();

    backend.import_block(1, 0, 1).unwrap();
    backend.import_block(2, 1, 2).unwrap();
    backend.import_block(3, 2, 3).unwrap();
    backend.import_block(4, 1, 2).unwrap();
    ghost.ancestor_cache().push_block(1, 1, Some(0));
    ghost.ancestor_cache().push_block(2, 2, Some(1));
    ghost.ancestor_cache().push_block(3, 3, Some(2));
    ghost.ancestor_cache().push_block(4, 2, Some(1));

    ghost.apply_scores(&[((3, 3), 2), ((4, 2), 1)]);

    assert_eq!(ghost.head(&backend, &1, 1).unwrap(), 3);

    ghost.apply_scores(&[((3, 3), -1), ((4, 2), 1)]);

    assert_eq!(ghost.head(&backend, &1, 1).unwrap(), 4);
}

#[test]
fn lookups_are_cached_and_pruning_keeps_recent_answers() {
    let mut cache = AncestorCache::new();
    cache.push_block(1, 1, None);
    cache.push_block(2, 2, Some(1));
    cache.push_block(3, 3, Some(2));
    cache.push_block(4, 4, Some(3));
    assert_eq!(cache.lookup(&4, 4, 1), Some(1));
    assert_eq!(cache.cache.get((4, 1)), Some(Some(1)));
    assert_eq!(cache.lookup(&4, 4, 5), None);
    cache.prune(2);
    assert_eq!(cache.min_depth(), 2);
    assert_eq!(cache.cache.get((4, 1)), None);
    assert_eq!(cache.blocks.len(), 6);
    assert_eq!(cache.lookup(&4, 4, 2), Some(2));
}

#[test]
fn scores_drop_when_they_reach_zero() {
    let mut ghost = PruningGhost::new();
    ghost.ancestor_cache().push_block(1, 1, None);
    ghost.apply_scores(&[((1, 1), 3)]);
    assert_eq!(ghost.latest_scores.get((1, 1)), Some(3));
    assert_eq!(ghost.vote_count(&1, 1), 3);
    ghost.apply_scores(&[((1, 1), -3)]);
    assert_eq!(ghost.latest_scores.get((1, 1)), None);
    assert_eq!(ghost.vote_count(&1, 1), 0);
}

#[test]
fn chain_lookups_follow_parent_links() {
    let mut cache = AncestorCache::new();
    let ids: Vec<u64> = (0..40u64).map(|j| 1000 + 7 * j).collect();
    for (j, id) in ids.iter().enumerate() {
        let parent = if j == 0 { None } else { Some(ids[j - 1]) };
        cache.push_block(*id, j + 1, parent);
    }
    for round in 0..2 {
        for j in 0..ids.len() {
            for t in 0..=(j + 1) {
                let expected = if t >= 1 { Some(ids[t - 1]) } else { None };
                assert_eq!(cache.lookup(&ids[j], j + 1, t), expected, "round {} block {} depth {}", round, j, t);
            }
        }
    }
}

#[test]
fn score_changes_move_vote_counts_of_ancestors() {
    let mut ghost = PruningGhost::new();
    ghost.ancestor_cache().push_block(1, 1, None);
    ghost.ancestor_cache().push_block(2, 2, Some(1));
    ghost.ancestor_cache().push_block(3, 3, Some(2));
    ghost.ancestor_cache().push_block(4, 2, Some(1));
    ghost.apply_scores(&[((3, 3), 5), ((4, 2), 2)]);
    let before_1 = ghost.vote_count(&1, 1);
    let before_2 = ghost.vote_count(&2, 2);
    let before_4 = ghost.vote_count(&4, 2);
    assert_eq!((before_1, before_2, before_4), (7, 5, 2));
    ghost.apply_scores(&[((3, 3), -2), ((4, 2), 3), ((2, 2), 1)]);
    assert_eq!(ghost.vote_count(&1, 1), before_1 - 2 + 3 + 1);
    assert_eq!(ghost.vote_count(&2, 2), before_2 - 2 + 1);
    assert_eq!(ghost.vote_count(&4, 2), before_4 + 3);
    assert_eq!(ghost.vote_count(&3, 3), 3);
}

#[test]
fn a_new_block_finds_itself_and_its_parent() {
    let mut cache = AncestorCache::new();
    cache.push_block(10, 1, None);
    assert_eq!(cache.lookup(&10, 1, 1), Some(10));
    assert_eq!(cache.lookup(&10, 1, 0), None);
    cache.push_block(11, 2, Some(10));
    cache.push_block(12, 2, Some(10));
    cache.push_block(13, 3, Some(12));
    assert_eq!(cache.lookup(&13, 3, 3), Some(13));
    assert_eq!(cache.lookup(&13, 3, 2), Some(12));
    assert_eq!(cache.lookup(&11, 2, 1), Some(10));
    cache.prune(2);
    cache.push_block(14, 4, Some(13));
    assert_eq!(cache.lookup(&14, 4, 4), Some(14));
    assert_eq!(cache.lookup(&14, 4, 3), Some(13));
}
