use shasper::archive::{ArchiveGhost, ArchiveGhostImporter};
use shasper::backend::{NoCacheAncestorQuery, ShasperBackend};
use shasper::chain::{ChainStore, Error};
use shasper::handler::{BeaconBlocksRequest, Handler};

// 0 - 1 - 2 - 3
//      \
//       4 - 5
fn tree() -> ChainStore {
    let mut store = ChainStore::new_with_genesis(0, 0);
    store.import_block(1, 0, 1).unwrap();
    store.import_block(2, 1, 2).unwrap();
    store.import_block(3, 2, 3).unwrap();
    store.import_block(4, 1, 5).unwrap();
    store.import_block(5, 4, 6).unwrap();
    store
}

#[test]
fn import_checks_ids_and_parents() {
    let mut store = tree();
    assert_eq!(store.import_block(3, 0, 9), Err(Error::InvalidOperation));
    assert_eq!(store.import_block(9, 42, 9), Err(Error::NotExist));
    assert_eq!(store.depth_at(5), Ok(3));
    assert_eq!(store.children_at(1), Ok(vec![2, 4]));
    assert_eq!(store.children_at(7), Err(Error::NotExist));
}

#[test]
fn set_head_makes_the_ancestry_canonical() {
    let mut store = tree();
    assert_eq!(store.head(), 0);
    store.set_head(5).unwrap();
    assert_eq!(store.head(), 5);
    assert_eq!(store.lookup_canon_depth(0), Some(0));
    assert_eq!(store.lookup_canon_depth(1), Some(1));
    assert_eq!(store.lookup_canon_depth(2), Some(4));
    assert_eq!(store.lookup_canon_depth(3), Some(5));
    assert_eq!(store.lookup_canon_depth(4), None);
    assert_eq!(store.is_canon(4), Ok(true));
    assert_eq!(store.is_canon(2), Ok(false));
    assert_eq!(store.set_head(8), Err(Error::NotExist));
    assert_eq!(store.head(), 5);
}

#[test]
fn ancestor_queries_walk_parents() {
    let store = tree();
    let query = NoCacheAncestorQuery::new(&store);
    assert_eq!(query.ancestor_at(5, 1), Ok(1));
    assert_eq!(query.ancestor_at(5, 2), Ok(4));
    assert_eq!(query.ancestor_at(5, 7), Ok(5));
    assert_eq!(query.ancestor_at(3, 0), Ok(0));
    assert_eq!(query.ancestor_at(9, 0), Err(Error::NotExist));
    let backend = ShasperBackend::new(tree());
    assert_eq!(backend.ancestor_at(3, 1), Ok(1));
    assert_eq!(backend.genesis(), 0);
}

#[test]
fn handler_serves_canonical_blocks() {
    let mut store = tree();
    store.set_head(3).unwrap();
    let handler = Handler::new(ShasperBackend::new(store));
    let blocks = handler.blocks_by_depth(1, 10);
    assert_eq!(blocks.iter().map(|b| b.id).collect::<Vec<_>>(), vec![1, 2, 3]);
    let blocks = handler.blocks_by_depth(0, 2);
    assert_eq!(blocks.iter().map(|b| b.id).collect::<Vec<_>>(), vec![0, 1]);
    assert!(handler.blocks_by_depth(7, 2).is_empty());
    let blocks = handler.blocks_by_slot(2, 2, 5);
    assert_eq!(blocks.iter().map(|b| b.id).collect::<Vec<_>>(), vec![2, 3]);
    assert!(handler.blocks_by_slot(2, 3, 5).is_empty());
    assert!(handler.blocks_by_slot(4, 5, 5).is_empty());
    assert_eq!(
        handler.head_request(8),
        BeaconBlocksRequest { head_block_root: 3, start_slot: 3, count: 8, step: 1 }
    );
}

#[test]
fn archive_ghost_follows_the_votes() {
    let mut ghost = ArchiveGhost::new(ShasperBackend::new(tree()));
    assert_eq!(ghost.head(0), Ok(3));
    ghost.update_overlay(10, 5);
    ghost.update_overlay(11, 5);
    ghost.update_overlay(12, 3);
    assert_eq!(ghost.vote_count(4, 2), Ok(2));
    assert_eq!(ghost.vote_count(1, 1), Ok(3));
    assert_eq!(ghost.head(0), Ok(5));
    ghost.commit_overlay();
    assert_eq!(ghost.overlayed_votes.len(), 0);
    assert_eq!(ghost.head(0), Ok(5));
    ghost.update_overlay(10, 3);
    assert_eq!(ghost.head(1), Ok(3));
    ghost.reset_overlay();
    assert_eq!(ghost.head(1), Ok(5));
    ghost.update_active(&[12]);
    assert_eq!(ghost.votes, vec![(12, 3)]);
    assert_eq!(ghost.head(1), Ok(3));
    ghost.update_overlay(13, 77);
    assert_eq!(ghost.vote_count(1, 1), Err(Error::NotExist));
    assert_eq!(ghost.head(1), Err(Error::NotExist));
    assert_eq!(ghost.head(3), Ok(3));
    assert_eq!(ghost.head(99), Err(Error::NotExist));
}

#[test]
fn importer_moves_the_head_to_the_votes() {
    let mut importer = ArchiveGhostImporter::new(ShasperBackend::new(ChainStore::new_with_genesis(0, 0)));
    assert_eq!(importer.import_raw(1, 0, 1, &[10], None, &[(10, 1)]), Ok(()));
    assert_eq!(importer.fork_choice.backend.head(), 1);
    assert_eq!(importer.fork_choice.votes, vec![(10, 1)]);
    assert!(importer.fork_choice.overlayed_votes.is_empty());
    // a branch without votes does not take the head
    assert_eq!(importer.import_raw(2, 0, 1, &[10], None, &[]), Ok(()));
    assert_eq!(importer.fork_choice.backend.head(), 1);
    // two votes below block 2 outweigh the one on block 1
    assert_eq!(importer.import_raw(3, 2, 2, &[10, 11, 12], Some(0), &[(11, 3), (12, 3)]), Ok(()));
    assert_eq!(importer.fork_choice.backend.head(), 3);
    assert_eq!(importer.fork_choice.votes, vec![(10, 1), (11, 3), (12, 3)]);
}

#[test]
fn importer_refuses_known_blocks_and_unknown_parents() {
    let mut importer = ArchiveGhostImporter::new(ShasperBackend::new(ChainStore::new_with_genesis(0, 0)));
    assert_eq!(importer.import_raw(0, 0, 1, &[], None, &[(1, 0)]), Err(Error::InvalidOperation));
    assert_eq!(importer.import_raw(5, 4, 1, &[], None, &[(1, 0)]), Err(Error::NotExist));
    assert!(importer.fork_choice.overlayed_votes.is_empty());
    assert_eq!(importer.fork_choice.backend.head(), 0);
}

#[test]
fn importer_drops_the_votes_when_the_justified_block_is_unknown() {
    let mut importer = ArchiveGhostImporter::new(ShasperBackend::new(ChainStore::new_with_genesis(0, 0)));
    assert_eq!(importer.import_raw(1, 0, 1, &[7], Some(99), &[(7, 1)]), Err(Error::NotExist));
    assert!(importer.fork_choice.overlayed_votes.is_empty());
    assert!(importer.fork_choice.votes.is_empty());
    assert_eq!(importer.fork_choice.backend.contains(1), Ok(true));
    assert_eq!(importer.fork_choice.backend.head(), 0);
}

#[test]
fn committing_the_overlay_keeps_vote_counts() {
    let mut ghost = ArchiveGhost::new(ShasperBackend::new(tree()));
    ghost.update_overlay(10, 5);
    ghost.update_overlay(11, 3);
    ghost.commit_overlay();
    ghost.update_overlay(10, 2);
    ghost.update_overlay(12, 4);
    let blocks = [(0, 0), (1, 1), (2, 2), (4, 2), (3, 3), (5, 3)];
    let before: Vec<_> = blocks.iter().map(|&(b, d)| ghost.vote_count(b, d)).collect();
    ghost.commit_overlay();
    let after: Vec<_> = blocks.iter().map(|&(b, d)| ghost.vote_count(b, d)).collect();
    assert_eq!(before, after);
    assert_eq!(after[3], Ok(1));
}
