use shasper::builder::{applied_attestations, attestation_for, proposer_key, ApplyOutcome, Checkpoint};
use shasper::dispatch::{on_network_event, on_sync_event, NetAction, NetEvent, SyncRequest};
use shasper::handler::BeaconBlocksRequest;
use shasper::messages::{GoodbyeReason, HelloMessage, RPCRequest, RPCResponse};

fn h(n: u8) -> [u8; 32] {
    [n; 32]
}

fn source() -> Checkpoint {
    Checkpoint { epoch: 3, root: h(3) }
}

#[test]
fn attestation_targets_the_head_at_the_epoch_start() {
    let (data, aggregation, custody) =
        attestation_for(16, 2, 16, h(1), h(2), h(9), source(), Some((16, 4, vec![8, 5, 7])), 5).unwrap();
    assert_eq!(data.target, Checkpoint { epoch: 2, root: h(1) });
    assert_eq!(data.source, source());
    assert_eq!(data.beacon_block_root, h(2));
    assert_eq!((data.slot, data.index), (16, 4));
    assert_eq!(aggregation, vec![false, true, false]);
    assert_eq!(custody, vec![false; 3]);
}

#[test]
fn attestation_targets_the_epoch_block_later_in_the_epoch() {
    let (data, _, _) = attestation_for(17, 2, 16, h(1), h(2), h(9), source(), Some((17, 0, vec![5])), 5).unwrap();
    assert_eq!(data.target.root, h(9));
}

#[test]
fn no_attestation_without_a_current_assignment() {
    assert!(attestation_for(17, 2, 16, h(1), h(2), h(9), source(), None, 5).is_none());
    assert!(attestation_for(17, 2, 16, h(1), h(2), h(9), source(), Some((18, 0, vec![5])), 5).is_none());
    assert!(attestation_for(17, 2, 16, h(1), h(2), h(9), source(), Some((17, 0, vec![6])), 5).is_none());
}

#[test]
fn only_applied_attestations_leave_the_pool() {
    let outcomes = [
        (h(1), ApplyOutcome::Applied),
        (h(2), ApplyOutcome::SubmittedTooQuickly),
        (h(3), ApplyOutcome::Refused),
        (h(4), ApplyOutcome::Applied),
    ];
    assert_eq!(applied_attestations(&outcomes), vec![h(1), h(4)]);
    assert!(applied_attestations(&[]).is_empty());
}

#[test]
fn proposer_key_is_found_by_its_public_key() {
    let keys = vec![([1u8; 48], vec![10u8, 11]), ([2u8; 48], vec![20u8])];
    assert_eq!(proposer_key(&keys, &[2u8; 48]), Some(vec![20]));
    assert_eq!(proposer_key(&keys, &[3u8; 48]), None);
}

fn hello(slot: u64) -> HelloMessage {
    HelloMessage { fork_version: [0; 4], finalized_root: h(0), finalized_epoch: 0, head_root: h(1), head_slot: slot }
}

#[test]
fn network_events_become_actions() {
    let a = on_network_event(NetEvent::Request(7, 3, RPCRequest::Hello(hello(5))));
    assert_eq!(a.len(), 2);
    assert!(matches!(a[0], NetAction::RespondStatus { peer: 7, request_id: 3 }));
    assert!(matches!(a[1], NetAction::NotePeerStatus(7, m) if m.head_slot == 5));

    let request = BeaconBlocksRequest { head_block_root: 4, start_slot: 9, count: 20, step: 1 };
    let a = on_network_event(NetEvent::Request(7, 4, RPCRequest::BeaconBlocks(request)));
    assert!(matches!(a[..], [NetAction::RespondBlocksBySlot { peer: 7, request_id: 4, head_block_root: 4, start_slot: 9, count: 1 }]));

    let a = on_network_event(NetEvent::Response(7, 0, RPCResponse::BeaconBlocks(vec![1, 2])));
    assert!(matches!(&a[..], [NetAction::NoteBlocks(7, b)] if *b == vec![1, 2]));
    let a = on_network_event(NetEvent::Response(7, 0, RPCResponse::Hello(hello(2))));
    assert!(matches!(a[..], [NetAction::NotePeerStatus(7, _)]));
    assert!(matches!(on_network_event(NetEvent::PeerDialed(1))[..], [NetAction::NoteConnected(1)]));
    assert!(matches!(on_network_event(NetEvent::PeerDisconnected(1))[..], [NetAction::NoteDisconnected(1)]));
    let a = on_network_event(NetEvent::Request(7, 0, RPCRequest::Goodbye(GoodbyeReason::Fault)));
    assert!(matches!(a[..], [NetAction::Unhandled(7)]));
    assert!(matches!(on_network_event(NetEvent::Pubsub(2))[..], [NetAction::Unhandled(2)]));
}

#[test]
fn sync_queries_become_actions() {
    assert!(matches!(on_sync_event(SyncRequest::QueryStatus, hello(4)), NetAction::NoteStatus(m) if m.head_slot == 4));
    assert!(matches!(on_sync_event(SyncRequest::QueryPeerStatus(3), hello(4)), NetAction::RequestStatus(3, _)));
    assert!(matches!(on_sync_event(SyncRequest::QueryBlocks(3), hello(4)), NetAction::RequestHeadBlocks(3, 50)));
}
