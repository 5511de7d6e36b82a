//! The networking decisions of the simple sync, event by event: how an RPC
//! request is answered, what is handed to the sync, and what the sync's
//! queries turn into. The caller performs the actions.

use vstd::prelude::*;
use crate::messages::{HelloMessage, RPCRequest, RPCResponse};

verus! {

/// A peer, by the handle the caller gives it.
pub type PeerHandle = u64;

/// An event of the network service.
#[derive(Debug)]
pub enum NetEvent {
    /// A peer was dialed.
    PeerDialed(PeerHandle),
    /// A peer disconnected.
    PeerDisconnected(PeerHandle),
    /// A gossip message arrived.
    Pubsub(PeerHandle),
    /// A peer sent an RPC request.
    Request(PeerHandle, u64, RPCRequest),
    /// A peer answered an RPC request.
    Response(PeerHandle, u64, RPCResponse),
    /// An RPC event of any other kind.
    OtherRpc(PeerHandle),
}

/// What the sync asks of the network.
#[derive(Clone, Copy, Debug, PartialEq, Eq, Structural)]
pub enum SyncRequest {
    /// Refresh our own status.
    QueryStatus,
    /// Ask a peer for its status.
    QueryPeerStatus(PeerHandle),
    /// Ask a peer for blocks after our head.
    QueryBlocks(PeerHandle),
}

/// An action for the caller to perform.
#[derive(Debug)]
pub enum NetAction {
    /// Tell the sync a peer connected.
    NoteConnected(PeerHandle),
    /// Tell the sync a peer disconnected.
    NoteDisconnected(PeerHandle),
    /// Answer a request with our status.
    RespondStatus { peer: PeerHandle, request_id: u64 },
    /// Answer a request with `count` canonical blocks from `start_slot` on,
    /// starting at the block `head_block_root`.
    RespondBlocksBySlot { peer: PeerHandle, request_id: u64, head_block_root: u64, start_slot: u64, count: u64 },
    /// Tell the sync a peer's status.
    NotePeerStatus(PeerHandle, HelloMessage),
    /// Hand blocks a peer sent to the sync.
    NoteBlocks(PeerHandle, Vec<u8>),
    /// Tell the sync our own status.
    NoteStatus(HelloMessage),
    /// Send a peer a Hello request with our status.
    RequestStatus(PeerHandle, HelloMessage),
    /// Send a peer a request for `count` blocks after our head.
    RequestHeadBlocks(PeerHandle, u64),
    /// Nothing is done with the event but a warning.
    Unhandled(PeerHandle),
}

/// How many blocks a block query asks for.
pub const HEAD_REQUEST_COUNT: u64 = 50;

/// The actions for a network event: a Hello request is answered with our
/// status and the peer's status noted; a request for beacon blocks is
/// answered with one canonical block from the requested slot on; Hello and
/// block responses go to the sync; connections go to the sync; everything
/// else is only warned about.
pub open spec fn network_actions(e: NetEvent) -> Seq<NetAction> {
    match e {
        NetEvent::PeerDialed(peer) => seq![NetAction::NoteConnected(peer)],
        NetEvent::PeerDisconnected(peer) => seq![NetAction::NoteDisconnected(peer)],
        NetEvent::Pubsub(peer) => seq![NetAction::Unhandled(peer)],
        NetEvent::Request(peer, request_id, RPCRequest::BeaconBlocks(request)) => seq![
            NetAction::RespondBlocksBySlot {
                peer,
                request_id,
                head_block_root: request.head_block_root,
                start_slot: request.start_slot,
                count: 1,
            },
        ],
        NetEvent::Request(peer, request_id, RPCRequest::Hello(hello)) => seq![
            NetAction::RespondStatus { peer, request_id },
            NetAction::NotePeerStatus(peer, hello),
        ],
        NetEvent::Request(peer, _, _) => seq![NetAction::Unhandled(peer)],
        NetEvent::Response(peer, _, RPCResponse::Hello(hello)) => seq![NetAction::NotePeerStatus(peer, hello)],
        NetEvent::Response(peer, _, RPCResponse::BeaconBlocks(blocks)) => seq![NetAction::NoteBlocks(peer, blocks)],
        NetEvent::Response(peer, _, _) => seq![NetAction::Unhandled(peer)],
        NetEvent::OtherRpc(peer) => seq![NetAction::Unhandled(peer)],
    }
}

/// The action for a query of the sync: our status is noted, a peer is sent
/// a Hello request with our status, or a peer is asked for blocks after our
/// head.
pub open spec fn sync_action(e: SyncRequest, status: HelloMessage) -> NetAction {
    match e {
        SyncRequest::QueryStatus => NetAction::NoteStatus(status),
        SyncRequest::QueryPeerStatus(peer) => NetAction::RequestStatus(peer, status),
        SyncRequest::QueryBlocks(peer) => NetAction::RequestHeadBlocks(peer, HEAD_REQUEST_COUNT),
    }
}

/// The actions that answer a network event.
pub fn on_network_event(e: NetEvent) -> (r: Vec<NetAction>)
    ensures
        r@ == network_actions(e),
{
    let mut r: Vec<NetAction> = Vec::new();
    match e {
        NetEvent::PeerDialed(peer) => r.push(NetAction::NoteConnected(peer)),
        NetEvent::PeerDisconnected(peer) => r.push(NetAction::NoteDisconnected(peer)),
        NetEvent::Pubsub(peer) => r.push(NetAction::Unhandled(peer)),
        NetEvent::Request(peer, request_id, RPCRequest::BeaconBlocks(request)) => {
            r.push(NetAction::RespondBlocksBySlot {
                peer,
                request_id,
                head_block_root: request.head_block_root,
                start_slot: request.start_slot,
                count: 1,
            });
        },
        NetEvent::Request(peer, request_id, RPCRequest::Hello(hello)) => {
            r.push(NetAction::RespondStatus { peer, request_id });
            r.push(NetAction::NotePeerStatus(peer, hello));
        },
        NetEvent::Request(peer, _, _) => r.push(NetAction::Unhandled(peer)),
        NetEvent::Response(peer, _, RPCResponse::Hello(hello)) => r.push(NetAction::NotePeerStatus(peer, hello)),
        NetEvent::Response(peer, _, RPCResponse::BeaconBlocks(blocks)) => r.push(NetAction::NoteBlocks(peer, blocks)),
        NetEvent::Response(peer, _, _) => r.push(NetAction::Unhandled(peer)),
        NetEvent::OtherRpc(peer) => r.push(NetAction::Unhandled(peer)),
    }
    proof {
        assert(r@ =~= network_actions(e));
    }
    r
}

/// The action that answers a query of the sync.
pub fn on_sync_event(e: SyncRequest, status: HelloMessage) -> (r: NetAction)
    ensures
        r == sync_action(e, status),
{
    match e {
        SyncRequest::QueryStatus => NetAction::NoteStatus(status),
        SyncRequest::QueryPeerStatus(peer) => NetAction::RequestStatus(peer, status),
        SyncRequest::QueryBlocks(peer) => NetAction::RequestHeadBlocks(peer, HEAD_REQUEST_COUNT),
    }
}

} // verus!
