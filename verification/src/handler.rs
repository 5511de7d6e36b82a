//! Answers to peers' requests for blocks of the canonical chain.

use vstd::prelude::*;
use crate::backend::ShasperBackend;
use crate::chain::{BlockRecord, ChainStore};

verus! {

/// Request a number of beacon blocks from a peer.
#[derive(Clone, Copy, Debug, PartialEq, Eq, Structural)]
pub struct BeaconBlocksRequest {
    /// The block on the requested chain.
    pub head_block_root: u64,
    /// The starting slot to request blocks.
    pub start_slot: u64,
    /// The number of blocks from the start slot.
    pub count: u64,
    /// The step increment: 1 returns every block, 2 every second one, and so on.
    pub step: u64,
}

/// The canonical blocks from `start` on, at most `count` of them.
pub open spec fn canon_blocks(store: ChainStore, start: nat, count: nat) -> Seq<BlockRecord> {
    let len = store.canon@.len();
    let n: nat = if start >= len { 0 } else if count <= len - start { count } else { (len - start) as nat };
    Seq::new(n, |i: int| store.record(store.canon@[start + i]))
}

/// Serves block requests from the chain backend.
pub struct Handler {
    /// The chain backend.
    pub backend: ShasperBackend,
}

impl Handler {
    /// The handler's backend is well formed.
    pub open spec fn wf(&self) -> bool {
        self.backend.0.wf()
    }

    /// A handler over `backend`.
    pub fn new(backend: ShasperBackend) -> (r: Self)
        ensures
            r.backend == backend,
    {
        Handler { backend }
    }

    /// A request for `count` blocks from the head on.
    pub fn head_request(&self, count: u64) -> (r: BeaconBlocksRequest)
        requires
            self.wf(),
        ensures
            r == (BeaconBlocksRequest {
                head_block_root: self.backend.0.head_id(),
                start_slot: self.backend.0.record(self.backend.0.head_id()).slot,
                count,
                step: 1,
            }),
    {
        let head = self.backend.head();
        proof {
            let store = self.backend.0;
            let d = store.canon@.len() - 1;
            assert(0 <= #[trigger] crate::chain::index_of(store.blocks@, store.canon@[d]) < store.blocks@.len());
        }
        let block = self.backend.block_at(head);
        let slot = match block {
            Ok(b) => b.slot,
            Err(_) => 0,
        };
        BeaconBlocksRequest { head_block_root: head, start_slot: slot, count, step: 1 }
    }

    /// The canonical blocks from `start_depth` on, at most `count` of them.
    fn blocks_by_depth_no_lock(&self, start_depth: u64, count: u64) -> (r: Vec<BlockRecord>)
        requires
            self.wf(),
            start_depth + count <= u64::MAX,
        ensures
            r@ == canon_blocks(self.backend.0, start_depth as nat, count as nat),
    {
        let store = &self.backend.0;
        let mut ret: Vec<BlockRecord> = Vec::new();
        let end = start_depth + count;
        let mut d = start_depth;
        while d < end
            invariant_except_break
                start_depth <= d <= end,
                d > start_depth ==> d <= store.canon@.len(),
                ret@ =~= canon_blocks(*store, start_depth as nat, (d - start_depth) as nat),
            invariant
                store.wf(),
                store == self.backend.0,
                end == start_depth + count,
            ensures
                ret@ =~= canon_blocks(*store, start_depth as nat, count as nat),
            decreases end - d,
        {
            match self.backend.lookup_canon_depth(d) {
                Ok(Some(hash)) => {
                    proof {
                        assert(0 <= #[trigger] crate::chain::index_of(store.blocks@, store.canon@[d as int])
                            < store.blocks@.len());
                    }
                    let block = match self.backend.block_at(hash) {
                        Ok(b) => b,
                        Err(_) => break,
                    };
                    ret.push(block);
                },
                _ => break,
            }
            d = d + 1;
        }
        ret
    }

    /// The canonical blocks from `start_depth` on, at most `count` of them.
    pub fn blocks_by_depth(&self, start_depth: u64, count: u64) -> (r: Vec<BlockRecord>)
        requires
            self.wf(),
            start_depth + count <= u64::MAX,
        ensures
            r@ == canon_blocks(self.backend.0, start_depth as nat, count as nat),
    {
        self.blocks_by_depth_no_lock(start_depth, count)
    }

    /// The canonical blocks from `start_hash` on, at most `count` of them,
    /// when `start_hash` is canonical and at `start_slot`; else none.
    pub fn blocks_by_slot(&self, start_hash: u64, start_slot: u64, count: u64) -> (r: Vec<BlockRecord>)
        requires
            self.wf(),
            self.backend.0.has(start_hash),
            self.backend.0.record(start_hash).depth + count <= u64::MAX,
        ensures
            ({
                let store = self.backend.0;
                let b = store.record(start_hash);
                let canon = b.depth < store.canon@.len() && store.canon@[b.depth as int] == start_hash;
                r@ == if canon && b.slot == start_slot {
                    canon_blocks(store, b.depth as nat, count as nat)
                } else {
                    Seq::empty()
                }
            }),
    {
        let canon = match self.backend.is_canon(start_hash) {
            Ok(c) => c,
            Err(_) => false,
        };
        if !canon {
            return Vec::new();
        }
        let block = match self.backend.block_at(start_hash) {
            Ok(b) => b,
            Err(_) => return Vec::new(),
        };
        if block.slot != start_slot {
            return Vec::new();
        }
        let start_depth = block.depth;
        self.blocks_by_depth_no_lock(start_depth, count)
    }
}

} // verus!
