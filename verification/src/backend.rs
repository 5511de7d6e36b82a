//! Ancestor queries over a block tree, and the chain backend that answers them.

use vstd::prelude::*;
use crate::chain::{
    BlockRecord, ChainStore, Error, ancestor_index, blocks_wf, children_of, index_of, parent_index,
    lemma_ancestor_index,
};

verus! {

/// Ancestor queries that walk parent links, with no cache.
pub struct NoCacheAncestorQuery<'a>(pub &'a ChainStore);

/// Going one block up does not change the ancestor at a depth above the block.
pub proof fn lemma_ancestor_step(bs: Seq<BlockRecord>, k: int, d: int)
    requires
        blocks_wf(bs),
        0 < k < bs.len(),
        bs[k].depth > d,
    ensures
        0 <= parent_index(bs, k) < k,
        ancestor_index(bs, k, d) == ancestor_index(bs, parent_index(bs, k), d),
        bs[parent_index(bs, k)].depth == bs[k].depth - 1,
{
    assert(bs[k].parent.is_some());
}

impl<'a> NoCacheAncestorQuery<'a> {
    /// Queries over `backend`.
    pub fn new(backend: &'a ChainStore) -> (r: Self)
        ensures
            r.0 == backend,
    {
        NoCacheAncestorQuery(backend)
    }

    /// The ancestor of `id` at `depth`; `id` itself when it is not deeper.
    pub fn ancestor_at(&self, id: u64, depth: u64) -> (r: Result<u64, Error>)
        requires
            self.0.wf(),
        ensures
            match r {
                Ok(a) => self.0.has(id) && a == self.0.ancestor(id, depth as int),
                Err(e) => e == Error::NotExist && !self.0.has(id),
            },
    {
        let backend = self.0;
        let ghost bs = backend.blocks@;
        let ghost k0 = index_of(bs, id);
        let mut current = id;
        let mut d = match backend.depth_at(id) {
            Ok(d) => d,
            Err(e) => return Err(e),
        };
        while d > depth
            invariant
                backend.wf(),
                bs == backend.blocks@,
                backend.has(id),
                backend.has(current),
                d == backend.record(current).depth,
                ancestor_index(bs, index_of(bs, current), depth as int) == ancestor_index(bs, k0, depth as int),
            decreases d,
        {
            let block = match backend.block_at(current) {
                Ok(b) => b,
                Err(e) => return Err(e),
            };
            let ghost k = index_of(bs, current);
            proof {
                crate::chain::lemma_index_of_bounds(bs, current);
                if k == 0 {
                    assert(bs[0].depth == 0);
                }
                lemma_ancestor_step(bs, k, depth as int);
                assert(block.parent.is_some());
                crate::chain::lemma_index_of_bounds(bs, block.parent.unwrap());
            }
            current = block.parent.unwrap();
            d = match backend.depth_at(current) {
                Ok(d) => d,
                Err(e) => return Err(e),
            };
        }
        proof {
            crate::chain::lemma_index_of_bounds(bs, current);
            crate::chain::lemma_index_of_distinct(bs, index_of(bs, current));
        }
        Ok(current)
    }
}

/// The chain backend of the client: a block tree with ancestor queries.
pub struct ShasperBackend(pub ChainStore);

impl ShasperBackend {
    /// The backend over a block tree.
    pub fn new(backend: ChainStore) -> (r: Self)
        ensures
            r.0 == backend,
    {
        ShasperBackend(backend)
    }

    /// The genesis block id.
    pub fn genesis(&self) -> (r: u64)
        requires
            self.0.wf(),
        ensures
            r == self.0.blocks@[0].id,
    {
        self.0.genesis()
    }

    /// The head of the canonical chain.
    pub fn head(&self) -> (r: u64)
        requires
            self.0.wf(),
        ensures
            r == self.0.head_id(),
    {
        self.0.head()
    }

    /// Whether the block `id` is known.
    pub fn contains(&self, id: u64) -> (r: Result<bool, Error>)
        ensures
            r == Ok::<bool, Error>(self.0.has(id)),
    {
        Ok(self.0.contains(id))
    }

    /// Whether the block `id` is on the canonical chain.
    pub fn is_canon(&self, id: u64) -> (r: Result<bool, Error>)
        requires
            self.0.wf(),
        ensures
            match r {
                Ok(c) => self.0.has(id) && c == (self.0.record(id).depth < self.0.canon@.len()
                    && self.0.canon@[self.0.record(id).depth as int] == id),
                Err(e) => e == Error::NotExist && !self.0.has(id),
            },
    {
        self.0.is_canon(id)
    }

    /// The canonical block at `depth`.
    pub fn lookup_canon_depth(&self, depth: u64) -> (r: Result<Option<u64>, Error>)
        ensures
            r == Ok::<Option<u64>, Error>(
                if depth < self.0.canon@.len() { Some(self.0.canon@[depth as int]) } else { None::<u64> },
            ),
    {
        Ok(self.0.lookup_canon_depth(depth))
    }

    /// The depth of the block `id`.
    pub fn depth_at(&self, id: u64) -> (r: Result<u64, Error>)
        ensures
            match r {
                Ok(d) => self.0.has(id) && d == self.0.record(id).depth,
                Err(e) => e == Error::NotExist && !self.0.has(id),
            },
    {
        self.0.depth_at(id)
    }

    /// The children of the block `id`.
    pub fn children_at(&self, id: u64) -> (r: Result<Vec<u64>, Error>)
        ensures
            match r {
                Ok(c) => self.0.has(id) && c@ == children_of(self.0.blocks@, id),
                Err(e) => e == Error::NotExist && !self.0.has(id),
            },
    {
        self.0.children_at(id)
    }

    /// The record of the block `id`.
    pub fn block_at(&self, id: u64) -> (r: Result<BlockRecord, Error>)
        ensures
            match r {
                Ok(b) => self.0.has(id) && b == self.0.record(id),
                Err(e) => e == Error::NotExist && !self.0.has(id),
            },
    {
        self.0.block_at(id)
    }

    /// The ancestor of `id` at `depth`.
    pub fn ancestor_at(&self, id: u64, depth: u64) -> (r: Result<u64, Error>)
        requires
            self.0.wf(),
        ensures
            match r {
                Ok(a) => self.0.has(id) && a == self.0.ancestor(id, depth as int),
                Err(e) => e == Error::NotExist && !self.0.has(id),
            },
    {
        NoCacheAncestorQuery::new(&self.0).ancestor_at(id, depth)
    }
}

/// The ancestor found for a depth the block reaches lies at that depth.
pub proof fn lemma_ancestor_depth(store: ChainStore, id: u64, depth: int)
    requires
        store.wf(),
        store.has(id),
        0 <= depth <= store.record(id).depth,
    ensures
        store.has(store.ancestor(id, depth)),
        store.record(store.ancestor(id, depth)).depth == depth,
{
    let bs = store.blocks@;
    crate::chain::lemma_index_of_bounds(bs, id);
    let k = index_of(bs, id);
    lemma_ancestor_index(bs, k, depth);
    let a = ancestor_index(bs, k, depth);
    crate::chain::lemma_index_of_distinct(bs, a);
}

} // verus!
