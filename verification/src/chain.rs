//! An in-memory block tree: blocks with their parents, depths and slots,
//! and the canonical chain from genesis to the head.

use vstd::prelude::*;

verus! {

/// A block as the tree holds it.
#[derive(Clone, Copy, Debug, PartialEq, Eq)]
pub struct BlockRecord {
    /// Block id.
    pub id: u64,
    /// Parent id; only the genesis block has none.
    pub parent: Option<u64>,
    /// Distance from genesis.
    pub depth: u64,
    /// Slot of the block.
    pub slot: u64,
}

/// Errors of block tree queries and updates.
#[derive(Clone, Copy, Debug, PartialEq, Eq)]
pub enum Error {
    /// The operation is not allowed on the tree as it stands.
    InvalidOperation,
    /// The block is the genesis block.
    IsGenesis,
    /// The block is not in the tree.
    NotExist,
    /// The stored data contradicts itself.
    Corrupted,
}

/// A block tree rooted at genesis, with the canonical chain to its head.
pub struct ChainStore {
    /// Blocks in import order; the first is genesis.
    pub blocks: Vec<BlockRecord>,
    /// Canonical chain: the block at each depth from genesis to the head.
    pub canon: Vec<u64>,
}

/// Position of the block `id`, or -1.
pub open spec fn index_of(bs: Seq<BlockRecord>, id: u64) -> int
    decreases bs.len(),
{
    if bs.len() == 0 {
        -1
    } else {
        let r = index_of(bs.drop_last(), id);
        if r >= 0 { r } else if bs.last().id == id { bs.len() - 1 } else { -1 }
    }
}

/// Position of the parent of the block at `k`, or -1.
pub open spec fn parent_index(bs: Seq<BlockRecord>, k: int) -> int {
    match bs[k].parent {
        Some(p) => index_of(bs, p),
        None => -1,
    }
}

/// The blocks form a tree rooted at the first block: ids are distinct and
/// every other block has an earlier parent one level above it.
pub open spec fn blocks_wf(bs: Seq<BlockRecord>) -> bool {
    &&& bs.len() >= 1
    &&& bs[0].parent.is_none()
    &&& bs[0].depth == 0
    &&& forall|i: int, j: int| 0 <= i < j < bs.len() ==> bs[i].id != bs[j].id
    &&& forall|k: int| 0 < k < bs.len() ==> {
        &&& #[trigger] bs[k].parent.is_some()
        &&& 0 <= parent_index(bs, k) < k
        &&& bs[k].depth == bs[parent_index(bs, k)].depth + 1
    }
}

/// Position of the ancestor at depth `d` of the block at `k`.
pub open spec fn ancestor_index(bs: Seq<BlockRecord>, k: int, d: int) -> int
    decreases k,
{
    if k <= 0 || bs[k].depth <= d {
        k
    } else {
        let p = parent_index(bs, k);
        if 0 <= p < k { ancestor_index(bs, p, d) } else { k }
    }
}

/// The canonical chain runs from genesis through parent links, one block per depth.
pub open spec fn canon_wf(bs: Seq<BlockRecord>, canon: Seq<u64>) -> bool {
    &&& canon.len() >= 1
    &&& forall|d: int| 0 <= d < canon.len() ==> {
        &&& 0 <= #[trigger] index_of(bs, canon[d]) < bs.len()
        &&& bs[index_of(bs, canon[d])].depth == d
    }
    &&& forall|d: int| 0 < d < canon.len() ==> #[trigger] bs[index_of(bs, canon[d])].parent == Some(canon[d - 1])
}

/// Ids of the children of `id`, in import order.
pub open spec fn children_of(bs: Seq<BlockRecord>, id: u64) -> Seq<u64>
    decreases bs.len(),
{
    if bs.len() == 0 {
        Seq::empty()
    } else {
        let rest = children_of(bs.drop_last(), id);
        if bs.last().parent == Some(id) { rest.push(bs.last().id) } else { rest }
    }
}

pub proof fn lemma_index_of_bounds(bs: Seq<BlockRecord>, id: u64)
    ensures
        -1 <= index_of(bs, id) < bs.len(),
        index_of(bs, id) >= 0 ==> bs[index_of(bs, id)].id == id,
        index_of(bs, id) < 0 ==> forall|j: int| 0 <= j < bs.len() ==> bs[j].id != id,
    decreases bs.len(),
{
    if bs.len() > 0 {
        lemma_index_of_bounds(bs.drop_last(), id);
        assert forall|j: int| 0 <= j < bs.len() - 1 implies bs[j] == bs.drop_last()[j] by {}
    }
}

/// With distinct ids, the position of a block's id is that block's position.
pub proof fn lemma_index_of_distinct(bs: Seq<BlockRecord>, k: int)
    requires
        0 <= k < bs.len(),
        forall|i: int, j: int| 0 <= i < j < bs.len() ==> bs[i].id != bs[j].id,
    ensures
        index_of(bs, bs[k].id) == k,
    decreases bs.len(),
{
    if k < bs.len() - 1 {
        assert(bs.drop_last()[k] == bs[k]);
        lemma_index_of_distinct(bs.drop_last(), k);
    } else {
        lemma_index_of_bounds(bs.drop_last(), bs[k].id);
        if index_of(bs.drop_last(), bs[k].id) >= 0 {
            let i = index_of(bs.drop_last(), bs[k].id);
            assert(bs[i] == bs.drop_last()[i]);
        }
    }
}

/// Positions in a prefix stay the same after a push.
proof fn lemma_index_of_push(bs: Seq<BlockRecord>, b: BlockRecord, id: u64)
    ensures
        index_of(bs.push(b), id) == if index_of(bs, id) >= 0 {
            index_of(bs, id)
        } else if b.id == id {
            bs.len() as int
        } else {
            -1
        },
{
    assert(bs.push(b).drop_last() =~= bs);
}

/// The ancestor of a block at a depth it reaches lies at that depth, or the block is genesis.
pub proof fn lemma_ancestor_index(bs: Seq<BlockRecord>, k: int, d: int)
    requires
        blocks_wf(bs),
        0 <= k < bs.len(),
        0 <= d <= bs[k].depth,
    ensures
        0 <= ancestor_index(bs, k, d) <= k,
        bs[ancestor_index(bs, k, d)].depth == d,
    decreases k,
{
    if k > 0 && bs[k].depth > d {
        let p = parent_index(bs, k);
        assert(bs[k].parent.is_some());
        lemma_ancestor_index(bs, p, d);
    }
}

/// Depths are bounded by positions.
pub proof fn lemma_depth_bound(bs: Seq<BlockRecord>, k: int)
    requires
        blocks_wf(bs),
        0 <= k < bs.len(),
    ensures
        bs[k].depth <= k,
    decreases k,
{
    if k > 0 {
        assert(bs[k].parent.is_some());
        lemma_depth_bound(bs, parent_index(bs, k));
    }
}

impl ChainStore {
    /// The tree and its canonical chain are well formed.
    pub open spec fn wf(&self) -> bool {
        blocks_wf(self.blocks@) && canon_wf(self.blocks@, self.canon@)
    }

    /// Whether the block `id` is in the tree.
    pub open spec fn has(&self, id: u64) -> bool {
        index_of(self.blocks@, id) >= 0
    }

    /// The record of a block in the tree.
    pub open spec fn record(&self, id: u64) -> BlockRecord {
        self.blocks@[index_of(self.blocks@, id)]
    }

    /// The id of the ancestor at depth `d` of the block `id`.
    pub open spec fn ancestor(&self, id: u64, d: int) -> u64 {
        self.blocks@[ancestor_index(self.blocks@, index_of(self.blocks@, id), d)].id
    }

    /// The head of the canonical chain.
    pub open spec fn head_id(&self) -> u64 {
        self.canon@.last()
    }

    /// A tree holding only the genesis block, which is also the head.
    pub fn new_with_genesis(id: u64, slot: u64) -> (r: ChainStore)
        ensures
            r.wf(),
            r.blocks@ == seq![BlockRecord { id, parent: None, depth: 0, slot }],
            r.canon@ == seq![id],
    {
        let mut blocks: Vec<BlockRecord> = Vec::new();
        blocks.push(BlockRecord { id, parent: None, depth: 0, slot });
        let mut canon: Vec<u64> = Vec::new();
        canon.push(id);
        let r = ChainStore { blocks, canon };
        proof {
            assert(r.blocks@.drop_last() =~= Seq::<BlockRecord>::empty());
            assert(index_of(r.blocks@.drop_last(), id) == -1);
            assert(index_of(r.blocks@, id) == 0);
        }
        r
    }

    /// Position of the block `id`.
    fn find(&self, id: u64) -> (r: Option<usize>)
        ensures
            match r {
                Some(k) => k as int == index_of(self.blocks@, id) && k < self.blocks@.len()
                    && self.blocks@[k as int].id == id,
                None => index_of(self.blocks@, id) < 0,
            },
    {
        proof {
            lemma_index_of_bounds(self.blocks@, id);
        }
        let mut i: usize = 0;
        while i < self.blocks.len()
            invariant
                i <= self.blocks@.len(),
                index_of(self.blocks@.take(i as int), id) < 0,
            decreases self.blocks@.len() - i,
        {
            proof {
                assert(self.blocks@.take(i + 1).drop_last() =~= self.blocks@.take(i as int));
            }
            if self.blocks[i].id == id {
                proof {
                    lemma_index_of_prefix(self.blocks@, i as int + 1, id);
                }
                return Some(i);
            }
            i = i + 1;
        }
        proof {
            assert(self.blocks@.take(self.blocks@.len() as int) =~= self.blocks@);
        }
        None
    }

    /// The genesis block id.
    pub fn genesis(&self) -> (r: u64)
        requires
            self.wf(),
        ensures
            r == self.blocks@[0].id,
    {
        self.blocks[0].id
    }

    /// The head of the canonical chain.
    pub fn head(&self) -> (r: u64)
        requires
            self.wf(),
        ensures
            r == self.head_id(),
    {
        self.canon[self.canon.len() - 1]
    }

    /// Whether the block `id` is in the tree.
    pub fn contains(&self, id: u64) -> (r: bool)
        ensures
            r == self.has(id),
    {
        self.find(id).is_some()
    }

    /// The record of the block `id`.
    pub fn block_at(&self, id: u64) -> (r: Result<BlockRecord, Error>)
        ensures
            match r {
                Ok(b) => self.has(id) && b == self.record(id),
                Err(e) => e == Error::NotExist && !self.has(id),
            },
    {
        match self.find(id) {
            Some(k) => Ok(self.blocks[k]),
            None => Err(Error::NotExist),
        }
    }

    /// The depth of the block `id`.
    pub fn depth_at(&self, id: u64) -> (r: Result<u64, Error>)
        ensures
            match r {
                Ok(d) => self.has(id) && d == self.record(id).depth,
                Err(e) => e == Error::NotExist && !self.has(id),
            },
    {
        match self.find(id) {
            Some(k) => Ok(self.blocks[k].depth),
            None => Err(Error::NotExist),
        }
    }

    /// Whether the block `id` is on the canonical chain.
    pub fn is_canon(&self, id: u64) -> (r: Result<bool, Error>)
        requires
            self.wf(),
        ensures
            match r {
                Ok(c) => self.has(id) && c == (self.record(id).depth < self.canon@.len()
                    && self.canon@[self.record(id).depth as int] == id),
                Err(e) => e == Error::NotExist && !self.has(id),
            },
    {
        match self.find(id) {
            Some(k) => {
                let d = self.blocks[k].depth;
                if d < self.canon.len() as u64 {
                    Ok(self.canon[d as usize] == id)
                } else {
                    Ok(false)
                }
            },
            None => Err(Error::NotExist),
        }
    }

    /// The canonical block at `depth`, if the canonical chain reaches it.
    pub fn lookup_canon_depth(&self, depth: u64) -> (r: Option<u64>)
        ensures
            r == if depth < self.canon@.len() { Some(self.canon@[depth as int]) } else { None::<u64> },
    {
        if depth < self.canon.len() as u64 {
            Some(self.canon[depth as usize])
        } else {
            None
        }
    }

    /// The children of the block `id`, in import order.
    pub fn children_at(&self, id: u64) -> (r: Result<Vec<u64>, Error>)
        ensures
            match r {
                Ok(c) => self.has(id) && c@ == children_of(self.blocks@, id),
                Err(e) => e == Error::NotExist && !self.has(id),
            },
    {
        if self.find(id).is_none() {
            return Err(Error::NotExist);
        }
        let mut r: Vec<u64> = Vec::new();
        let mut i: usize = 0;
        while i < self.blocks.len()
            invariant
                i <= self.blocks@.len(),
                r@ == children_of(self.blocks@.take(i as int), id),
            decreases self.blocks@.len() - i,
        {
            proof {
                assert(self.blocks@.take(i + 1).drop_last() =~= self.blocks@.take(i as int));
            }
            if self.blocks[i].parent == Some(id) {
                r.push(self.blocks[i].id);
            }
            i = i + 1;
        }
        proof {
            assert(self.blocks@.take(self.blocks@.len() as int) =~= self.blocks@);
        }
        Ok(r)
    }

    /// Add a block under an existing parent; its depth is one below the parent's.
    pub fn import_block(&mut self, id: u64, parent: u64, slot: u64) -> (r: Result<(), Error>)
        requires
            old(self).wf(),
        ensures
            final(self).wf(),
            final(self).canon@ == old(self).canon@,
            match r {
                Ok(()) => !old(self).has(id) && old(self).has(parent)
                    && final(self).blocks@ == old(self).blocks@.push(BlockRecord {
                        id,
                        parent: Some(parent),
                        depth: (old(self).record(parent).depth + 1) as u64,
                        slot,
                    }),
                Err(e) => final(self).blocks@ == old(self).blocks@ && (
                    (e == Error::InvalidOperation && old(self).has(id))
                    || (e == Error::NotExist && !old(self).has(id) && !old(self).has(parent))),
            },
    {
        if self.find(id).is_some() {
            return Err(Error::InvalidOperation);
        }
        let p = match self.find(parent) {
            Some(p) => p,
            None => return Err(Error::NotExist),
        };
        let len = self.blocks.len();
        proof {
            lemma_depth_bound(self.blocks@, p as int);
        }
        assert(self.blocks@[p as int].depth < len);
        let depth = self.blocks[p].depth + 1;
        let b = BlockRecord { id, parent: Some(parent), depth, slot };
        let ghost before = self.blocks@;
        self.blocks.push(b);
        proof {
            lemma_index_of_bounds(before, id);
            assert forall|x: u64| #[trigger] index_of(self.blocks@, x) == if index_of(before, x) >= 0 {
                index_of(before, x)
            } else if b.id == x {
                before.len() as int
            } else {
                -1
            } by {
                lemma_index_of_push(before, b, x);
            }
            assert forall|k: int| 0 < k < self.blocks@.len() implies {
                &&& #[trigger] self.blocks@[k].parent.is_some()
                &&& 0 <= parent_index(self.blocks@, k) < k
                &&& self.blocks@[k].depth == self.blocks@[parent_index(self.blocks@, k)].depth + 1
            } by {
                if k < before.len() {
                    assert(self.blocks@[k] == before[k]);
                    assert(before[k].parent.is_some());
                    lemma_index_of_bounds(before, before[k].parent.unwrap());
                } else {
                    assert(parent_index(self.blocks@, k) == p);
                }
            }
            assert forall|i: int, j: int| 0 <= i < j < self.blocks@.len() implies self.blocks@[i].id != self.blocks@[j].id by {
                if j == before.len() {
                    assert(self.blocks@[i] == before[i]);
                }
            }
            assert forall|d: int| 0 <= d < self.canon@.len() implies {
                &&& 0 <= #[trigger] index_of(self.blocks@, self.canon@[d]) < self.blocks@.len()
                &&& self.blocks@[index_of(self.blocks@, self.canon@[d])].depth == d
            } by {
                assert(index_of(before, self.canon@[d]) >= 0);
            }
        }
        Ok(())
    }

    /// Make the block `id` the head; the canonical chain becomes its ancestry.
    pub fn set_head(&mut self, id: u64) -> (r: Result<(), Error>)
        requires
            old(self).wf(),
        ensures
            final(self).wf(),
            final(self).blocks@ == old(self).blocks@,
            match r {
                Ok(()) => old(self).has(id) && final(self).head_id() == id,
                Err(e) => e == Error::NotExist && !old(self).has(id) && final(self).canon@ == old(self).canon@,
            },
    {
        let k0 = match self.find(id) {
            Some(k) => k,
            None => return Err(Error::NotExist),
        };
        let len = self.blocks.len();
        proof {
            lemma_depth_bound(self.blocks@, k0 as int);
        }
        let depth = self.blocks[k0].depth;
        let mut canon: Vec<u64> = Vec::new();
        let mut n: u64 = 0;
        while n <= depth
            invariant
                n <= depth + 1,
                depth < len,
                canon@.len() == n,
                forall|j: int| 0 <= j < n ==> canon@[j] == id,
            decreases depth + 1 - n,
        {
            canon.push(id);
            n = n + 1;
        }
        let mut k = k0;
        let mut d = depth;
        proof {
            lemma_index_of_distinct(self.blocks@, k0 as int);
        }
        while d > 0
            invariant
                blocks_wf(self.blocks@),
                0 <= k < self.blocks@.len(),
                self.blocks@[k as int].depth == d,
                d <= depth,
                depth < len,
                len == self.blocks@.len(),
                canon@.len() == depth + 1,
                canon@[d as int] == self.blocks@[k as int].id,
                canon@[depth as int] == id,
                index_of(self.blocks@, id) == k0,
                self.blocks@[k0 as int].depth == depth,
                forall|e: int| d <= e <= depth ==> {
                    &&& 0 <= #[trigger] index_of(self.blocks@, canon@[e]) < self.blocks@.len()
                    &&& self.blocks@[index_of(self.blocks@, canon@[e])].depth == e
                },
                forall|e: int| d < e <= depth ==> #[trigger] self.blocks@[index_of(self.blocks@, canon@[e])].parent == Some(canon@[e - 1]),
            decreases d,
        {
            proof {
                if k == 0 {
                    assert(self.blocks@[0].depth == 0);
                }
                assert(self.blocks@[k as int].parent.is_some());
                lemma_index_of_bounds(self.blocks@, self.blocks@[k as int].parent.unwrap());
            }
            let parent = self.blocks[k].parent.unwrap();
            let p = self.find(parent).unwrap();
            proof {
                lemma_index_of_distinct(self.blocks@, p as int);
                lemma_index_of_distinct(self.blocks@, k as int);
            }
            d = d - 1;
            canon.set(d as usize, self.blocks[p].id);
            k = p;
        }
        assert(d == 0);
        assert(canon_wf(self.blocks@, canon@));
        self.canon = canon;
        Ok(())
    }
}

/// The first position of `id` in a prefix is its first position in the whole.
proof fn lemma_index_of_prefix(bs: Seq<BlockRecord>, n: int, id: u64)
    requires
        0 < n <= bs.len(),
        index_of(bs.take(n - 1), id) < 0,
        bs[n - 1].id == id,
    ensures
        index_of(bs, id) == n - 1,
    decreases bs.len(),
{
    if n == bs.len() {
        assert(bs.drop_last() =~= bs.take(n - 1));
    } else {
        assert(bs.drop_last().take(n - 1) =~= bs.take(n - 1));
        lemma_index_of_prefix(bs.drop_last(), n, id);
    }
}

} // verus!
