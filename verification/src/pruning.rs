//! LMD-GHOST with a skip list of ancestors: each block keeps, for sixteen
//! levels, an ancestor some power of two above it, so that the ancestor at
//! any depth is found in few jumps; answers are cached.

use vstd::prelude::*;
use vstd::arithmetic::power2::pow2;
use crate::chain::{ChainStore, Error, children_of, index_of};
use crate::log2::{floor_log2, log2};
use crate::pair_map::{PairKey, PairMap, lemma_map_of};

verus! {

/// A skip entry: the ancestor jumped to, if any, and its depth.
pub type Skip = (Option<u64>, usize);

/// Skip entries by block and level.
pub type SkipMap = Map<PairKey, Skip>;

/// Cached answers by block and target depth.
pub type CacheMap = Map<PairKey, Option<u64>>;

/// Number of skip levels.
pub const LEVELS: usize = 16;

/// The skip entries after recording level `i` of a block.
pub open spec fn push_level(m: SkipMap, block: u64, depth: usize, parent: Option<u64>, min: usize, i: nat) -> SkipMap {
    if (depth - min) % (pow2(i) as int) == 0 {
        m.insert((block, i as usize), (parent, (depth - 1) as usize))
    } else {
        match parent {
            Some(p) => if m.contains_key((p, i as usize)) { m.insert((block, i as usize), m[(p, i as usize)]) } else { m },
            None => m,
        }
    }
}

/// The skip entries after recording levels below `n` of a block.
pub open spec fn push_levels(m: SkipMap, block: u64, depth: usize, parent: Option<u64>, min: usize, n: nat) -> SkipMap
    decreases n,
{
    if n == 0 {
        m
    } else {
        push_level(push_levels(m, block, depth, parent, min, (n - 1) as nat), block, depth, parent, min, (n - 1) as nat)
    }
}

/// The level used to jump from depth `d` towards depth `t`.
pub open spec fn level_for(d: usize, t: usize) -> nat {
    if d - t - 1 == 0 { 0 } else { floor_log2((d - t - 1) as nat) }
}

/// The answer of a lookup from `b` at depth `d` for depth `t`, or `None`
/// when the skip entries it needs are missing or do not go up.
pub open spec fn walk(anc: SkipMap, cache: CacheMap, b: u64, d: usize, t: usize) -> Option<Option<u64>>
    decreases d,
{
    if t > d {
        Some(None)
    } else if t == d {
        Some(Some(b))
    } else if cache.contains_key((b, t)) {
        Some(cache[(b, t)])
    } else {
        let lvl = level_for(d, t);
        if lvl >= 16 || !anc.contains_key((b, lvl as usize)) {
            None
        } else {
            match anc[(b, lvl as usize)].0 {
                None => Some(None),
                Some(a) => {
                    let sd = anc[(b, lvl as usize)].1;
                    if sd < d { walk(anc, cache, a, sd, t) } else { None }
                },
            }
        }
    }
}

/// The cache after a lookup: each jumped-from block's answer recorded.
pub open spec fn walk_cache(anc: SkipMap, cache: CacheMap, b: u64, d: usize, t: usize) -> CacheMap
    decreases d,
{
    if t >= d || cache.contains_key((b, t)) {
        cache
    } else {
        let lvl = level_for(d, t);
        if lvl >= 16 || !anc.contains_key((b, lvl as usize)) {
            cache
        } else {
            match anc[(b, lvl as usize)].0 {
                None => cache,
                Some(a) => {
                    let sd = anc[(b, lvl as usize)].1;
                    if sd < d {
                        walk_cache(anc, cache, a, sd, t).insert((b, t), walk(anc, cache, a, sd, t).unwrap())
                    } else {
                        cache
                    }
                },
            }
        }
    }
}

/// The cached answers for targets at `min` or deeper.
pub open spec fn restrict_cache(c: CacheMap, min: usize) -> CacheMap {
    Map::new(|k: PairKey| c.contains_key(k) && k.1 >= min, |k: PairKey| c[k])
}

/// The skip entries that jump to depth `min` or deeper.
pub open spec fn restrict_skips(m: SkipMap, min: usize) -> SkipMap {
    Map::new(|k: PairKey| m.contains_key(k) && m[k].1 >= min, |k: PairKey| m[k])
}

/// The recorded blocks at depth `min` or deeper, in order.
pub open spec fn keep_blocks(bs: Seq<(u64, usize, Option<u64>)>, min: usize) -> Seq<(u64, usize, Option<u64>)>
    decreases bs.len(),
{
    if bs.len() == 0 {
        Seq::empty()
    } else {
        let r = keep_blocks(bs.drop_last(), min);
        if bs.last().1 >= min { r.push(bs.last()) } else { r }
    }
}

/// The skip entries after recording the blocks again, in order.
pub open spec fn repush(m: SkipMap, bs: Seq<(u64, usize, Option<u64>)>, min: usize) -> SkipMap
    decreases bs.len(),
{
    if bs.len() == 0 {
        m
    } else {
        let b = bs.last();
        push_levels(repush(m, bs.drop_last(), min), b.0, b.1, b.2, min, 16)
    }
}

/// Recording the levels of a block from level one up leaves its level-zero
/// entry as it was.
proof fn lemma_push_levels_keep_level_zero(m: SkipMap, block: u64, depth: usize, parent: Option<u64>, min: usize, n: nat)
    requires
        1 <= n <= 16,
        depth >= min,
    ensures
        push_levels(m, block, depth, parent, min, n).contains_key((block, 0usize)),
        push_levels(m, block, depth, parent, min, n)[(block, 0usize)] == (parent, (depth - 1) as usize),
    decreases n,
{
    if n == 1 {
        assert(pow2(0) == 1) by {
            vstd::arithmetic::power2::lemma2_to64();
        }
        assert((depth - min) % 1 == 0);
    } else {
        lemma_push_levels_keep_level_zero(m, block, depth, parent, min, (n - 1) as nat);
        let prev = push_levels(m, block, depth, parent, min, (n - 1) as nat);
        assert(((n - 1) as nat as usize) == n - 1);
        assert(((block, (n - 1) as nat as usize)) != (block, 0usize));
    }
}

/// Right after a block is recorded, and with no answer cached for it, a
/// lookup from the block at its own depth gives the block, and one level
/// up gives its parent.
pub proof fn lemma_push_then_lookup_parent(
    anc: SkipMap,
    cache: CacheMap,
    block: u64,
    depth: usize,
    parent: Option<u64>,
    min: usize,
)
    requires
        depth >= 1,
        depth >= min,
        !cache.contains_key((block, (depth - 1) as usize)),
    ensures
        walk(push_levels(anc, block, depth, parent, min, 16), cache, block, depth, depth) == Some(Some(block)),
        walk(push_levels(anc, block, depth, parent, min, 16), cache, block, depth, (depth - 1) as usize)
            == Some(parent),
{
    let m = push_levels(anc, block, depth, parent, min, 16);
    lemma_push_levels_keep_level_zero(anc, block, depth, parent, min, 16);
    let t = (depth - 1) as usize;
    assert(level_for(depth, t) == 0);
    match parent {
        Some(a) => {
            assert(walk(m, cache, a, t, t) == Some(Some(a)));
        },
        None => {},
    }
}

/// The depth, plus one, that the level-`i` entry of a block at depth `d`
/// jumps to: the largest multiple of `2^i` not above `d`.
pub open spec fn skip_target(d: nat, i: nat) -> nat {
    (d / pow2(i)) * pow2(i)
}

proof fn lemma_skip_target(d: nat, i: nat)
    ensures
        pow2(i) > 0,
        skip_target(d, i) <= d,
        d < skip_target(d, i) + pow2(i),
        d % pow2(i) == 0 ==> skip_target(d, i) == d,
        d >= 1 && d % pow2(i) != 0 ==> skip_target(d, i) == skip_target((d - 1) as nat, i),
{
    vstd::arithmetic::power2::lemma_pow2_pos(i);
    let p = pow2(i) as int;
    let q = d as int / p;
    let r = d as int % p;
    vstd::arithmetic::div_mod::lemma_fundamental_div_mod(d as int, p);
    assert(d == q * p + r);
    assert(q * p == p * q) by (nonlinear_arith);
    if d >= 1 && r != 0 {
        vstd::arithmetic::div_mod::lemma_fundamental_div_mod_converse(d - 1, p, q, r - 1);
    }
}

/// The skip entries after pushing, in order, the first `n` blocks of a
/// chain: block `j` at depth `j + 1`, under block `j - 1`, the first one
/// without a parent; nothing pruned.
pub open spec fn chain_skips(ids: Seq<u64>, n: nat) -> SkipMap
    decreases n,
{
    if n == 0 {
        SkipMap::empty()
    } else {
        let j = (n - 1) as nat;
        let parent = if j >= 1 { Some(ids[j - 1]) } else { None };
        push_levels(chain_skips(ids, j), ids[j as int], n as usize, parent, 0, 16)
    }
}

/// The ancestor, by parent links, of a chain block at depth `t`: the block
/// at that depth, none at depth zero.
pub open spec fn chain_ancestor(ids: Seq<u64>, t: nat) -> Option<u64> {
    if t >= 1 { Some(ids[t - 1]) } else { None }
}

/// What recording level `i` of block `b` at depth `d` under `parent`
/// puts at key `(b, i)`, given the entries before.
pub open spec fn level_entry(m: SkipMap, d: usize, parent: Option<u64>, min: usize, i: usize) -> Option<Skip> {
    if (d - min) % (pow2(i as nat) as int) == 0 {
        Some((parent, (d - 1) as usize))
    } else {
        match parent {
            Some(p) => if m.contains_key((p, i)) { Some(m[(p, i)]) } else { None },
            None => None,
        }
    }
}

/// Recording the first `l` levels of a block leaves other blocks' entries
/// alone, and puts at each level below `l` the entry that level decides.
proof fn lemma_push_levels_at(m: SkipMap, b: u64, d: usize, parent: Option<u64>, min: usize, l: nat, k: PairKey)
    requires
        l <= 16,
        parent matches Some(p) ==> p != b,
    ensures
        k.0 != b ==> push_levels(m, b, d, parent, min, l).contains_key(k) == m.contains_key(k)
            && (m.contains_key(k) ==> push_levels(m, b, d, parent, min, l)[k] == m[k]),
        k.0 == b && k.1 < l ==> match level_entry(m, d, parent, min, k.1) {
            Some(v) => push_levels(m, b, d, parent, min, l).contains_key(k)
                && push_levels(m, b, d, parent, min, l)[k] == v,
            None => push_levels(m, b, d, parent, min, l).contains_key(k) == m.contains_key(k)
                && (m.contains_key(k) ==> push_levels(m, b, d, parent, min, l)[k] == m[k]),
        },
        k.0 == b && k.1 >= l ==> push_levels(m, b, d, parent, min, l).contains_key(k) == m.contains_key(k)
            && (m.contains_key(k) ==> push_levels(m, b, d, parent, min, l)[k] == m[k]),
    decreases l,
{
    if l > 0 {
        let i = (l - 1) as nat;
        lemma_push_levels_at(m, b, d, parent, min, i, k);
        match parent {
            Some(p) => {
                lemma_push_levels_at(m, b, d, parent, min, i, (p, i as usize));
            },
            None => {},
        }
        assert((i as usize) as nat == i);
    }
}

/// The skip entries of a chain, entry by entry: the level-`i` entry of
/// block `jj` jumps to the chain's ancestor at depth `skip_target - 1`, and
/// is missing only where that target is the top.
proof fn lemma_chain_skip_entry(ids: Seq<u64>, n: nat, jj: int, i: usize)
    requires
        n <= ids.len() < usize::MAX,
        i < 16,
        forall|a: int, b: int| 0 <= a < b < ids.len() ==> ids[a] != ids[b],
        0 <= jj < ids.len(),
    ensures
        jj < n ==> {
            let e = skip_target((jj + 1) as nat, i as nat);
            &&& chain_skips(ids, n).contains_key((ids[jj], i)) == (e >= 1)
            &&& e >= 1 ==> chain_skips(ids, n)[(ids[jj], i)] == (chain_ancestor(ids, (e - 1) as nat), (e - 1) as usize)
        },
        jj >= n ==> !chain_skips(ids, n).contains_key((ids[jj], i)),
    decreases n,
{
    if n > 0 {
        let j = (n - 1) as nat;
        let parent = if j >= 1 { Some(ids[j - 1]) } else { None };
        let b = ids[j as int];
        let m0 = chain_skips(ids, j);
        if j >= 1 {
            assert(ids[j - 1] != ids[j as int]);
        }
        lemma_push_levels_at(m0, b, n as usize, parent, 0, 16, (ids[jj], i));
        assert(chain_skips(ids, n) == push_levels(m0, b, n as usize, parent, 0, 16));
        if jj != j {
            assert(ids[jj] != b);
            lemma_chain_skip_entry(ids, j, jj, i);
            if jj < n {
                let e = skip_target((jj + 1) as nat, i as nat);
                assert(chain_skips(ids, n).contains_key((ids[jj], i)) == (e >= 1));
                assert(e >= 1 ==> chain_skips(ids, n)[(ids[jj], i)] == (chain_ancestor(ids, (e - 1) as nat), (e - 1) as usize));
            }
        } else {
            lemma_chain_skip_entry(ids, j, jj, i);
            lemma_skip_target(n, i as nat);
            assert((n as usize - 0usize) as nat == n);
            let e = skip_target(n, i as nat);
            if n % pow2(i as nat) == 0 {
                assert(level_entry(m0, n as usize, parent, 0, i) == Some((parent, (n - 1) as usize)));
                assert(e == n);
                assert(chain_ancestor(ids, (e - 1) as nat) == parent);
                assert(chain_skips(ids, n)[(ids[jj], i)] == (chain_ancestor(ids, (e - 1) as nat), (e - 1) as usize));
            } else {
                if j >= 1 {
                    let p = ids[j - 1];
                    lemma_chain_skip_entry(ids, j, j - 1, i);
                    lemma_skip_target(j, i as nat);
                    assert(e == skip_target(j, i as nat));
                    assert(level_entry(m0, n as usize, parent, 0, i) == if m0.contains_key((p, i)) {
                        Some(m0[(p, i)])
                    } else {
                        None::<Skip>
                    });
                    assert(chain_skips(ids, n).contains_key((ids[jj], i)) == (e >= 1));
                    assert(e >= 1 ==> chain_skips(ids, n)[(ids[jj], i)] == (chain_ancestor(ids, (e - 1) as nat), (e - 1) as usize));
                } else {
                    assert(skip_target(1, i as nat) <= 1);
                    if skip_target(1, i as nat) == 1 {
                        assert(pow2(i as nat) >= 2);
                        vstd::arithmetic::div_mod::lemma_fundamental_div_mod_converse(1, pow2(i as nat) as int, 0, 1);
                        assert(false);
                    }
                }
            }
        }
    }
}

/// Every cached answer for a chain block is the chain's ancestor.
pub open spec fn chain_cache_sound(ids: Seq<u64>, n: nat, cache: CacheMap) -> bool {
    forall|jj: int, t: usize| 0 <= jj < n && #[trigger] cache.contains_key((ids[jj], t))
        ==> cache[(ids[jj], t)] == chain_ancestor(ids, t as nat)
}

/// Over the skip entries of a chain, and with cached answers that are
/// right, a lookup from any block of the chain finds the ancestor that its
/// parent links give, and caches only right answers.
pub proof fn lemma_chain_walk(ids: Seq<u64>, n: nat, jj: int, t: usize, cache: CacheMap)
    requires
        n <= ids.len() < usize::MAX,
        forall|a: int, b: int| 0 <= a < b < ids.len() ==> ids[a] != ids[b],
        0 <= jj < n,
        t <= jj + 1,
        jj + 1 - t <= 0x10000,
        chain_cache_sound(ids, n, cache),
    ensures
        walk(chain_skips(ids, n), cache, ids[jj], (jj + 1) as usize, t) == Some(chain_ancestor(ids, t as nat)),
        chain_cache_sound(ids, n, walk_cache(chain_skips(ids, n), cache, ids[jj], (jj + 1) as usize, t)),
    decreases jj,
{
    let m = chain_skips(ids, n);
    let d = (jj + 1) as usize;
    let b = ids[jj];
    if t < d && !cache.contains_key((b, t)) {
        let lvl = level_for(d, t);
        let v = (d - t - 1) as nat;
        if v == 0 {
            assert(lvl == 0);
        } else {
            crate::log2::lemma_floor_log2_bounds(v);
        }
        vstd::arithmetic::power2::lemma2_to64();
        if lvl >= 16 {
            if lvl > 16 {
                vstd::arithmetic::power2::lemma_pow2_strictly_increases(16, lvl);
            }
            assert(false);
        }
        assert(pow2(lvl) <= if v == 0 { 1 } else { v });
        lemma_chain_skip_entry(ids, n, jj, lvl as usize);
        assert((lvl as usize) as nat == lvl);
        let e = skip_target((jj + 1) as nat, lvl);
        lemma_skip_target((jj + 1) as nat, lvl);
        assert(e >= 1);
        assert(e - 1 >= t);
        if e >= 2 {
            let a = ids[e - 2];
            lemma_chain_walk(ids, n, e - 2, t, cache);
            let c2 = walk_cache(m, cache, a, (e - 1) as usize, t);
            let c3 = c2.insert((b, t), walk(m, cache, a, (e - 1) as usize, t).unwrap());
            assert forall|j2: int, t2: usize| 0 <= j2 < n && #[trigger] c3.contains_key((ids[j2], t2))
                implies c3[(ids[j2], t2)] == chain_ancestor(ids, t2 as nat) by {
                if ids[j2] == b && t2 == t {
                } else {
                    assert(c2.contains_key((ids[j2], t2)));
                }
            }
        }
    }
}

/// After a chain of blocks is pushed into an empty cache, from the first
/// at depth one with no parent, each under the one before, a lookup from
/// any block of the chain, for any depth up to its own and at most `2^16`
/// above it (a longer span needs a seventeenth level), gives the ancestor
/// found by parent links (none at depth zero); the answers it caches are
/// right, so repeating a lookup gives the same answer.
pub proof fn lemma_chain_lookup(ids: Seq<u64>, jj: int, t: usize)
    requires
        ids.len() < usize::MAX,
        forall|a: int, b: int| 0 <= a < b < ids.len() ==> ids[a] != ids[b],
        0 <= jj < ids.len(),
        t <= jj + 1,
        jj + 1 - t <= 0x10000,
    ensures
        walk(chain_skips(ids, ids.len()), CacheMap::empty(), ids[jj], (jj + 1) as usize, t)
            == Some(chain_ancestor(ids, t as nat)),
        chain_cache_sound(ids, ids.len(),
            walk_cache(chain_skips(ids, ids.len()), CacheMap::empty(), ids[jj], (jj + 1) as usize, t)),
{
    lemma_chain_walk(ids, ids.len(), jj, t, CacheMap::empty());
}

/// Cached answers, skip entries and recorded blocks belong to pushed blocks.
pub open spec fn keys_pushed(cache: CacheMap, anc: SkipMap, blocks: Seq<(u64, usize, Option<u64>)>, pushed: Set<u64>) -> bool {
    &&& forall|k: PairKey| #[trigger] cache.contains_key(k) ==> pushed.contains(k.0)
    &&& forall|k: PairKey| #[trigger] anc.contains_key(k) ==> pushed.contains(k.0)
    &&& forall|i: int| 0 <= i < blocks.len() ==> pushed.contains((#[trigger] blocks[i]).0)
}

/// Recording a block's levels adds entries for that block only.
proof fn lemma_push_levels_keys(m: SkipMap, b: u64, d: usize, parent: Option<u64>, min: usize, l: nat)
    ensures
        forall|k: PairKey| #[trigger] push_levels(m, b, d, parent, min, l).contains_key(k) ==> m.contains_key(k) || k.0 == b,
    decreases l,
{
    if l > 0 {
        lemma_push_levels_keys(m, b, d, parent, min, (l - 1) as nat);
        let prev = push_levels(m, b, d, parent, min, (l - 1) as nat);
        assert forall|k: PairKey| #[trigger] push_levels(m, b, d, parent, min, l).contains_key(k)
            implies m.contains_key(k) || k.0 == b by {
            assert(push_levels(m, b, d, parent, min, l) == push_level(prev, b, d, parent, min, (l - 1) as nat));
            if k.0 != b {
                assert(prev.contains_key(k));
            }
        }
    }
}

/// A lookup caches answers only for blocks with skip entries.
proof fn lemma_walk_cache_keys(anc: SkipMap, cache: CacheMap, b: u64, d: usize, t: usize, pushed: Set<u64>)
    requires
        forall|k: PairKey| #[trigger] cache.contains_key(k) ==> pushed.contains(k.0),
        forall|k: PairKey| #[trigger] anc.contains_key(k) ==> pushed.contains(k.0),
    ensures
        forall|k: PairKey| #[trigger] walk_cache(anc, cache, b, d, t).contains_key(k) ==> pushed.contains(k.0),
    decreases d,
{
    if !(t >= d || cache.contains_key((b, t))) {
        let lvl = level_for(d, t);
        if !(lvl >= 16 || !anc.contains_key((b, lvl as usize))) {
            match anc[(b, lvl as usize)].0 {
                None => {},
                Some(a) => {
                    let sd = anc[(b, lvl as usize)].1;
                    if sd < d {
                        lemma_walk_cache_keys(anc, cache, a, sd, t, pushed);
                        assert(pushed.contains(b));
                        let inner = walk_cache(anc, cache, a, sd, t);
                        assert forall|k: PairKey| #[trigger] walk_cache(anc, cache, b, d, t).contains_key(k)
                            implies pushed.contains(k.0) by {
                            assert(walk_cache(anc, cache, b, d, t) == inner.insert((b, t), walk(anc, cache, a, sd, t).unwrap()));
                            if k != (b, t) {
                                assert(inner.contains_key(k));
                            }
                        }
                    }
                },
            }
        }
    }
}

/// Skip lists of ancestors with a cache of answers.
pub struct AncestorCache {
    /// Answers by block and target depth.
    pub cache: PairMap<Option<u64>>,
    /// Skip entries by block and level.
    pub ancestors: PairMap<Skip>,
    /// The blocks recorded, with depth and parent, in order.
    pub blocks: Vec<(u64, usize, Option<u64>)>,
    /// The depth below which everything was pruned.
    pub min_depth: usize,
    /// Every block ever pushed.
    pub pushed: Ghost<Set<u64>>,
}

impl AncestorCache {
    /// The maps hold one entry per key, every block recorded is below the
    /// top and not above the pruned depth, and answers and skip entries
    /// are held only for blocks that were pushed.
    pub open spec fn wf(&self) -> bool {
        &&& self.cache.wf()
        &&& self.ancestors.wf()
        &&& forall|i: int| 0 <= i < self.blocks@.len() ==> (#[trigger] self.blocks@[i]).1 >= 1
            && self.blocks@[i].1 >= self.min_depth
        &&& keys_pushed(self.cache.map(), self.ancestors.map(), self.blocks@, self.pushed@)
    }

    /// No blocks and no answers.
    pub fn new() -> (r: Self)
        ensures
            r.wf(),
            r.cache.map() == CacheMap::empty(),
            r.ancestors.map() == SkipMap::empty(),
            r.blocks@ == Seq::<(u64, usize, Option<u64>)>::empty(),
            r.min_depth == 0,
            r.pushed@ == Set::<u64>::empty(),
    {
        AncestorCache {
            cache: PairMap::new(),
            ancestors: PairMap::new(),
            blocks: Vec::new(),
            min_depth: 0,
            pushed: Ghost(Set::empty()),
        }
    }

    /// The depth below which everything was pruned.
    pub fn min_depth(&self) -> (r: usize)
        ensures
            r == self.min_depth,
    {
        self.min_depth
    }

    /// Record a block: at each level where its depth is a multiple of the
    /// level's power of two (counted from the pruned depth) it jumps to its
    /// parent; at the other levels it jumps where its parent does. Unless an
    /// answer one level up was cached for it, which a block never pushed
    /// before cannot have, a lookup from it then gives its parent.
    pub fn push_block(&mut self, block: u64, block_depth: usize, parent: Option<u64>)
        requires
            old(self).wf(),
            block_depth >= 1,
            block_depth >= old(self).min_depth,
        ensures
            final(self).wf(),
            final(self).ancestors.map() == push_levels(old(self).ancestors.map(), block, block_depth, parent,
                old(self).min_depth, 16),
            final(self).blocks@ == old(self).blocks@.push((block, block_depth, parent)),
            final(self).cache == old(self).cache,
            final(self).min_depth == old(self).min_depth,
            final(self).pushed@ == old(self).pushed@.insert(block),
            walk(final(self).ancestors.map(), final(self).cache.map(), block, block_depth, block_depth)
                == Some(Some(block)),
            !old(self).pushed@.contains(block) ==> !old(self).cache.map().contains_key((block, (block_depth - 1) as usize)),
            !old(self).cache.map().contains_key((block, (block_depth - 1) as usize)) ==> walk(final(self).ancestors.map(),
                final(self).cache.map(), block, block_depth, (block_depth - 1) as usize) == Some(parent),
    {
        let ghost start = self.ancestors.map();
        let mut i: usize = 0;
        let mut step: usize = 1;
        proof {
            vstd::arithmetic::power2::lemma2_to64();
        }
        while i < LEVELS
            invariant
                i <= 16,
                step == pow2(i as nat),
                step <= 0x10000,
                self.ancestors.wf(),
                self.cache == old(self).cache,
                self.blocks == old(self).blocks,
                self.min_depth == old(self).min_depth,
                self.pushed == old(self).pushed,
                block_depth >= 1,
                block_depth >= self.min_depth,
                start == old(self).ancestors.map(),
                self.ancestors.map() == push_levels(start, block, block_depth, parent, self.min_depth, i as nat),
            decreases 16 - i,
        {
            proof {
                vstd::arithmetic::power2::lemma_pow2_pos(i as nat);
            }
            if (block_depth - self.min_depth) % step == 0 {
                self.ancestors.insert((block, i), (parent, block_depth - 1));
            } else {
                match parent {
                    Some(p) => match self.ancestors.get((p, i)) {
                        Some(a) => self.ancestors.insert((block, i), a),
                        None => {},
                    },
                    None => {},
                }
            }
            proof {
                vstd::arithmetic::power2::lemma_pow2_unfold((i + 1) as nat);
                if i < 15 {
                    vstd::arithmetic::power2::lemma_pow2_strictly_increases((i + 1) as nat, 16);
                }
                assert(pow2(16) == 0x10000) by {
                    vstd::arithmetic::power2::lemma2_to64();
                }
            }
            i = i + 1;
            step = step * 2;
        }
        self.blocks.push((block, block_depth, parent));
        proof {
            self.pushed@ = self.pushed@.insert(block);
            lemma_push_levels_keys(start, block, block_depth, parent, self.min_depth, 16);
            assert forall|x: int| 0 <= x < self.blocks@.len() implies self.pushed@.contains((#[trigger] self.blocks@[x]).0) by {
                if x < old(self).blocks@.len() {
                    assert(self.blocks@[x] == old(self).blocks@[x]);
                }
            }
            if !self.cache.map().contains_key((block, (block_depth - 1) as usize)) {
                lemma_push_then_lookup_parent(start, self.cache.map(), block, block_depth, parent, self.min_depth);
            }
        }
    }

    /// The ancestor of `block`, at `block_depth`, at `target_depth`: none
    /// for a target below the block, the block itself at its own depth;
    /// otherwise jump by the skip entries, and cache the answer.
    pub fn lookup(&mut self, block: &u64, block_depth: usize, target_depth: usize) -> (r: Option<u64>)
        requires
            old(self).wf(),
            walk(old(self).ancestors.map(), old(self).cache.map(), *block, block_depth, target_depth) is Some,
        ensures
            final(self).wf(),
            r == walk(old(self).ancestors.map(), old(self).cache.map(), *block, block_depth, target_depth).unwrap(),
            final(self).cache.map() == walk_cache(old(self).ancestors.map(), old(self).cache.map(), *block,
                block_depth, target_depth),
            final(self).ancestors == old(self).ancestors,
            final(self).blocks == old(self).blocks,
            final(self).min_depth == old(self).min_depth,
            final(self).pushed == old(self).pushed,
        decreases block_depth,
    {
        if target_depth > block_depth {
            return None;
        } else if target_depth == block_depth {
            return Some(*block);
        }
        let key = (*block, target_depth);
        match self.cache.get(key) {
            Some(r) => return r,
            None => {},
        }
        let lvl = match log2(block_depth - target_depth - 1) {
            Some(l) => l,
            None => 0,
        };
        match self.ancestors.get((*block, lvl)) {
            None => None,
            Some(skip) => match skip.0 {
                None => None,
                Some(skip_block) => {
                    let ret = self.lookup(&skip_block, skip.1, target_depth);
                    self.cache.insert(key, ret);
                    ret
                },
            },
        }
    }
}

impl AncestorCache {
    /// Forget what lies above `min_depth`: cached answers for shallower
    /// targets, skip entries jumping shallower, and shallower blocks; then
    /// record the remaining blocks again from the new depth, which lists
    /// each of them a second time.
    pub fn prune(&mut self, min_depth: usize)
        requires
            old(self).wf(),
        ensures
            final(self).wf(),
            final(self).cache.map() == restrict_cache(old(self).cache.map(), min_depth),
            final(self).ancestors.map() == repush(restrict_skips(old(self).ancestors.map(), min_depth),
                keep_blocks(old(self).blocks@, min_depth), min_depth),
            final(self).blocks@ == keep_blocks(old(self).blocks@, min_depth) + keep_blocks(old(self).blocks@, min_depth),
            final(self).min_depth == min_depth,
            final(self).pushed == old(self).pushed,
    {
        let ghost old_cache = self.cache.entries@;
        let mut cache: PairMap<Option<u64>> = PairMap::new();
        let mut i: usize = 0;
        while i < self.cache.entries.len()
            invariant
                i <= old_cache.len(),
                old_cache == self.cache.entries@,
                cache.wf(),
                cache.map() == restrict_cache(crate::pair_map::map_of(old_cache.take(i as int)), min_depth),
            decreases old_cache.len() - i,
        {
            let e = self.cache.entries[i];
            proof {
                assert(old_cache.take(i + 1).drop_last() =~= old_cache.take(i as int));
            }
            if e.0.1 >= min_depth {
                cache.insert(e.0, e.1);
            }
            i = i + 1;
            proof {
                assert(cache.map() =~= restrict_cache(crate::pair_map::map_of(old_cache.take(i as int)), min_depth));
            }
        }
        proof {
            assert(old_cache.take(old_cache.len() as int) =~= old_cache);
        }
        self.cache = cache;

        let ghost old_skips = self.ancestors.entries@;
        let mut skips: PairMap<Skip> = PairMap::new();
        let mut j: usize = 0;
        while j < self.ancestors.entries.len()
            invariant
                j <= old_skips.len(),
                old_skips == self.ancestors.entries@,
                crate::pair_map::keys_distinct(old_skips),
                skips.wf(),
                skips.map() == restrict_skips(crate::pair_map::map_of(old_skips.take(j as int)), min_depth),
            decreases old_skips.len() - j,
        {
            let e = self.ancestors.entries[j];
            let ghost prefix = old_skips.take(j as int);
            proof {
                assert(old_skips.take(j + 1).drop_last() =~= prefix);
                assert(crate::pair_map::keys_distinct(prefix));
                lemma_map_of(prefix);
                if crate::pair_map::map_of(prefix).contains_key(e.0) {
                    let k = choose|k: int| 0 <= k < prefix.len() && prefix[k].0 == e.0;
                    assert(old_skips[k].0 == old_skips[j as int].0);
                }
            }
            if e.1.1 >= min_depth {
                skips.insert(e.0, e.1);
            }
            j = j + 1;
            proof {
                assert(skips.map() =~= restrict_skips(crate::pair_map::map_of(old_skips.take(j as int)), min_depth));
            }
        }
        proof {
            assert(old_skips.take(old_skips.len() as int) =~= old_skips);
        }
        self.ancestors = skips;

        let ghost old_blocks = self.blocks@;
        let mut kept: Vec<(u64, usize, Option<u64>)> = Vec::new();
        let mut again: Vec<(u64, usize, Option<u64>)> = Vec::new();
        let mut k: usize = 0;
        while k < self.blocks.len()
            invariant
                k <= old_blocks.len(),
                old_blocks == self.blocks@,
                forall|x: int| 0 <= x < old_blocks.len() ==> (#[trigger] old_blocks[x]).1 >= 1,
                kept@ == keep_blocks(old_blocks.take(k as int), min_depth),
                again@ == kept@,
                forall|x: int| 0 <= x < kept@.len() ==> (#[trigger] kept@[x]).1 >= 1 && kept@[x].1 >= min_depth,
                forall|x: int| 0 <= x < old_blocks.len() ==> old(self).pushed@.contains((#[trigger] old_blocks[x]).0),
                forall|x: int| 0 <= x < kept@.len() ==> old(self).pushed@.contains((#[trigger] kept@[x]).0),
            decreases old_blocks.len() - k,
        {
            let b = self.blocks[k];
            proof {
                assert(old_blocks.take(k + 1).drop_last() =~= old_blocks.take(k as int));
                assert(old_blocks[k as int] == b);
            }
            if b.1 >= min_depth {
                kept.push(b);
                again.push(b);
            }
            k = k + 1;
        }
        proof {
            assert(old_blocks.take(old_blocks.len() as int) =~= old_blocks);
        }
        self.blocks = kept;
        self.min_depth = min_depth;
        proof {
            assert forall|key: PairKey| #[trigger] self.cache.map().contains_key(key)
                implies self.pushed@.contains(key.0) by {
                assert(old(self).cache.map().contains_key(key));
            }
            assert forall|key: PairKey| #[trigger] self.ancestors.map().contains_key(key)
                implies self.pushed@.contains(key.0) by {
                assert(old(self).ancestors.map().contains_key(key));
            }
        }
        let ghost base = self.ancestors.map();
        let mut m: usize = 0;
        while m < again.len()
            invariant
                m <= again@.len(),
                self.min_depth == min_depth,
                self.cache.wf(),
                self.ancestors.wf(),
                forall|x: int| 0 <= x < again@.len() ==> (#[trigger] again@[x]).1 >= 1 && again@[x].1 >= min_depth,
                self.blocks@ == again@ + again@.take(m as int),
                self.ancestors.map() == repush(base, again@.take(m as int), min_depth),
                self.cache.map() == restrict_cache(old(self).cache.map(), min_depth),
                self.pushed == old(self).pushed,
                keys_pushed(self.cache.map(), self.ancestors.map(), self.blocks@, self.pushed@),
                forall|x: int| 0 <= x < again@.len() ==> self.pushed@.contains((#[trigger] again@[x]).0),
            decreases again@.len() - m,
        {
            let b = again[m];
            proof {
                assert(again@.take(m + 1).drop_last() =~= again@.take(m as int));
                assert(again@[m as int] == b);
                assert forall|x: int| 0 <= x < self.blocks@.len() implies (#[trigger] self.blocks@[x]).1 >= 1
                    && self.blocks@[x].1 >= self.min_depth by {
                    if x < again@.len() {
                        assert(self.blocks@[x] == again@[x]);
                    } else {
                        assert(self.blocks@[x] == again@[x - again@.len()]);
                    }
                }
            }
            self.push_block(b.0, b.1, b.2);
            m = m + 1;
            proof {
                assert(self.blocks@ =~= again@ + again@.take(m as int));
                assert(self.pushed@ =~= old(self).pushed@);
            }
        }
        proof {
            assert(again@.take(again@.len() as int) =~= again@);
            assert forall|x: int| 0 <= x < self.blocks@.len() implies (#[trigger] self.blocks@[x]).1 >= 1
                && self.blocks@[x].1 >= self.min_depth by {
                if x < again@.len() {
                    assert(self.blocks@[x] == again@[x]);
                } else {
                    assert(self.blocks@[x] == again@[x - again@.len()]);
                }
            }
        }
    }
}

/// Scores by vote target and its depth.
pub type ScoreMap = Map<PairKey, usize>;

/// The votes for `block` at `depth`, counting the scores in order, and the
/// cache after their lookups; `None` when a lookup is undefined or the sum
/// does not fit.
pub open spec fn count_votes_from(
    anc: SkipMap,
    cache: CacheMap,
    scores: Seq<(PairKey, usize)>,
    block: u64,
    depth: usize,
) -> Option<(nat, CacheMap)>
    decreases scores.len(),
{
    if scores.len() == 0 {
        Some((0, cache))
    } else {
        match count_votes_from(anc, cache, scores.drop_last(), block, depth) {
            None => None,
            Some((n, c)) => {
                let ((target, target_depth), votes) = scores.last();
                match walk(anc, c, target, target_depth, depth) {
                    None => None,
                    Some(r) => {
                        let total: nat = if r == Some(block) { n + votes as nat } else { n };
                        if total > usize::MAX {
                            None
                        } else {
                            Some((total, walk_cache(anc, c, target, target_depth, depth)))
                        }
                    },
                }
            },
        }
    }
}

/// A score change applied: at or below the pruned depth, an existing score
/// moves by the change, and a new one starts at the change read as unsigned.
pub open spec fn apply_score(m: ScoreMap, k: PairKey, change: isize, min: usize) -> ScoreMap {
    if k.1 < min {
        m
    } else if m.contains_key(k) {
        m.insert(k, (m[k] + change) as usize)
    } else {
        m.insert(k, change as usize)
    }
}

/// A score change applies without overflow.
pub open spec fn score_change_ok(m: ScoreMap, k: PairKey, change: isize, min: usize) -> bool {
    k.1 >= min && m.contains_key(k) ==> (
        if change > 0 { m[k] + change <= usize::MAX } else { change > isize::MIN && m[k] + change >= 0 })
}

/// The scores after the changes, in order.
pub open spec fn apply_scores_spec(m: ScoreMap, changes: Seq<(PairKey, isize)>, min: usize) -> ScoreMap
    decreases changes.len(),
{
    if changes.len() == 0 {
        m
    } else {
        let c = changes.last();
        apply_score(apply_scores_spec(m, changes.drop_last(), min), c.0, c.1, min)
    }
}

/// Every change applies without overflow.
pub open spec fn changes_ok(m: ScoreMap, changes: Seq<(PairKey, isize)>, min: usize) -> bool
    decreases changes.len(),
{
    if changes.len() == 0 {
        true
    } else {
        let c = changes.last();
        changes_ok(m, changes.drop_last(), min) && score_change_ok(apply_scores_spec(m, changes.drop_last(), min), c.0, c.1, min)
    }
}

/// The positive scores.
pub open spec fn positive_scores(m: ScoreMap) -> ScoreMap {
    Map::new(|k: PairKey| m.contains_key(k) && m[k] > 0, |k: PairKey| m[k])
}

/// Fork choice over pruned history, with a skip list and latest scores.
pub struct PruningGhost {
    /// Skip lists of ancestors.
    pub ancestor_cache: AncestorCache,
    /// Latest scores by vote target and depth.
    pub latest_scores: PairMap<usize>,
}

impl PruningGhost {
    /// No blocks and no scores.
    pub fn new() -> (r: Self)
        ensures
            r.ancestor_cache.wf(),
            r.latest_scores.wf(),
            r.ancestor_cache.cache.map() == CacheMap::empty(),
            r.ancestor_cache.ancestors.map() == SkipMap::empty(),
            r.ancestor_cache.blocks@ == Seq::<(u64, usize, Option<u64>)>::empty(),
            r.ancestor_cache.min_depth == 0,
            r.latest_scores.map() == ScoreMap::empty(),
    {
        PruningGhost { ancestor_cache: AncestorCache::new(), latest_scores: PairMap::new() }
    }

    /// The skip lists, to record blocks in.
    pub fn ancestor_cache(&mut self) -> (r: &mut AncestorCache)
        ensures
            *r == old(self).ancestor_cache,
            final(self).ancestor_cache == *final(r),
            final(self).latest_scores == old(self).latest_scores,
    {
        &mut self.ancestor_cache
    }

    /// The votes for `block` at `block_depth`: the scores whose target has
    /// it as ancestor.
    pub fn vote_count(&mut self, block: &u64, block_depth: usize) -> (r: usize)
        requires
            old(self).ancestor_cache.wf(),
            count_votes_from(old(self).ancestor_cache.ancestors.map(), old(self).ancestor_cache.cache.map(),
                old(self).latest_scores.entries@, *block, block_depth) is Some,
        ensures
            ({
                let (n, c) = count_votes_from(old(self).ancestor_cache.ancestors.map(),
                    old(self).ancestor_cache.cache.map(), old(self).latest_scores.entries@, *block, block_depth).unwrap();
                &&& r == n
                &&& final(self).ancestor_cache.cache.map() == c
            }),
            final(self).ancestor_cache.wf(),
            final(self).ancestor_cache.ancestors == old(self).ancestor_cache.ancestors,
            final(self).ancestor_cache.blocks == old(self).ancestor_cache.blocks,
            final(self).ancestor_cache.min_depth == old(self).ancestor_cache.min_depth,
            final(self).latest_scores == old(self).latest_scores,
    {
        let ghost anc = self.ancestor_cache.ancestors.map();
        let ghost scores = self.latest_scores.entries@;
        let ghost cache0 = self.ancestor_cache.cache.map();
        let mut total: usize = 0;
        let mut i: usize = 0;
        while i < self.latest_scores.entries.len()
            invariant
                i <= scores.len(),
                scores == self.latest_scores.entries@,
                self.latest_scores == old(self).latest_scores,
                self.ancestor_cache.wf(),
                anc == self.ancestor_cache.ancestors.map(),
                self.ancestor_cache.ancestors == old(self).ancestor_cache.ancestors,
                self.ancestor_cache.blocks == old(self).ancestor_cache.blocks,
                self.ancestor_cache.min_depth == old(self).ancestor_cache.min_depth,
                count_votes_from(anc, cache0, scores, *block, block_depth) is Some,
                count_votes_from(anc, cache0, scores.take(i as int), *block, block_depth)
                    == Some((total as nat, self.ancestor_cache.cache.map())),
            decreases scores.len() - i,
        {
            let ((target, target_depth), votes) = self.latest_scores.entries[i];
            proof {
                assert(scores.take(i + 1).drop_last() =~= scores.take(i as int));
                lemma_count_prefix_defined(anc, cache0, scores, *block, block_depth, (i + 1) as int);
            }
            let found = self.ancestor_cache.lookup(&target, target_depth, block_depth);
            if found == Some(*block) {
                total = total + votes;
            }
            i = i + 1;
        }
        proof {
            assert(scores.take(scores.len() as int) =~= scores);
        }
        total
    }
}

/// A prefix of a defined count is defined.
proof fn lemma_count_prefix_defined(
    anc: SkipMap,
    cache: CacheMap,
    scores: Seq<(PairKey, usize)>,
    block: u64,
    depth: usize,
    n: int,
)
    requires
        count_votes_from(anc, cache, scores, block, depth) is Some,
        0 <= n <= scores.len(),
    ensures
        count_votes_from(anc, cache, scores.take(n), block, depth) is Some,
    decreases scores.len(),
{
    if n < scores.len() {
        lemma_count_prefix_defined(anc, cache, scores.drop_last(), block, depth, n);
        assert(scores.drop_last().take(n) =~= scores.take(n));
    } else {
        assert(scores.take(n) =~= scores);
    }
}

/// The child with the most votes at `depth`, the first among equals, the
/// first child when none has any, and the cache after counting; `None`
/// when a count is undefined.
pub open spec fn best_threaded(
    anc: SkipMap,
    cache: CacheMap,
    scores: Seq<(PairKey, usize)>,
    children: Seq<u64>,
    depth: usize,
    best: u64,
    best_score: nat,
) -> Option<(u64, CacheMap)>
    decreases children.len(),
{
    if children.len() == 0 {
        Some((best, cache))
    } else {
        match count_votes_from(anc, cache, scores, children[0], depth) {
            None => None,
            Some((n, c)) => if n > best_score {
                best_threaded(anc, c, scores, children.drop_first(), depth, children[0], n)
            } else {
                best_threaded(anc, c, scores, children.drop_first(), depth, best, best_score)
            },
        }
    }
}

/// The head reached from `b` at `d` by moving to the best child until a
/// leaf, and the cache after it; `None` when a count is undefined or the
/// depth overflows.
pub open spec fn pruning_walk(
    store: ChainStore,
    anc: SkipMap,
    cache: CacheMap,
    scores: Seq<(PairKey, usize)>,
    b: u64,
    d: usize,
    fuel: nat,
) -> Option<(u64, CacheMap)>
    decreases fuel,
{
    let children = children_of(store.blocks@, b);
    if fuel == 0 || children.len() == 0 {
        Some((b, cache))
    } else if d + 1 > usize::MAX {
        None
    } else {
        match best_threaded(anc, cache, scores, children, (d + 1) as usize, children[0], 0) {
            None => None,
            Some((next, c)) => pruning_walk(store, anc, c, scores, next, (d + 1) as usize, (fuel - 1) as nat),
        }
    }
}

/// The best child found is one of the children or the starting candidate.
proof fn lemma_best_threaded_member(
    anc: SkipMap,
    cache: CacheMap,
    scores: Seq<(PairKey, usize)>,
    children: Seq<u64>,
    depth: usize,
    best: u64,
    best_score: nat,
)
    requires
        best_threaded(anc, cache, scores, children, depth, best, best_score) is Some,
    ensures
        ({
            let r = best_threaded(anc, cache, scores, children, depth, best, best_score).unwrap().0;
            r == best || exists|j: int| 0 <= j < children.len() && children[j] == r
        }),
    decreases children.len(),
{
    if children.len() > 0 {
        let (n, c) = count_votes_from(anc, cache, scores, children[0], depth).unwrap();
        if n > best_score {
            lemma_best_threaded_member(anc, c, scores, children.drop_first(), depth, children[0], n);
        } else {
            lemma_best_threaded_member(anc, c, scores, children.drop_first(), depth, best, best_score);
        }
        let r = best_threaded(anc, cache, scores, children, depth, best, best_score).unwrap().0;
        if r != best && r != children[0] {
            let j = choose|j: int| 0 <= j < children.drop_first().len() && children.drop_first()[j] == r;
            assert(children[j + 1] == r);
        }
    }
}

/// The walk from a block ends at a leaf below it.
proof fn lemma_pruning_walk_leaf(
    store: ChainStore,
    anc: SkipMap,
    cache: CacheMap,
    scores: Seq<(PairKey, usize)>,
    b: u64,
    d: usize,
    top: int,
)
    requires
        store.wf(),
        store.has(b),
        0 <= top <= store.record(b).depth,
        pruning_walk(store, anc, cache, scores, b, d, (store.blocks@.len() - store.record(b).depth) as nat) is Some,
    ensures
        ({
            let h = pruning_walk(store, anc, cache, scores, b, d, (store.blocks@.len() - store.record(b).depth) as nat).unwrap().0;
            &&& store.has(h)
            &&& children_of(store.blocks@, h).len() == 0
            &&& store.ancestor(h, top) == store.ancestor(b, top)
        }),
    decreases store.blocks@.len() - store.record(b).depth,
{
    let bs = store.blocks@;
    crate::chain::lemma_index_of_bounds(bs, b);
    crate::chain::lemma_depth_bound(bs, index_of(bs, b));
    let children = children_of(bs, b);
    if children.len() > 0 {
        let (next, c) = best_threaded(anc, cache, scores, children, (d + 1) as usize, children[0], 0).unwrap();
        lemma_best_threaded_member(anc, cache, scores, children, (d + 1) as usize, children[0], 0);
        let j = if next == children[0] { 0 } else {
            choose|j: int| 0 <= j < children.len() && children[j] == next
        };
        crate::archive::lemma_child_facts_pub(store, b, next, j);
        lemma_pruning_walk_leaf(store, anc, c, scores, next, (d + 1) as usize, top);
        assert(store.ancestor(next, top) == store.ancestor(b, top));
    }
}

impl PruningGhost {
    /// Apply score changes at or below the pruned depth, then drop the
    /// scores that are not positive.
    pub fn apply_scores(&mut self, scores: &[(PairKey, isize)])
        requires
            old(self).latest_scores.wf(),
            changes_ok(old(self).latest_scores.map(), scores@, old(self).ancestor_cache.min_depth),
        ensures
            final(self).latest_scores.wf(),
            final(self).latest_scores.map()
                == positive_scores(apply_scores_spec(old(self).latest_scores.map(), scores@, old(self).ancestor_cache.min_depth)),
            final(self).ancestor_cache == old(self).ancestor_cache,
    {
        let min = self.ancestor_cache.min_depth;
        let ghost m0 = self.latest_scores.map();
        let mut i: usize = 0;
        while i < scores.len()
            invariant
                i <= scores@.len(),
                min == self.ancestor_cache.min_depth,
                self.ancestor_cache == old(self).ancestor_cache,
                self.latest_scores.wf(),
                changes_ok(m0, scores@, min),
                self.latest_scores.map() == apply_scores_spec(m0, scores@.take(i as int), min),
            decreases scores@.len() - i,
        {
            let ((target, target_depth), change) = scores[i];
            proof {
                assert(scores@.take(i + 1).drop_last() =~= scores@.take(i as int));
                lemma_changes_ok_prefix(m0, scores@, min, (i + 1) as int);
            }
            if target_depth >= min {
                match self.latest_scores.get((target, target_depth)) {
                    Some(v) => {
                        let nv = if change > 0 { v + change as usize } else { v - (-change) as usize };
                        self.latest_scores.insert((target, target_depth), nv);
                    },
                    None => {
                        self.latest_scores.insert((target, target_depth), change as usize);
                    },
                }
            }
            i = i + 1;
        }
        proof {
            assert(scores@.take(scores@.len() as int) =~= scores@);
        }
        let ghost entries = self.latest_scores.entries@;
        let mut kept: PairMap<usize> = PairMap::new();
        let mut j: usize = 0;
        while j < self.latest_scores.entries.len()
            invariant
                j <= entries.len(),
                entries == self.latest_scores.entries@,
                crate::pair_map::keys_distinct(entries),
                kept.wf(),
                kept.map() == positive_scores(crate::pair_map::map_of(entries.take(j as int))),
            decreases entries.len() - j,
        {
            let e = self.latest_scores.entries[j];
            let ghost prefix = entries.take(j as int);
            proof {
                assert(entries.take(j + 1).drop_last() =~= prefix);
                assert(crate::pair_map::keys_distinct(prefix));
                lemma_map_of(prefix);
                if crate::pair_map::map_of(prefix).contains_key(e.0) {
                    let k = choose|k: int| 0 <= k < prefix.len() && prefix[k].0 == e.0;
                    assert(entries[k].0 == entries[j as int].0);
                }
            }
            if e.1 > 0 {
                kept.insert(e.0, e.1);
            }
            j = j + 1;
            proof {
                assert(kept.map() =~= positive_scores(crate::pair_map::map_of(entries.take(j as int))));
            }
        }
        proof {
            assert(entries.take(entries.len() as int) =~= entries);
        }
        self.latest_scores = kept;
    }

    /// The fork-choice head from `justified` at `justified_depth`: walk
    /// down to the child with the most votes, the first among equals, until a leaf.
    pub fn head(&mut self, backend: &ChainStore, justified: &u64, justified_depth: usize) -> (r: Result<u64, Error>)
        requires
            old(self).ancestor_cache.wf(),
            backend.wf(),
            backend.has(*justified) ==> pruning_walk(*backend, old(self).ancestor_cache.ancestors.map(),
                old(self).ancestor_cache.cache.map(), old(self).latest_scores.entries@, *justified, justified_depth,
                (backend.blocks@.len() - backend.record(*justified).depth) as nat) is Some,
        ensures
            match r {
                Ok(h) => {
                    let walked = pruning_walk(*backend, old(self).ancestor_cache.ancestors.map(),
                        old(self).ancestor_cache.cache.map(), old(self).latest_scores.entries@, *justified, justified_depth,
                        (backend.blocks@.len() - backend.record(*justified).depth) as nat);
                    &&& backend.has(*justified)
                    &&& walked == Some((h, final(self).ancestor_cache.cache.map()))
                    &&& children_of(backend.blocks@, h).len() == 0
                    &&& backend.ancestor(h, backend.record(*justified).depth as int) == *justified
                },
                Err(e) => e == Error::NotExist && !backend.has(*justified),
            },
            final(self).ancestor_cache.wf(),
            final(self).ancestor_cache.ancestors == old(self).ancestor_cache.ancestors,
            final(self).latest_scores == old(self).latest_scores,
    {
        let ghost anc = self.ancestor_cache.ancestors.map();
        let ghost scores = self.latest_scores.entries@;
        let ghost bs = backend.blocks@;
        let ghost cache0 = self.ancestor_cache.cache.map();
        let len = backend.blocks.len();
        if !backend.contains(*justified) {
            return Err(Error::NotExist);
        }
        let ghost dj = backend.record(*justified).depth as int;
        let ghost walked = pruning_walk(*backend, anc, cache0, scores, *justified, justified_depth,
            (bs.len() - dj) as nat);
        let ghost result = walked.unwrap();
        let mut head = *justified;
        let mut head_depth = justified_depth;
        proof {
            crate::chain::lemma_index_of_bounds(bs, *justified);
            crate::chain::lemma_index_of_distinct(bs, index_of(bs, *justified));
            lemma_pruning_walk_leaf(*backend, anc, cache0, scores, *justified, justified_depth, dj);
        }
        loop
            invariant
                backend.wf(),
                bs == backend.blocks@,
                len == bs.len(),
                anc == self.ancestor_cache.ancestors.map(),
                scores == self.latest_scores.entries@,
                self.ancestor_cache.wf(),
                self.ancestor_cache.ancestors == old(self).ancestor_cache.ancestors,
                self.latest_scores == old(self).latest_scores,
                backend.has(*justified),
                dj == backend.record(*justified).depth,
                backend.has(head),
                dj <= backend.record(head).depth,
                backend.ancestor(head, dj) == *justified,
                pruning_walk(*backend, anc, self.ancestor_cache.cache.map(), scores, head, head_depth,
                    (bs.len() - backend.record(head).depth) as nat) == Some(result),
                walked == Some(result),
                walked == pruning_walk(*backend, anc, cache0, scores, *justified, justified_depth, (bs.len() - dj) as nat),
                cache0 == old(self).ancestor_cache.cache.map(),
            decreases bs.len() - backend.record(head).depth,
        {
            proof {
                crate::chain::lemma_index_of_bounds(bs, head);
                crate::chain::lemma_depth_bound(bs, index_of(bs, head));
                lemma_pruning_walk_leaf(*backend, anc, self.ancestor_cache.cache.map(), scores, head, head_depth, dj);
            }
            let children = match backend.children_at(head) {
                Ok(c) => c,
                Err(e) => return Err(e),
            };
            if children.len() == 0 {
                proof {
                    assert(children_of(bs, head).len() == 0);
                    assert(pruning_walk(*backend, anc, self.ancestor_cache.cache.map(), scores, head, head_depth,
                        (bs.len() - backend.record(head).depth) as nat) == Some((head, self.ancestor_cache.cache.map())));
                    assert(result == (head, self.ancestor_cache.cache.map()));
                }
                return Ok(head);
            }
            let next_depth = head_depth + 1;
            let ghost level_cache = self.ancestor_cache.cache.map();
            let mut best = children[0];
            let mut best_score: usize = 0;
            let mut k: usize = 0;
            proof {
                assert(children@.skip(0) =~= children@);
            }
            while k < children.len()
                invariant
                    anc == self.ancestor_cache.ancestors.map(),
                    scores == self.latest_scores.entries@,
                    self.ancestor_cache.wf(),
                    self.ancestor_cache.ancestors == old(self).ancestor_cache.ancestors,
                    self.latest_scores == old(self).latest_scores,
                    k <= children@.len(),
                    best_threaded(anc, level_cache, scores, children@, next_depth, children@[0], 0)
                        == best_threaded(anc, self.ancestor_cache.cache.map(), scores, children@.skip(k as int),
                            next_depth, best, best_score as nat),
                    best_threaded(anc, level_cache, scores, children@, next_depth, children@[0], 0) is Some,
                decreases children@.len() - k,
            {
                let c = children[k];
                proof {
                    assert(children@.skip(k as int).drop_first() =~= children@.skip(k + 1));
                    assert(children@.skip(k as int)[0] == c);
                }
                let vc = self.vote_count(&c, next_depth);
                if vc > best_score {
                    best = c;
                    best_score = vc;
                }
                k = k + 1;
            }
            proof {
                assert(children@.skip(children@.len() as int) =~= Seq::<u64>::empty());
                lemma_best_threaded_member(anc, level_cache, scores, children@, next_depth, children@[0], 0);
                let j = if best == children@[0] { 0 } else {
                    choose|j: int| 0 <= j < children@.len() && children@[j] == best
                };
                crate::archive::lemma_child_facts_pub(*backend, head, best, j);
            }
            head = best;
            head_depth = next_depth;
        }
    }
}

/// A prefix of valid changes is valid.
proof fn lemma_changes_ok_prefix(m: ScoreMap, changes: Seq<(PairKey, isize)>, min: usize, n: int)
    requires
        changes_ok(m, changes, min),
        0 <= n <= changes.len(),
    ensures
        changes_ok(m, changes.take(n), min),
        n > 0 ==> score_change_ok(apply_scores_spec(m, changes.take(n - 1), min), changes[n - 1].0, changes[n - 1].1, min),
    decreases changes.len(),
{
    if n < changes.len() {
        lemma_changes_ok_prefix(m, changes.drop_last(), min, n);
        assert(changes.drop_last().take(n) =~= changes.take(n));
        if n > 0 {
            assert(changes.drop_last().take(n - 1) =~= changes.take(n - 1));
        }
    } else {
        assert(changes.take(n) =~= changes);
        if n > 0 {
            assert(changes.take(n - 1) =~= changes.drop_last());
        }
    }
}

} // verus!
