//! LMD-GHOST fork choice over the whole block tree: each validator's latest
//! vote counts for every ancestor of its target, and the head is found by
//! walking down to the child with the most votes.

use vstd::prelude::*;
use crate::backend::ShasperBackend;
use crate::chain::{ChainStore, BlockRecord, Error, children_of, index_of, parent_index, ancestor_index, blocks_wf};

verus! {

/// A vote: the validator and the block it voted for.
pub type Vote = (u64, u64);

/// Whether some entry is keyed by `k`.
pub open spec fn has_key(entries: Seq<Vote>, k: u64) -> bool {
    exists|i: int| 0 <= i < entries.len() && (#[trigger] entries[i]).0 == k
}

/// Keys are distinct.
pub open spec fn keys_unique(entries: Seq<Vote>) -> bool {
    forall|i: int, j: int| 0 <= i < j < entries.len() ==> (#[trigger] entries[i]).0 != (#[trigger] entries[j]).0
}

/// The entries after setting `k` to `v`: its entry is replaced, or one is added.
pub open spec fn set_vote(entries: Seq<Vote>, k: u64, v: u64) -> Seq<Vote>
    decreases entries.len(),
{
    if entries.len() == 0 {
        seq![(k, v)]
    } else if entries[0].0 == k {
        seq![(k, v)] + entries.drop_first()
    } else {
        seq![entries[0]] + set_vote(entries.drop_first(), k, v)
    }
}

/// The entries after setting each vote of `overlay` in turn.
pub open spec fn apply_votes(entries: Seq<Vote>, overlay: Seq<Vote>) -> Seq<Vote>
    decreases overlay.len(),
{
    if overlay.len() == 0 {
        entries
    } else {
        let rest = apply_votes(entries, overlay.drop_last());
        set_vote(rest, overlay.last().0, overlay.last().1)
    }
}

/// The entries whose validator is listed, in order.
pub open spec fn retain_active(entries: Seq<Vote>, active: Seq<u64>) -> Seq<Vote>
    decreases entries.len(),
{
    if entries.len() == 0 {
        Seq::empty()
    } else {
        let rest = retain_active(entries.drop_last(), active);
        if active.contains(entries.last().0) { rest.push(entries.last()) } else { rest }
    }
}

/// Entries not shadowed by `shadow` whose target's ancestor at `depth` is `block`.
pub open spec fn count_votes(entries: Seq<Vote>, shadow: Seq<Vote>, store: ChainStore, block: u64, depth: int) -> nat
    decreases entries.len(),
{
    if entries.len() == 0 {
        0
    } else {
        let rest = count_votes(entries.drop_last(), shadow, store, block, depth);
        let (k, t) = entries.last();
        if !has_key(shadow, k) && store.ancestor(t, depth) == block { rest + 1 } else { rest }
    }
}

/// Every target of the entries not shadowed by `shadow` is in the tree.
pub open spec fn targets_known(entries: Seq<Vote>, shadow: Seq<Vote>, store: ChainStore) -> bool {
    forall|i: int| 0 <= i < entries.len() && !has_key(shadow, (#[trigger] entries[i]).0) ==> store.has(entries[i].1)
}

/// The votes for `block` at `depth`: the overlay's, and the committed ones it does not override.
pub open spec fn vote_count_spec(store: ChainStore, votes: Seq<Vote>, overlay: Seq<Vote>, block: u64, depth: int) -> nat {
    count_votes(overlay, Seq::empty(), store, block, depth) + count_votes(votes, overlay, store, block, depth)
}

/// Every vote that counts has a known target.
pub open spec fn all_targets_known(store: ChainStore, votes: Seq<Vote>, overlay: Seq<Vote>) -> bool {
    targets_known(overlay, Seq::empty(), store) && targets_known(votes, overlay, store)
}

/// The child with the most votes at `depth`, the first among equals, the
/// first child when none has any: scanning `children` from `best` with `best_score`.
pub open spec fn best_child_from(
    store: ChainStore,
    votes: Seq<Vote>,
    overlay: Seq<Vote>,
    children: Seq<u64>,
    depth: int,
    best: u64,
    best_score: nat,
) -> u64
    decreases children.len(),
{
    if children.len() == 0 {
        best
    } else {
        let c = children[0];
        let s = vote_count_spec(store, votes, overlay, c, depth);
        if s > best_score {
            best_child_from(store, votes, overlay, children.drop_first(), depth, c, s)
        } else {
            best_child_from(store, votes, overlay, children.drop_first(), depth, best, best_score)
        }
    }
}

/// The head reached from `b` at `depth` by repeatedly moving to the best child.
pub open spec fn ghost_walk(store: ChainStore, votes: Seq<Vote>, overlay: Seq<Vote>, b: u64, depth: int, fuel: nat) -> u64
    decreases fuel,
{
    let children = children_of(store.blocks@, b);
    if fuel == 0 || children.len() == 0 {
        b
    } else {
        let next = best_child_from(store, votes, overlay, children, depth + 1, children[0], 0);
        ghost_walk(store, votes, overlay, next, depth + 1, (fuel - 1) as nat)
    }
}

/// Fork choice over the block tree, with an overlay of votes not yet committed.
pub struct ArchiveGhost {
    /// The chain backend.
    pub backend: ShasperBackend,
    /// Committed latest votes, one per validator.
    pub votes: Vec<Vote>,
    /// Latest votes not yet committed, one per validator.
    pub overlayed_votes: Vec<Vote>,
}

/// Setting a vote in a key-unique list replaces the entry or appends one.
fn set_vote_in(entries: &mut Vec<Vote>, k: u64, v: u64)
    ensures
        final(entries)@ == set_vote(old(entries)@, k, v),
        keys_unique(old(entries)@) ==> keys_unique(final(entries)@),
{
    let ghost start = entries@;
    let mut i: usize = 0;
    while i < entries.len()
        invariant
            i <= entries@.len(),
            entries@ == start,
            start == old(entries)@,
            forall|j: int| 0 <= j < i ==> start[j].0 != k,
        decreases entries@.len() - i,
    {
        if entries[i].0 == k {
            assert(start[i as int].0 == k);
            entries.set(i, (k, v));
            proof {
                lemma_set_vote_at(start, i as int, k, v);
            }
            return;
        }
        i = i + 1;
    }
    entries.push((k, v));
    proof {
        lemma_set_vote_push(start, k, v);
    }
}

proof fn lemma_set_vote_at(s: Seq<Vote>, i: int, k: u64, v: u64)
    requires
        0 <= i < s.len(),
        s[i].0 == k,
        forall|j: int| 0 <= j < i ==> s[j].0 != k,
    ensures
        set_vote(s, k, v) == s.update(i, (k, v)),
        keys_unique(s) ==> keys_unique(s.update(i, (k, v))),
    decreases i,
{
    if i == 0 {
        assert(seq![(k, v)] + s.drop_first() =~= s.update(0, (k, v)));
    } else {
        lemma_set_vote_at(s.drop_first(), i - 1, k, v);
        assert(seq![s[0]] + s.drop_first().update(i - 1, (k, v)) =~= s.update(i, (k, v)));
    }
}

proof fn lemma_set_vote_push(s: Seq<Vote>, k: u64, v: u64)
    requires
        forall|j: int| 0 <= j < s.len() ==> s[j].0 != k,
    ensures
        set_vote(s, k, v) == s.push((k, v)),
        keys_unique(s) ==> keys_unique(s.push((k, v))),
    decreases s.len(),
{
    if s.len() == 0 {
        assert(seq![(k, v)] =~= s.push((k, v)));
    } else {
        lemma_set_vote_push(s.drop_first(), k, v);
        assert(seq![s[0]] + s.drop_first().push((k, v)) =~= s.push((k, v)));
    }
}

/// Whether some entry is keyed by `k`.
fn has_key_in(entries: &Vec<Vote>, k: u64) -> (r: bool)
    ensures
        r == has_key(entries@, k),
{
    let mut i: usize = 0;
    while i < entries.len()
        invariant
            i <= entries@.len(),
            forall|j: int| 0 <= j < i ==> entries@[j].0 != k,
        decreases entries@.len() - i,
    {
        if entries[i].0 == k {
            proof {
                assert(entries@[i as int].0 == k);
            }
            return true;
        }
        i = i + 1;
    }
    false
}

impl ArchiveGhost {
    /// The backend is well formed and each list holds one vote per validator.
    pub open spec fn wf(&self) -> bool {
        &&& self.backend.0.wf()
        &&& keys_unique(self.votes@)
        &&& keys_unique(self.overlayed_votes@)
    }

    /// Fork choice over `backend`, with no votes.
    pub fn new(backend: ShasperBackend) -> (r: Self)
        ensures
            r.backend == backend,
            r.votes@ == Seq::<Vote>::empty(),
            r.overlayed_votes@ == Seq::<Vote>::empty(),
    {
        ArchiveGhost { backend, votes: Vec::new(), overlayed_votes: Vec::new() }
    }

    /// Record in the overlay the latest vote of a validator.
    pub fn update_overlay(&mut self, validator_id: u64, target_root: u64)
        ensures
            final(self).backend == old(self).backend,
            final(self).votes@ == old(self).votes@,
            final(self).overlayed_votes@ == set_vote(old(self).overlayed_votes@, validator_id, target_root),
            old(self).wf() ==> final(self).wf(),
    {
        set_vote_in(&mut self.overlayed_votes, validator_id, target_root);
    }

    /// Commit the overlay into the votes and empty it.
    pub fn commit_overlay(&mut self)
        ensures
            final(self).backend == old(self).backend,
            final(self).votes@ == apply_votes(old(self).votes@, old(self).overlayed_votes@),
            final(self).overlayed_votes@ == Seq::<Vote>::empty(),
            old(self).wf() ==> final(self).wf(),
    {
        let ghost backend0 = self.backend;
        let mut overlay: Vec<Vote> = Vec::new();
        std::mem::swap(&mut overlay, &mut self.overlayed_votes);
        let ghost start = self.votes@;
        let mut i: usize = 0;
        while i < overlay.len()
            invariant
                i <= overlay@.len(),
                self.votes@ == apply_votes(start, overlay@.take(i as int)),
                keys_unique(start) ==> keys_unique(self.votes@),
                self.overlayed_votes@ == Seq::<Vote>::empty(),
                self.backend == backend0,
            decreases overlay@.len() - i,
        {
            proof {
                assert(overlay@.take(i + 1).drop_last() =~= overlay@.take(i as int));
            }
            let (k, v) = overlay[i];
            set_vote_in(&mut self.votes, k, v);
            i = i + 1;
        }
        proof {
            assert(overlay@.take(overlay@.len() as int) =~= overlay@);
        }
    }

    /// Drop the overlay.
    pub fn reset_overlay(&mut self)
        ensures
            final(self).backend == old(self).backend,
            final(self).votes@ == old(self).votes@,
            final(self).overlayed_votes@ == Seq::<Vote>::empty(),
            old(self).wf() ==> final(self).wf(),
    {
        self.overlayed_votes = Vec::new();
    }

    /// Keep only the committed votes of the listed validators.
    pub fn update_active(&mut self, active_validators: &[u64])
        ensures
            final(self).backend == old(self).backend,
            final(self).votes@ == retain_active(old(self).votes@, active_validators@),
            final(self).overlayed_votes@ == old(self).overlayed_votes@,
            old(self).wf() ==> final(self).wf(),
    {
        let mut votes: Vec<Vote> = Vec::new();
        std::mem::swap(&mut votes, &mut self.votes);
        let mut kept: Vec<Vote> = Vec::new();
        let mut i: usize = 0;
        while i < votes.len()
            invariant
                i <= votes@.len(),
                kept@ == retain_active(votes@.take(i as int), active_validators@),
                forall|j: int| 0 <= j < kept@.len() ==> exists|m: int| 0 <= m < i && votes@[m] == #[trigger] kept@[j],
                forall|a: int, b: int| 0 <= a < b < kept@.len() ==> exists|ma: int, mb: int|
                    0 <= ma < mb < i && votes@[ma] == #[trigger] kept@[a] && votes@[mb] == #[trigger] kept@[b],
            decreases votes@.len() - i,
        {
            proof {
                assert(votes@.take(i + 1).drop_last() =~= votes@.take(i as int));
            }
            let v = votes[i];
            if crate::reward::contains_slice(active_validators, v.0) {
                let ghost before = kept@;
                kept.push(v);
                proof {
                    assert forall|a: int, b: int| 0 <= a < b < kept@.len() implies exists|ma: int, mb: int|
                        0 <= ma < mb < i + 1 && votes@[ma] == #[trigger] kept@[a] && votes@[mb] == #[trigger] kept@[b] by {
                        if b < before.len() {
                            let (ma, mb) = choose|ma: int, mb: int| 0 <= ma < mb < i && votes@[ma] == before[a] && votes@[mb] == before[b];
                            assert(votes@[ma] == kept@[a] && votes@[mb] == kept@[b]);
                        } else {
                            let ma = choose|ma: int| 0 <= ma < i && votes@[ma] == before[a];
                            assert(votes@[ma] == kept@[a] && votes@[i as int] == kept@[b]);
                        }
                    }
                    assert forall|j: int| 0 <= j < kept@.len() implies exists|m: int| 0 <= m < i + 1 && votes@[m] == #[trigger] kept@[j] by {
                        if j < before.len() {
                            let m = choose|m: int| 0 <= m < i && votes@[m] == before[j];
                            assert(votes@[m] == kept@[j]);
                        } else {
                            assert(votes@[i as int] == kept@[j]);
                        }
                    }
                }
            }
            i = i + 1;
        }
        proof {
            assert(votes@.take(votes@.len() as int) =~= votes@);
            if keys_unique(votes@) {
                assert forall|a: int, b: int| 0 <= a < b < kept@.len() implies (#[trigger] kept@[a]).0 != (#[trigger] kept@[b]).0 by {
                    let (ma, mb) = choose|ma: int, mb: int| 0 <= ma < mb < votes@.len() && votes@[ma] == kept@[a] && votes@[mb] == kept@[b];
                    assert(votes@[ma].0 != votes@[mb].0);
                }
            }
        }
        self.votes = kept;
    }

    /// The votes for `block` at `block_depth`: overlay votes, and committed
    /// votes of validators with no overlay vote, whose target descends from it.
    pub fn vote_count(&self, block: u64, block_depth: u64) -> (r: Result<usize, Error>)
        requires
            self.backend.0.wf(),
            self.votes@.len() + self.overlayed_votes@.len() <= usize::MAX,
        ensures
            match r {
                Ok(n) => all_targets_known(self.backend.0, self.votes@, self.overlayed_votes@)
                    && n == vote_count_spec(self.backend.0, self.votes@, self.overlayed_votes@, block, block_depth as int),
                Err(e) => e == Error::NotExist && !all_targets_known(self.backend.0, self.votes@, self.overlayed_votes@),
            },
    {
        let store = &self.backend.0;
        let overlay = &self.overlayed_votes;
        let votes = &self.votes;
        let mut total: usize = 0;
        let mut i: usize = 0;
        while i < overlay.len()
            invariant
                store.wf(),
                store == self.backend.0,
                overlay@ == self.overlayed_votes@,
                votes@ == self.votes@,
                i <= overlay@.len(),
                total <= i,
                targets_known(overlay@.take(i as int), Seq::empty(), *store),
                total == count_votes(overlay@.take(i as int), Seq::empty(), *store, block, block_depth as int),
            decreases overlay@.len() - i,
        {
            proof {
                assert(overlay@.take(i + 1).drop_last() =~= overlay@.take(i as int));
            }
            let (_, target) = overlay[i];
            match self.backend.ancestor_at(target, block_depth) {
                Ok(a) => {
                    if a == block {
                        total = total + 1;
                    }
                },
                Err(e) => {
                    proof {
                        assert(!has_key(Seq::<Vote>::empty(), overlay@[i as int].0));
                        assert(!store.has(overlay@[i as int].1));
                        assert(!targets_known(overlay@, Seq::empty(), *store));
                        assert(!all_targets_known(self.backend.0, self.votes@, self.overlayed_votes@));
                        assert(e == Error::NotExist);
                    }
                    return Err(e);
                },
            }
            i = i + 1;
            proof {
                assert forall|j: int| 0 <= j < i && !has_key(Seq::<Vote>::empty(), (#[trigger] overlay@.take(i as int)[j]).0)
                    implies store.has(overlay@.take(i as int)[j].1) by {
                    if j < i - 1 {
                        assert(overlay@.take(i as int)[j] == overlay@.take(i - 1)[j]);
                    }
                }
            }
        }
        proof {
            assert(overlay@.take(overlay@.len() as int) =~= overlay@);
        }
        let mut j: usize = 0;
        while j < votes.len()
            invariant
                store.wf(),
                store == self.backend.0,
                overlay@ == self.overlayed_votes@,
                votes@ == self.votes@,
                votes@.len() + overlay@.len() <= usize::MAX,
                j <= votes@.len(),
                total <= overlay@.len() + j,
                targets_known(overlay@, Seq::empty(), *store),
                targets_known(votes@.take(j as int), overlay@, *store),
                total == count_votes(overlay@, Seq::empty(), *store, block, block_depth as int)
                    + count_votes(votes@.take(j as int), overlay@, *store, block, block_depth as int),
            decreases votes@.len() - j,
        {
            proof {
                assert(votes@.take(j + 1).drop_last() =~= votes@.take(j as int));
            }
            let (v, target) = votes[j];
            if !has_key_in(overlay, v) {
                match self.backend.ancestor_at(target, block_depth) {
                    Ok(a) => {
                        if a == block {
                            total = total + 1;
                        }
                    },
                    Err(e) => {
                        proof {
                            assert(!has_key(overlay@, votes@[j as int].0));
                            assert(!store.has(votes@[j as int].1));
                            assert(!targets_known(votes@, overlay@, *store));
                            assert(!all_targets_known(self.backend.0, self.votes@, self.overlayed_votes@));
                            assert(e == Error::NotExist);
                        }
                        return Err(e);
                    },
                }
            }
            j = j + 1;
            proof {
                assert forall|m: int| 0 <= m < j && !has_key(overlay@, (#[trigger] votes@.take(j as int)[m]).0)
                    implies store.has(votes@.take(j as int)[m].1) by {
                    if m < j - 1 {
                        assert(votes@.take(j as int)[m] == votes@.take(j - 1)[m]);
                    }
                }
            }
        }
        proof {
            assert(votes@.take(votes@.len() as int) =~= votes@);
        }
        Ok(total)
    }
}

/// Every child listed is a block whose parent is `id`.
pub proof fn lemma_children_of_members(bs: Seq<BlockRecord>, id: u64, j: int)
    requires
        0 <= j < children_of(bs, id).len(),
    ensures
        exists|k: int| 0 <= k < bs.len() && (#[trigger] bs[k]).id == children_of(bs, id)[j] && bs[k].parent == Some(id),
    decreases bs.len(),
{
    let rest = children_of(bs.drop_last(), id);
    if bs.last().parent == Some(id) && j == rest.len() {
        assert(bs[bs.len() - 1].id == children_of(bs, id)[j]);
    } else {
        lemma_children_of_members(bs.drop_last(), id, j);
        let k = choose|k: int| 0 <= k < bs.drop_last().len() && (#[trigger] bs.drop_last()[k]).id == rest[j]
            && bs.drop_last()[k].parent == Some(id);
        assert(bs[k] == bs.drop_last()[k]);
    }
}

/// A child of a block in a well-formed tree is in the tree, one level
/// below it, and has it as ancestor at every depth up to its own.
proof fn lemma_child_facts(store: ChainStore, head: u64, c: u64, j: int)
    requires
        store.wf(),
        store.has(head),
        0 <= j < children_of(store.blocks@, head).len(),
        children_of(store.blocks@, head)[j] == c,
    ensures
        store.has(c),
        store.record(c).depth == store.record(head).depth + 1,
        forall|d: int| 0 <= d <= store.record(head).depth ==> #[trigger] store.ancestor(c, d) == store.ancestor(head, d),
{
    let bs = store.blocks@;
    lemma_children_of_members(bs, head, j);
    let k = choose|k: int| 0 <= k < bs.len() && (#[trigger] bs[k]).id == c && bs[k].parent == Some(head);
    crate::chain::lemma_index_of_distinct(bs, k);
    crate::chain::lemma_index_of_bounds(bs, head);
    if k == 0 {
        assert(bs[0].parent.is_none());
    }
    assert(bs[k].parent.is_some());
    assert(parent_index(bs, k) == index_of(bs, head));
    assert forall|d: int| 0 <= d <= store.record(head).depth implies #[trigger] store.ancestor(c, d) == store.ancestor(head, d) by {
        crate::backend::lemma_ancestor_step(bs, k, d);
    }
}

/// A child of a block in a well-formed tree is in the tree, one level
/// below it, and has it as ancestor at every depth up to its own.
pub proof fn lemma_child_facts_pub(store: ChainStore, head: u64, c: u64, j: int)
    requires
        store.wf(),
        store.has(head),
        0 <= j < children_of(store.blocks@, head).len(),
        children_of(store.blocks@, head)[j] == c,
    ensures
        store.has(c),
        store.record(c).depth == store.record(head).depth + 1,
        forall|d: int| 0 <= d <= store.record(head).depth ==> #[trigger] store.ancestor(c, d) == store.ancestor(head, d),
{
    lemma_child_facts(store, head, c, j);
}

/// The best child is one of the children, or the starting candidate.
proof fn lemma_best_child_member(
    store: ChainStore,
    votes: Seq<Vote>,
    overlay: Seq<Vote>,
    children: Seq<u64>,
    depth: int,
    best: u64,
    best_score: nat,
)
    ensures
        ({
            let r = best_child_from(store, votes, overlay, children, depth, best, best_score);
            r == best || exists|j: int| 0 <= j < children.len() && children[j] == r
        }),
    decreases children.len(),
{
    if children.len() > 0 {
        let c = children[0];
        let s = vote_count_spec(store, votes, overlay, c, depth);
        if s > best_score {
            lemma_best_child_member(store, votes, overlay, children.drop_first(), depth, c, s);
        } else {
            lemma_best_child_member(store, votes, overlay, children.drop_first(), depth, best, best_score);
        }
        let r = best_child_from(store, votes, overlay, children, depth, best, best_score);
        if r != best && r != c {
            let j = choose|j: int| 0 <= j < children.drop_first().len() && children.drop_first()[j] == r;
            assert(children[j + 1] == r);
        }
    }
}

/// The walk from a block ends at a leaf below it.
pub proof fn lemma_walk_ends_at_leaf(store: ChainStore, votes: Seq<Vote>, overlay: Seq<Vote>, b: u64, depth: int, top: int)
    requires
        store.wf(),
        store.has(b),
        depth == store.record(b).depth,
        0 <= top <= depth,
    ensures
        ({
            let h = ghost_walk(store, votes, overlay, b, depth, (store.blocks@.len() - depth) as nat);
            &&& store.has(h)
            &&& children_of(store.blocks@, h).len() == 0
            &&& store.ancestor(h, top) == store.ancestor(b, top)
        }),
    decreases store.blocks@.len() - depth,
{
    let bs = store.blocks@;
    crate::chain::lemma_index_of_bounds(bs, b);
    crate::chain::lemma_depth_bound(bs, index_of(bs, b));
    let children = children_of(bs, b);
    if children.len() > 0 {
        let next = best_child_from(store, votes, overlay, children, depth + 1, children[0], 0);
        lemma_best_child_member(store, votes, overlay, children, depth + 1, children[0], 0);
        let j = if next == children[0] { 0 } else {
            choose|j: int| 0 <= j < children.len() && children[j] == next
        };
        lemma_child_facts(store, b, next, j);
        lemma_walk_ends_at_leaf(store, votes, overlay, next, depth + 1, top);
        assert(store.ancestor(next, top) == store.ancestor(b, top));
    }
}

impl ArchiveGhost {
    /// The fork-choice head from `justified`: walk down to the child with the
    /// most votes, the first among equals, until a leaf.
    pub fn head(&self, justified: u64) -> (r: Result<u64, Error>)
        requires
            self.backend.0.wf(),
            self.votes@.len() + self.overlayed_votes@.len() <= usize::MAX,
        ensures
            match r {
                Ok(h) => {
                    let store = self.backend.0;
                    let d = store.record(justified).depth as int;
                    &&& store.has(justified)
                    &&& h == ghost_walk(store, self.votes@, self.overlayed_votes@, justified, d,
                        (store.blocks@.len() - d) as nat)
                    &&& store.has(h)
                    &&& children_of(store.blocks@, h).len() == 0
                    &&& store.ancestor(h, d) == justified
                    &&& (all_targets_known(store, self.votes@, self.overlayed_votes@)
                        || children_of(store.blocks@, justified).len() == 0)
                },
                Err(e) => e == Error::NotExist && (!self.backend.0.has(justified) || (
                    !all_targets_known(self.backend.0, self.votes@, self.overlayed_votes@)
                    && children_of(self.backend.0.blocks@, justified).len() > 0)),
            },
    {
        let store = &self.backend.0;
        let ghost bs = store.blocks@;
        let ghost votes = self.votes@;
        let ghost overlay = self.overlayed_votes@;
        let mut head = justified;
        let mut head_depth = match self.backend.depth_at(justified) {
            Ok(d) => d,
            Err(e) => return Err(e),
        };
        let ghost dj = head_depth as int;
        let len = store.blocks.len();
        proof {
            crate::chain::lemma_index_of_bounds(bs, justified);
            crate::chain::lemma_index_of_distinct(bs, index_of(bs, justified));
            lemma_walk_ends_at_leaf(*store, votes, overlay, justified, dj, dj);
        }
        loop
            invariant
                store.wf(),
                store == self.backend.0,
                bs == store.blocks@,
                votes == self.votes@,
                overlay == self.overlayed_votes@,
                self.votes@.len() + self.overlayed_votes@.len() <= usize::MAX,
                store.has(justified),
                dj == store.record(justified).depth,
                store.has(head),
                head_depth == store.record(head).depth,
                dj <= head_depth,
                store.ancestor(head, dj) == justified,
                ghost_walk(*store, votes, overlay, head, head_depth as int, (bs.len() - head_depth) as nat)
                    == ghost_walk(*store, votes, overlay, justified, dj, (bs.len() - dj) as nat),
                head != justified ==> all_targets_known(*store, votes, overlay),
                len == bs.len(),
            decreases bs.len() - head_depth,
        {
            proof {
                crate::chain::lemma_index_of_bounds(bs, head);
                crate::chain::lemma_depth_bound(bs, index_of(bs, head));
                lemma_walk_ends_at_leaf(*store, votes, overlay, head, head_depth as int, dj);
            }
            let children = match self.backend.children_at(head) {
                Ok(c) => c,
                Err(e) => return Err(e),
            };
            if children.len() == 0 {
                return Ok(head);
            }
            let mut best = children[0];
            let mut best_score: usize = 0;
            let mut k: usize = 0;
            proof {
                assert(children@.skip(0) =~= children@);
                assert(head_depth < len);
            }
            while k < children.len()
                invariant
                    store.wf(),
                    store == self.backend.0,
                    votes == self.votes@,
                    overlay == self.overlayed_votes@,
                    self.votes@.len() + self.overlayed_votes@.len() <= usize::MAX,
                    children@ == children_of(store.blocks@, head),
                    children@.len() > 0,
                    k <= children@.len(),
                    head_depth < u64::MAX,
                    k > 0 ==> all_targets_known(*store, votes, overlay),
                    head != justified ==> all_targets_known(*store, votes, overlay),
                    best_child_from(*store, votes, overlay, children@, head_depth + 1, children@[0], 0)
                        == best_child_from(*store, votes, overlay, children@.skip(k as int), head_depth + 1,
                            best, best_score as nat),
                decreases children@.len() - k,
            {
                let c = children[k];
                let vc = match self.vote_count(c, head_depth + 1) {
                    Ok(n) => n,
                    Err(e) => return Err(e),
                };
                proof {
                    assert(children@.skip(k as int).drop_first() =~= children@.skip(k + 1));
                    assert(children@.skip(k as int)[0] == c);
                }
                if vc > best_score {
                    best = c;
                    best_score = vc;
                }
                k = k + 1;
            }
            proof {
                assert(children@.skip(children@.len() as int) =~= Seq::<u64>::empty());
                let next = best_child_from(*store, votes, overlay, children@, head_depth + 1, children@[0], 0);
                assert(next == best);
                lemma_best_child_member(*store, votes, overlay, children@, head_depth + 1, children@[0], 0);
                let j = if best == children@[0] { 0 } else {
                    choose|j: int| 0 <= j < children@.len() && children@[j] == best
                };
                lemma_child_facts(*store, head, best, j);
                assert(store.ancestor(best, dj) == store.ancestor(head, dj));
            }
            head = best;
            head_depth = head_depth + 1;
        }
    }
}

/// The block voted for by `k`, the last entry deciding.
pub open spec fn vote_of(entries: Seq<Vote>, k: u64) -> Option<u64>
    decreases entries.len(),
{
    if entries.len() == 0 {
        None
    } else if entries.last().0 == k {
        Some(entries.last().1)
    } else {
        vote_of(entries.drop_last(), k)
    }
}

/// One when `k` votes for a block whose ancestor at `depth` is `block`.
pub open spec fn vote_hit(entries: Seq<Vote>, k: u64, store: ChainStore, block: u64, depth: int) -> nat {
    match vote_of(entries, k) {
        Some(t) => if store.ancestor(t, depth) == block { 1 } else { 0 },
        None => 0,
    }
}

proof fn lemma_vote_of_absent(entries: Seq<Vote>, k: u64)
    requires
        forall|j: int| 0 <= j < entries.len() ==> (#[trigger] entries[j]).0 != k,
    ensures
        vote_of(entries, k) is None,
    decreases entries.len(),
{
    if entries.len() > 0 {
        assert(entries[entries.len() - 1].0 != k);
        lemma_vote_of_absent(entries.drop_last(), k);
    }
}

proof fn lemma_vote_of_at(entries: Seq<Vote>, i: int)
    requires
        keys_unique(entries),
        0 <= i < entries.len(),
    ensures
        vote_of(entries, entries[i].0) == Some(entries[i].1),
    decreases entries.len(),
{
    if i < entries.len() - 1 {
        assert(entries.drop_last()[i] == entries[i]);
        assert(entries[entries.len() - 1].0 != entries[i].0);
        lemma_vote_of_at(entries.drop_last(), i);
    }
}

/// Shadowing one more key removes that key's vote from the count.
proof fn lemma_count_shadow_push(entries: Seq<Vote>, shadow: Seq<Vote>, k: u64, v: u64, store: ChainStore, block: u64, depth: int)
    requires
        keys_unique(entries),
    ensures
        count_votes(entries, shadow.push((k, v)), store, block, depth)
            + (if has_key(shadow, k) { 0 } else { vote_hit(entries, k, store, block, depth) })
            == count_votes(entries, shadow, store, block, depth),
    decreases entries.len(),
{
    if entries.len() > 0 {
        let e = entries.drop_last();
        assert(keys_unique(e));
        lemma_count_shadow_push(e, shadow, k, v, store, block, depth);
        let (k2, t2) = entries.last();
        let s2 = shadow.push((k, v));
        assert(has_key(s2, k2) == (has_key(shadow, k2) || k2 == k)) by {
            if has_key(shadow, k2) {
                let j = choose|j: int| 0 <= j < shadow.len() && (#[trigger] shadow[j]).0 == k2;
                assert(s2[j] == shadow[j]);
            }
            if k2 == k {
                assert(s2[shadow.len() as int].0 == k2);
            }
            if has_key(s2, k2) {
                let j = choose|j: int| 0 <= j < s2.len() && (#[trigger] s2[j]).0 == k2;
                if j < shadow.len() {
                    assert(s2[j] == shadow[j]);
                }
            }
        }
        if k2 == k {
            assert forall|j: int| 0 <= j < e.len() implies (#[trigger] e[j]).0 != k by {
                assert(e[j] == entries[j]);
            }
            lemma_vote_of_absent(e, k);
        }
    }
}

/// Counting with an entry replaced.
proof fn lemma_count_update(entries: Seq<Vote>, i: int, v: Vote, store: ChainStore, block: u64, depth: int)
    requires
        0 <= i < entries.len(),
    ensures
        count_votes(entries.update(i, v), Seq::empty(), store, block, depth)
            + (if store.ancestor(entries[i].1, depth) == block { 1int } else { 0int })
            == count_votes(entries, Seq::empty(), store, block, depth)
                + (if store.ancestor(v.1, depth) == block { 1int } else { 0int }),
    decreases entries.len(),
{
    let u = entries.update(i, v);
    assert(!has_key(Seq::<Vote>::empty(), v.0));
    assert(!has_key(Seq::<Vote>::empty(), entries[i].0));
    if i == entries.len() - 1 {
        assert(u.drop_last() =~= entries.drop_last());
    } else {
        assert(u.drop_last() =~= entries.drop_last().update(i, v));
        assert(!has_key(Seq::<Vote>::empty(), entries.last().0));
        lemma_count_update(entries.drop_last(), i, v, store, block, depth);
    }
}

/// Setting a vote keeps keys unique, and changes the count by the new
/// vote's hit less the old one's.
proof fn lemma_set_vote_count(entries: Seq<Vote>, k: u64, v: u64, store: ChainStore, block: u64, depth: int)
    requires
        keys_unique(entries),
    ensures
        keys_unique(set_vote(entries, k, v)),
        count_votes(set_vote(entries, k, v), Seq::empty(), store, block, depth)
            + vote_hit(entries, k, store, block, depth)
            == count_votes(entries, Seq::empty(), store, block, depth)
                + (if store.ancestor(v, depth) == block { 1int } else { 0int }),
        forall|k2: u64| k2 != k ==> vote_of(#[trigger] set_vote(entries, k, v), k2) == vote_of(entries, k2),
{
    if exists|i: int| 0 <= i < entries.len() && entries[i].0 == k {
        let i = choose|i: int| 0 <= i < entries.len() && entries[i].0 == k;
        assert forall|j: int| 0 <= j < i implies entries[j].0 != k by {}
        lemma_set_vote_at(entries, i, k, v);
        lemma_vote_of_at(entries, i);
        lemma_count_update(entries, i, (k, v), store, block, depth);
        let u = entries.update(i, (k, v));
        assert forall|k2: u64| k2 != k implies vote_of(#[trigger] set_vote(entries, k, v), k2) == vote_of(entries, k2) by {
            if exists|j: int| 0 <= j < entries.len() && entries[j].0 == k2 {
                let j = choose|j: int| 0 <= j < entries.len() && entries[j].0 == k2;
                lemma_vote_of_at(entries, j);
                assert(u[j] == entries[j]);
                lemma_vote_of_at(u, j);
            } else {
                lemma_vote_of_absent(entries, k2);
                assert forall|j: int| 0 <= j < u.len() implies (#[trigger] u[j]).0 != k2 by {
                    if j != i {
                        assert(u[j] == entries[j]);
                    }
                }
                lemma_vote_of_absent(u, k2);
            }
        }
    } else {
        lemma_set_vote_push(entries, k, v);
        lemma_vote_of_absent(entries, k);
        let u = entries.push((k, v));
        assert(u.drop_last() =~= entries);
        assert(!has_key(Seq::<Vote>::empty(), k));
    }
}

/// Committing the overlay leaves every vote count as it was: each
/// validator's vote, the overlay's over the committed one, is unchanged.
pub proof fn lemma_commit_keeps_vote_counts(store: ChainStore, votes: Seq<Vote>, overlay: Seq<Vote>, block: u64, depth: int)
    requires
        keys_unique(votes),
        keys_unique(overlay),
    ensures
        keys_unique(apply_votes(votes, overlay)),
        vote_count_spec(store, apply_votes(votes, overlay), Seq::empty(), block, depth)
            == vote_count_spec(store, votes, overlay, block, depth),
        forall|k: u64| !has_key(overlay, k) ==> #[trigger] vote_of(apply_votes(votes, overlay), k) == vote_of(votes, k),
    decreases overlay.len(),
{
    if overlay.len() == 0 {
        assert(count_votes(votes, overlay, store, block, depth) == count_votes(votes, Seq::empty(), store, block, depth)) by {
            assert(overlay =~= Seq::<Vote>::empty());
        }
    } else {
        let ov = overlay.drop_last();
        let (k, v) = overlay.last();
        assert(keys_unique(ov));
        lemma_commit_keeps_vote_counts(store, votes, ov, block, depth);
        let a = apply_votes(votes, ov);
        lemma_set_vote_count(a, k, v, store, block, depth);
        assert(overlay =~= ov.push((k, v)));
        assert(!has_key(ov, k)) by {
            if has_key(ov, k) {
                let j = choose|j: int| 0 <= j < ov.len() && (#[trigger] ov[j]).0 == k;
                assert(overlay[j] == ov[j]);
            }
        }
        lemma_count_shadow_push(votes, ov, k, v, store, block, depth);
        assert(vote_of(a, k) == vote_of(votes, k));
        assert(!has_key(Seq::<Vote>::empty(), k));
        assert(count_votes(Seq::<Vote>::empty(), Seq::<Vote>::empty(), store, block, depth) == 0);
        assert(count_votes(Seq::<Vote>::empty(), overlay, store, block, depth) == 0);
        assert(count_votes(Seq::<Vote>::empty(), ov, store, block, depth) == 0);
        assert forall|k2: u64| !has_key(overlay, k2) implies #[trigger] vote_of(apply_votes(votes, overlay), k2) == vote_of(votes, k2) by {
            assert(k2 != k) by {
                if k2 == k {
                    assert(overlay[overlay.len() - 1].0 == k);
                }
            }
            assert(!has_key(ov, k2)) by {
                if has_key(ov, k2) {
                    let j = choose|j: int| 0 <= j < ov.len() && (#[trigger] ov[j]).0 == k2;
                    assert(overlay[j] == ov[j]);
                }
            }
            assert(apply_votes(votes, overlay) == set_vote(a, k, v));
            assert(vote_of(set_vote(a, k, v), k2) == vote_of(a, k2));
            assert(vote_of(a, k2) == vote_of(votes, k2));
        }
    }
}

/// The head the fork choice walks to from `justified`.
pub open spec fn ghost_head_spec(store: ChainStore, votes: Seq<Vote>, overlay: Seq<Vote>, justified: u64) -> u64 {
    let d = store.record(justified).depth as int;
    ghost_walk(store, votes, overlay, justified, d, (store.blocks@.len() - d) as nat)
}

/// Where the fork choice can fail: the justified block is unknown, or it
/// has children while some counted vote targets an unknown block.
pub open spec fn head_fails(store: ChainStore, votes: Seq<Vote>, overlay: Seq<Vote>, justified: u64) -> bool {
    !store.has(justified) || (!all_targets_known(store, votes, overlay) && children_of(store.blocks@, justified).len() > 0)
}

proof fn lemma_set_vote_len(s: Seq<Vote>, k: u64, v: u64)
    ensures
        set_vote(s, k, v).len() <= s.len() + 1,
    decreases s.len(),
{
    if s.len() > 0 && s[0].0 != k {
        lemma_set_vote_len(s.drop_first(), k, v);
    }
}

proof fn lemma_apply_votes_len(entries: Seq<Vote>, overlay: Seq<Vote>)
    ensures
        apply_votes(entries, overlay).len() <= entries.len() + overlay.len(),
    decreases overlay.len(),
{
    if overlay.len() > 0 {
        lemma_apply_votes_len(entries, overlay.drop_last());
        lemma_set_vote_len(apply_votes(entries, overlay.drop_last()), overlay.last().0, overlay.last().1);
    }
}

proof fn lemma_retain_active_len(entries: Seq<Vote>, active: Seq<u64>)
    ensures
        retain_active(entries, active).len() <= entries.len(),
    decreases entries.len(),
{
    if entries.len() > 0 {
        lemma_retain_active_len(entries.drop_last(), active);
    }
}

/// Vote counts read only the blocks of a tree.
proof fn lemma_count_votes_blocks(entries: Seq<Vote>, shadow: Seq<Vote>, s1: ChainStore, s2: ChainStore, block: u64, depth: int)
    requires
        s1.blocks@ == s2.blocks@,
    ensures
        count_votes(entries, shadow, s1, block, depth) == count_votes(entries, shadow, s2, block, depth),
    decreases entries.len(),
{
    if entries.len() > 0 {
        lemma_count_votes_blocks(entries.drop_last(), shadow, s1, s2, block, depth);
    }
}

/// The best child reads only the blocks of a tree.
proof fn lemma_best_child_blocks(
    s1: ChainStore,
    s2: ChainStore,
    votes: Seq<Vote>,
    overlay: Seq<Vote>,
    children: Seq<u64>,
    depth: int,
    best: u64,
    best_score: nat,
)
    requires
        s1.blocks@ == s2.blocks@,
    ensures
        best_child_from(s1, votes, overlay, children, depth, best, best_score)
            == best_child_from(s2, votes, overlay, children, depth, best, best_score),
    decreases children.len(),
{
    if children.len() > 0 {
        let c = children[0];
        lemma_count_votes_blocks(overlay, Seq::empty(), s1, s2, c, depth);
        lemma_count_votes_blocks(votes, overlay, s1, s2, c, depth);
        let s = vote_count_spec(s1, votes, overlay, c, depth);
        if s > best_score {
            lemma_best_child_blocks(s1, s2, votes, overlay, children.drop_first(), depth, c, s);
        } else {
            lemma_best_child_blocks(s1, s2, votes, overlay, children.drop_first(), depth, best, best_score);
        }
    }
}

/// The walk reads only the blocks of a tree, not its canonical chain.
proof fn lemma_walk_blocks(s1: ChainStore, s2: ChainStore, votes: Seq<Vote>, overlay: Seq<Vote>, b: u64, depth: int, fuel: nat)
    requires
        s1.blocks@ == s2.blocks@,
    ensures
        ghost_walk(s1, votes, overlay, b, depth, fuel) == ghost_walk(s2, votes, overlay, b, depth, fuel),
    decreases fuel,
{
    let children = children_of(s1.blocks@, b);
    if fuel > 0 && children.len() > 0 {
        lemma_best_child_blocks(s1, s2, votes, overlay, children, depth + 1, children[0], 0);
        let next = best_child_from(s1, votes, overlay, children, depth + 1, children[0], 0);
        lemma_walk_blocks(s1, s2, votes, overlay, next, depth + 1, (fuel - 1) as nat);
    }
}

/// Imports blocks into the tree and moves the head to the fork choice.
pub struct ArchiveGhostImporter {
    /// The fork choice, with the tree it runs over.
    pub fork_choice: ArchiveGhost,
}

impl ArchiveGhostImporter {
    /// An importer over a tree, with no votes yet.
    pub fn new(backend: ShasperBackend) -> (r: Self)
        ensures
            r.fork_choice.backend == backend,
            r.fork_choice.votes@ == Seq::<Vote>::empty(),
            r.fork_choice.overlayed_votes@ == Seq::<Vote>::empty(),
    {
        ArchiveGhostImporter { fork_choice: ArchiveGhost::new(backend) }
    }

    /// Import an executed block: add it to the tree, note the votes it
    /// carries, keep the committed votes of the validators active at the
    /// justified checkpoint, and move the head to the fork choice from the
    /// justified block (genesis when none is justified). The noted votes are
    /// committed once the head is set and dropped if no head is found; an
    /// unknown parent or a known block leaves everything as it was.
    pub fn import_raw(
        &mut self,
        id: u64,
        parent: u64,
        slot: u64,
        justified_active_validators: &[u64],
        justified_block_id: Option<u64>,
        votes: &[Vote],
    ) -> (r: Result<(), Error>)
        requires
            old(self).fork_choice.wf(),
            old(self).fork_choice.votes@.len() + old(self).fork_choice.overlayed_votes@.len() + votes@.len() <= usize::MAX,
        ensures
            final(self).fork_choice.wf(),
            ({
                let store0 = old(self).fork_choice.backend.0;
                let store = final(self).fork_choice.backend.0;
                let justified = match justified_block_id {
                    Some(j) => j,
                    None => store0.blocks@[0].id,
                };
                let imported = store.blocks@ == store0.blocks@.push(BlockRecord {
                    id,
                    parent: Some(parent),
                    depth: (store0.record(parent).depth + 1) as u64,
                    slot,
                }) && !store0.has(id) && store0.has(parent);
                let votes1 = retain_active(old(self).fork_choice.votes@, justified_active_validators@);
                let overlay1 = apply_votes(old(self).fork_choice.overlayed_votes@, votes@);
                match r {
                    Ok(()) => {
                        &&& imported
                        &&& store.head_id() == ghost_head_spec(store, votes1, overlay1, justified)
                        &&& !head_fails(store, votes1, overlay1, justified)
                        &&& children_of(store.blocks@, store.head_id()).len() == 0
                        &&& store.ancestor(store.head_id(), store.record(justified).depth as int) == justified
                        &&& final(self).fork_choice.votes@ == apply_votes(votes1, overlay1)
                        &&& final(self).fork_choice.overlayed_votes@ == Seq::<Vote>::empty()
                    },
                    Err(e) => {
                        ||| {
                            &&& store.blocks@ == store0.blocks@
                            &&& store.canon@ == store0.canon@
                            &&& final(self).fork_choice.votes@ == old(self).fork_choice.votes@
                            &&& final(self).fork_choice.overlayed_votes@ == old(self).fork_choice.overlayed_votes@
                            &&& ((e == Error::InvalidOperation && store0.has(id))
                                || (e == Error::NotExist && !store0.has(id) && !store0.has(parent)))
                        }
                        ||| {
                            &&& imported
                            &&& store.canon@ == store0.canon@
                            &&& final(self).fork_choice.votes@ == votes1
                            &&& final(self).fork_choice.overlayed_votes@ == Seq::<Vote>::empty()
                            &&& e == Error::NotExist
                            &&& head_fails(store, votes1, overlay1, justified)
                        }
                    },
                }
            }),
    {
        let ghost old_votes = self.fork_choice.votes@;
        let ghost old_overlay = self.fork_choice.overlayed_votes@;
        let justified = match justified_block_id {
            Some(value) => value,
            None => self.fork_choice.backend.genesis(),
        };
        match self.fork_choice.backend.0.import_block(id, parent, slot) {
            Ok(()) => {},
            Err(e) => {
                return Err(e);
            },
        }
        let mut i: usize = 0;
        while i < votes.len()
            invariant
                i <= votes@.len(),
                self.fork_choice.wf(),
                self.fork_choice.votes@ == old_votes,
                self.fork_choice.overlayed_votes@ == apply_votes(old_overlay, votes@.take(i as int)),
                self.fork_choice.backend.0.blocks@ == old(self).fork_choice.backend.0.blocks@.push(BlockRecord {
                    id,
                    parent: Some(parent),
                    depth: (old(self).fork_choice.backend.0.record(parent).depth + 1) as u64,
                    slot,
                }),
                self.fork_choice.backend.0.canon@ == old(self).fork_choice.backend.0.canon@,
            decreases votes@.len() - i,
        {
            proof {
                assert(votes@.take(i + 1).drop_last() =~= votes@.take(i as int));
            }
            self.fork_choice.update_overlay(votes[i].0, votes[i].1);
            i = i + 1;
        }
        proof {
            assert(votes@.take(votes@.len() as int) =~= votes@);
        }
        self.fork_choice.update_active(justified_active_validators);
        proof {
            lemma_apply_votes_len(old_overlay, votes@);
            lemma_retain_active_len(old_votes, justified_active_validators@);
        }
        let new_head = match self.fork_choice.head(justified) {
            Ok(value) => value,
            Err(e) => {
                self.fork_choice.reset_overlay();
                return Err(e);
            },
        };
        let ghost store1 = self.fork_choice.backend.0;
        match self.fork_choice.backend.0.set_head(new_head) {
            Ok(()) => {
                self.fork_choice.commit_overlay();
            },
            Err(_) => {
                self.fork_choice.reset_overlay();
            },
        }
        proof {
            let store = self.fork_choice.backend.0;
            lemma_walk_blocks(store1, store, retain_active(old_votes, justified_active_validators@),
                apply_votes(old_overlay, votes@), justified, store1.record(justified).depth as int,
                (store1.blocks@.len() - store1.record(justified).depth) as nat);
        }
        Ok(())
    }
}

} // verus!
