//! Fork choice by latest messages: the justified and finalized blocks, the
//! votes counted along tree routes, and whether a new block becomes best.

use vstd::prelude::*;
use crate::hash::H256;
use crate::shuffle::hash_eq;

verus! {

/// A block by slot and hash.
pub type SlotHash = (u64, H256);

/// A block by slot and hash, with the votes it had.
pub type CountedBlock = (u64, H256, u64);

/// The route between two blocks of the tree: the blocks left, their common
/// ancestor, and the blocks entered.
#[derive(Debug)]
pub struct SimplifiedTreeRoute {
    /// Blocks retracted, from the old end towards the common ancestor.
    pub retracted: Vec<CountedBlock>,
    /// The common ancestor.
    pub common: CountedBlock,
    /// Blocks enacted, from the common ancestor towards the new end.
    pub enacted: Vec<CountedBlock>,
}

/// The finalized block and the justified blocks after it, by slot.
#[derive(Debug)]
pub struct FinalizationState {
    /// The last finalized block.
    pub finalized: SlotHash,
    /// Justified blocks, ordered by slot.
    pub justified: Vec<SlotHash>,
}

/// Some listed block has the hash `h`.
pub open spec fn hash_listed(blocks: Seq<SlotHash>, h: H256) -> bool {
    exists|i: int| 0 <= i < blocks.len() && (#[trigger] blocks[i]).1@ == h@
}

/// The justified blocks that stay after finalizing `block`: those after its
/// slot and not retracted.
pub open spec fn kept_justified(justified: Seq<SlotHash>, block: SlotHash, retracted: Seq<SlotHash>) -> Seq<SlotHash>
    decreases justified.len(),
{
    if justified.len() == 0 {
        Seq::empty()
    } else {
        let rest = kept_justified(justified.drop_last(), block, retracted);
        let b = justified.last();
        if b.0 > block.0 && !hash_listed(retracted, b.1) { rest.push(b) } else { rest }
    }
}

/// `x` inserted into a list ordered by slot, after every block of its slot or earlier.
pub open spec fn insert_by_slot(sorted: Seq<SlotHash>, x: SlotHash) -> Seq<SlotHash>
    decreases sorted.len(),
{
    if sorted.len() == 0 {
        seq![x]
    } else if sorted.last().0 <= x.0 {
        sorted.push(x)
    } else {
        insert_by_slot(sorted.drop_last(), x).push(sorted.last())
    }
}

/// The stable sort of a list by slot.
pub open spec fn sort_by_slot(s: Seq<SlotHash>) -> Seq<SlotHash>
    decreases s.len(),
{
    if s.len() == 0 {
        Seq::empty()
    } else {
        insert_by_slot(sort_by_slot(s.drop_last()), s.last())
    }
}

/// Ordered by slot.
pub open spec fn slot_sorted(s: Seq<SlotHash>) -> bool {
    forall|i: int, j: int| 0 <= i <= j < s.len() ==> (#[trigger] s[i]).0 <= (#[trigger] s[j]).0
}

/// Finalizing keeps the justified blocks in slot order.
pub proof fn lemma_kept_justified_sorted(justified: Seq<SlotHash>, block: SlotHash, retracted: Seq<SlotHash>)
    requires
        slot_sorted(justified),
    ensures
        slot_sorted(kept_justified(justified, block, retracted)),
        forall|i: int| 0 <= i < kept_justified(justified, block, retracted).len() ==>
            (#[trigger] kept_justified(justified, block, retracted)[i]).0 > block.0
            && !hash_listed(retracted, kept_justified(justified, block, retracted)[i].1),
    decreases justified.len(),
{
    if justified.len() > 0 {
        let rest = kept_justified(justified.drop_last(), block, retracted);
        assert(slot_sorted(justified.drop_last()));
        lemma_kept_justified_sorted(justified.drop_last(), block, retracted);
        lemma_kept_justified_members(justified.drop_last(), block, retracted);
        assert forall|i: int| 0 <= i < rest.len() implies (#[trigger] rest[i]).0 <= justified.last().0 by {
            let k = choose|k: int| 0 <= k < justified.drop_last().len() && justified.drop_last()[k] == rest[i];
            assert(justified[k] == rest[i]);
        }
    }
}

/// The justified blocks kept are among those before.
proof fn lemma_kept_justified_members(justified: Seq<SlotHash>, block: SlotHash, retracted: Seq<SlotHash>)
    ensures
        forall|i: int| 0 <= i < kept_justified(justified, block, retracted).len() ==>
            exists|k: int| 0 <= k < justified.len() && justified[k] == #[trigger] kept_justified(justified, block, retracted)[i],
    decreases justified.len(),
{
    if justified.len() > 0 {
        let rest = kept_justified(justified.drop_last(), block, retracted);
        lemma_kept_justified_members(justified.drop_last(), block, retracted);
        assert forall|i: int| 0 <= i < kept_justified(justified, block, retracted).len() implies
            exists|k: int| 0 <= k < justified.len() && justified[k] == #[trigger] kept_justified(justified, block, retracted)[i] by {
            if i < rest.len() {
                let k = choose|k: int| 0 <= k < justified.drop_last().len() && justified.drop_last()[k] == rest[i];
                assert(justified[k] == kept_justified(justified, block, retracted)[i]);
            } else {
                assert(justified[justified.len() - 1] == kept_justified(justified, block, retracted)[i]);
            }
        }
    }
}

/// Inserting at position `j`, past every larger slot from the end, is `insert_by_slot`.
proof fn lemma_insert_by_slot_at(sorted: Seq<SlotHash>, x: SlotHash, j: int)
    requires
        0 <= j <= sorted.len(),
        j > 0 ==> sorted[j - 1].0 <= x.0,
        forall|k: int| j <= k < sorted.len() ==> (#[trigger] sorted[k]).0 > x.0,
    ensures
        insert_by_slot(sorted, x) == sorted.insert(j, x),
    decreases sorted.len(),
{
    if sorted.len() == 0 {
        assert(seq![x] =~= sorted.insert(j, x));
    } else if j == sorted.len() {
        assert(sorted.push(x) =~= sorted.insert(j, x));
    } else {
        lemma_insert_by_slot_at(sorted.drop_last(), x, j);
        assert(sorted.drop_last().insert(j, x).push(sorted.last()) =~= sorted.insert(j, x));
    }
}

/// Inserting by slot keeps a list ordered.
proof fn lemma_insert_by_slot_sorted(sorted: Seq<SlotHash>, x: SlotHash)
    requires
        slot_sorted(sorted),
    ensures
        slot_sorted(insert_by_slot(sorted, x)),
        insert_by_slot(sorted, x).len() == sorted.len() + 1,
    decreases sorted.len(),
{
    if sorted.len() > 0 && sorted.last().0 > x.0 {
        lemma_insert_by_slot_sorted(sorted.drop_last(), x);
        let r = insert_by_slot(sorted.drop_last(), x);
        assert forall|i: int| 0 <= i < r.len() implies (#[trigger] r[i]).0 <= sorted.last().0 by {
            lemma_insert_by_slot_members(sorted.drop_last(), x, i);
        }
    }
}

/// Each block of an insertion is the inserted one or one of the list.
proof fn lemma_insert_by_slot_members(sorted: Seq<SlotHash>, x: SlotHash, i: int)
    requires
        0 <= i < insert_by_slot(sorted, x).len(),
    ensures
        insert_by_slot(sorted, x)[i] == x || exists|k: int| 0 <= k < sorted.len() && sorted[k] == insert_by_slot(sorted, x)[i],
        insert_by_slot(sorted, x).len() == sorted.len() + 1,
    decreases sorted.len(),
{
    if sorted.len() > 0 && sorted.last().0 > x.0 {
        let r = insert_by_slot(sorted.drop_last(), x);
        lemma_insert_by_slot_members(sorted.drop_last(), x, 0);
        if i < r.len() {
            lemma_insert_by_slot_members(sorted.drop_last(), x, i);
            if insert_by_slot(sorted, x)[i] != x {
                let k = choose|k: int| 0 <= k < sorted.drop_last().len() && sorted.drop_last()[k] == r[i];
                assert(sorted[k] == r[i]);
            }
        } else {
            assert(insert_by_slot(sorted, x)[i] == sorted[sorted.len() - 1]);
        }
    }
}

/// The stable sort is ordered.
pub proof fn lemma_sort_by_slot_sorted(s: Seq<SlotHash>)
    ensures
        slot_sorted(sort_by_slot(s)),
        sort_by_slot(s).len() == s.len(),
    decreases s.len(),
{
    if s.len() > 0 {
        lemma_sort_by_slot_sorted(s.drop_last());
        lemma_insert_by_slot_sorted(sort_by_slot(s.drop_last()), s.last());
    }
}

/// Sorting an ordered list changes nothing.
pub proof fn lemma_sort_sorted_is_identity(s: Seq<SlotHash>)
    requires
        slot_sorted(s),
    ensures
        sort_by_slot(s) == s,
    decreases s.len(),
{
    if s.len() > 0 {
        assert(slot_sorted(s.drop_last()));
        lemma_sort_sorted_is_identity(s.drop_last());
        assert(s.drop_last().push(s.last()) =~= s);
    }
}

/// Whether a block hash is among the listed ones.
fn hash_in(blocks: &Vec<SlotHash>, h: &H256) -> (r: bool)
    ensures
        r == hash_listed(blocks@, *h),
{
    let mut i: usize = 0;
    while i < blocks.len()
        invariant
            i <= blocks@.len(),
            forall|k: int| 0 <= k < i ==> blocks@[k].1@ != h@,
        decreases blocks@.len() - i,
    {
        if hash_eq(&blocks[i].1, h) {
            proof {
                assert(blocks@[i as int].1@ == h@);
            }
            return true;
        }
        i = i + 1;
    }
    false
}

impl FinalizationState {
    /// Finalize `block`: the justified blocks at or before its slot, and the
    /// retracted ones, are dropped.
    pub fn finalize(&mut self, block: SlotHash, retracted: Vec<SlotHash>)
        ensures
            final(self).finalized == block,
            final(self).justified@ == kept_justified(old(self).justified@, block, retracted@),
    {
        let mut kept: Vec<SlotHash> = Vec::new();
        let mut i: usize = 0;
        while i < self.justified.len()
            invariant
                i <= self.justified@.len(),
                self.justified@ == old(self).justified@,
                kept@ == kept_justified(self.justified@.take(i as int), block, retracted@),
            decreases self.justified@.len() - i,
        {
            proof {
                assert(self.justified@.take(i + 1).drop_last() =~= self.justified@.take(i as int));
            }
            let b = self.justified[i];
            if b.0 > block.0 && !hash_in(&retracted, &b.1) {
                kept.push(b);
            }
            i = i + 1;
        }
        proof {
            assert(self.justified@.take(self.justified@.len() as int) =~= self.justified@);
        }
        self.justified = kept;
        self.finalized = block;
    }

    /// Add a justified block, keeping the list sorted by slot (stably).
    pub fn justify(&mut self, block: SlotHash)
        ensures
            final(self).finalized == old(self).finalized,
            final(self).justified@ == sort_by_slot(old(self).justified@.push(block)),
            slot_sorted(final(self).justified@),
    {
        let mut all: Vec<SlotHash> = Vec::new();
        let mut i: usize = 0;
        while i < self.justified.len()
            invariant
                i <= self.justified@.len(),
                all@ == self.justified@.take(i as int),
            decreases self.justified@.len() - i,
        {
            all.push(self.justified[i]);
            i = i + 1;
            proof {
                assert(all@ =~= self.justified@.take(i as int));
            }
        }
        all.push(block);
        proof {
            assert(self.justified@.take(self.justified@.len() as int) =~= self.justified@);
        }
        let mut sorted: Vec<SlotHash> = Vec::new();
        let mut k: usize = 0;
        while k < all.len()
            invariant
                k <= all@.len(),
                sorted@ == sort_by_slot(all@.take(k as int)),
            decreases all@.len() - k,
        {
            proof {
                assert(all@.take(k + 1).drop_last() =~= all@.take(k as int));
                lemma_sort_by_slot_sorted(all@.take(k as int));
            }
            let x = all[k];
            let mut j = sorted.len();
            while j > 0 && sorted[j - 1].0 > x.0
                invariant
                    j <= sorted@.len(),
                    forall|m: int| j <= m < sorted@.len() ==> (#[trigger] sorted@[m]).0 > x.0,
                decreases j,
            {
                j = j - 1;
            }
            proof {
                lemma_insert_by_slot_at(sorted@, x, j as int);
            }
            sorted.insert(j, x);
            k = k + 1;
        }
        proof {
            assert(all@.take(all@.len() as int) =~= all@);
            lemma_sort_by_slot_sorted(all@);
        }
        self.justified = sorted;
    }

    /// The last justified block once an epoch has passed since its slot,
    /// else the finalized block.
    pub fn justified_head(&self, current_slot: u64, epoch_length: u64) -> (r: SlotHash)
        requires
            self.justified@.len() > 0 ==> self.justified@.last().0 + epoch_length <= u64::MAX,
        ensures
            r == if self.justified@.len() > 0 && current_slot >= self.justified@.last().0 + epoch_length {
                self.justified@.last()
            } else {
                self.finalized
            },
    {
        if self.justified.len() > 0 {
            let last = self.justified[self.justified.len() - 1];
            if current_slot >= last.0 + epoch_length {
                return last;
            }
        }
        self.finalized
    }
}

/// How many of the blocks have the hash `h`.
pub open spec fn occurrences(blocks: Seq<CountedBlock>, h: Seq<u8>) -> nat
    decreases blocks.len(),
{
    if blocks.len() == 0 {
        0
    } else {
        occurrences(blocks.drop_last(), h) + if blocks.last().1@ == h { 1nat } else { 0nat }
    }
}

/// Counting the blocks with a hash: none in an empty list, one for a lone
/// block with that hash, none for a lone block with another, and the
/// counts of two lists add up when they are joined.
pub proof fn lemma_occurrences_count(s: Seq<CountedBlock>, t: Seq<CountedBlock>, b: CountedBlock, h: Seq<u8>)
    ensures
        occurrences(Seq::<CountedBlock>::empty(), h) == 0,
        occurrences(seq![b], h) == if b.1@ == h { 1nat } else { 0nat },
        occurrences(s + t, h) == occurrences(s, h) + occurrences(t, h),
    decreases t.len(),
{
    assert(seq![b].drop_last() =~= Seq::<CountedBlock>::empty());
    if t.len() > 0 {
        lemma_occurrences_count(s, t.drop_last(), b, h);
        assert((s + t).drop_last() =~= s + t.drop_last());
        assert((s + t).last() == t.last());
    } else {
        assert(s + t =~= s);
    }
}

/// The count of `h` after importing the routes into empty counts.
pub open spec fn counts_after(routes: Seq<SimplifiedTreeRoute>, h: Seq<u8>) -> int
    decreases routes.len(),
{
    if routes.len() == 0 {
        0
    } else {
        let r = routes.last();
        counts_after(routes.drop_last(), h) - occurrences(r.retracted@, h) + occurrences(r.enacted@, h)
    }
}

/// Some route passes through the block `h`.
pub open spec fn touched(routes: Seq<SimplifiedTreeRoute>, h: Seq<u8>) -> bool {
    exists|i: int| 0 <= i < routes.len()
        && (occurrences((#[trigger] routes[i]).retracted@, h) > 0 || occurrences(routes[i].enacted@, h) > 0)
}

/// Importing the routes in turn never takes a count below zero or above the largest count.
pub open spec fn routes_defined(routes: Seq<SimplifiedTreeRoute>) -> bool
    decreases routes.len(),
{
    if routes.len() == 0 {
        true
    } else {
        &&& routes_defined(routes.drop_last())
        &&& forall|h: Seq<u8>| #[trigger] counts_after(routes.drop_last(), h) >= occurrences(routes.last().retracted@, h)
        &&& forall|h: Seq<u8>| #[trigger] counts_after(routes, h) <= u64::MAX
    }
}

/// The count recorded for `h`, if any.
pub open spec fn count_entry(entries: Seq<(H256, u64)>, h: Seq<u8>) -> Option<u64>
    decreases entries.len(),
{
    if entries.len() == 0 {
        None
    } else if entries.last().0@ == h {
        Some(entries.last().1)
    } else {
        count_entry(entries.drop_last(), h)
    }
}

/// The count recorded for `h`, or zero.
pub open spec fn count_or_zero(entries: Seq<(H256, u64)>, h: Seq<u8>) -> nat {
    match count_entry(entries, h) {
        Some(c) => c as nat,
        None => 0,
    }
}

/// One entry per block.
pub open spec fn counts_unique(entries: Seq<(H256, u64)>) -> bool {
    forall|i: int, j: int| 0 <= i < j < entries.len() ==> (#[trigger] entries[i]).0@ != (#[trigger] entries[j]).0@
}

/// Votes counted per block along the imported routes.
#[derive(Debug)]
pub struct VoteCounts {
    /// One count per block.
    pub entries: Vec<(H256, u64)>,
}

proof fn lemma_count_entry_at(entries: Seq<(H256, u64)>, i: int)
    requires
        counts_unique(entries),
        0 <= i < entries.len(),
    ensures
        count_entry(entries, entries[i].0@) == Some(entries[i].1),
    decreases entries.len(),
{
    if i < entries.len() - 1 {
        assert(entries.drop_last()[i] == entries[i]);
        assert(counts_unique(entries.drop_last()));
        lemma_count_entry_at(entries.drop_last(), i);
    }
}

proof fn lemma_count_entry_absent(entries: Seq<(H256, u64)>, h: Seq<u8>)
    requires
        forall|i: int| 0 <= i < entries.len() ==> (#[trigger] entries[i]).0@ != h,
    ensures
        count_entry(entries, h) is None,
    decreases entries.len(),
{
    if entries.len() > 0 {
        assert forall|i: int| 0 <= i < entries.len() - 1 implies (#[trigger] entries.drop_last()[i]).0@ != h by {
            assert(entries.drop_last()[i] == entries[i]);
        }
        lemma_count_entry_absent(entries.drop_last(), h);
    }
}

proof fn lemma_count_entry_update(entries: Seq<(H256, u64)>, i: int, v: u64, h: Seq<u8>)
    requires
        counts_unique(entries),
        0 <= i < entries.len(),
    ensures
        count_entry(entries.update(i, (entries[i].0, v)), h)
            == if h == entries[i].0@ { Some(v) } else { count_entry(entries, h) },
        counts_unique(entries.update(i, (entries[i].0, v))),
    decreases entries.len(),
{
    let u = entries.update(i, (entries[i].0, v));
    if i == entries.len() - 1 {
        assert(u.drop_last() =~= entries.drop_last());
        if h != entries[i].0@ {
            assert(u.last().0@ != h);
        }
    } else {
        assert(counts_unique(entries.drop_last()));
        lemma_count_entry_update(entries.drop_last(), i, v, h);
        assert(u.drop_last() =~= entries.drop_last().update(i, (entries[i].0, v)));
        if h == entries[i].0@ {
            assert(entries.last().0@ != h);
        }
    }
}

proof fn lemma_count_entry_push(entries: Seq<(H256, u64)>, k: H256, v: u64, h: Seq<u8>)
    requires
        counts_unique(entries),
        forall|i: int| 0 <= i < entries.len() ==> (#[trigger] entries[i]).0@ != k@,
    ensures
        count_entry(entries.push((k, v)), h) == if h == k@ { Some(v) } else { count_entry(entries, h) },
        counts_unique(entries.push((k, v))),
{
    assert(entries.push((k, v)).drop_last() =~= entries);
}

impl VoteCounts {
    /// No counts.
    pub fn new() -> (r: Self)
        ensures
            r.entries@ == Seq::<(H256, u64)>::empty(),
    {
        VoteCounts { entries: Vec::new() }
    }

    /// The counts, one entry per block, in the order the blocks were first
    /// counted.
    pub fn drain(self) -> (r: Vec<(H256, u64)>)
        ensures
            r@ == self.entries@,
    {
        self.entries
    }

    /// The count of a block, if it has one.
    pub fn get(&self, hash: &H256) -> (r: Option<u64>)
        ensures
            r == count_entry(self.entries@, hash@),
    {
        let mut i = self.entries.len();
        proof {
            assert(self.entries@.take(self.entries@.len() as int) =~= self.entries@);
        }
        while i > 0
            invariant
                i <= self.entries@.len(),
                count_entry(self.entries@, hash@) == count_entry(self.entries@.take(i as int), hash@),
            decreases i,
        {
            proof {
                assert(self.entries@.take(i as int).drop_last() =~= self.entries@.take(i - 1));
            }
            if hash_eq(&self.entries[i - 1].0, hash) {
                return Some(self.entries[i - 1].1);
            }
            i = i - 1;
        }
        None
    }

    /// Add one vote to a block, or take one away; a block with no entry starts at zero.
    fn adjust(&mut self, hash: H256, up: bool)
        requires
            counts_unique(old(self).entries@),
            up ==> count_or_zero(old(self).entries@, hash@) < u64::MAX,
            !up ==> count_or_zero(old(self).entries@, hash@) >= 1,
        ensures
            counts_unique(final(self).entries@),
            forall|h: Seq<u8>| #[trigger] count_entry(final(self).entries@, h) == if h == hash@ {
                Some((if up { count_or_zero(old(self).entries@, h) + 1int } else {
                    count_or_zero(old(self).entries@, h) - 1
                }) as u64)
            } else {
                count_entry(old(self).entries@, h)
            },
    {
        let ghost start = self.entries@;
        let mut i: usize = 0;
        while i < self.entries.len()
            invariant
                i <= self.entries@.len(),
                self.entries@ == start,
                start == old(self).entries@,
                counts_unique(start),
                up ==> count_or_zero(start, hash@) < u64::MAX,
                !up ==> count_or_zero(start, hash@) >= 1,
                forall|k: int| 0 <= k < i ==> start[k].0@ != hash@,
            decreases self.entries@.len() - i,
        {
            if hash_eq(&self.entries[i].0, &hash) {
                let (key, c) = self.entries[i];
                proof {
                    lemma_count_entry_at(start, i as int);
                }
                let v = if up { c + 1 } else { c - 1 };
                self.entries.set(i, (key, v));
                proof {
                    assert forall|h: Seq<u8>| #[trigger] count_entry(self.entries@, h) == if h == hash@ {
                        Some((if up { count_or_zero(start, h) + 1int } else { count_or_zero(start, h) - 1 }) as u64)
                    } else {
                        count_entry(start, h)
                    } by {
                        lemma_count_entry_update(start, i as int, v, h);
                    }
                    lemma_count_entry_update(start, i as int, v, hash@);
                }
                return;
            }
            i = i + 1;
        }
        proof {
            lemma_count_entry_absent(start, hash@);
        }
        self.entries.push((hash, 1));
        proof {
            assert forall|h: Seq<u8>| #[trigger] count_entry(self.entries@, h) == if h == hash@ {
                Some((if up { count_or_zero(start, h) + 1int } else { count_or_zero(start, h) - 1 }) as u64)
            } else {
                count_entry(start, h)
            } by {
                lemma_count_entry_push(start, hash, 1, h);
            }
            lemma_count_entry_push(start, hash, 1, hash@);
        }
    }

    /// Import the route of a moved vote: its retracted blocks lose it, its
    /// enacted blocks gain it.
    pub fn import_target(&mut self, target: &SimplifiedTreeRoute)
        requires
            counts_unique(old(self).entries@),
            forall|h: Seq<u8>| #[trigger] count_or_zero(old(self).entries@, h) >= occurrences(target.retracted@, h),
            forall|h: Seq<u8>| #[trigger] count_or_zero(old(self).entries@, h) - occurrences(target.retracted@, h)
                + occurrences(target.enacted@, h) <= u64::MAX,
        ensures
            counts_unique(final(self).entries@),
            forall|h: Seq<u8>| #[trigger] count_entry(final(self).entries@, h) == if count_entry(old(self).entries@, h) is Some
                || occurrences(target.retracted@, h) > 0 || occurrences(target.enacted@, h) > 0 {
                Some((count_or_zero(old(self).entries@, h) - occurrences(target.retracted@, h)
                    + occurrences(target.enacted@, h)) as u64)
            } else {
                None
            },
    {
        let ghost start = self.entries@;
        let mut i: usize = 0;
        while i < target.retracted.len()
            invariant
                i <= target.retracted@.len(),
                start == old(self).entries@,
                counts_unique(self.entries@),
                forall|h: Seq<u8>| #[trigger] count_or_zero(start, h) >= occurrences(target.retracted@, h),
                forall|h: Seq<u8>| #[trigger] count_entry(self.entries@, h) == if count_entry(start, h) is Some
                    || occurrences(target.retracted@.take(i as int), h) > 0 {
                    Some((count_or_zero(start, h) - occurrences(target.retracted@.take(i as int), h)) as u64)
                } else {
                    None
                },
            decreases target.retracted@.len() - i,
        {
            let b = target.retracted[i];
            proof {
                assert(target.retracted@.take(i + 1).drop_last() =~= target.retracted@.take(i as int));
                lemma_occurrences_prefix(target.retracted@, (i + 1) as int, b.1@);
                assert(count_or_zero(start, b.1@) >= occurrences(target.retracted@, b.1@));
                assert(count_entry(self.entries@, b.1@) == count_entry(self.entries@, b.1@));
            }
            self.adjust(b.1, false);
            i = i + 1;
            proof {
                assert forall|h: Seq<u8>| #[trigger] count_entry(self.entries@, h) == if count_entry(start, h) is Some
                    || occurrences(target.retracted@.take(i as int), h) > 0 {
                    Some((count_or_zero(start, h) - occurrences(target.retracted@.take(i as int), h)) as u64)
                } else {
                    None
                } by {
                    assert(target.retracted@.take(i as int).drop_last() =~= target.retracted@.take(i - 1));
                }
            }
        }
        proof {
            assert(target.retracted@.take(target.retracted@.len() as int) =~= target.retracted@);
        }
        let mut j: usize = 0;
        while j < target.enacted.len()
            invariant
                j <= target.enacted@.len(),
                start == old(self).entries@,
                counts_unique(self.entries@),
                forall|h: Seq<u8>| #[trigger] count_or_zero(start, h) - occurrences(target.retracted@, h)
                    + occurrences(target.enacted@, h) <= u64::MAX,
                forall|h: Seq<u8>| #[trigger] count_or_zero(start, h) >= occurrences(target.retracted@, h),
                forall|h: Seq<u8>| #[trigger] count_entry(self.entries@, h) == if count_entry(start, h) is Some
                    || occurrences(target.retracted@, h) > 0 || occurrences(target.enacted@.take(j as int), h) > 0 {
                    Some((count_or_zero(start, h) - occurrences(target.retracted@, h)
                        + occurrences(target.enacted@.take(j as int), h)) as u64)
                } else {
                    None
                },
            decreases target.enacted@.len() - j,
        {
            let b = target.enacted[j];
            proof {
                assert(target.enacted@.take(j + 1).drop_last() =~= target.enacted@.take(j as int));
                lemma_occurrences_prefix(target.enacted@, (j + 1) as int, b.1@);
                assert(count_or_zero(start, b.1@) - occurrences(target.retracted@, b.1@)
                    + occurrences(target.enacted@, b.1@) <= u64::MAX);
            }
            self.adjust(b.1, true);
            j = j + 1;
            proof {
                assert forall|h: Seq<u8>| #[trigger] count_entry(self.entries@, h) == if count_entry(start, h) is Some
                    || occurrences(target.retracted@, h) > 0 || occurrences(target.enacted@.take(j as int), h) > 0 {
                    Some((count_or_zero(start, h) - occurrences(target.retracted@, h)
                        + occurrences(target.enacted@.take(j as int), h)) as u64)
                } else {
                    None
                } by {
                    assert(target.enacted@.take(j as int).drop_last() =~= target.enacted@.take(j - 1));
                }
            }
        }
        proof {
            assert(target.enacted@.take(target.enacted@.len() as int) =~= target.enacted@);
        }
    }
}

/// A prefix has no more occurrences than the whole.
proof fn lemma_occurrences_prefix(blocks: Seq<CountedBlock>, n: int, h: Seq<u8>)
    requires
        0 <= n <= blocks.len(),
    ensures
        occurrences(blocks.take(n), h) <= occurrences(blocks, h),
    decreases blocks.len(),
{
    if n < blocks.len() {
        lemma_occurrences_prefix(blocks.drop_last(), n, h);
        assert(blocks.drop_last().take(n) =~= blocks.take(n));
    } else {
        assert(blocks.take(n) =~= blocks);
    }
}

/// The votes of a branch block: its recorded count, or the count it came with.
pub open spec fn branch_count(entries: Seq<(H256, u64)>, b: CountedBlock) -> nat {
    match count_entry(entries, b.1@) {
        Some(c) => c as nat,
        None => b.2 as nat,
    }
}

/// The new branch is best when its first block has at least the votes of
/// the last retracted block.
pub open spec fn is_new_best_spec(entries: Seq<(H256, u64)>, route: SimplifiedTreeRoute) -> bool {
    let retracted = if route.retracted@.len() > 0 { branch_count(entries, route.retracted@.last()) } else { 0 };
    let enacted = if route.enacted@.len() > 0 { branch_count(entries, route.enacted@[0]) } else { 0 };
    enacted >= retracted
}

/// The votes of a block on a route: its recorded count, or else the count
/// the route carries for it.
pub open spec fn route_block_votes(entries: Seq<(H256, u64)>, block: CountedBlock) -> int {
    match count_entry(entries, block.1@) {
        Some(c) => c as int,
        None => block.2 as int,
    }
}

/// The imported block becomes best exactly when the first block entered
/// from the common ancestor, the root of the new branch, has at least the
/// votes of the last block left, the root of the old branch (an empty side
/// weighing nothing).
pub proof fn lemma_new_best_compares_branch_roots(entries: Seq<(H256, u64)>, route: SimplifiedTreeRoute)
    ensures
        is_new_best_spec(entries, route) == ({
            let old_root: int = if route.retracted@.len() > 0 {
                route_block_votes(entries, route.retracted@[route.retracted@.len() - 1])
            } else {
                0
            };
            let new_root: int = if route.enacted@.len() > 0 { route_block_votes(entries, route.enacted@[0]) } else { 0 };
            new_root >= old_root
        }),
{
}

/// Only the roots of the two branches count: routes that leave the same
/// blocks and enter the same first block give the same answer, whatever
/// they enter after it.
pub proof fn lemma_new_best_ignores_deeper_blocks(
    entries: Seq<(H256, u64)>,
    r1: SimplifiedTreeRoute,
    r2: SimplifiedTreeRoute,
)
    requires
        r1.retracted@ == r2.retracted@,
        r1.enacted@.len() > 0,
        r2.enacted@.len() > 0,
        r1.enacted@[0] == r2.enacted@[0],
    ensures
        is_new_best_spec(entries, r1) == is_new_best_spec(entries, r2),
{
    lemma_new_best_compares_branch_roots(entries, r1);
    lemma_new_best_compares_branch_roots(entries, r2);
}

/// A tree route with the vote counts to weigh it.
pub struct VotedTreeRoute<'a> {
    /// The vote counts.
    pub vote_counts: &'a VoteCounts,
    /// The route from the current best block to the new one.
    pub route: SimplifiedTreeRoute,
}

impl<'a> VotedTreeRoute<'a> {
    /// Whether the new end of the route is at least as heavy as the old one.
    pub fn is_new_best(&self) -> (r: bool)
        ensures
            r == is_new_best_spec(self.vote_counts.entries@, self.route),
    {
        let retracted_count: u64 = if self.route.retracted.len() > 0 {
            let block = self.route.retracted[self.route.retracted.len() - 1];
            match self.vote_counts.get(&block.1) {
                Some(c) => c,
                None => block.2,
            }
        } else {
            0
        };
        let enacted_count: u64 = if self.route.enacted.len() > 0 {
            let block = self.route.enacted[0];
            match self.vote_counts.get(&block.1) {
                Some(c) => c,
                None => block.2,
            }
        } else {
            0
        };
        enacted_count >= retracted_count
    }
}

/// What a block import asks of the fork choice.
pub struct ImportRequest {
    /// Routes from each moved vote's old target to its new one.
    pub new_attestation_targets: Vec<SimplifiedTreeRoute>,
    /// A block to finalize, with the blocks its finalization retracts.
    pub finalize: Option<(SlotHash, Vec<SlotHash>)>,
    /// A block to justify.
    pub justify: Option<SlotHash>,
    /// The route from the current best block to the imported one.
    pub route: SimplifiedTreeRoute,
    /// The current slot.
    pub current_slot: u64,
}

/// The fork choice's answer to an import.
#[derive(Debug)]
pub struct ImportResponse {
    /// The new vote count of each block the moved votes passed through.
    pub updated_vote_counts: Vec<(H256, u64)>,
    /// Whether the imported block becomes the best.
    pub is_new_best: bool,
}

/// The justified blocks after an import's finalization and justification.
pub open spec fn justified_after(justified: Seq<SlotHash>, request: ImportRequest) -> Seq<SlotHash> {
    let j1 = match request.finalize {
        Some((b, retracted)) => kept_justified(justified, b, retracted@),
        None => justified,
    };
    match request.justify {
        Some(b) => sort_by_slot(j1.push(b)),
        None => j1,
    }
}

/// The finalized block after an import.
pub open spec fn finalized_after(finalized: SlotHash, request: ImportRequest) -> SlotHash {
    match request.finalize {
        Some((b, _)) => b,
        None => finalized,
    }
}

/// The justified head: the last justified block once an epoch passed since it, else the finalized one.
pub open spec fn justified_head_spec(justified: Seq<SlotHash>, finalized: SlotHash, current_slot: u64, epoch_length: u64) -> SlotHash {
    if justified.len() > 0 && current_slot >= justified.last().0 + epoch_length {
        justified.last()
    } else {
        finalized
    }
}

/// Some block of the list has the hash `h`.
pub open spec fn counted_listed(blocks: Seq<CountedBlock>, h: H256) -> bool {
    exists|i: int| 0 <= i < blocks.len() && (#[trigger] blocks[i]).1@ == h@
}

proof fn lemma_untouched_zero(routes: Seq<SimplifiedTreeRoute>, h: Seq<u8>)
    requires
        !touched(routes, h),
    ensures
        counts_after(routes, h) == 0,
    decreases routes.len(),
{
    if routes.len() > 0 {
        assert(!touched(routes.drop_last(), h)) by {
            if touched(routes.drop_last(), h) {
                let i = choose|i: int| 0 <= i < routes.drop_last().len()
                    && (occurrences((#[trigger] routes.drop_last()[i]).retracted@, h) > 0
                    || occurrences(routes.drop_last()[i].enacted@, h) > 0);
                assert(routes[i] == routes.drop_last()[i]);
            }
        }
        lemma_untouched_zero(routes.drop_last(), h);
        assert(routes[routes.len() - 1] == routes.last());
    }
}

proof fn lemma_counts_after_range(routes: Seq<SimplifiedTreeRoute>, h: Seq<u8>)
    requires
        routes_defined(routes),
    ensures
        0 <= counts_after(routes, h) <= u64::MAX,
    decreases routes.len(),
{
    if routes.len() > 0 {
        lemma_counts_after_range(routes.drop_last(), h);
        assert(counts_after(routes.drop_last(), h) >= occurrences(routes.last().retracted@, h));
        assert(counts_after(routes, h) <= u64::MAX);
    }
}

proof fn lemma_routes_defined_prefix(routes: Seq<SimplifiedTreeRoute>, n: int)
    requires
        routes_defined(routes),
        0 <= n <= routes.len(),
    ensures
        routes_defined(routes.take(n)),
    decreases routes.len(),
{
    if n < routes.len() {
        lemma_routes_defined_prefix(routes.drop_last(), n);
        assert(routes.drop_last().take(n) =~= routes.take(n));
    } else {
        assert(routes.take(n) =~= routes);
    }
}

/// Whether a block hash is among the listed ones.
fn counted_in(blocks: &Vec<CountedBlock>, h: &H256) -> (r: bool)
    ensures
        r == counted_listed(blocks@, *h),
{
    let mut i: usize = 0;
    while i < blocks.len()
        invariant
            i <= blocks@.len(),
            forall|k: int| 0 <= k < i ==> blocks@[k].1@ != h@,
        decreases blocks@.len() - i,
    {
        if hash_eq(&blocks[i].1, h) {
            proof {
                assert(blocks@[i as int].1@ == h@);
            }
            return true;
        }
        i = i + 1;
    }
    false
}

/// Process an import: finalize and justify, count the moved votes along
/// their routes, and decide whether the imported block becomes best. It
/// never does when its route retracts the justified head.
pub fn process(state: &mut FinalizationState, request: ImportRequest, epoch_length: u64) -> (r: ImportResponse)
    requires
        routes_defined(request.new_attestation_targets@),
        justified_after(old(state).justified@, request).len() > 0 ==>
            justified_after(old(state).justified@, request).last().0 + epoch_length <= u64::MAX,
    ensures
        final(state).justified@ == justified_after(old(state).justified@, request),
        final(state).finalized == finalized_after(old(state).finalized, request),
        counts_unique(r.updated_vote_counts@),
        forall|h: Seq<u8>| #[trigger] count_entry(r.updated_vote_counts@, h)
            == if touched(request.new_attestation_targets@, h) {
                Some(counts_after(request.new_attestation_targets@, h) as u64)
            } else {
                None
            },
        ({
            let head = justified_head_spec(final(state).justified@, final(state).finalized, request.current_slot, epoch_length);
            r.is_new_best == if counted_listed(request.route.retracted@, head.1) {
                false
            } else {
                is_new_best_spec(r.updated_vote_counts@, request.route)
            }
        }),
{
    let ghost req = request;
    let ImportRequest { new_attestation_targets, finalize, justify, route, current_slot } = request;
    match finalize {
        Some((block, retracted)) => state.finalize(block, retracted),
        None => {},
    }
    match justify {
        Some(block) => state.justify(block),
        None => {},
    }
    let mut vote_counts = VoteCounts::new();
    let ghost targets = new_attestation_targets@;
    let mut k: usize = 0;
    while k < new_attestation_targets.len()
        invariant
            k <= targets.len(),
            targets == new_attestation_targets@,
            routes_defined(targets),
            counts_unique(vote_counts.entries@),
            forall|h: Seq<u8>| #[trigger] count_entry(vote_counts.entries@, h)
                == if touched(targets.take(k as int), h) {
                    Some(counts_after(targets.take(k as int), h) as u64)
                } else {
                    None
                },
        decreases targets.len() - k,
    {
        let ghost prev = targets.take(k as int);
        let ghost next = targets.take(k + 1);
        proof {
            lemma_routes_defined_prefix(targets, k + 1);
            lemma_routes_defined_prefix(targets, k as int);
            assert(next.drop_last() =~= prev);
            assert(next.last() == targets[k as int]);
            assert forall|h: Seq<u8>| #[trigger] count_or_zero(vote_counts.entries@, h) == counts_after(prev, h) by {
                lemma_counts_after_range(prev, h);
                if !touched(prev, h) {
                    lemma_untouched_zero(prev, h);
                }
            }
            assert forall|h: Seq<u8>| #[trigger] count_or_zero(vote_counts.entries@, h) >= occurrences(targets[k as int].retracted@, h) by {
                assert(counts_after(next.drop_last(), h) >= occurrences(next.last().retracted@, h));
            }
            assert forall|h: Seq<u8>| #[trigger] count_or_zero(vote_counts.entries@, h) - occurrences(targets[k as int].retracted@, h)
                + occurrences(targets[k as int].enacted@, h) <= u64::MAX by {
                assert(counts_after(next, h) <= u64::MAX);
            }
        }
        vote_counts.import_target(&new_attestation_targets[k]);
        k = k + 1;
        proof {
            assert forall|h: Seq<u8>| #[trigger] count_entry(vote_counts.entries@, h)
                == if touched(targets.take(k as int), h) {
                    Some(counts_after(targets.take(k as int), h) as u64)
                } else {
                    None
                } by {
                if !touched(prev, h) {
                    lemma_untouched_zero(prev, h);
                }
                if touched(next, h) && !touched(prev, h) {
                    let i = choose|i: int| 0 <= i < next.len()
                        && (occurrences((#[trigger] next[i]).retracted@, h) > 0 || occurrences(next[i].enacted@, h) > 0);
                    if i < prev.len() {
                        assert(next[i] == prev[i]);
                    }
                }
                if touched(prev, h) {
                    let i = choose|i: int| 0 <= i < prev.len()
                        && (occurrences((#[trigger] prev[i]).retracted@, h) > 0 || occurrences(prev[i].enacted@, h) > 0);
                    assert(next[i] == prev[i]);
                }
                if !touched(next, h) {
                    if occurrences(targets[k - 1].retracted@, h) > 0 || occurrences(targets[k - 1].enacted@, h) > 0 {
                        assert(next[k - 1] == targets[k - 1]);
                    }
                }
            }
        }
    }
    proof {
        assert(targets.take(targets.len() as int) =~= targets);
    }
    let head = state.justified_head(current_slot, epoch_length);
    let is_new_best = if counted_in(&route.retracted, &head.1) {
        false
    } else {
        let voted_route = VotedTreeRoute { vote_counts: &vote_counts, route };
        voted_route.is_new_best()
    };
    ImportResponse { updated_vote_counts: vote_counts.drain(), is_new_best }
}

} // verus!
