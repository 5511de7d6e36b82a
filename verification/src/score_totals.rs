//! What a round of score changes does to vote counts: totals of scores over
//! the entries of a map, and the answers of lookups that a sound cache gives.

use vstd::prelude::*;
use crate::pair_map::{PairKey, map_of, keys_distinct, lemma_map_of, lemma_map_of_update};
use crate::pruning::{
    CacheMap, ScoreMap, SkipMap, apply_score, apply_scores_spec, count_votes_from, level_for, positive_scores,
    push_level, push_levels, walk, walk_cache,
};

verus! {

/// The sum of the scores of the entries whose key `pick` holds of.
pub open spec fn picked_total(s: Seq<(PairKey, usize)>, pick: spec_fn(PairKey) -> bool) -> int
    decreases s.len(),
{
    if s.len() == 0 {
        0
    } else {
        picked_total(s.drop_last(), pick) + if pick(s.last().0) { s.last().1 as int } else { 0 }
    }
}

/// What one entry adds to a total.
pub open spec fn entry_part(e: (PairKey, usize), pick: spec_fn(PairKey) -> bool) -> int {
    if pick(e.0) { e.1 as int } else { 0 }
}

/// Taking an entry out takes its part out of the total.
proof fn lemma_total_remove(s: Seq<(PairKey, usize)>, j: int, pick: spec_fn(PairKey) -> bool)
    requires
        0 <= j < s.len(),
    ensures
        picked_total(s, pick) == picked_total(s.remove(j), pick) + entry_part(s[j], pick),
    decreases s.len(),
{
    if j == s.len() - 1 {
        assert(s.remove(j) =~= s.drop_last());
    } else {
        lemma_total_remove(s.drop_last(), j, pick);
        assert(s.remove(j).drop_last() =~= s.drop_last().remove(j));
        assert(s.remove(j).last() == s.last());
    }
}

/// Taking an entry out of a list with distinct keys takes its key out of the map.
proof fn lemma_map_of_remove(s: Seq<(PairKey, usize)>, j: int)
    requires
        keys_distinct(s),
        0 <= j < s.len(),
    ensures
        keys_distinct(s.remove(j)),
        map_of(s.remove(j)) == map_of(s).remove(s[j].0),
{
    let r = s.remove(j);
    assert forall|a: int, b: int| 0 <= a < b < r.len() implies (#[trigger] r[a]).0 != (#[trigger] r[b]).0 by {
        let a2 = if a < j { a } else { a + 1 };
        let b2 = if b < j { b } else { b + 1 };
        assert(r[a] == s[a2] && r[b] == s[b2]);
    }
    lemma_map_of(s);
    lemma_map_of(r);
    assert forall|k: PairKey| #[trigger] map_of(r).contains_key(k) <==> map_of(s).remove(s[j].0).contains_key(k) by {
        if map_of(r).contains_key(k) {
            let i = choose|i: int| 0 <= i < r.len() && r[i].0 == k;
            let i2 = if i < j { i } else { i + 1 };
            assert(r[i] == s[i2]);
        }
        if map_of(s).remove(s[j].0).contains_key(k) {
            let i = choose|i: int| 0 <= i < s.len() && s[i].0 == k;
            assert(i != j);
            let i2 = if i < j { i } else { i - 1 };
            assert(r[i2] == s[i]);
        }
    }
    assert forall|k: PairKey| map_of(r).contains_key(k) implies #[trigger] map_of(r)[k] == map_of(s).remove(s[j].0)[k] by {
        let i = choose|i: int| 0 <= i < r.len() && r[i].0 == k;
        let i2 = if i < j { i } else { i + 1 };
        assert(r[i] == s[i2]);
        assert(map_of(r)[r[i].0] == r[i].1);
        assert(map_of(s)[s[i2].0] == s[i2].1);
    }
    assert(map_of(r) =~= map_of(s).remove(s[j].0));
}

/// Two lists with distinct keys that stand for the same map have the same totals.
pub proof fn lemma_total_same_map(s1: Seq<(PairKey, usize)>, s2: Seq<(PairKey, usize)>, pick: spec_fn(PairKey) -> bool)
    requires
        keys_distinct(s1),
        keys_distinct(s2),
        map_of(s1) == map_of(s2),
    ensures
        picked_total(s1, pick) == picked_total(s2, pick),
    decreases s1.len(),
{
    lemma_map_of(s1);
    lemma_map_of(s2);
    if s1.len() == 0 {
        if s2.len() > 0 {
            assert(map_of(s2).contains_key(s2[0].0));
        }
    } else {
        let k = s1.last().0;
        let t1 = s1.drop_last();
        assert(s1[s1.len() - 1].0 == k);
        assert(map_of(s1).contains_key(k));
        let j = choose|j: int| 0 <= j < s2.len() && s2[j].0 == k;
        let t2 = s2.remove(j);
        lemma_map_of_remove(s2, j);
        assert(keys_distinct(t1));
        lemma_map_of(t1);
        assert(!map_of(t1).contains_key(k)) by {
            if map_of(t1).contains_key(k) {
                let i = choose|i: int| 0 <= i < t1.len() && t1[i].0 == k;
                assert(s1[i] == t1[i]);
            }
        }
        assert(map_of(t1) =~= map_of(s1).remove(k));
        lemma_total_same_map(t1, t2, pick);
        lemma_total_remove(s2, j, pick);
        assert(s2[j].1 == map_of(s2)[k]);
        assert(s1.last().1 == map_of(s1)[k]);
    }
}

/// A change keeps a score a natural number that fits: at or below the
/// pruned depth, the score before (nothing counting as zero) plus the change.
pub open spec fn change_natural(m: ScoreMap, k: PairKey, change: isize, min: usize) -> bool {
    k.1 >= min ==> 0 <= (if m.contains_key(k) { m[k] as int } else { 0 }) + change <= usize::MAX
}

/// Every change, applied in order, keeps its score a natural number that fits.
pub open spec fn changes_natural(m: ScoreMap, changes: Seq<(PairKey, isize)>, min: usize) -> bool
    decreases changes.len(),
{
    if changes.len() == 0 {
        true
    } else {
        let c = changes.last();
        changes_natural(m, changes.drop_last(), min)
            && change_natural(apply_scores_spec(m, changes.drop_last(), min), c.0, c.1, min)
    }
}

/// The sum of the changes at or below the pruned depth whose key `pick` holds of.
pub open spec fn change_total(changes: Seq<(PairKey, isize)>, min: usize, pick: spec_fn(PairKey) -> bool) -> int
    decreases changes.len(),
{
    if changes.len() == 0 {
        0
    } else {
        let c = changes.last();
        change_total(changes.drop_last(), min, pick) + if c.0.1 >= min && pick(c.0) { c.1 as int } else { 0 }
    }
}

/// One change, made on a list with distinct keys: the list after it, whose
/// totals move by the change where `pick` holds of its key.
proof fn lemma_step_totals(s: Seq<(PairKey, usize)>, k: PairKey, change: isize, min: usize) -> (r: Seq<(PairKey, usize)>)
    requires
        keys_distinct(s),
        change_natural(map_of(s), k, change, min),
    ensures
        keys_distinct(r),
        map_of(r) == apply_score(map_of(s), k, change, min),
        forall|pick: spec_fn(PairKey) -> bool| #[trigger] picked_total(r, pick)
            == picked_total(s, pick) + if k.1 >= min && pick(k) { change as int } else { 0 },
{
    lemma_map_of(s);
    if k.1 < min {
        s
    } else if map_of(s).contains_key(k) {
        let j = choose|j: int| 0 <= j < s.len() && s[j].0 == k;
        let v = (s[j].1 + change) as usize;
        assert(s[j].1 == map_of(s)[k]);
        let r = s.update(j, (k, v));
        lemma_map_of_update(s, j, v);
        assert forall|pick: spec_fn(PairKey) -> bool| #[trigger] picked_total(r, pick)
            == picked_total(s, pick) + if k.1 >= min && pick(k) { change as int } else { 0 } by {
            lemma_total_remove(s, j, pick);
            lemma_total_remove(r, j, pick);
            assert(r.remove(j) =~= s.remove(j));
        }
        r
    } else {
        let r = s.push((k, change as usize));
        assert(r.drop_last() =~= s);
        assert forall|a: int, b: int| 0 <= a < b < r.len() implies (#[trigger] r[a]).0 != (#[trigger] r[b]).0 by {
            if b == s.len() {
                assert(r[a] == s[a]);
            }
        }
        assert forall|pick: spec_fn(PairKey) -> bool| #[trigger] picked_total(r, pick)
            == picked_total(s, pick) + if k.1 >= min && pick(k) { change as int } else { 0 } by {
            assert(r.last() == (k, change as usize));
        }
        r
    }
}

/// The changes, made in order on a list with distinct keys: the list after
/// them, whose totals move by the changes picked.
proof fn lemma_apply_totals(s: Seq<(PairKey, usize)>, changes: Seq<(PairKey, isize)>, min: usize) -> (r: Seq<(PairKey, usize)>)
    requires
        keys_distinct(s),
        changes_natural(map_of(s), changes, min),
    ensures
        keys_distinct(r),
        map_of(r) == apply_scores_spec(map_of(s), changes, min),
        forall|pick: spec_fn(PairKey) -> bool| #[trigger] picked_total(r, pick)
            == picked_total(s, pick) + change_total(changes, min, pick),
    decreases changes.len(),
{
    if changes.len() == 0 {
        s
    } else {
        let c = changes.last();
        let mid = lemma_apply_totals(s, changes.drop_last(), min);
        let r = lemma_step_totals(mid, c.0, c.1, min);
        assert forall|pick: spec_fn(PairKey) -> bool| #[trigger] picked_total(r, pick)
            == picked_total(s, pick) + change_total(changes, min, pick) by {
            assert(picked_total(mid, pick) == picked_total(s, pick) + change_total(changes.drop_last(), min, pick));
        }
        r
    }
}

/// The entries with a positive score, in order.
pub open spec fn positive_entries(s: Seq<(PairKey, usize)>) -> Seq<(PairKey, usize)>
    decreases s.len(),
{
    if s.len() == 0 {
        s
    } else if s.last().1 > 0 {
        positive_entries(s.drop_last()).push(s.last())
    } else {
        positive_entries(s.drop_last())
    }
}

/// Dropping the zero scores keeps keys distinct, leaves the positive
/// scores of the map and every total.
proof fn lemma_positive_entries(s: Seq<(PairKey, usize)>, pick: spec_fn(PairKey) -> bool)
    requires
        keys_distinct(s),
    ensures
        keys_distinct(positive_entries(s)),
        map_of(positive_entries(s)) == positive_scores(map_of(s)),
        picked_total(positive_entries(s), pick) == picked_total(s, pick),
        forall|i: int| 0 <= i < positive_entries(s).len() ==> exists|j: int| 0 <= j < s.len()
            && #[trigger] positive_entries(s)[i] == s[j],
    decreases s.len(),
{
    if s.len() > 0 {
        let t = s.drop_last();
        assert(keys_distinct(t));
        lemma_positive_entries(t, pick);
        let pt = positive_entries(t);
        let e = s.last();
        lemma_map_of(t);
        assert(!map_of(t).contains_key(e.0)) by {
            if map_of(t).contains_key(e.0) {
                let i = choose|i: int| 0 <= i < t.len() && t[i].0 == e.0;
                assert(s[i] == t[i]);
                assert(s[s.len() - 1] == e);
            }
        }
        assert forall|i: int| 0 <= i < pt.len() implies exists|j: int| 0 <= j < s.len() && #[trigger] pt[i] == s[j] by {
            let j = choose|j: int| 0 <= j < t.len() && pt[i] == t[j];
            assert(s[j] == t[j]);
        }
        if e.1 > 0 {
            let r = pt.push(e);
            assert(r.drop_last() =~= pt);
            assert forall|a: int, b: int| 0 <= a < b < r.len() implies (#[trigger] r[a]).0 != (#[trigger] r[b]).0 by {
                if b == pt.len() {
                    assert(r[a] == pt[a]);
                    let j = choose|j: int| 0 <= j < t.len() && pt[a] == t[j];
                    assert(map_of(t).contains_key(t[j].0));
                }
            }
            assert(positive_scores(map_of(s)) =~= positive_scores(map_of(t)).insert(e.0, e.1));
            assert forall|i: int| 0 <= i < r.len() implies exists|j: int| 0 <= j < s.len() && #[trigger] r[i] == s[j] by {
                if i == pt.len() {
                    assert(r[i] == s[s.len() - 1]);
                } else {
                    assert(r[i] == pt[i]);
                }
            }
        } else {
            assert(positive_scores(map_of(s)) =~= positive_scores(map_of(t)));
        }
    }
}

/// After a round of score changes that keep every score a natural number,
/// with the scores that are not positive dropped, the total of any set of
/// keys has moved by the sum of the changes to them at or below the pruned
/// depth: whatever lists of entries stand for the maps before and after.
pub proof fn lemma_totals_after_changes(
    before: Seq<(PairKey, usize)>,
    after: Seq<(PairKey, usize)>,
    changes: Seq<(PairKey, isize)>,
    min: usize,
    pick: spec_fn(PairKey) -> bool,
)
    requires
        keys_distinct(before),
        keys_distinct(after),
        map_of(after) == positive_scores(apply_scores_spec(map_of(before), changes, min)),
        changes_natural(map_of(before), changes, min),
    ensures
        picked_total(after, pick) == picked_total(before, pick) + change_total(changes, min, pick),
{
    let r = lemma_apply_totals(before, changes, min);
    assert(picked_total(r, pick) == picked_total(before, pick) + change_total(changes, min, pick));
    lemma_positive_entries(r, pick);
    lemma_total_same_map(positive_entries(r), after, pick);
}

/// Every block with skip entries has a depth in `depths`, and each entry
/// jumps to a block at that block's depth.
pub open spec fn depths_consistent(anc: SkipMap, depths: Map<u64, usize>) -> bool {
    forall|k: PairKey| #[trigger] anc.contains_key(k) ==> {
        &&& depths.contains_key(k.0)
        &&& anc[k].0 matches Some(a) ==> depths.contains_key(a) && anc[k].1 == depths[a]
    }
}

/// Every cached answer belongs to a block with a depth in `depths`, and is
/// what a lookup from that depth gives with no cache at all.
pub open spec fn cache_sound(anc: SkipMap, cache: CacheMap, depths: Map<u64, usize>) -> bool {
    forall|k: PairKey| #[trigger] cache.contains_key(k) ==> {
        &&& depths.contains_key(k.0)
        &&& walk(anc, CacheMap::empty(), k.0, depths[k.0], k.1) == Some(cache[k])
    }
}

/// A key names its block at the block's depth, where the block has one.
pub open spec fn at_true_depth(k: PairKey, depths: Map<u64, usize>) -> bool {
    depths.contains_key(k.0) ==> depths[k.0] == k.1
}

/// A lookup from a block at its depth gives, with a sound cache, what it
/// gives with no cache; and the cache it leaves is sound.
pub proof fn lemma_walk_sound(anc: SkipMap, cache: CacheMap, depths: Map<u64, usize>, b: u64, d: usize, t: usize)
    requires
        depths_consistent(anc, depths),
        cache_sound(anc, cache, depths),
        at_true_depth((b, d), depths),
    ensures
        walk(anc, cache, b, d, t) == walk(anc, CacheMap::empty(), b, d, t),
        walk(anc, cache, b, d, t) is Some ==> cache_sound(anc, walk_cache(anc, cache, b, d, t), depths),
    decreases d,
{
    let empty = CacheMap::empty();
    if t >= d {
    } else if cache.contains_key((b, t)) {
    } else {
        let lvl = level_for(d, t);
        if !(lvl >= 16 || !anc.contains_key((b, lvl as usize))) {
            let e = anc[(b, lvl as usize)];
            match e.0 {
                None => {},
                Some(a) => {
                    let sd = e.1;
                    if sd < d {
                        lemma_walk_sound(anc, cache, depths, a, sd, t);
                        assert(walk(anc, empty, b, d, t) == walk(anc, empty, a, sd, t));
                        if walk(anc, cache, b, d, t) is Some {
                            let inner = walk_cache(anc, cache, a, sd, t);
                            let out = walk_cache(anc, cache, b, d, t);
                            assert(out == inner.insert((b, t), walk(anc, cache, a, sd, t).unwrap()));
                            assert forall|k: PairKey| #[trigger] out.contains_key(k) implies {
                                &&& depths.contains_key(k.0)
                                &&& walk(anc, empty, k.0, depths[k.0], k.1) == Some(out[k])
                            } by {
                                if k != (b, t) {
                                    assert(inner.contains_key(k));
                                }
                            }
                        }
                    }
                },
            }
        }
    }
}

/// Whether the lookup from a key's block at its depth, with no cache, reaches
/// `block` at `depth`.
pub open spec fn reaches(anc: SkipMap, block: u64, depth: usize) -> spec_fn(PairKey) -> bool {
    |k: PairKey| walk(anc, CacheMap::empty(), k.0, k.1, depth) == Some(Some(block))
}

/// A vote count with a sound cache, over scores whose targets are at their
/// true depths, is the total of the scores whose target reaches the block;
/// the cache it leaves is sound.
pub proof fn lemma_count_sound(
    anc: SkipMap,
    cache: CacheMap,
    depths: Map<u64, usize>,
    scores: Seq<(PairKey, usize)>,
    block: u64,
    depth: usize,
)
    requires
        depths_consistent(anc, depths),
        cache_sound(anc, cache, depths),
        forall|i: int| 0 <= i < scores.len() ==> at_true_depth((#[trigger] scores[i]).0, depths),
        count_votes_from(anc, cache, scores, block, depth) is Some,
    ensures
        count_votes_from(anc, cache, scores, block, depth).unwrap().0 == picked_total(scores, reaches(anc, block, depth)),
        cache_sound(anc, count_votes_from(anc, cache, scores, block, depth).unwrap().1, depths),
    decreases scores.len(),
{
    if scores.len() > 0 {
        let rest = scores.drop_last();
        assert forall|i: int| 0 <= i < rest.len() implies at_true_depth((#[trigger] rest[i]).0, depths) by {
            assert(rest[i] == scores[i]);
        }
        lemma_count_sound(anc, cache, depths, rest, block, depth);
        let (n, c) = count_votes_from(anc, cache, rest, block, depth).unwrap();
        let ((target, target_depth), votes) = scores.last();
        assert(scores[scores.len() - 1] == scores.last());
        lemma_walk_sound(anc, c, depths, target, target_depth, depth);
    }
}

/// Every key that the changes leave with a score had one before or was changed.
proof fn lemma_changed_keys(m: ScoreMap, changes: Seq<(PairKey, isize)>, min: usize, k: PairKey)
    requires
        apply_scores_spec(m, changes, min).contains_key(k),
    ensures
        m.contains_key(k) || exists|i: int| 0 <= i < changes.len() && (#[trigger] changes[i]).0 == k,
    decreases changes.len(),
{
    if changes.len() > 0 {
        let rest = changes.drop_last();
        if apply_scores_spec(m, rest, min).contains_key(k) {
            lemma_changed_keys(m, rest, min, k);
            if !m.contains_key(k) {
                let i = choose|i: int| 0 <= i < rest.len() && (#[trigger] rest[i]).0 == k;
                assert(changes[i] == rest[i]);
            }
        } else {
            assert(changes[changes.len() - 1].0 == k);
        }
    }
}

/// A round of score changes moves vote counts by the changes: when blocks
/// sit at their true depths and cached answers agree with plain lookups,
/// the votes for `block` at `depth` after `apply_scores` are the votes
/// before plus the changes, at or below the pruned depth, to the targets
/// whose ancestor at `depth` is `block`; no score may go below zero.
pub proof fn lemma_apply_scores_moves_votes(
    anc: SkipMap,
    cache_before: CacheMap,
    cache_after: CacheMap,
    depths: Map<u64, usize>,
    before: Seq<(PairKey, usize)>,
    after: Seq<(PairKey, usize)>,
    changes: Seq<(PairKey, isize)>,
    min: usize,
    block: u64,
    depth: usize,
)
    requires
        keys_distinct(before),
        keys_distinct(after),
        map_of(after) == positive_scores(apply_scores_spec(map_of(before), changes, min)),
        changes_natural(map_of(before), changes, min),
        depths_consistent(anc, depths),
        cache_sound(anc, cache_before, depths),
        cache_sound(anc, cache_after, depths),
        forall|i: int| 0 <= i < before.len() ==> at_true_depth((#[trigger] before[i]).0, depths),
        forall|i: int| 0 <= i < changes.len() ==> at_true_depth((#[trigger] changes[i]).0, depths),
        count_votes_from(anc, cache_before, before, block, depth) is Some,
        count_votes_from(anc, cache_after, after, block, depth) is Some,
    ensures
        count_votes_from(anc, cache_after, after, block, depth).unwrap().0
            == count_votes_from(anc, cache_before, before, block, depth).unwrap().0
                + change_total(changes, min, reaches(anc, block, depth)),
{
    lemma_map_of(before);
    lemma_map_of(after);
    assert forall|i: int| 0 <= i < after.len() implies at_true_depth((#[trigger] after[i]).0, depths) by {
        let k = after[i].0;
        assert(map_of(after).contains_key(k));
        lemma_changed_keys(map_of(before), changes, min, k);
        if map_of(before).contains_key(k) {
            let j = choose|j: int| 0 <= j < before.len() && before[j].0 == k;
            assert(at_true_depth(before[j].0, depths));
        } else {
            let j = choose|j: int| 0 <= j < changes.len() && (#[trigger] changes[j]).0 == k;
            assert(at_true_depth(changes[j].0, depths));
        }
    }
    lemma_count_sound(anc, cache_before, depths, before, block, depth);
    lemma_count_sound(anc, cache_after, depths, after, block, depth);
    lemma_totals_after_changes(before, after, changes, min, reaches(anc, block, depth));
}

/// Recording a block's levels touches the entries of that block only, and
/// its new entries jump to its parent at the depth above, or where the
/// parent's entry at the same level jumps.
proof fn lemma_push_levels_entries(m: SkipMap, b: u64, d: usize, parent: Option<u64>, min: usize, l: nat)
    ensures
        forall|k: PairKey| k.0 != b ==> (#[trigger] push_levels(m, b, d, parent, min, l).contains_key(k)
            <==> m.contains_key(k)) && push_levels(m, b, d, parent, min, l)[k] == m[k],
        forall|k: PairKey| k.0 == b && #[trigger] push_levels(m, b, d, parent, min, l).contains_key(k) ==> {
            ||| m.contains_key(k) && push_levels(m, b, d, parent, min, l)[k] == m[k]
            ||| push_levels(m, b, d, parent, min, l)[k] == (parent, (d - 1) as usize)
            ||| parent matches Some(p) && m.contains_key((p, k.1)) && push_levels(m, b, d, parent, min, l)[k] == m[(p, k.1)]
        },
    decreases l,
{
    if l > 0 {
        lemma_push_levels_entries(m, b, d, parent, min, (l - 1) as nat);
        let prev = push_levels(m, b, d, parent, min, (l - 1) as nat);
        let next = push_levels(m, b, d, parent, min, l);
        assert(next == push_level(prev, b, d, parent, min, (l - 1) as nat));
        assert forall|k: PairKey| k.0 == b && #[trigger] next.contains_key(k) implies {
            ||| m.contains_key(k) && next[k] == m[k]
            ||| next[k] == (parent, (d - 1) as usize)
            ||| parent matches Some(p) && m.contains_key((p, k.1)) && next[k] == m[(p, k.1)]
        } by {
            if let Some(p) = parent {
                if p != b {
                    assert(prev.contains_key((p, k.1)) == m.contains_key((p, k.1)));
                }
            }
        }
    }
}

/// Walks from blocks other than `b` do not see entries of `b` if they never
/// reach it: with depths consistent and `b` without a depth, changing the
/// entries of `b` changes no plain lookup from a block with a depth.
proof fn lemma_walk_ignores(anc: SkipMap, anc2: SkipMap, depths: Map<u64, usize>, b: u64, x: u64, d: usize, t: usize)
    requires
        depths_consistent(anc, depths),
        !depths.contains_key(b),
        depths.contains_key(x),
        depths[x] == d,
        forall|k: PairKey| k.0 != b ==> (#[trigger] anc2.contains_key(k) <==> anc.contains_key(k)) && anc2[k] == anc[k],
    ensures
        walk(anc2, CacheMap::empty(), x, d, t) == walk(anc, CacheMap::empty(), x, d, t),
    decreases d,
{
    if t < d {
        let lvl = level_for(d, t);
        if lvl < 16 && anc.contains_key((x, lvl as usize)) {
            match anc[(x, lvl as usize)].0 {
                None => {},
                Some(a) => {
                    let sd = anc[(x, lvl as usize)].1;
                    if sd < d {
                        lemma_walk_ignores(anc, anc2, depths, b, a, sd, t);
                    }
                },
            }
        }
    }
}

/// Recording a new block under a parent one level above it, at their true
/// depths, keeps the depths consistent, with the block at its depth, and
/// keeps a sound cache sound.
pub proof fn lemma_push_keeps_sound(
    anc: SkipMap,
    cache: CacheMap,
    depths: Map<u64, usize>,
    block: u64,
    depth: usize,
    parent: Option<u64>,
    min: usize,
)
    requires
        depths_consistent(anc, depths),
        cache_sound(anc, cache, depths),
        !depths.contains_key(block),
        depth >= 1,
        parent matches Some(p) ==> depths.contains_key(p) && depths[p] == depth - 1,
    ensures
        depths_consistent(push_levels(anc, block, depth, parent, min, 16), depths.insert(block, depth)),
        cache_sound(push_levels(anc, block, depth, parent, min, 16), cache, depths.insert(block, depth)),
{
    let anc2 = push_levels(anc, block, depth, parent, min, 16);
    let depths2 = depths.insert(block, depth);
    lemma_push_levels_entries(anc, block, depth, parent, min, 16);
    assert forall|k: PairKey| #[trigger] anc2.contains_key(k) implies {
        &&& depths2.contains_key(k.0)
        &&& anc2[k].0 matches Some(a) ==> depths2.contains_key(a) && anc2[k].1 == depths2[a]
    } by {
        if k.0 != block {
            assert(anc.contains_key(k));
        } else {
            if anc.contains_key(k) {
                assert(depths.contains_key(k.0));
            }
            if let Some(p) = parent {
                if anc.contains_key((p, k.1)) {
                    assert(depths.contains_key(p));
                }
                assert(p != block);
            }
        }
    }
    assert forall|k: PairKey| #[trigger] cache.contains_key(k) implies {
        &&& depths2.contains_key(k.0)
        &&& walk(anc2, CacheMap::empty(), k.0, depths2[k.0], k.1) == Some(cache[k])
    } by {
        assert(depths.contains_key(k.0));
        assert(k.0 != block);
        lemma_walk_ignores(anc, anc2, depths, block, k.0, depths[k.0], k.1);
    }
}

} // verus!
