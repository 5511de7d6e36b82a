//! Swap-or-not shuffling of validator indices, committee selection and
//! Merkle branch checks over SHA-256.

use vstd::prelude::*;
use crate::bytes::{le_bytes, le_value, pow256, lemma_pow256_pos, lemma_le_bytes_len, lemma_le_bytes_index};
use crate::hash::{H256, sha256, sha256_spec, hash_views};
use crate::utils::to_uint;

verus! {

/// Errors of index computations.
#[derive(Debug, Clone, Copy, PartialEq, Eq)]
pub enum Error {
    /// The index is not below the index count, or the count is above `2^40`.
    IndexOutOfRange,
}

/// The largest index count the shuffle accepts.
pub const MAX_INDEX_COUNT: u64 = 0x100_0000_0000;

/// Bytes hashed to pick the pivot of a round.
pub open spec fn pivot_input(seed: Seq<u8>, round: nat) -> Seq<u8> {
    seed + seq![(round % 256) as u8]
}

/// Bytes hashed to pick the swap bits of a round for the block of 256
/// positions that holds `position`.
pub open spec fn source_input(seed: Seq<u8>, round: nat, position: nat) -> Seq<u8> {
    seed + seq![(round % 256) as u8] + le_bytes(position / 256, 4)
}

/// The pivot of a round.
pub open spec fn round_pivot(seed: Seq<u8>, round: nat, count: nat) -> nat {
    le_value(sha256_spec(pivot_input(seed, round)).subrange(0, 8)) % count
}

/// The index mirrored around the pivot.
pub open spec fn flip(pivot: nat, count: nat, index: nat) -> nat {
    ((pivot + count - index) as nat) % count
}

/// The larger of an index and its mirror.
pub open spec fn max_nat(a: nat, b: nat) -> nat {
    if a >= b { a } else { b }
}

/// Whether the pair of an index and its mirror swaps in a round.
pub open spec fn swap_bit(seed: Seq<u8>, round: nat, position: nat) -> bool {
    let byte = sha256_spec(source_input(seed, round, position))[((position % 256) / 8) as int];
    (byte >> ((position % 8) as u8)) % 2 != 0
}

/// One round of the swap-or-not shuffle.
pub open spec fn round_step(seed: Seq<u8>, round: nat, count: nat, index: nat) -> nat {
    let f = flip(round_pivot(seed, round, count), count, index);
    if swap_bit(seed, round, max_nat(index, f)) { f } else { index }
}

/// A round of swap-or-not moves an index to its mirror around the round's
/// pivot (the first eight bytes of the hash of the seed and the round,
/// little-endian, modulo the count) exactly when the bit for the larger of
/// the two is set in the hash of the seed, the round and that position's
/// block of 256; otherwise the index stays.
pub proof fn lemma_round_swaps_on_set_bit(seed: Seq<u8>, round: nat, count: nat, index: nat)
    requires
        index < count,
    ensures
        ({
            let pivot = le_value(sha256_spec(seed + seq![(round % 256) as u8]).subrange(0, 8)) % count;
            let mirror = ((pivot + count - index) as nat) % count;
            let position = if index >= mirror { index } else { mirror };
            let source = sha256_spec(seed + seq![(round % 256) as u8] + le_bytes(position / 256, 4));
            let bit = (source[((position % 256) / 8) as int] >> ((position % 8) as u8)) % 2;
            round_step(seed, round, count, index) == if bit == 1 { mirror } else { index }
        }),
{
    let pivot = le_value(sha256_spec(seed + seq![(round % 256) as u8]).subrange(0, 8)) % count;
    let mirror = ((pivot + count - index) as nat) % count;
    let position = if index >= mirror { index } else { mirror };
    let source = sha256_spec(seed + seq![(round % 256) as u8] + le_bytes(position / 256, 4));
    let byte = source[((position % 256) / 8) as int];
    let k = (position % 8) as u8;
    assert((byte >> k) % 2 == 0 || (byte >> k) % 2 == 1);
}

/// The position of `index` after the first `rounds` rounds of the shuffle.
pub open spec fn shuffle(seed: Seq<u8>, count: nat, index: nat, rounds: nat) -> nat
    decreases rounds,
{
    if rounds == 0 {
        index
    } else {
        round_step(seed, (rounds - 1) as nat, count, shuffle(seed, count, index, (rounds - 1) as nat))
    }
}

/// The shuffle starts from the index and applies the rounds in order,
/// round `r` as the `r + 1`-th step.
pub proof fn lemma_shuffle_rounds_in_order(seed: Seq<u8>, count: nat, index: nat, rounds: nat)
    ensures
        shuffle(seed, count, index, 0) == index,
        shuffle(seed, count, index, rounds + 1) == round_step(seed, rounds, count, shuffle(seed, count, index, rounds)),
{
}

proof fn lemma_mod_shift(a: int, n: int)
    requires
        n > 0,
        n <= a < 2 * n,
    ensures
        a % n == a - n,
{
    vstd::arithmetic::div_mod::lemma_fundamental_div_mod_converse(a, n, 1, a - n);
}

proof fn lemma_mod_small(a: int, n: int)
    requires
        0 <= a < n,
    ensures
        a % n == a,
{
    vstd::arithmetic::div_mod::lemma_fundamental_div_mod_converse(a, n, 0, a);
}

/// Mirroring twice around the same pivot gives the index back.
proof fn lemma_flip_involution(p: nat, n: nat, x: nat)
    requires
        p < n,
        x < n,
    ensures
        flip(p, n, x) < n,
        flip(p, n, flip(p, n, x)) == x,
{
    if x <= p {
        lemma_mod_shift(p + n - x, n as int);
        let f = (p - x) as nat;
        assert(flip(p, n, x) == f);
        lemma_mod_shift(p + n - f, n as int);
    } else {
        lemma_mod_small(p + n - x, n as int);
        let f = (p + n - x) as nat;
        assert(flip(p, n, x) == f);
        lemma_mod_small(p + n - f, n as int);
    }
}

/// A round maps indices below the count to indices below the count, and is its own inverse.
pub proof fn lemma_round_step_involution(seed: Seq<u8>, round: nat, count: nat, x: nat)
    requires
        x < count,
    ensures
        round_step(seed, round, count, x) < count,
        round_step(seed, round, count, round_step(seed, round, count, x)) == x,
{
    let p = round_pivot(seed, round, count);
    assert(p < count);
    lemma_flip_involution(p, count, x);
    let f = flip(p, count, x);
    lemma_flip_involution(p, count, f);
    assert(max_nat(x, f) == max_nat(f, x));
}

/// The shuffle keeps indices below the count.
pub proof fn lemma_shuffle_range(seed: Seq<u8>, count: nat, index: nat, rounds: nat)
    requires
        index < count,
    ensures
        shuffle(seed, count, index, rounds) < count,
    decreases rounds,
{
    if rounds > 0 {
        lemma_shuffle_range(seed, count, index, (rounds - 1) as nat);
        lemma_round_step_involution(seed, (rounds - 1) as nat, count,
            shuffle(seed, count, index, (rounds - 1) as nat));
    }
}

/// The shuffle is a permutation of the indices below the count: distinct
/// indices are sent to distinct indices, all below the count.
pub proof fn lemma_shuffle_is_permutation(seed: Seq<u8>, count: nat, i: nat, j: nat, rounds: nat)
    requires
        i < count,
        j < count,
        i != j,
    ensures
        shuffle(seed, count, i, rounds) < count,
        shuffle(seed, count, i, rounds) != shuffle(seed, count, j, rounds),
    decreases rounds,
{
    lemma_shuffle_range(seed, count, i, rounds);
    if rounds > 0 {
        let r = (rounds - 1) as nat;
        lemma_shuffle_is_permutation(seed, count, i, j, r);
        let a = shuffle(seed, count, i, r);
        let b = shuffle(seed, count, j, r);
        lemma_shuffle_range(seed, count, j, r);
        lemma_round_step_involution(seed, r, count, a);
        lemma_round_step_involution(seed, r, count, b);
    }
}

/// Appends the `n` little-endian bytes of `x`.
fn push_le_bytes(out: &mut Vec<u8>, x: u64, n: usize)
    ensures
        final(out)@ == old(out)@ + le_bytes(x as nat, n as nat),
{
    let ghost start = out@;
    let mut y: u64 = x;
    let mut i: usize = 0;
    proof {
        assert(pow256(0) == 1);
        assert(x as nat / 1 == x as nat);
    }
    while i < n
        invariant
            i <= n,
            out@.len() == start.len() + i,
            out@.subrange(0, start.len() as int) == start,
            y as nat == x as nat / pow256(i as nat),
            forall|j: int| 0 <= j < i ==> #[trigger] pow256(j as nat) > 0 && out@[start.len() + j] == ((x as nat / pow256(j as nat)) % 256) as u8,
        decreases n - i,
    {
        out.push((y % 256) as u8);
        proof {
            lemma_pow256_pos(i as nat);
            vstd::arithmetic::div_mod::lemma_div_denominator(x as int, pow256(i as nat) as int, 256);
            assert(pow256((i + 1) as nat) == pow256(i as nat) * 256);
            assert(out@.subrange(0, start.len() as int) =~= start);
        }
        y = y / 256;
        i = i + 1;
    }
    proof {
        lemma_le_bytes_len(x as nat, n as nat);
        assert forall|j: int| 0 <= j < out@.len() implies out@[j] == (start + le_bytes(x as nat, n as nat))[j] by {
            if j >= start.len() {
                lemma_le_bytes_index(x as nat, n as nat, (j - start.len()) as nat);
            } else {
                assert(out@[j] == out@.subrange(0, start.len() as int)[j]);
            }
        }
        assert(out@ =~= start + le_bytes(x as nat, n as nat));
    }
}

/// The bytes of a hash, as a vector.
fn hash_bytes(h: &H256) -> (r: Vec<u8>)
    ensures
        r@ == h@,
{
    let mut v: Vec<u8> = Vec::new();
    let mut i: usize = 0;
    while i < 32
        invariant
            i <= 32,
            v@ == h@.subrange(0, i as int),
        decreases 32 - i,
    {
        v.push(h[i]);
        i = i + 1;
        proof {
            assert(v@ =~= h@.subrange(0, i as int));
        }
    }
    proof {
        assert(h@.subrange(0, 32) =~= h@);
    }
    v
}

/// One round of the shuffle applied to `index`.
fn shuffle_round(index: u64, index_count: u64, seed: &H256, round: u64) -> (r: u64)
    requires
        index < index_count,
        index_count <= MAX_INDEX_COUNT,
    ensures
        r as nat == round_step(seed@, round as nat, index_count as nat, index as nat),
{
    let mut input = hash_bytes(seed);
    input.push((round % 256) as u8);
    let pivot_hash = sha256(input.as_slice());
    let pivot = to_uint(&pivot_hash.as_slice()[0..8]) % index_count;
    proof {
        assert(input@ == pivot_input(seed@, round as nat));
    }
    let flip_index = (pivot + index_count - index) % index_count;
    let position = if index >= flip_index { index } else { flip_index };
    push_le_bytes(&mut input, position / 256, 4);
    proof {
        assert(input@ == source_input(seed@, round as nat, position as nat));
    }
    let source = sha256(input.as_slice());
    let byte = source[((position % 256) / 8) as usize];
    let bit = (byte >> ((position % 8) as u8)) % 2;
    if bit != 0 { flip_index } else { index }
}

/// The position of `index` in the shuffle of `index_count` indices under
/// `seed`, with `round_count` rounds.
pub fn shuffled_index(index: u64, index_count: u64, seed: H256, round_count: u64) -> (r: Result<u64, Error>)
    ensures
        match r {
            Ok(v) => index < index_count && index_count <= MAX_INDEX_COUNT
                && v as nat == shuffle(seed@, index_count as nat, index as nat, round_count as nat),
            Err(e) => e == Error::IndexOutOfRange && !(index < index_count && index_count <= MAX_INDEX_COUNT),
        },
{
    if !(index < index_count && index_count <= MAX_INDEX_COUNT) {
        return Err(Error::IndexOutOfRange);
    }
    let mut current = index;
    let mut round: u64 = 0;
    while round < round_count
        invariant
            round <= round_count,
            index < index_count <= MAX_INDEX_COUNT,
            current < index_count,
            current as nat == shuffle(seed@, index_count as nat, index as nat, round as nat),
        decreases round_count - round,
    {
        proof {
            lemma_round_step_involution(seed@, round as nat, index_count as nat, current as nat);
        }
        current = shuffle_round(current, index_count, &seed, round);
        round = round + 1;
    }
    Ok(current)
}


/// Whether every index of a committee range can be shuffled.
pub open spec fn committee_range_valid(len: nat, start: nat, end: nat) -> bool {
    start >= end || (end <= len && len <= MAX_INDEX_COUNT)
}

/// The members of the committee number `index` of `count`: the shuffled
/// positions of the slice `[len * index / count, len * (index + 1) / count)`.
pub open spec fn committee_spec(indices: Seq<u64>, seed: Seq<u8>, start: nat, end: nat, rounds: nat) -> Seq<u64> {
    Seq::new((end - start) as nat, |k: int| indices[shuffle(seed, indices.len(), (start + k) as nat, rounds) as int])
}

/// Compute the committee number `index` out of `count` committees.
pub fn compute_committee(
    indices: &[u64],
    seed: H256,
    index: u64,
    count: u64,
    round_count: u64,
) -> (r: Result<Vec<u64>, Error>)
    requires
        count > 0,
        index < u64::MAX,
        indices@.len() * (index + 1) <= u64::MAX,
    ensures
        ({
            let len = indices@.len();
            let start = (len * index) as nat / (count as nat);
            let end = (len * (index + 1)) as nat / (count as nat);
            match r {
                Ok(v) => committee_range_valid(len, start as nat, end as nat)
                    && v@ == committee_spec(indices@, seed@, start as nat, end as nat, round_count as nat),
                Err(e) => e == Error::IndexOutOfRange && !committee_range_valid(len, start as nat, end as nat),
            }
        }),
{
    let len = indices.len() as u64;
    proof {
        assert(len * index <= len * (index + 1)) by (nonlinear_arith);
        vstd::arithmetic::div_mod::lemma_div_is_ordered((len * index) as int, (len * (index + 1)) as int, count as int);
    }
    let start = (len * index) / count;
    let end = (len * (index + 1)) / count;
    assert(start as nat == (indices@.len() * index) as nat / (count as nat));
    assert(end as nat == (indices@.len() * (index + 1)) as nat / (count as nat));
    let mut ret: Vec<u64> = Vec::new();
    let mut i = start;
    while i < end
        invariant
            start <= i <= end,
            len == indices@.len(),
            ret@ == committee_spec(indices@, seed@, start as nat, i as nat, round_count as nat),
            i > start ==> i <= len && len <= MAX_INDEX_COUNT,
            start as nat == (indices@.len() * index) as nat / (count as nat),
            end as nat == (indices@.len() * (index + 1)) as nat / (count as nat),
        decreases end - i,
    {
        let s = shuffled_index(i, len, seed, round_count);
        match s {
            Ok(p) => {
                proof {
                    lemma_shuffle_range(seed@, len as nat, i as nat, round_count as nat);
                }
                assert(p < len);
                ret.push(indices[p as usize]);
                proof {
                    assert(ret@ =~= committee_spec(indices@, seed@, start as nat, (i + 1) as nat, round_count as nat));
                }
            },
            Err(e) => {
                assert(!committee_range_valid(len as nat, start as nat, end as nat));
                return Err(e);
            },
        }
        i = i + 1;
    }
    Ok(ret)
}

/// Byte-wise equality of two hashes.
pub fn hash_eq(a: &H256, b: &H256) -> (r: bool)
    ensures
        r == (a@ == b@),
{
    let mut i: usize = 0;
    while i < 32
        invariant
            i <= 32,
            forall|j: int| 0 <= j < i ==> a@[j] == b@[j],
        decreases 32 - i,
    {
        if a[i] != b[i] {
            return false;
        }
        i = i + 1;
    }
    proof {
        assert(a@ =~= b@);
    }
    true
}

/// The SHA-256 digest of the concatenation of two hashes.
pub(crate) fn hash_pair(a: &H256, b: &H256) -> (r: H256)
    ensures
        r@ == sha256_spec(a@ + b@),
{
    let mut input = hash_bytes(a);
    let mut i: usize = 0;
    while i < 32
        invariant
            i <= 32,
            input@ == a@ + b@.subrange(0, i as int),
        decreases 32 - i,
    {
        input.push(b[i]);
        i = i + 1;
        proof {
            assert(input@ =~= a@ + b@.subrange(0, i as int));
        }
    }
    proof {
        assert(b@.subrange(0, 32) =~= b@);
    }
    sha256(input.as_slice())
}

/// The root reached from `value` by hashing it with the nodes of a proof,
/// bit by bit of `index`: the node goes on the left where the bit is set.
pub open spec fn merkle_fold(value: Seq<u8>, proof: Seq<Seq<u8>>, index: nat) -> Seq<u8>
    decreases proof.len(),
{
    if proof.len() == 0 {
        value
    } else {
        let next = if index % 2 != 0 {
            sha256_spec(proof[0] + value)
        } else {
            sha256_spec(value + proof[0])
        };
        merkle_fold(next, proof.drop_first(), index / 2)
    }
}

/// Whether `proof` is a Merkle branch of `depth` nodes from `leaf` at
/// position `index` up to `root`.
pub fn is_valid_merkle_branch(leaf: H256, proof: &[H256], depth: u64, index: u64, root: H256) -> (r: bool)
    requires
        proof@.len() == depth ==> depth <= 64,
    ensures
        r == (proof@.len() == depth && merkle_fold(leaf@, hash_views(proof@), index as nat) == root@),
{
    if proof.len() as u64 != depth {
        return false;
    }
    let mut value = leaf;
    let mut idx = index;
    let mut i: usize = 0;
    proof {
        assert(hash_views(proof@).subrange(0, proof@.len() as int) =~= hash_views(proof@));
    }
    while i < proof.len()
        invariant
            i <= proof@.len(),
            merkle_fold(value@, hash_views(proof@).subrange(i as int, proof@.len() as int), idx as nat)
                == merkle_fold(leaf@, hash_views(proof@), index as nat),
        decreases proof@.len() - i,
    {
        proof {
            assert(hash_views(proof@).subrange(i as int, proof@.len() as int).drop_first()
                =~= hash_views(proof@).subrange(i + 1, proof@.len() as int));
        }
        if idx % 2 != 0 {
            value = hash_pair(&proof[i], &value);
        } else {
            value = hash_pair(&value, &proof[i]);
        }
        idx = idx / 2;
        i = i + 1;
    }
    proof {
        assert(hash_views(proof@).subrange(i as int, proof@.len() as int) =~= Seq::<Seq<u8>>::empty());
    }
    hash_eq(&value, &root)
}

} // verus!

