//! First difference of two hashes, the basis of their lexicographic order.

use vstd::prelude::*;
use crate::hash::H256;

verus! {

/// `a` comes before `b`: at the first byte where they differ, `a` has the smaller byte.
pub open spec fn hash_lt(a: Seq<u8>, b: Seq<u8>) -> bool {
    exists|i: int| 0 <= i < a.len() && i < b.len()
        && a.take(i) == b.take(i) && #[trigger] a[i] < b[i]
}

/// The first position where two hashes differ, if any.
pub fn first_difference(a: &H256, b: &H256) -> (r: Option<usize>)
    ensures
        match r {
            None => a@ == b@,
            Some(i) => i < 32 && a@.take(i as int) == b@.take(i as int) && a@[i as int] != b@[i as int],
        },
{
    let mut i: usize = 0;
    while i < 32
        invariant
            i <= 32,
            a@.take(i as int) == b@.take(i as int),
        decreases 32 - i,
    {
        if a[i] != b[i] {
            return Some(i);
        }
        proof {
            assert(a@.take(i + 1) =~= a@.take(i as int).push(a@[i as int]));
            assert(b@.take(i + 1) =~= b@.take(i as int).push(b@[i as int]));
        }
        i = i + 1;
    }
    proof {
        assert(a@ =~= a@.take(32));
        assert(b@ =~= b@.take(32));
    }
    None
}

/// At the first difference, the smaller byte decides the order.
pub proof fn lemma_difference_decides(a: Seq<u8>, b: Seq<u8>, i: usize)
    requires
        a.len() == 32,
        b.len() == 32,
        i < 32,
        a.take(i as int) == b.take(i as int),
        a[i as int] != b[i as int],
    ensures
        hash_lt(a, b) == (a[i as int] < b[i as int]),
        hash_lt(b, a) == (b[i as int] < a[i as int]),
{
    assert forall|j: int| 0 <= j < 32 && a.take(j) == b.take(j) && a[j] != b[j] implies j == i by {
        if j < i {
            assert(a[j] == a.take(i as int)[j]);
            assert(b[j] == b.take(i as int)[j]);
        } else if j > i {
            assert(a[i as int] == a.take(j)[i as int]);
            assert(b[i as int] == b.take(j)[i as int]);
        }
    }
    if a[i as int] < b[i as int] {
        assert(hash_lt(a, b));
    }
    if b[i as int] < a[i as int] {
        assert(hash_lt(b, a));
    }
}

/// Equal hashes are not ordered.
pub proof fn lemma_equal_not_lt(a: Seq<u8>)
    ensures
        !hash_lt(a, a),
{
}

} // verus!
