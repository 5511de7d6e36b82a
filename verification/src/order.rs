//! Orders: hashes lexicographically, HELLO messages by head slot.

use vstd::prelude::*;
use core::cmp::Ordering;
use crate::hash::H256;
use crate::messages::HelloMessage;
use crate::lexical::{hash_lt, first_difference, lemma_difference_decides, lemma_equal_not_lt};

verus! {

/// Compare two hashes byte by byte, the first byte being the most significant.
pub fn compare_hash(a: &H256, b: &H256) -> (r: Ordering)
    ensures
        (r == Ordering::Equal) == (a@ == b@),
        (r == Ordering::Less) == hash_lt(a@, b@),
        (r == Ordering::Greater) == hash_lt(b@, a@),
{
    match first_difference(a, b) {
        None => {
            proof {
                lemma_equal_not_lt(a@);
            }
            Ordering::Equal
        },
        Some(i) => {
            proof {
                lemma_difference_decides(a@, b@, i);
            }
            if a[i] < b[i] {
                Ordering::Less
            } else {
                Ordering::Greater
            }
        },
    }
}

/// Compare two HELLO messages by their head slots alone.
pub fn compare_hello(a: &HelloMessage, b: &HelloMessage) -> (r: Ordering)
    ensures
        (r == Ordering::Equal) == (a.head_slot == b.head_slot),
        (r == Ordering::Less) == (a.head_slot < b.head_slot),
        (r == Ordering::Greater) == (a.head_slot > b.head_slot),
{
    if a.head_slot < b.head_slot {
        Ordering::Less
    } else if a.head_slot == b.head_slot {
        Ordering::Equal
    } else {
        Ordering::Greater
    }
}

} // verus!
