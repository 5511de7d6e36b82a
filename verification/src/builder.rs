//! The validator's decisions while building on the head: whether and what
//! it attests, which proposer key signs, and which pooled attestations went
//! into the block.

use vstd::prelude::*;
use crate::hash::H256;
use crate::latest::{ValidatorId, id_eq};
use crate::pool::{own_attestation_bits, position_of};

verus! {

/// An epoch and the root of its first block.
#[derive(Clone, Copy, Debug, PartialEq, Eq)]
pub struct Checkpoint {
    /// The epoch.
    pub epoch: u64,
    /// The block root.
    pub root: H256,
}

/// What an attestation attests.
#[derive(Clone, Copy, Debug, PartialEq, Eq)]
pub struct AttestationData {
    /// The head block the validator sees.
    pub beacon_block_root: H256,
    /// The justified checkpoint the vote comes from.
    pub source: Checkpoint,
    /// The checkpoint the vote goes to.
    pub target: Checkpoint,
    /// The slot of the committee.
    pub slot: u64,
    /// The index of the committee.
    pub index: u64,
}

/// What applying a pooled attestation to the block under construction gave.
#[derive(Clone, Copy, Debug, PartialEq, Eq, Structural)]
pub enum ApplyOutcome {
    /// It was included.
    Applied,
    /// It came too soon after its slot to be included.
    SubmittedTooQuickly,
    /// Any other refusal.
    Refused,
}

/// The validator is assigned to attest at the current slot, in a
/// committee that holds it.
pub open spec fn attests_now(current_slot: u64, assignment: Option<(u64, u64, Vec<u64>)>, validator_index: u64) -> bool {
    match assignment {
        Some((slot, _, committee)) => slot == current_slot && committee@.contains(validator_index),
        None => false,
    }
}

/// The target root: the head when the epoch starts at the current slot,
/// else the block root of the epoch.
pub open spec fn target_root(current_slot: u64, epoch_start_slot: u64, head: H256, epoch_block_root: H256) -> H256 {
    if epoch_start_slot == current_slot { head } else { epoch_block_root }
}

/// The validator's attestation for the current slot, with its aggregation
/// and custody bits, when it is assigned to a committee at that slot.
pub fn attestation_for(
    current_slot: u64,
    current_epoch: u64,
    epoch_start_slot: u64,
    head: H256,
    head_block_root: H256,
    epoch_block_root: H256,
    source: Checkpoint,
    assignment: Option<(u64, u64, Vec<u64>)>,
    validator_index: u64,
) -> (r: Option<(AttestationData, Vec<bool>, Vec<bool>)>)
    ensures
        r is Some <==> attests_now(current_slot, assignment, validator_index),
        r matches Some((d, aggregation_bits, custody_bits)) ==> {
            let (slot, index, committee) = assignment->0;
            &&& d.target.root == target_root(current_slot, epoch_start_slot, head, epoch_block_root)
            &&& d.target.epoch == current_epoch
            &&& d.source == source
            &&& d.beacon_block_root == head_block_root
            &&& d.slot == slot
            &&& d.index == index
            &&& aggregation_bits@.len() == committee@.len()
            &&& custody_bits@.len() == committee@.len()
            &&& forall|i: int| 0 <= i < committee@.len()
                ==> aggregation_bits@[i] == (i == position_of(committee@, validator_index))
            &&& forall|i: int| 0 <= i < committee@.len() ==> !custody_bits@[i]
        },
{
    match assignment {
        Some((slot, index, committee)) => {
            if slot != current_slot {
                return None;
            }
            let mut found = false;
            let mut k: usize = 0;
            while k < committee.len()
                invariant
                    k <= committee@.len(),
                    found == exists|j: int| 0 <= j < k && committee@[j] == validator_index,
                decreases committee@.len() - k,
            {
                if committee[k] == validator_index {
                    found = true;
                }
                k = k + 1;
            }
            if !found {
                return None;
            }
            let target = if epoch_start_slot == current_slot { head } else { epoch_block_root };
            let data = AttestationData {
                beacon_block_root: head_block_root,
                source,
                target: Checkpoint { epoch: current_epoch, root: target },
                slot,
                index,
            };
            let (aggregation_bits, custody_bits) = own_attestation_bits(committee.as_slice(), validator_index);
            Some((data, aggregation_bits, custody_bits))
        },
        None => None,
    }
}

/// The hashes of the attestations that were applied, in order.
pub open spec fn applied_spec(outcomes: Seq<(H256, ApplyOutcome)>) -> Seq<H256>
    decreases outcomes.len(),
{
    if outcomes.len() == 0 {
        Seq::empty()
    } else {
        let rest = applied_spec(outcomes.drop_last());
        if outcomes.last().1 == ApplyOutcome::Applied { rest.push(outcomes.last().0) } else { rest }
    }
}

/// The hashes of the pooled attestations that went into the block, in the
/// order they were tried; the others, too early or refused, stay pooled.
pub fn applied_attestations(outcomes: &[(H256, ApplyOutcome)]) -> (r: Vec<H256>)
    ensures
        r@ == applied_spec(outcomes@),
{
    let mut r: Vec<H256> = Vec::new();
    let mut i: usize = 0;
    while i < outcomes.len()
        invariant
            i <= outcomes@.len(),
            r@ == applied_spec(outcomes@.subrange(0, i as int)),
        decreases outcomes@.len() - i,
    {
        proof {
            assert(outcomes@.subrange(0, i + 1).drop_last() =~= outcomes@.subrange(0, i as int));
        }
        let (hash, outcome) = outcomes[i];
        if outcome == ApplyOutcome::Applied {
            r.push(hash);
        }
        i = i + 1;
    }
    proof {
        assert(outcomes@.subrange(0, outcomes@.len() as int) =~= outcomes@);
    }
    r
}

/// The position of the first key held for `proposer`, or the length.
pub open spec fn key_position(keys: Seq<(ValidatorId, Vec<u8>)>, proposer: Seq<u8>) -> nat
    decreases keys.len(),
{
    if keys.len() == 0 {
        0
    } else if keys[0].0@ == proposer {
        0
    } else {
        1 + key_position(keys.drop_first(), proposer)
    }
}

/// The secret key held for the proposer, or `None` when no key matches and
/// the block is not built.
pub fn proposer_key(keys: &[(ValidatorId, Vec<u8>)], proposer: &ValidatorId) -> (r: Option<Vec<u8>>)
    ensures
        r is None <==> forall|i: int| 0 <= i < keys@.len() ==> (#[trigger] keys@[i]).0@ != proposer@,
        r matches Some(s) ==> key_position(keys@, proposer@) < keys@.len()
            && s@ == keys@[key_position(keys@, proposer@) as int].1@,
{
    let mut i: usize = 0;
    proof {
        assert(keys@.skip(0) =~= keys@);
    }
    while i < keys.len()
        invariant
            i <= keys@.len(),
            forall|j: int| 0 <= j < i ==> (#[trigger] keys@[j]).0@ != proposer@,
            key_position(keys@, proposer@) == i + key_position(keys@.skip(i as int), proposer@),
        decreases keys@.len() - i,
    {
        proof {
            assert(keys@.skip(i as int)[0] == keys@[i as int]);
            assert(keys@.skip(i as int).drop_first() =~= keys@.skip(i + 1));
        }
        if id_eq(&keys[i].0, proposer) {
            let secret = &keys[i].1;
            let mut copy: Vec<u8> = Vec::new();
            let mut k: usize = 0;
            while k < secret.len()
                invariant
                    k <= secret@.len(),
                    copy@ == secret@.subrange(0, k as int),
                decreases secret@.len() - k,
            {
                copy.push(secret[k]);
                k = k + 1;
                proof {
                    assert(copy@ =~= secret@.subrange(0, k as int));
                }
            }
            proof {
                assert(secret@.subrange(0, secret@.len() as int) =~= secret@);
            }
            return Some(copy);
        }
        i = i + 1;
    }
    None
}

} // verus!
