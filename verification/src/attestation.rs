//! Attestations as the Casper and reward logic read them.

use vstd::prelude::*;

verus! {

/// An attestation whose signature and canonicity have been checked.
pub struct CheckedAttestation {
    /// Slot the attestation was made in.
    pub slot: u64,
    /// Source epoch of the Casper vote.
    pub source_epoch: u64,
    /// Target epoch of the Casper vote.
    pub target_epoch: u64,
    /// Validators that signed the attestation.
    pub validator_ids: Vec<u64>,
    /// Whether the attested slot block is on the canonical chain.
    pub is_slot_canon: bool,
    /// Whether the source block is on the canonical chain.
    pub is_source_canon: bool,
    /// Whether the target block is on the canonical chain.
    pub is_target_canon: bool,
    /// Slots between the attestation and its inclusion in a block.
    pub inclusion_distance: u64,
}

impl CheckedAttestation {
    /// Whether both source and target are on the canonical chain.
    pub open spec fn casper_canon(&self) -> bool {
        self.is_source_canon && self.is_target_canon
    }

    /// Whether this attestation's source and target are on the canonical chain.
    pub fn is_casper_canon(&self) -> (r: bool)
        ensures
            r == self.casper_canon(),
    {
        self.is_source_canon && self.is_target_canon
    }

    /// Field-by-field equality of two attestations.
    pub open spec fn same_as(&self, other: &CheckedAttestation) -> bool {
        &&& self.slot == other.slot
        &&& self.source_epoch == other.source_epoch
        &&& self.target_epoch == other.target_epoch
        &&& self.validator_ids@ == other.validator_ids@
        &&& self.is_slot_canon == other.is_slot_canon
        &&& self.is_source_canon == other.is_source_canon
        &&& self.is_target_canon == other.is_target_canon
        &&& self.inclusion_distance == other.inclusion_distance
    }

    /// Whether two attestations are equal in every field.
    pub fn equals(&self, other: &CheckedAttestation) -> (r: bool)
        ensures
            r == self.same_as(other),
    {
        if self.slot != other.slot || self.source_epoch != other.source_epoch
            || self.target_epoch != other.target_epoch || self.is_slot_canon != other.is_slot_canon
            || self.is_source_canon != other.is_source_canon
            || self.is_target_canon != other.is_target_canon
            || self.inclusion_distance != other.inclusion_distance
        {
            return false;
        }
        ids_equal(&self.validator_ids, &other.validator_ids)
    }

    /// A copy of this attestation.
    pub fn copy(&self) -> (r: CheckedAttestation)
        ensures
            r.same_as(self),
    {
        CheckedAttestation {
            slot: self.slot,
            source_epoch: self.source_epoch,
            target_epoch: self.target_epoch,
            validator_ids: copy_ids(&self.validator_ids),
            is_slot_canon: self.is_slot_canon,
            is_source_canon: self.is_source_canon,
            is_target_canon: self.is_target_canon,
            inclusion_distance: self.inclusion_distance,
        }
    }
}

/// Element-wise equality of two lists of validator ids.
pub fn ids_equal(a: &Vec<u64>, b: &Vec<u64>) -> (r: bool)
    ensures
        r == (a@ == b@),
{
    if a.len() != b.len() {
        return false;
    }
    let mut i: usize = 0;
    while i < a.len()
        invariant
            i <= a@.len(),
            a@.len() == b@.len(),
            forall|j: int| 0 <= j < i ==> a@[j] == b@[j],
        decreases a@.len() - i,
    {
        if a[i] != b[i] {
            return false;
        }
        i = i + 1;
    }
    proof {
        assert(a@ =~= b@);
    }
    true
}

/// A copy of a list of validator ids.
pub fn copy_ids(a: &Vec<u64>) -> (r: Vec<u64>)
    ensures
        r@ == a@,
{
    let mut r: Vec<u64> = Vec::new();
    let mut i: usize = 0;
    while i < a.len()
        invariant
            i <= a@.len(),
            r@ == a@.take(i as int),
        decreases a@.len() - i,
    {
        r.push(a[i]);
        i = i + 1;
        proof {
            assert(r@ =~= a@.take(i as int));
        }
    }
    proof {
        assert(a@.take(a@.len() as int) =~= a@);
    }
    r
}

/// Whether a list of validator ids holds `v`.
pub fn contains_id(ids: &Vec<u64>, v: u64) -> (r: bool)
    ensures
        r == ids@.contains(v),
{
    let mut i: usize = 0;
    while i < ids.len()
        invariant
            i <= ids@.len(),
            forall|j: int| 0 <= j < i ==> ids@[j] != v,
        decreases ids@.len() - i,
    {
        if ids[i] == v {
            proof {
                assert(ids@[i as int] == v);
            }
            return true;
        }
        i = i + 1;
    }
    false
}

} // verus!
