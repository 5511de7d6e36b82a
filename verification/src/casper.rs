//! Casper FFG: slashing conditions, justification and finalization of epochs.

use vstd::prelude::*;
use crate::attestation::{CheckedAttestation, contains_id};
use crate::store::{
    CasperStore, sum_balances, canon_target_ids, active_ids, canon_target_attesting_balance,
    active_total_balance,
};

verus! {

/// Whether two attestations violate a Casper commandment: they differ and
/// either vote for the same target (double vote) or one surrounds the other.
pub open spec fn is_slashable_pair(a: CheckedAttestation, b: CheckedAttestation) -> bool {
    !a.same_as(&b) && (
        a.target_epoch == b.target_epoch
        || (a.source_epoch < b.source_epoch && b.target_epoch < a.target_epoch)
        || (b.source_epoch < a.source_epoch && a.target_epoch < b.target_epoch)
    )
}

/// The ids of `a`, in order and with repeats, that also appear in `b`.
pub open spec fn common_ids(a: Seq<u64>, b: Seq<u64>) -> Seq<u64>
    decreases a.len(),
{
    if a.len() == 0 {
        Seq::empty()
    } else {
        let rest = common_ids(a.drop_last(), b);
        if b.contains(a.last()) { rest.push(a.last()) } else { rest }
    }
}

/// The validators to slash for having signed both attestations.
pub fn slashable(a: &CheckedAttestation, b: &CheckedAttestation) -> (r: Vec<u64>)
    ensures
        r@ == if is_slashable_pair(*a, *b) {
            common_ids(a.validator_ids@, b.validator_ids@)
        } else {
            Seq::empty()
        },
{
    let is_slashable = if a.equals(b) {
        false
    } else if a.target_epoch == b.target_epoch {
        true
    } else if a.source_epoch < b.source_epoch && b.target_epoch < a.target_epoch {
        true
    } else if b.source_epoch < a.source_epoch && a.target_epoch < b.target_epoch {
        true
    } else {
        false
    };
    let mut ret: Vec<u64> = Vec::new();
    if is_slashable {
        let mut i: usize = 0;
        while i < a.validator_ids.len()
            invariant
                i <= a.validator_ids@.len(),
                ret@ == common_ids(a.validator_ids@.take(i as int), b.validator_ids@),
            decreases a.validator_ids@.len() - i,
        {
            proof {
                assert(a.validator_ids@.take(i + 1).drop_last() =~= a.validator_ids@.take(i as int));
            }
            let v = a.validator_ids[i];
            if contains_id(&b.validator_ids, v) {
                ret.push(v);
            }
            i = i + 1;
        }
        proof {
            assert(a.validator_ids@.take(a.validator_ids@.len() as int) =~= a.validator_ids@);
        }
    }
    ret
}

/// Slashability does not depend on the order of the two attestations.
pub proof fn lemma_slashable_symmetric(a: CheckedAttestation, b: CheckedAttestation)
    ensures
        is_slashable_pair(a, b) == is_slashable_pair(b, a),
{
}

/// Two distinct attestations are slashable exactly when they vote for the
/// same target epoch or one strictly surrounds the other: a smaller source
/// and a larger target. Votes from one source to different targets never are.
pub proof fn lemma_slashable_double_or_surround(a: CheckedAttestation, b: CheckedAttestation)
    ensures
        is_slashable_pair(a, b) <==> !a.same_as(&b) && (
            a.target_epoch == b.target_epoch
            || (a.source_epoch < b.source_epoch && a.target_epoch > b.target_epoch)
            || (b.source_epoch < a.source_epoch && b.target_epoch > a.target_epoch)
        ),
        a.source_epoch == b.source_epoch && a.target_epoch != b.target_epoch ==> !is_slashable_pair(a, b),
        a.target_epoch != b.target_epoch && (a.source_epoch <= b.source_epoch) == (a.target_epoch <= b.target_epoch)
            ==> !is_slashable_pair(a, b),
{
}

/// Every validator to slash signed both attestations.
pub proof fn lemma_slashed_signed_both(a: Seq<u64>, b: Seq<u64>, i: int)
    requires
        0 <= i < common_ids(a, b).len(),
    ensures
        a.contains(common_ids(a, b)[i]),
        b.contains(common_ids(a, b)[i]),
    decreases a.len(),
{
    let rest = common_ids(a.drop_last(), b);
    if i < rest.len() {
        lemma_slashed_signed_both(a.drop_last(), b, i);
        let v = rest[i];
        let k = choose|k: int| 0 <= k < a.drop_last().len() && a.drop_last()[k] == v;
        assert(a[k] == v);
    } else {
        assert(a[a.len() - 1] == a.last());
    }
}

/// Every validator that signed both attestations is among those to slash.
pub proof fn lemma_signed_both_slashed(a: Seq<u64>, b: Seq<u64>, v: u64)
    requires
        a.contains(v),
        b.contains(v),
    ensures
        common_ids(a, b).contains(v),
    decreases a.len(),
{
    let rest = common_ids(a.drop_last(), b);
    if a.last() == v {
        assert(common_ids(a, b) == rest.push(v));
        assert(common_ids(a, b)[rest.len() as int] == v);
    } else {
        let k = choose|k: int| 0 <= k < a.len() && a[k] == v;
        assert(a.drop_last()[k] == v);
        lemma_signed_both_slashed(a.drop_last(), b, v);
        let i = choose|i: int| 0 <= i < rest.len() && rest[i] == v;
        if b.contains(a.last()) {
            assert(common_ids(a, b)[i] == v);
        }
    }
}

/// Justification and finalization state of Casper.
#[derive(Clone, Copy)]
pub struct CasperContext {
    /// Bitfield holding justification information.
    pub justification_bitfield: u64,
    /// Current epoch.
    pub epoch: u64,
    /// Current justified epoch.
    pub justified_epoch: u64,
    /// Current finalized epoch.
    pub finalized_epoch: u64,
    /// Previous justified epoch.
    pub previous_justified_epoch: u64,
}

/// The epoch before `epoch`, or zero at epoch zero.
pub open spec fn epoch_before(epoch: u64) -> u64 {
    if epoch == 0 { 0 } else { (epoch - 1) as u64 }
}

/// At least two thirds of `total` attested.
pub open spec fn two_thirds(attesting: nat, total: nat) -> bool {
    3 * attesting >= 2 * total
}

/// The context after advancing one epoch, given whether the previous and the
/// current epoch gathered two thirds of the active balance on their target.
pub open spec fn next_context(c: CasperContext, previous_ok: bool, current_ok: bool) -> CasperContext {
    let previous = epoch_before(c.epoch);
    let b0 = c.justification_bitfield << 1u64;
    let b1 = if previous_ok { b0 | 2u64 } else { b0 };
    let b = if current_ok { b1 | 1u64 } else { b1 };
    let justified = if current_ok { c.epoch } else if previous_ok { previous } else { c.justified_epoch };
    let f0 = c.finalized_epoch;
    let f1 = if (b >> 1u64) % 8 == 7 && previous > 1 && c.previous_justified_epoch == previous - 2 {
        c.previous_justified_epoch
    } else {
        f0
    };
    let f2 = if (b >> 1u64) % 4 == 3 && previous >= 1 && c.previous_justified_epoch == previous - 1 {
        c.previous_justified_epoch
    } else {
        f1
    };
    let f3 = if b % 8 == 7 && previous >= 1 && c.justified_epoch == previous - 1 {
        c.justified_epoch
    } else {
        f2
    };
    let f4 = if b % 4 == 3 && c.justified_epoch == previous { c.justified_epoch } else { f3 };
    CasperContext {
        justification_bitfield: b,
        epoch: (c.epoch + 1) as u64,
        justified_epoch: justified,
        finalized_epoch: f4,
        previous_justified_epoch: c.justified_epoch,
    }
}

/// Whether an attestation may join the pending attestations of a context.
pub open spec fn attestation_valid(c: CasperContext, a: CheckedAttestation) -> bool {
    a.is_source_canon && if a.target_epoch == c.epoch {
        a.source_epoch == c.justified_epoch
    } else {
        a.source_epoch == c.previous_justified_epoch
    }
}

/// The attestations whose target is not before `epoch`, in order.
pub open spec fn retained(atts: Seq<CheckedAttestation>, epoch: u64) -> Seq<CheckedAttestation>
    decreases atts.len(),
{
    if atts.len() == 0 {
        Seq::empty()
    } else {
        let rest = retained(atts.drop_last(), epoch);
        if atts.last().target_epoch >= epoch { rest.push(atts.last()) } else { rest }
    }
}

/// Epochs are ordered: finalized, previous justified, justified, current.
pub open spec fn context_wf(c: CasperContext) -> bool {
    c.finalized_epoch <= c.previous_justified_epoch <= c.justified_epoch <= c.epoch
}

/// The justified epoch is not after the previous epoch, as holds after any advance.
pub open spec fn context_settled(c: CasperContext) -> bool {
    c.justified_epoch <= epoch_before(c.epoch)
}

impl Default for CasperContext {
    fn default() -> (r: CasperContext)
        ensures
            r == CasperContext::genesis(0),
    {
        CasperContext::new(0)
    }
}

impl CasperContext {
    /// The context at the genesis epoch.
    pub open spec fn genesis(genesis_epoch: u64) -> CasperContext {
        CasperContext {
            justification_bitfield: 0,
            epoch: genesis_epoch,
            justified_epoch: genesis_epoch,
            finalized_epoch: genesis_epoch,
            previous_justified_epoch: genesis_epoch,
        }
    }

    /// Create a new Casper context.
    pub fn new(genesis_epoch: u64) -> (r: CasperContext)
        ensures
            r == CasperContext::genesis(genesis_epoch),
    {
        CasperContext {
            justification_bitfield: 0,
            epoch: genesis_epoch,
            justified_epoch: genesis_epoch,
            finalized_epoch: genesis_epoch,
            previous_justified_epoch: genesis_epoch,
        }
    }

    /// The current epoch.
    pub fn current_epoch(&self) -> (r: u64)
        ensures
            r == self.epoch,
    {
        self.epoch
    }

    /// The next epoch.
    pub fn next_epoch(&self) -> (r: u64)
        requires
            self.epoch < u64::MAX,
        ensures
            r == self.epoch + 1,
    {
        self.epoch + 1
    }

    /// The previous epoch, or zero at epoch zero.
    pub fn previous_epoch(&self) -> (r: u64)
        ensures
            r == epoch_before(self.epoch),
    {
        if self.epoch == 0 { 0 } else { self.epoch - 1 }
    }

    /// Validate an attestation to be included in pending attestations.
    pub fn validate_attestation(&self, attestation: &CheckedAttestation) -> (r: bool)
        ensures
            r == attestation_valid(*self, *attestation),
    {
        attestation.is_source_canon && if attestation.target_epoch == self.epoch {
            attestation.source_epoch == self.justified_epoch
        } else {
            attestation.source_epoch == self.previous_justified_epoch
        }
    }

    /// Drop the pending attestations whose target is before the current epoch.
    fn prune_pending_attestations(&self, store: &mut CasperStore)
        ensures
            final(store).pending_attestations@ == retained(old(store).pending_attestations@, self.epoch),
            final(store).epoch == old(store).epoch,
            final(store).validators@ == old(store).validators@,
    {
        let current_epoch = self.epoch;
        let mut kept: Vec<CheckedAttestation> = Vec::new();
        let mut rest: Vec<CheckedAttestation> = Vec::new();
        std::mem::swap(&mut rest, &mut store.pending_attestations);
        let ghost all = rest@;
        let ghost mut k: int = 0;
        while rest.len() > 0
            invariant
                0 <= k <= all.len(),
                rest@ == all.skip(k),
                kept@ == retained(all.take(k), current_epoch),
            decreases rest@.len(),
        {
            let a = rest.remove(0);
            proof {
                assert(all.take(k + 1).drop_last() =~= all.take(k));
                assert(a == all[k]);
                k = k + 1;
                assert(rest@ =~= all.skip(k));
            }
            if a.target_epoch >= current_epoch {
                kept.push(a);
            }
        }
        proof {
            assert(all.take(all.len() as int) =~= all);
        }
        store.pending_attestations = kept;
    }

    /// Whether two thirds of the active balance attested the target `epoch`.
    fn target_justified(store: &CasperStore, epoch: u64) -> (r: bool)
        ensures
            r == two_thirds(
                sum_balances(store.validators@, canon_target_ids(store.pending_attestations@, epoch)),
                sum_balances(store.validators@, active_ids(store.validators@, epoch)),
            ),
    {
        let attesting = canon_target_attesting_balance(store, epoch);
        let total = active_total_balance(store, epoch);
        reaches_two_thirds(attesting, total)
    }

    /// Advance the current epoch and start a new epoch: record which of the
    /// previous and current epochs are justified, finalize where the
    /// justification bits allow, and drop the attestations of past targets.
    pub fn advance_epoch(&mut self, store: &mut CasperStore)
        requires
            old(self).epoch < u64::MAX,
            old(store).epoch == old(self).epoch + 1,
            forall|i: int| 0 <= i < old(store).pending_attestations@.len()
                ==> attestation_valid(*old(self), #[trigger] old(store).pending_attestations@[i]),
        ensures
            *final(self) == next_context(
                *old(self),
                justification_reached(*old(store), epoch_before(old(self).epoch)),
                justification_reached(*old(store), old(self).epoch),
            ),
            final(store).pending_attestations@ == retained(old(store).pending_attestations@, old(self).epoch),
            final(store).epoch == old(store).epoch,
            final(store).validators@ == old(store).validators@,
    {
        let previous = self.previous_epoch();
        let previous_ok = Self::target_justified(store, previous);
        let current_ok = Self::target_justified(store, self.epoch);

        let mut new_justified_epoch = self.justified_epoch;
        self.justification_bitfield = self.justification_bitfield << 1u64;
        if previous_ok {
            self.justification_bitfield = self.justification_bitfield | 2u64;
            new_justified_epoch = previous;
        }
        if current_ok {
            self.justification_bitfield = self.justification_bitfield | 1u64;
            new_justified_epoch = self.epoch;
        }

        if (self.justification_bitfield >> 1u64) % 8 == 7 && previous > 1
            && self.previous_justified_epoch == previous - 1 - 1
        {
            self.finalized_epoch = self.previous_justified_epoch;
        }
        if (self.justification_bitfield >> 1u64) % 4 == 3 && previous >= 1
            && self.previous_justified_epoch == previous - 1
        {
            self.finalized_epoch = self.previous_justified_epoch;
        }
        if self.justification_bitfield % 8 == 7 && previous >= 1
            && self.justified_epoch == previous - 1
        {
            self.finalized_epoch = self.justified_epoch;
        }
        if self.justification_bitfield % 4 == 3 && self.justified_epoch == previous {
            self.finalized_epoch = self.justified_epoch;
        }

        self.prune_pending_attestations(store);

        self.previous_justified_epoch = self.justified_epoch;
        self.justified_epoch = new_justified_epoch;
        self.epoch = self.epoch + 1;
    }
}

/// Whether the canonical attestations targeting `epoch` hold two thirds of the
/// balance active at `epoch`.
pub open spec fn justification_reached(store: CasperStore, epoch: u64) -> bool {
    two_thirds(
        sum_balances(store.validators@, canon_target_ids(store.pending_attestations@, epoch)),
        sum_balances(store.validators@, active_ids(store.validators@, epoch)),
    )
}

/// A context at genesis is well formed; at genesis epoch zero it is also settled.
pub proof fn lemma_genesis_well_formed(genesis_epoch: u64)
    ensures
        context_wf(CasperContext::genesis(genesis_epoch)),
        genesis_epoch == 0 ==> context_settled(CasperContext::genesis(genesis_epoch)),
{
}

/// Advancing an epoch moves the current epoch by one, hands the justified
/// epoch on as the previous justified epoch, and finalizes only an epoch that
/// was already justified (current or previous) or keeps the finalized one.
pub proof fn lemma_advance_shape(c: CasperContext, previous_ok: bool, current_ok: bool)
    requires
        c.epoch < u64::MAX,
    ensures
        next_context(c, previous_ok, current_ok).epoch == c.epoch + 1,
        next_context(c, previous_ok, current_ok).previous_justified_epoch == c.justified_epoch,
        ({
            let f = next_context(c, previous_ok, current_ok).finalized_epoch;
            f == c.finalized_epoch || f == c.previous_justified_epoch || f == c.justified_epoch
        }),
        ({
            let j = next_context(c, previous_ok, current_ok).justified_epoch;
            j == c.justified_epoch || j == c.epoch || j == epoch_before(c.epoch)
        }),
        context_settled(next_context(c, previous_ok, current_ok)) <== c.justified_epoch <= c.epoch,
{
}

/// From a well-formed, settled context, advancing an epoch keeps it well
/// formed and settled, and neither the justified nor the finalized epoch
/// ever goes back.
pub proof fn lemma_advance_monotonic(c: CasperContext, previous_ok: bool, current_ok: bool)
    requires
        c.epoch < u64::MAX,
        context_wf(c),
        context_settled(c),
    ensures
        context_wf(next_context(c, previous_ok, current_ok)),
        context_settled(next_context(c, previous_ok, current_ok)),
        next_context(c, previous_ok, current_ok).justified_epoch >= c.justified_epoch,
        next_context(c, previous_ok, current_ok).finalized_epoch >= c.finalized_epoch,
{
    lemma_advance_shape(c, previous_ok, current_ok);
}

/// The epochs stay ordered: finalized and previous justified no later than
/// justified, and justified no later than the previous epoch.
pub open spec fn epochs_ordered(c: CasperContext) -> bool {
    &&& c.finalized_epoch <= c.justified_epoch
    &&& c.previous_justified_epoch <= c.justified_epoch
    &&& c.justified_epoch <= epoch_before(c.epoch)
}

/// Advancing an epoch keeps the epochs ordered, never moves the justified
/// epoch back, and finalizes the old finalized, previous justified or
/// justified epoch.
pub proof fn lemma_advance_keeps_epochs_ordered(c: CasperContext, previous_ok: bool, current_ok: bool)
    requires
        c.epoch < u64::MAX,
        epochs_ordered(c),
    ensures
        epochs_ordered(next_context(c, previous_ok, current_ok)),
        next_context(c, previous_ok, current_ok).justified_epoch >= c.justified_epoch,
        ({
            let f = next_context(c, previous_ok, current_ok).finalized_epoch;
            f == c.finalized_epoch || f == c.previous_justified_epoch || f == c.justified_epoch
        }),
{
    lemma_advance_shape(c, previous_ok, current_ok);
}

/// The justification bits after an advance: the old bits moved up one, the
/// previous epoch's bit set when it gathered two thirds, and the current
/// epoch's bit likewise.
pub open spec fn advanced_bits(c: CasperContext, previous_ok: bool, current_ok: bool) -> u64 {
    ((c.justification_bitfield << 1u64) | (if previous_ok { 2u64 } else { 0u64 })) | (if current_ok { 1u64 } else { 0u64 })
}

/// The finality rules of Casper FFG, on the bits after an advance (bit 0:
/// the current epoch, bit 1: the previous epoch, bit 2 and up: the epochs
/// before it, each set when justified). The previous justified epoch is
/// finalized when it lies two epochs before the previous epoch and the
/// three epochs from it on are justified, or one epoch before it and the
/// two from it on are justified; the justified epoch is finalized when it
/// lies one epoch before the previous epoch and the three from it on are
/// justified, or is the previous epoch and it and the current one are.
/// The finalized epoch after an advance is the latest that a rule
/// finalizes, or the old one when none applies.
pub proof fn lemma_ffg_finality(c: CasperContext, previous_ok: bool, current_ok: bool)
    requires
        c.epoch < u64::MAX,
        context_wf(c),
    ensures
        ({
            let bits = advanced_bits(c, previous_ok, current_ok);
            let previous = epoch_before(c.epoch) as int;
            let pj = c.previous_justified_epoch as int;
            let j = c.justified_epoch as int;
            let pj_final = ((bits >> 1u64) & 7u64 == 7u64 && previous >= 2 && pj == previous - 2)
                || ((bits >> 1u64) & 3u64 == 3u64 && previous >= 1 && pj == previous - 1);
            let j_final = (bits & 7u64 == 7u64 && previous >= 1 && j == previous - 1)
                || (bits & 3u64 == 3u64 && j == previous);
            let f = next_context(c, previous_ok, current_ok).finalized_epoch as int;
            &&& next_context(c, previous_ok, current_ok).justification_bitfield == bits
            &&& next_context(c, previous_ok, current_ok).justified_epoch
                == if current_ok { c.epoch } else if previous_ok { epoch_before(c.epoch) } else { c.justified_epoch }
            &&& pj_final ==> f >= pj
            &&& j_final ==> f == j
            &&& f == c.finalized_epoch || (pj_final && f == pj) || (j_final && f == j)
        }),
{
    let b = advanced_bits(c, previous_ok, current_ok);
    assert(next_context(c, previous_ok, current_ok).justification_bitfield == b) by {
        let b0 = c.justification_bitfield << 1u64;
        assert(b0 | 0u64 == b0) by (bit_vector);
        let b1 = if previous_ok { b0 | 2u64 } else { b0 };
        assert(b1 | 0u64 == b1) by (bit_vector);
    }
    assert((b >> 1u64) % 8 == (b >> 1u64) & 7u64) by (bit_vector);
    assert((b >> 1u64) % 4 == (b >> 1u64) & 3u64) by (bit_vector);
    assert(b % 8 == b & 7u64) by (bit_vector);
    assert(b % 4 == b & 3u64) by (bit_vector);
}

/// Whether `3 * attesting >= 2 * total`, computed without overflow.
pub fn reaches_two_thirds(attesting: u128, total: u128) -> (r: bool)
    ensures
        r == two_thirds(attesting as nat, total as nat),
{
    if attesting >= total {
        true
    } else {
        let d = total - attesting;
        d <= attesting / 2
    }
}

} // verus!
