//! The state that Casper and the reward scheme read: the current epoch,
//! the pending attestations and the validator set with balances.

use vstd::prelude::*;
use crate::attestation::CheckedAttestation;

verus! {

/// A validator as the store holds it.
#[derive(Clone, Copy)]
pub struct ValidatorEntry {
    /// Validator id.
    pub id: u64,
    /// First epoch in which the validator is active.
    pub valid_from: u64,
    /// Last epoch in which the validator is active.
    pub valid_to: u64,
    /// Balance of the validator.
    pub balance: u64,
}

/// Epoch, pending attestations and validators of the chain.
pub struct CasperStore {
    /// Current epoch of the chain.
    pub epoch: u64,
    /// Attestations waiting to be counted.
    pub pending_attestations: Vec<CheckedAttestation>,
    /// Validators; a lookup by id finds the first entry with that id.
    pub validators: Vec<ValidatorEntry>,
}

/// Balance of the validator `id`: that of its first entry, or zero.
pub open spec fn balance_of(vals: Seq<ValidatorEntry>, id: u64) -> nat
    decreases vals.len(),
{
    if vals.len() == 0 {
        0
    } else if vals[0].id == id {
        vals[0].balance as nat
    } else {
        balance_of(vals.drop_first(), id)
    }
}

/// The validator list after setting `entry`: its first entry with the same
/// id is replaced, or it is added at the end.
pub open spec fn set_validator(vals: Seq<ValidatorEntry>, entry: ValidatorEntry) -> Seq<ValidatorEntry>
    decreases vals.len(),
{
    if vals.len() == 0 {
        seq![entry]
    } else if vals[0].id == entry.id {
        seq![entry] + vals.drop_first()
    } else {
        seq![vals[0]] + set_validator(vals.drop_first(), entry)
    }
}

proof fn lemma_set_validator_update(vals: Seq<ValidatorEntry>, i: int, entry: ValidatorEntry)
    requires
        0 <= i < vals.len(),
        vals[i].id == entry.id,
        forall|j: int| 0 <= j < i ==> vals[j].id != entry.id,
    ensures
        set_validator(vals, entry) == vals.update(i, entry),
    decreases i,
{
    if i == 0 {
        assert(seq![entry] + vals.drop_first() =~= vals.update(0, entry));
    } else {
        lemma_set_validator_update(vals.drop_first(), i - 1, entry);
        assert(seq![vals[0]] + vals.drop_first().update(i - 1, entry) =~= vals.update(i, entry));
    }
}

proof fn lemma_set_validator_push(vals: Seq<ValidatorEntry>, entry: ValidatorEntry)
    requires
        forall|j: int| 0 <= j < vals.len() ==> vals[j].id != entry.id,
    ensures
        set_validator(vals, entry) == vals.push(entry),
    decreases vals.len(),
{
    if vals.len() == 0 {
        assert(seq![entry] =~= vals.push(entry));
    } else {
        lemma_set_validator_push(vals.drop_first(), entry);
        assert(seq![vals[0]] + vals.drop_first().push(entry) =~= vals.push(entry));
    }
}

/// Sum of the balances of the listed validators, counting repeats.
pub open spec fn sum_balances(vals: Seq<ValidatorEntry>, ids: Seq<u64>) -> nat
    decreases ids.len(),
{
    if ids.len() == 0 {
        0
    } else {
        sum_balances(vals, ids.drop_last()) + balance_of(vals, ids.last())
    }
}

/// Whether a validator entry is active at `epoch`.
pub open spec fn entry_active(v: ValidatorEntry, epoch: u64) -> bool {
    v.valid_from <= epoch && epoch <= v.valid_to
}

/// Ids of the entries active at `epoch`, in order.
pub open spec fn active_ids(vals: Seq<ValidatorEntry>, epoch: u64) -> Seq<u64>
    decreases vals.len(),
{
    if vals.len() == 0 {
        Seq::empty()
    } else {
        let rest = active_ids(vals.drop_last(), epoch);
        if entry_active(vals.last(), epoch) {
            rest.push(vals.last().id)
        } else {
            rest
        }
    }
}

/// Validators of the canonical attestations whose target is `epoch`, with repeats.
pub open spec fn canon_target_ids(atts: Seq<CheckedAttestation>, epoch: u64) -> Seq<u64>
    decreases atts.len(),
{
    if atts.len() == 0 {
        Seq::empty()
    } else {
        let rest = canon_target_ids(atts.drop_last(), epoch);
        let a = atts.last();
        if a.casper_canon() && a.target_epoch == epoch {
            rest + a.validator_ids@
        } else {
            rest
        }
    }
}

/// Validators of the canonical attestations whose source is `epoch`, with repeats.
pub open spec fn canon_source_ids(atts: Seq<CheckedAttestation>, epoch: u64) -> Seq<u64>
    decreases atts.len(),
{
    if atts.len() == 0 {
        Seq::empty()
    } else {
        let rest = canon_source_ids(atts.drop_last(), epoch);
        let a = atts.last();
        if a.casper_canon() && a.source_epoch == epoch {
            rest + a.validator_ids@
        } else {
            rest
        }
    }
}

pub proof fn lemma_balance_of_bound(vals: Seq<ValidatorEntry>, id: u64)
    ensures
        balance_of(vals, id) <= u64::MAX,
    decreases vals.len(),
{
    if vals.len() > 0 {
        lemma_balance_of_bound(vals.drop_first(), id);
    }
}

/// The sum of the balances of `n` validators is at most `n` times the largest balance.
pub proof fn lemma_sum_balances_bound(vals: Seq<ValidatorEntry>, ids: Seq<u64>)
    ensures
        sum_balances(vals, ids) <= ids.len() * u64::MAX,
    decreases ids.len(),
{
    if ids.len() > 0 {
        lemma_sum_balances_bound(vals, ids.drop_last());
        lemma_balance_of_bound(vals, ids.last());
        assert((ids.len() - 1) * u64::MAX + u64::MAX == ids.len() * u64::MAX) by (nonlinear_arith);
    }
}

impl CasperStore {
    /// An empty store at epoch zero.
    pub fn new() -> (r: CasperStore)
        ensures
            r.epoch == 0,
            r.pending_attestations@.len() == 0,
            r.validators@.len() == 0,
    {
        CasperStore { epoch: 0, pending_attestations: Vec::new(), validators: Vec::new() }
    }

    /// Balance of the validator `id`, zero if it is unknown.
    pub fn balance(&self, id: u64) -> (r: u64)
        ensures
            r as nat == balance_of(self.validators@, id),
    {
        let mut i: usize = 0;
        proof {
            assert(self.validators@.subrange(0, self.validators@.len() as int) =~= self.validators@);
        }
        while i < self.validators.len()
            invariant
                i <= self.validators@.len(),
                balance_of(self.validators@, id) == balance_of(self.validators@.subrange(i as int, self.validators@.len() as int), id),
            decreases self.validators@.len() - i,
        {
            proof {
                let s = self.validators@.subrange(i as int, self.validators@.len() as int);
                assert(s.drop_first() =~= self.validators@.subrange(i + 1, self.validators@.len() as int));
                assert(s[0] == self.validators@[i as int]);
            }
            if self.validators[i].id == id {
                return self.validators[i].balance;
            }
            i = i + 1;
        }
        0
    }

    /// Sets the validator `id`: updates its first entry, or adds one.
    pub fn push_validator(&mut self, id: u64, valid_from: u64, valid_to: u64, balance: u64)
        ensures
            final(self).epoch == old(self).epoch,
            final(self).pending_attestations@ == old(self).pending_attestations@,
            final(self).validators@ == set_validator(old(self).validators@,
                ValidatorEntry { id, valid_from, valid_to, balance }),
            balance_of(final(self).validators@, id) == balance,
            forall|other: u64| other != id ==> balance_of(final(self).validators@, other)
                == balance_of(old(self).validators@, other),
    {
        let entry = ValidatorEntry { id, valid_from, valid_to, balance };
        let mut i: usize = 0;
        while i < self.validators.len()
            invariant
                i <= self.validators@.len(),
                self.validators@ == old(self).validators@,
                self.epoch == old(self).epoch,
                self.pending_attestations@ == old(self).pending_attestations@,
                entry == (ValidatorEntry { id, valid_from, valid_to, balance }),
                forall|j: int| 0 <= j < i ==> self.validators@[j].id != id,
            decreases self.validators@.len() - i,
        {
            if self.validators[i].id == id {
                let ghost before = self.validators@;
                assert(before[i as int].id == entry.id);
                self.validators.set(i, entry);
                proof {
                    lemma_balance_of_update(before, i as int, entry);
                    lemma_set_validator_update(before, i as int, entry);
                }
                return;
            }
            i = i + 1;
        }
        let ghost before = self.validators@;
        self.validators.push(entry);
        proof {
            lemma_balance_of_push(before, entry);
            lemma_set_validator_push(before, entry);
        }
    }

    /// Total balance of the listed validators, counting repeats.
    pub fn total_balance(&self, ids: &[u64]) -> (r: u128)
        ensures
            r as nat == sum_balances(self.validators@, ids@),
    {
        let mut total: u128 = 0;
        let mut i: usize = 0;
        while i < ids.len()
            invariant
                i <= ids@.len(),
                total as nat == sum_balances(self.validators@, ids@.take(i as int)),
            decreases ids@.len() - i,
        {
            let b = self.balance(ids[i]);
            proof {
                assert(ids@.take(i + 1).drop_last() =~= ids@.take(i as int));
                lemma_sum_balances_bound(self.validators@, ids@.take(i as int));
                assert(i * u64::MAX <= usize::MAX * u64::MAX) by (nonlinear_arith)
                    requires
                        i <= usize::MAX,
                ;
            }
            total = total + b as u128;
            i = i + 1;
        }
        proof {
            assert(ids@.take(ids@.len() as int) =~= ids@);
        }
        total
    }

    /// Ids of the validators active at `epoch`.
    pub fn active_validators(&self, epoch: u64) -> (r: Vec<u64>)
        ensures
            r@ == active_ids(self.validators@, epoch),
    {
        let mut r: Vec<u64> = Vec::new();
        let mut i: usize = 0;
        while i < self.validators.len()
            invariant
                i <= self.validators@.len(),
                r@ == active_ids(self.validators@.take(i as int), epoch),
            decreases self.validators@.len() - i,
        {
            proof {
                assert(self.validators@.take(i + 1).drop_last() =~= self.validators@.take(i as int));
            }
            let v = &self.validators[i];
            if v.valid_from <= epoch && epoch <= v.valid_to {
                r.push(v.id);
            }
            i = i + 1;
        }
        proof {
            assert(self.validators@.take(self.validators@.len() as int) =~= self.validators@);
        }
        r
    }

    /// The current epoch.
    pub fn current_epoch(&self) -> (r: u64)
        ensures
            r == self.epoch,
    {
        self.epoch
    }

    /// The epoch before the current one, or zero at epoch zero.
    pub fn previous_epoch(&self) -> (r: u64)
        ensures
            r == if self.epoch == 0 { 0 } else { self.epoch - 1 },
    {
        if self.epoch == 0 { 0 } else { self.epoch - 1 }
    }
}

proof fn lemma_balance_of_update(vals: Seq<ValidatorEntry>, i: int, entry: ValidatorEntry)
    requires
        0 <= i < vals.len(),
        vals[i].id == entry.id,
        forall|j: int| 0 <= j < i ==> vals[j].id != entry.id,
    ensures
        balance_of(vals.update(i, entry), entry.id) == entry.balance,
        forall|other: u64| other != entry.id ==> balance_of(vals.update(i, entry), other) == balance_of(vals, other),
    decreases i,
{
    let u = vals.update(i, entry);
    if i == 0 {
        assert(u.drop_first() =~= vals.drop_first());
    } else {
        assert(u.drop_first() =~= vals.drop_first().update(i - 1, entry));
        lemma_balance_of_update(vals.drop_first(), i - 1, entry);
    }
    assert forall|other: u64| other != entry.id implies balance_of(u, other) == balance_of(vals, other) by {
        assert(u[0].id == vals[0].id);
        if u[0].id != other {
            assert(balance_of(u, other) == balance_of(u.drop_first(), other));
            assert(balance_of(vals, other) == balance_of(vals.drop_first(), other));
        } else {
            assert(i != 0);
            assert(u[0] == vals[0]);
        }
    }
}

proof fn lemma_balance_of_push(vals: Seq<ValidatorEntry>, entry: ValidatorEntry)
    requires
        forall|j: int| 0 <= j < vals.len() ==> vals[j].id != entry.id,
    ensures
        balance_of(vals.push(entry), entry.id) == entry.balance,
        forall|other: u64| other != entry.id ==> balance_of(vals.push(entry), other) == balance_of(vals, other),
    decreases vals.len(),
{
    let u = vals.push(entry);
    if vals.len() > 0 {
        assert(u.drop_first() =~= vals.drop_first().push(entry));
        lemma_balance_of_push(vals.drop_first(), entry);
        assert forall|other: u64| other != entry.id implies balance_of(u, other) == balance_of(vals, other) by {
            assert(u[0] == vals[0]);
            if vals[0].id != other {
                assert(balance_of(u, other) == balance_of(u.drop_first(), other));
                assert(balance_of(vals, other) == balance_of(vals.drop_first(), other));
            }
        }
    } else {
        assert(u.drop_first() =~= Seq::<ValidatorEntry>::empty());
        assert forall|other: u64| other != entry.id implies balance_of(u, other) == balance_of(vals, other) by {
            assert(balance_of(u, other) == balance_of(u.drop_first(), other));
        }
    }
}

/// Total balance of the validators of canonical attestations targeting `epoch`.
pub fn canon_target_attesting_balance(store: &CasperStore, epoch: u64) -> (r: u128)
    ensures
        r as nat == sum_balances(store.validators@, canon_target_ids(store.pending_attestations@, epoch)),
{
    let mut ids: Vec<u64> = Vec::new();
    let mut i: usize = 0;
    while i < store.pending_attestations.len()
        invariant
            i <= store.pending_attestations@.len(),
            ids@ == canon_target_ids(store.pending_attestations@.take(i as int), epoch),
        decreases store.pending_attestations@.len() - i,
    {
        proof {
            assert(store.pending_attestations@.take(i + 1).drop_last() =~= store.pending_attestations@.take(i as int));
        }
        let a = &store.pending_attestations[i];
        if a.is_casper_canon() && a.target_epoch == epoch {
            append_ids(&mut ids, &a.validator_ids);
        }
        i = i + 1;
    }
    proof {
        assert(store.pending_attestations@.take(store.pending_attestations@.len() as int) =~= store.pending_attestations@);
    }
    store.total_balance(ids.as_slice())
}

/// Total balance of the validators of canonical attestations whose source is `epoch`.
pub fn canon_source_attesting_balance(store: &CasperStore, epoch: u64) -> (r: u128)
    ensures
        r as nat == sum_balances(store.validators@, canon_source_ids(store.pending_attestations@, epoch)),
{
    let mut ids: Vec<u64> = Vec::new();
    let mut i: usize = 0;
    while i < store.pending_attestations.len()
        invariant
            i <= store.pending_attestations@.len(),
            ids@ == canon_source_ids(store.pending_attestations@.take(i as int), epoch),
        decreases store.pending_attestations@.len() - i,
    {
        proof {
            assert(store.pending_attestations@.take(i + 1).drop_last() =~= store.pending_attestations@.take(i as int));
        }
        let a = &store.pending_attestations[i];
        if a.is_casper_canon() && a.source_epoch == epoch {
            append_ids(&mut ids, &a.validator_ids);
        }
        i = i + 1;
    }
    proof {
        assert(store.pending_attestations@.take(store.pending_attestations@.len() as int) =~= store.pending_attestations@);
    }
    store.total_balance(ids.as_slice())
}

/// Total balance of the validators active at `epoch`.
pub fn active_total_balance(store: &CasperStore, epoch: u64) -> (r: u128)
    ensures
        r as nat == sum_balances(store.validators@, active_ids(store.validators@, epoch)),
{
    let validators = store.active_validators(epoch);
    store.total_balance(validators.as_slice())
}

/// Appends a list of ids to another.
pub fn append_ids(dst: &mut Vec<u64>, src: &Vec<u64>)
    ensures
        final(dst)@ == old(dst)@ + src@,
{
    let mut i: usize = 0;
    while i < src.len()
        invariant
            i <= src@.len(),
            dst@ == old(dst)@ + src@.take(i as int),
        decreases src@.len() - i,
    {
        dst.push(src[i]);
        i = i + 1;
        proof {
            assert(dst@ =~= old(dst)@ + src@.take(i as int));
        }
    }
    proof {
        assert(src@.take(src@.len() as int) =~= src@);
    }
}

} // verus!
