//! The validator record and its life cycle: activation, exit, activity.

use vstd::prelude::*;
use crate::hash::H256;

verus! {

/// Validator record.
#[derive(Clone, Copy, Debug)]
pub struct Validator {
    /// BLS public key.
    pub pubkey: [u8; 48],
    /// Withdrawal credentials.
    pub withdrawal_credentials: H256,
    /// Epoch when the validator activated.
    pub activation_epoch: u64,
    /// Epoch when the validator exited.
    pub exit_epoch: u64,
    /// Epoch when the validator may withdraw.
    pub withdrawable_epoch: u64,
    /// Whether the validator initiated an exit.
    pub initiated_exit: bool,
    /// Whether the validator was slashed.
    pub slashed: bool,
    /// High balance.
    pub high_balance: u64,
}

impl Validator {
    /// Whether the validator is active in `epoch`.
    pub open spec fn active_at(&self, epoch: u64) -> bool {
        self.activation_epoch <= epoch && epoch < self.exit_epoch
    }

    /// Activate the validator: at genesis in the genesis epoch, otherwise
    /// in the delayed epoch.
    pub fn activate(&mut self, delayed_activation_exit_epoch: u64, is_genesis: bool, genesis_epoch: u64)
        ensures
            *final(self) == (Validator {
                activation_epoch: if is_genesis { genesis_epoch } else { delayed_activation_exit_epoch },
                ..*old(self)
            }),
    {
        if is_genesis {
            self.activation_epoch = genesis_epoch;
        } else {
            self.activation_epoch = delayed_activation_exit_epoch;
        }
    }

    /// Mark that the validator initiated an exit.
    pub fn initiate_exit(&mut self)
        ensures
            *final(self) == (Validator { initiated_exit: true, ..*old(self) }),
    {
        self.initiated_exit = true;
    }

    /// Exit the validator in the delayed epoch, unless it exits earlier already.
    pub fn exit(&mut self, delayed_activation_exit_epoch: u64)
        ensures
            *final(self) == (Validator {
                exit_epoch: if old(self).exit_epoch <= delayed_activation_exit_epoch {
                    old(self).exit_epoch
                } else {
                    delayed_activation_exit_epoch
                },
                ..*old(self)
            }),
    {
        if self.exit_epoch <= delayed_activation_exit_epoch {
            return;
        } else {
            self.exit_epoch = delayed_activation_exit_epoch;
        }
    }

    /// Whether the validator is active in `epoch`.
    pub fn is_active(&self, epoch: u64) -> (r: bool)
        ensures
            r == self.active_at(epoch),
    {
        self.activation_epoch <= epoch && epoch < self.exit_epoch
    }
}

/// An exit never moves the exit epoch later, and repeating it changes nothing.
pub proof fn lemma_exit_monotone(v: Validator, delayed: u64)
    ensures
        ({
            let e = if v.exit_epoch <= delayed { v.exit_epoch } else { delayed };
            &&& e <= v.exit_epoch
            &&& e <= delayed
            &&& (if e <= delayed { e } else { delayed }) == e
        }),
{
}

/// After an exit at `delayed`, the validator is active in no epoch from `delayed` on.
pub proof fn lemma_exit_deactivates(v: Validator, delayed: u64, epoch: u64)
    requires
        delayed <= epoch,
    ensures
        !(Validator {
            exit_epoch: if v.exit_epoch <= delayed { v.exit_epoch } else { delayed },
            ..v
        }).active_at(epoch),
{
}

} // verus!
