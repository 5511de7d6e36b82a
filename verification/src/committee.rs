//! Committees of the previous and current epochs, by slot.

use vstd::prelude::*;
use crate::hash::H256;

verus! {

/// Shuffle configuration.
#[derive(Clone, Copy, Debug, PartialEq, Eq, Structural)]
pub struct ShuffleConfig {
    /// Rounds of the shuffling algorithm.
    pub round: usize,
    /// Target committee size.
    pub target_committee_len: usize,
    /// Shard count.
    pub shard_count: usize,
    /// Number of splits for all shards: the slots of an epoch.
    pub split_count: usize,
}

/// An update of the shuffling at an epoch change.
#[derive(Clone, Copy, Debug)]
pub enum ShuffleUpdate {
    /// Update the seeds only.
    Seed {
        /// New current seed.
        current_seed: H256,
        /// New previous seed.
        previous_seed: H256,
    },
    /// Update the seeds and the validator count.
    SeedAndLen {
        /// New current seed.
        current_seed: H256,
        /// New previous seed.
        previous_seed: H256,
        /// New validator count.
        len: usize,
    },
}

/// Committee assigner.
#[derive(Clone, Copy, Debug)]
pub struct CommitteeProcess {
    /// Validators of the current epoch.
    pub current_len: usize,
    /// Validators of the previous epoch.
    pub previous_len: usize,
    /// Shard offset of the previous epoch.
    pub previous_shard_offset: usize,
    /// Shard offset of the current epoch.
    pub current_shard_offset: usize,
    /// Seed of the current epoch.
    pub current_seed: H256,
    /// Seed of the previous epoch.
    pub previous_seed: H256,
    /// Shuffle configuration.
    pub config: ShuffleConfig,
}

/// The committee count for `len` validators: committees per split, at
/// least one and at most the shards per split, times the splits.
pub open spec fn committee_count_spec(len: nat, config: ShuffleConfig) -> nat {
    let per_split = len / (config.split_count as nat) / (config.target_committee_len as nat);
    let shards = (config.shard_count as nat) / (config.split_count as nat);
    let m = if shards <= per_split { shards } else { per_split };
    (if m >= 1 { m } else { 1 }) * (config.split_count as nat)
}

/// The divisions of the committee count are defined and its product fits.
pub open spec fn config_valid(config: ShuffleConfig) -> bool {
    &&& config.split_count > 0
    &&& config.target_committee_len > 0
    &&& config.shard_count <= usize::MAX
}

/// The committee count for `len` validators.
pub fn committee_count(len: usize, config: &ShuffleConfig) -> (r: usize)
    requires
        config_valid(*config),
    ensures
        r == committee_count_spec(len as nat, *config),
        r >= config.split_count,
{
    let per_split = len / config.split_count / config.target_committee_len;
    let shards = config.shard_count / config.split_count;
    let m = if shards <= per_split { shards } else { per_split };
    let m = if m >= 1 { m } else { 1 };
    proof {
        if shards >= 1 {
            assert(m <= shards);
            assert(shards * config.split_count <= config.shard_count) by (nonlinear_arith)
                requires
                    shards == config.shard_count / config.split_count,
                    config.split_count > 0,
            ;
            assert(m * config.split_count <= shards * config.split_count) by (nonlinear_arith)
                requires
                    m <= shards,
            ;
        } else {
            assert(m == 1);
        }
        assert(m * config.split_count >= config.split_count) by (nonlinear_arith)
            requires
                m >= 1,
        ;
    }
    m * config.split_count
}

/// The shuffled position of `index`. Only zero rounds are defined: each
/// round reads an eight-byte word from a 32-byte hash, which the word
/// conversion refuses.
pub fn permuted_index(index: usize, seed: &H256, len: usize, round: usize) -> (r: usize)
    requires
        index < len,
        round == 0,
    ensures
        r == index,
{
    index
}

/// The index of member `j` of committee `i` at slot `offset`.
pub open spec fn member_index(per_slot: nat, size: nat, offset: nat, i: nat, j: nat) -> nat {
    (per_slot * offset + i) * size + j
}

/// Each candidate member below the current validator count is below `len`.
pub open spec fn members_below(per_slot: nat, size: nat, offset: nat, current_len: nat, len: nat) -> bool {
    forall|i: nat, j: nat| i < per_slot && j < size && #[trigger] member_index(per_slot, size, offset, i, j) < current_len
        ==> member_index(per_slot, size, offset, i, j) < len
}

/// The committees of a slot: the members of each committee, as positions
/// below the current validator count.
pub open spec fn committees_spec(current_len: nat, per_slot: nat, size: nat, offset: nat) -> Seq<Seq<usize>> {
    Seq::new(per_slot, |i: int| committee_members(current_len, per_slot, size, offset, i as nat, size))
}

/// The first `n` candidate members of committee `i` that fall below the
/// current validator count.
pub open spec fn committee_members(current_len: nat, per_slot: nat, size: nat, offset: nat, i: nat, n: nat) -> Seq<usize>
    decreases n,
{
    if n == 0 {
        Seq::empty()
    } else {
        let rest = committee_members(current_len, per_slot, size, offset, i, (n - 1) as nat);
        let index = member_index(per_slot, size, offset, i, (n - 1) as nat);
        if index < current_len { rest.push(index as usize) } else { rest }
    }
}

impl CommitteeProcess {
    /// A process for `len` validators with `seed` in both epochs.
    pub fn new(len: usize, seed: H256, config: ShuffleConfig) -> (r: Self)
        ensures
            r.current_len == len,
            r.previous_len == len,
            r.previous_shard_offset == 0,
            r.current_shard_offset == 0,
            r.current_seed == seed,
            r.previous_seed == seed,
            r.config == config,
    {
        CommitteeProcess {
            current_len: len,
            previous_len: len,
            previous_shard_offset: 0,
            current_shard_offset: 0,
            current_seed: seed,
            previous_seed: seed,
            config,
        }
    }

    /// Move to the next epoch: the current epoch becomes the previous one,
    /// and the update gives the new seeds, and perhaps a new validator count
    /// whose committees move the shard offset.
    pub fn advance_epoch(&mut self, update: ShuffleUpdate)
        requires
            update matches ShuffleUpdate::SeedAndLen { len, .. } ==> {
                &&& config_valid(old(self).config)
                &&& old(self).config.shard_count > 0
                &&& old(self).current_shard_offset + committee_count_spec(len as nat, old(self).config) <= usize::MAX
            },
        ensures
            final(self).config == old(self).config,
            final(self).previous_shard_offset == old(self).current_shard_offset,
            final(self).previous_len == old(self).current_len,
            match update {
                ShuffleUpdate::Seed { current_seed, previous_seed } => {
                    &&& final(self).current_seed == current_seed
                    &&& final(self).previous_seed == previous_seed
                    &&& final(self).current_shard_offset == old(self).current_shard_offset
                    &&& final(self).current_len == old(self).current_len
                },
                ShuffleUpdate::SeedAndLen { current_seed, previous_seed, len } => {
                    &&& final(self).current_seed == current_seed
                    &&& final(self).previous_seed == previous_seed
                    &&& final(self).current_shard_offset == (old(self).current_shard_offset
                        + committee_count_spec(len as nat, old(self).config)) % (old(self).config.shard_count as int)
                    &&& final(self).current_len == len
                },
            },
    {
        self.previous_shard_offset = self.current_shard_offset;
        self.previous_len = self.current_len;
        match update {
            ShuffleUpdate::Seed { current_seed, previous_seed } => {
                self.current_seed = current_seed;
                self.previous_seed = previous_seed;
            },
            ShuffleUpdate::SeedAndLen { current_seed, previous_seed, len } => {
                self.current_seed = current_seed;
                self.previous_seed = previous_seed;
                let count = committee_count(len, &self.config);
                self.current_shard_offset = (self.current_shard_offset + count) % self.config.shard_count;
                self.current_len = len;
            },
        }
    }

    /// The committees of slot `offset` in the current or previous epoch.
    fn committees_at(&self, offset: usize, is_current: bool) -> (r: Vec<Vec<usize>>)
        requires
            config_valid(self.config),
            self.config.round == 0,
            ({
                let len = if is_current { self.current_len } else { self.previous_len };
                let count = committee_count_spec(len as nat, self.config);
                let per_slot = count / (self.config.split_count as nat);
                let size = (len as nat) / count;
                &&& (per_slot * offset + per_slot) * size <= usize::MAX
                &&& members_below(per_slot, size, offset as nat, self.current_len as nat, len as nat)
            }),
        ensures
            ({
                let len = if is_current { self.current_len } else { self.previous_len };
                let count = committee_count_spec(len as nat, self.config);
                let per_slot = count / (self.config.split_count as nat);
                let size = (len as nat) / count;
                &&& r@.len() == per_slot
                &&& forall|i: int| 0 <= i < per_slot ==> (#[trigger] r@[i])@
                    == committee_members(self.current_len as nat, per_slot, size, offset as nat, i as nat, size)
            }),
    {
        let len = if is_current { self.current_len } else { self.previous_len };
        let count = committee_count(len, &self.config);
        let per_slot = count / self.config.split_count;
        let size = len / count;
        let seed = if is_current { self.current_seed } else { self.previous_seed };
        assert(per_slot as nat == committee_count_spec(len as nat, self.config) / (self.config.split_count as nat));
        assert(size as nat == (len as nat) / committee_count_spec(len as nat, self.config));
        let mut committees: Vec<Vec<usize>> = Vec::new();
        let mut i: usize = 0;
        while i < per_slot
            invariant
                i <= per_slot,
                per_slot == count / self.config.split_count,
                size == len / count,
                count == committee_count_spec(len as nat, self.config),
                len == if is_current { self.current_len } else { self.previous_len },
                self.config.round == 0,
                (per_slot * offset + per_slot) * size <= usize::MAX,
                members_below(per_slot as nat, size as nat, offset as nat, self.current_len as nat, len as nat),
                committees@.len() == i,
                forall|k: int| 0 <= k < i ==> (#[trigger] committees@[k])@
                    == committee_members(self.current_len as nat, per_slot as nat, size as nat, offset as nat, k as nat, size as nat),
            decreases per_slot - i,
        {
            let mut committee: Vec<usize> = Vec::new();
            let mut j: usize = 0;
            while j < size
                invariant
                    i < per_slot,
                    j <= size,
                    self.config.round == 0,
                    len == if is_current { self.current_len } else { self.previous_len },
                    (per_slot * offset + per_slot) * size <= usize::MAX,
                    members_below(per_slot as nat, size as nat, offset as nat, self.current_len as nat, len as nat),
                    committee@ == committee_members(self.current_len as nat, per_slot as nat, size as nat, offset as nat, i as nat, j as nat),
                decreases size - j,
            {
                proof {
                    assert((per_slot * offset + i) * size + j < (per_slot * offset + per_slot) * size) by (nonlinear_arith)
                        requires
                            i < per_slot,
                            j < size,
                    ;
                    assert(per_slot * offset + per_slot <= (per_slot * offset + per_slot) * size) by (nonlinear_arith)
                        requires
                            size >= 1,
                    ;
                    assert(per_slot * offset <= per_slot * offset + per_slot);
                }
                let index = (per_slot * offset + i) * size + j;
                if index < self.current_len {
                    proof {
                        assert(member_index(per_slot as nat, size as nat, offset as nat, i as nat, j as nat) == index);
                    }
                    committee.push(permuted_index(index, &seed, len, self.config.round));
                }
                j = j + 1;
            }
            committees.push(committee);
            i = i + 1;
        }
        committees
    }

    /// The current epoch's committees at slot `offset`.
    pub fn current_committees_at(&self, offset: usize) -> (r: Vec<Vec<usize>>)
        requires
            config_valid(self.config),
            self.config.round == 0,
            ({
                let count = committee_count_spec(self.current_len as nat, self.config);
                let per_slot = count / (self.config.split_count as nat);
                let size = (self.current_len as nat) / count;
                (per_slot * offset + per_slot) * size <= usize::MAX
            }),
        ensures
            ({
                let count = committee_count_spec(self.current_len as nat, self.config);
                let per_slot = count / (self.config.split_count as nat);
                let size = (self.current_len as nat) / count;
                &&& r@.len() == per_slot
                &&& forall|i: int| 0 <= i < per_slot ==> (#[trigger] r@[i])@
                    == committee_members(self.current_len as nat, per_slot, size, offset as nat, i as nat, size)
            }),
    {
        self.committees_at(offset, true)
    }

    /// The previous epoch's committees at slot `offset`; candidates at or
    /// above the current validator count are left out.
    pub fn previous_committees_at(&self, offset: usize) -> (r: Vec<Vec<usize>>)
        requires
            config_valid(self.config),
            self.config.round == 0,
            ({
                let count = committee_count_spec(self.previous_len as nat, self.config);
                let per_slot = count / (self.config.split_count as nat);
                let size = (self.previous_len as nat) / count;
                &&& (per_slot * offset + per_slot) * size <= usize::MAX
                &&& members_below(per_slot, size, offset as nat, self.current_len as nat, self.previous_len as nat)
            }),
        ensures
            ({
                let count = committee_count_spec(self.previous_len as nat, self.config);
                let per_slot = count / (self.config.split_count as nat);
                let size = (self.previous_len as nat) / count;
                &&& r@.len() == per_slot
                &&& forall|i: int| 0 <= i < per_slot ==> (#[trigger] r@[i])@
                    == committee_members(self.current_len as nat, per_slot, size, offset as nat, i as nat, size)
            }),
    {
        self.committees_at(offset, false)
    }
}

} // verus!
