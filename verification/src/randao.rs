//! RANDAO: random numbers made together. Each participant publishes the
//! outer layer of an onion of hashes, and reveals one layer inward each time
//! it adds entropy; the reveals are mixed into a seed.

use vstd::prelude::*;
use crate::hash::{H256, keccak256, keccak256_spec};

verus! {

/// `x` hashed `n` times.
pub open spec fn hash_layers(x: Seq<u8>, n: nat) -> Seq<u8>
    decreases n,
{
    if n == 0 { x } else { keccak256_spec(hash_layers(x, (n - 1) as nat)) }
}

/// Hashing `i` times and then `j` times is hashing `i + j` times: the
/// onion's layer `i` opens, with `j` layers, a commitment to its layer
/// `i + j`.
pub proof fn lemma_hash_layers_compose(x: Seq<u8>, i: nat, j: nat)
    ensures
        hash_layers(hash_layers(x, i), j) == hash_layers(x, i + j),
    decreases j,
{
    if j > 0 {
        lemma_hash_layers_compose(x, i, (j - 1) as nat);
    }
}

/// The bytewise exclusive or of two hashes.
pub open spec fn xor_spec(a: Seq<u8>, b: Seq<u8>) -> Seq<u8> {
    Seq::new(32, |i: int| a[i] ^ b[i])
}

/// The bytewise exclusive or of two hashes.
pub fn xor(a: &H256, b: &H256) -> (r: H256)
    ensures
        r@ == xor_spec(a@, b@),
{
    let mut r: H256 = [0u8; 32];
    let mut i: usize = 0;
    while i < 32
        invariant
            i <= 32,
            forall|k: int| 0 <= k < i ==> r@[k] == a@[k] ^ b@[k],
        decreases 32 - i,
    {
        r[i] = a[i] ^ b[i];
        i = i + 1;
    }
    proof {
        assert(r@ =~= xor_spec(a@, b@));
    }
    r
}

/// The Keccak-256 hash of `seed` followed by `a`.
pub fn hash2(seed: &[u8], a: &[u8]) -> (r: H256)
    requires
        seed@.len() + a@.len() <= usize::MAX,
    ensures
        r@ == keccak256_spec(seed@ + a@),
{
    let mut v: Vec<u8> = Vec::new();
    let mut i: usize = 0;
    while i < seed.len()
        invariant
            i <= seed@.len(),
            v@ == seed@.take(i as int),
        decreases seed@.len() - i,
    {
        v.push(seed[i]);
        i = i + 1;
        proof {
            assert(v@ =~= seed@.take(i as int));
        }
    }
    let mut j: usize = 0;
    proof {
        assert(seed@.take(seed@.len() as int) =~= seed@);
    }
    while j < a.len()
        invariant
            j <= a@.len(),
            v@ == seed@ + a@.take(j as int),
        decreases a@.len() - j,
    {
        v.push(a[j]);
        j = j + 1;
        proof {
            assert(v@ =~= seed@ + a@.take(j as int));
        }
    }
    proof {
        assert(a@.take(a@.len() as int) =~= a@);
    }
    keccak256(v.as_slice())
}

/// RANDAO configuration.
#[derive(Clone, Copy, Debug, PartialEq, Eq, Structural)]
pub struct RandaoConfig {
    /// Seed lookahead, in epochs.
    pub lookahead: usize,
}

/// A RANDAO mix: the reveals combined.
#[derive(Clone, Copy, Debug)]
pub struct RandaoMix {
    /// The mixed value.
    pub data: H256,
}

impl RandaoMix {
    /// A mix starting at `val`.
    pub fn new(val: H256) -> (r: Self)
        ensures
            r.data == val,
    {
        RandaoMix { data: val }
    }

    /// Mix in a reveal: the hash of the value xor the reveal.
    pub fn mix(&mut self, value: &H256)
        ensures
            final(self).data@ == keccak256_spec(xor_spec(old(self).data@, value@)),
    {
        let input = xor(&self.data, value);
        self.data = keccak256(&input);
    }

    /// The mixed value.
    pub fn get(&self) -> (r: H256)
        ensures
            r == self.data,
    {
        self.data
    }
}

/// A RANDAO commitment: the innermost layer revealed so far.
#[derive(Clone, Copy, Debug)]
pub struct RandaoCommitment {
    /// The committed value.
    pub data: H256,
}

impl RandaoCommitment {
    /// A commitment to `val`.
    pub fn new(val: H256) -> (r: Self)
        ensures
            r.data == val,
    {
        RandaoCommitment { data: val }
    }

    /// Reveal `layers` layers: the reveal is accepted, and becomes the
    /// commitment, when hashing it that many times gives the commitment.
    pub fn try_reveal(&mut self, value: &H256, layers: usize) -> (r: bool)
        ensures
            r == (hash_layers(value@, layers as nat) == old(self).data@),
            final(self).data@ == if r { value@ } else { old(self).data@ },
    {
        let mut revealed: H256 = *value;
        let mut i: usize = 0;
        while i < layers
            invariant
                i <= layers,
                revealed@ == hash_layers(value@, i as nat),
            decreases layers - i,
        {
            revealed = keccak256(&revealed);
            i = i + 1;
        }
        if !crate::shuffle::hash_eq(&revealed, &self.data) {
            false
        } else {
            self.data = *value;
            true
        }
    }
}

/// The RANDAO producer: the mix, and the seeds of past epochs, newest first.
#[derive(Clone, Debug)]
pub struct RandaoProducer {
    /// Seeds, newest first.
    pub history: Vec<H256>,
    /// Epochs advanced since the last update.
    pub offset: usize,
    /// The current mix.
    pub mix: RandaoMix,
    /// Configuration.
    pub config: RandaoConfig,
}

impl RandaoProducer {
    /// The history reaches the previous seed: one seed past the current one.
    pub open spec fn wf(&self) -> bool {
        self.offset + self.config.lookahead + 1 < self.history@.len()
    }

    /// The seed of the current epoch.
    pub open spec fn current_seed(&self) -> H256 {
        self.history@[self.offset + self.config.lookahead]
    }

    /// The seed of the epoch before.
    pub open spec fn previous_seed(&self) -> H256 {
        self.history@[self.offset + self.config.lookahead + 1]
    }

    /// A producer whose history and mix start at `val`: the lookahead
    /// window and the previous seed all hold `val`.
    pub fn new(val: H256, config: RandaoConfig) -> (r: Self)
        requires
            config.lookahead + 1 < usize::MAX,
        ensures
            r.wf(),
            r.history@ == Seq::new((config.lookahead + 2) as nat, |i: int| val),
            r.offset == 0,
            r.mix.data == val,
            r.config == config,
    {
        let mut history: Vec<H256> = Vec::new();
        let mut i: usize = 0;
        while i < config.lookahead + 2
            invariant
                config.lookahead + 1 < usize::MAX,
                i <= config.lookahead + 2,
                history@ == Seq::new(i as nat, |k: int| val),
            decreases config.lookahead + 2 - i,
        {
            history.push(val);
            i = i + 1;
            proof {
                assert(history@ =~= Seq::new(i as nat, |k: int| val));
            }
        }
        RandaoProducer { history, offset: 0, mix: RandaoMix::new(val), config }
    }

    /// Mix in a reveal.
    pub fn mix(&mut self, value: &H256)
        ensures
            final(self).mix.data@ == keccak256_spec(xor_spec(old(self).mix.data@, value@)),
            final(self).history@ == old(self).history@,
            final(self).offset == old(self).offset,
            final(self).config == old(self).config,
    {
        self.mix.mix(value);
    }

    /// Start a new epoch: the hash of the mix and `f` becomes the newest
    /// seed. On an update the history keeps just the lookahead window and
    /// the previous seed, and the offset restarts; otherwise the offset
    /// grows. Right after an update from offset zero the previous seed is
    /// the seed that was current before.
    pub fn advance_epoch(&mut self, f: &H256, update: bool)
        requires
            update ==> old(self).config.lookahead + 1 < usize::MAX,
            !update ==> old(self).offset < usize::MAX,
        ensures
            old(self).wf() ==> final(self).wf(),
            old(self).wf() && update && old(self).offset == 0 ==> final(self).previous_seed() == old(self).current_seed(),
            old(self).wf() && !update ==> final(self).current_seed() == old(self).current_seed()
                && final(self).previous_seed() == old(self).previous_seed(),
            ({
                let all = seq![keccak256_spec(old(self).mix.data@ + f@)] + old(self).history@.map_values(|h: H256| h@);
                let keep = (old(self).config.lookahead + 2) as int;
                &&& final(self).history@.map_values(|h: H256| h@) == if update && all.len() > keep { all.take(keep) } else { all }
                &&& final(self).offset == if update { 0 } else { (old(self).offset + 1) as usize }
            }),
            final(self).mix == old(self).mix,
            final(self).config == old(self).config,
    {
        let mix = hash2(&self.mix.data, f);
        let ghost before = self.history@;
        self.history.insert(0, mix);
        proof {
            assert(self.history@.map_values(|h: H256| h@) =~= seq![keccak256_spec(self.mix.data@ + f@)]
                + before.map_values(|h: H256| h@));
        }
        if update {
            self.offset = 0;
            let keep = self.config.lookahead + 2;
            if self.history.len() > keep {
                let ghost full = self.history@;
                self.history.truncate(keep);
                proof {
                    assert(self.history@.map_values(|h: H256| h@) =~= full.map_values(|h: H256| h@).take(keep as int));
                }
            }
        } else {
            self.offset = self.offset + 1;
        }
    }

    /// The current seed.
    pub fn current(&self) -> (r: H256)
        requires
            self.offset + self.config.lookahead < self.history@.len(),
        ensures
            r == self.history@[self.offset + self.config.lookahead],
    {
        let len = self.history.len();
        assert(self.offset + self.config.lookahead < len);
        self.history[self.offset + self.config.lookahead]
    }

    /// The previous seed: the one current an epoch before.
    pub fn previous(&self) -> (r: H256)
        requires
            self.wf(),
        ensures
            r == self.previous_seed(),
    {
        let len = self.history.len();
        assert(self.offset + self.config.lookahead + 1 < len);
        self.history[self.offset + self.config.lookahead + 1]
    }
}

/// An onion of hashes: a seed, then its hash, then the hash of that, and so on.
#[derive(Clone, Debug)]
pub struct RandaoOnion {
    /// The layers, innermost first.
    pub data: Vec<H256>,
}

impl RandaoOnion {
    /// The onion of `n` layers around `seed`.
    pub fn generate(seed: H256, n: usize) -> (r: Self)
        requires
            n < usize::MAX,
        ensures
            r.data@.len() == n + 1,
            forall|i: int| 0 <= i <= n ==> (#[trigger] r.data@[i])@ == hash_layers(seed@, i as nat),
    {
        let mut data: Vec<H256> = Vec::new();
        data.push(seed);
        let mut i: usize = 0;
        while i < n
            invariant
                i <= n,
                data@.len() == i + 1,
                forall|k: int| 0 <= k <= i ==> (#[trigger] data@[k])@ == hash_layers(seed@, k as nat),
            decreases n - i,
        {
            let last = data[data.len() - 1];
            let next = keccak256(&last);
            data.push(next);
            i = i + 1;
        }
        RandaoOnion { data }
    }

    /// Peel the onion: drop `skip` outer layers, then take the next one.
    pub fn pop(&mut self, skip: usize) -> (r: Option<H256>)
        ensures
            ({
                let len = old(self).data@.len();
                if skip < len {
                    &&& r == Some(old(self).data@[len - skip - 1])
                    &&& final(self).data@ == old(self).data@.take(len - skip - 1)
                } else {
                    &&& r is None
                    &&& final(self).data@ == Seq::<H256>::empty()
                }
            }),
    {
        let ghost start = self.data@;
        let mut i: usize = 0;
        while i < skip
            invariant
                i <= skip,
                self.data@ == start.take(if i <= start.len() { start.len() - i } else { 0 }),
            decreases skip - i,
        {
            self.data.pop();
            i = i + 1;
            proof {
                assert(self.data@ =~= start.take(if i <= start.len() { start.len() - i } else { 0 }));
            }
        }
        let r = self.data.pop();
        proof {
            if skip < start.len() {
                assert(self.data@ =~= start.take(start.len() - skip - 1));
            } else {
                assert(self.data@ =~= Seq::<H256>::empty());
            }
        }
        r
    }
}

} // verus!
