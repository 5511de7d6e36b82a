//! The latest attestation of each validator, and the fork choice that
//! scores two branches by the attestations that point into them.

use vstd::prelude::*;
use crate::hash::{H256, hash_views};
use crate::shuffle::hash_eq;

verus! {

/// A validator's public key.
pub type ValidatorId = [u8; 48];

/// A validator's latest attestation: the slot and hash of the block it
/// attested.
pub type AttestationEntry = (ValidatorId, (u64, H256));

/// The map a list of entries stands for, from key bytes to slot and block
/// hash bytes; a later entry wins.
pub open spec fn latest_map(s: Seq<AttestationEntry>) -> Map<Seq<u8>, (u64, Seq<u8>)>
    decreases s.len(),
{
    if s.len() == 0 {
        Map::empty()
    } else {
        latest_map(s.drop_last()).insert(s.last().0@, (s.last().1.0, s.last().1.1@))
    }
}

/// No validator occurs twice.
pub open spec fn ids_distinct(s: Seq<AttestationEntry>) -> bool {
    forall|i: int, j: int| 0 <= i < j < s.len() ==> (#[trigger] s[i]).0@ != (#[trigger] s[j]).0@
}

/// What noting an attestation does to the map: it is kept unless the
/// validator already has one at an equal or later slot.
pub open spec fn note_spec(m: Map<Seq<u8>, (u64, Seq<u8>)>, e: AttestationEntry) -> Map<Seq<u8>, (u64, Seq<u8>)> {
    if m.contains_key(e.0@) && !(m[e.0@].0 < e.1.0) {
        m
    } else {
        m.insert(e.0@, (e.1.0, e.1.1@))
    }
}

/// Noting the entries of one list in order.
pub open spec fn note_entries(m: Map<Seq<u8>, (u64, Seq<u8>)>, es: Seq<AttestationEntry>) -> Map<Seq<u8>, (u64, Seq<u8>)>
    decreases es.len(),
{
    if es.len() == 0 {
        m
    } else {
        note_spec(note_entries(m, es.drop_last()), es.last())
    }
}

/// Noting the entries of several lists in order.
pub open spec fn note_lists(m: Map<Seq<u8>, (u64, Seq<u8>)>, lists: Seq<Vec<AttestationEntry>>) -> Map<Seq<u8>, (u64, Seq<u8>)>
    decreases lists.len(),
{
    if lists.len() == 0 {
        m
    } else {
        note_entries(note_lists(m, lists.drop_last()), lists.last()@)
    }
}

/// How many entries attest one of the given blocks.
pub open spec fn score_spec(s: Seq<AttestationEntry>, blocks: Seq<Seq<u8>>) -> nat
    decreases s.len(),
{
    if s.len() == 0 {
        0
    } else {
        score_spec(s.drop_last(), blocks) + if blocks.contains(s.last().1.1@) { 1nat } else { 0nat }
    }
}

/// Which of two heads is preferred: the one with more attestations on its
/// branch, and on a tie the new one only if it would be higher.
pub open spec fn prefers_new_spec(current_score: nat, new_score: nat, current_height: nat, new_height: nat) -> bool {
    if current_score > new_score {
        false
    } else if current_score < new_score {
        true
    } else {
        new_height > current_height
    }
}

/// The keys of the map are those of the entries, each with its entry's value.
pub proof fn lemma_latest_map(s: Seq<AttestationEntry>)
    requires
        ids_distinct(s),
    ensures
        forall|k: Seq<u8>| #[trigger] latest_map(s).contains_key(k) <==> exists|i: int| 0 <= i < s.len() && s[i].0@ == k,
        forall|i: int| 0 <= i < s.len() ==> #[trigger] latest_map(s)[s[i].0@] == (s[i].1.0, s[i].1.1@),
    decreases s.len(),
{
    if s.len() > 0 {
        let t = s.drop_last();
        assert(ids_distinct(t));
        lemma_latest_map(t);
        assert forall|k: Seq<u8>| #[trigger] latest_map(s).contains_key(k) <==> exists|i: int| 0 <= i < s.len() && s[i].0@ == k by {
            if latest_map(t).contains_key(k) {
                let i = choose|i: int| 0 <= i < t.len() && t[i].0@ == k;
                assert(s[i] == t[i]);
            }
            if k == s.last().0@ {
                assert(s[s.len() - 1].0@ == k);
            }
            if exists|i: int| 0 <= i < s.len() && s[i].0@ == k {
                let i = choose|i: int| 0 <= i < s.len() && s[i].0@ == k;
                if i < t.len() {
                    assert(t[i] == s[i]);
                    assert(latest_map(t).contains_key(k));
                }
            }
        }
        assert forall|i: int| 0 <= i < s.len() implies #[trigger] latest_map(s)[s[i].0@] == (s[i].1.0, s[i].1.1@) by {
            if i < s.len() - 1 {
                assert(t[i] == s[i]);
                assert(s[i].0@ != s[s.len() - 1].0@);
                assert(latest_map(t)[t[i].0@] == (t[i].1.0, t[i].1.1@));
            }
        }
    }
}

/// Noting an attestation leaves every other validator's entry as it was,
/// and leaves the noted validator with the later of the two slots: its
/// slot never goes down.
pub proof fn lemma_note_keeps_latest(m: Map<Seq<u8>, (u64, Seq<u8>)>, e: AttestationEntry)
    ensures
        note_spec(m, e).contains_key(e.0@),
        m.contains_key(e.0@) ==> note_spec(m, e)[e.0@].0 == if m[e.0@].0 < e.1.0 { e.1.0 } else { m[e.0@].0 },
        !m.contains_key(e.0@) || m[e.0@].0 < e.1.0 ==> note_spec(m, e)[e.0@] == (e.1.0, e.1.1@),
        forall|k: Seq<u8>| k != e.0@ ==> (#[trigger] note_spec(m, e).contains_key(k)) == m.contains_key(k)
            && (m.contains_key(k) ==> note_spec(m, e)[k] == m[k]),
{
}

/// Byte-wise equality of two validator keys.
pub(crate) fn id_eq(a: &ValidatorId, b: &ValidatorId) -> (r: bool)
    ensures
        r == (a@ == b@),
{
    let mut i: usize = 0;
    while i < 48
        invariant
            i <= 48,
            forall|j: int| 0 <= j < i ==> a@[j] == b@[j],
        decreases 48 - i,
    {
        if a[i] != b[i] {
            return false;
        }
        i = i + 1;
    }
    proof {
        assert(a@ =~= b@);
    }
    true
}

/// Whether a hash is among the given ones.
fn hash_listed(blocks: &[H256], h: &H256) -> (r: bool)
    ensures
        r == hash_views(blocks@).contains(h@),
{
    let mut i: usize = 0;
    while i < blocks.len()
        invariant
            i <= blocks@.len(),
            forall|j: int| 0 <= j < i ==> blocks@[j]@ != h@,
        decreases blocks@.len() - i,
    {
        if hash_eq(&blocks[i], h) {
            proof {
                assert(hash_views(blocks@)[i as int] == h@);
            }
            return true;
        }
        i = i + 1;
    }
    proof {
        if hash_views(blocks@).contains(h@) {
            let j = choose|j: int| 0 <= j < hash_views(blocks@).len() && hash_views(blocks@)[j] == h@;
            assert(blocks@[j]@ == h@);
        }
    }
    false
}

/// The latest attestation of each validator.
#[derive(Debug)]
pub struct LatestAttestations {
    /// The entries, one per validator.
    pub data: Vec<AttestationEntry>,
}

impl View for LatestAttestations {
    type V = Map<Seq<u8>, (u64, Seq<u8>)>;

    open spec fn view(&self) -> Map<Seq<u8>, (u64, Seq<u8>)> {
        latest_map(self.data@)
    }
}

impl LatestAttestations {
    /// One entry per validator.
    pub open spec fn wf(&self) -> bool {
        ids_distinct(self.data@)
    }

    /// No attestation noted yet.
    pub fn new() -> (r: Self)
        ensures
            r.wf(),
            r@ == Map::<Seq<u8>, (u64, Seq<u8>)>::empty(),
    {
        LatestAttestations { data: Vec::new() }
    }

    /// Set the attestation of a validator, replacing the one it had.
    fn set(&mut self, validator_id: ValidatorId, block_slot: u64, block_hash: H256)
        requires
            old(self).wf(),
        ensures
            final(self).wf(),
            final(self)@ == old(self)@.insert(validator_id@, (block_slot, block_hash@)),
    {
        let mut i: usize = 0;
        while i < self.data.len()
            invariant
                self.wf(),
                self.data@ == old(self).data@,
                i <= self.data@.len(),
                forall|j: int| 0 <= j < i ==> self.data@[j].0@ != validator_id@,
            decreases self.data@.len() - i,
        {
            if id_eq(&self.data[i].0, &validator_id) {
                let ghost before = self.data@;
                self.data.set(i, (validator_id, (block_slot, block_hash)));
                proof {
                    let u = self.data@;
                    assert(u == before.update(i as int, (validator_id, (block_slot, block_hash))));
                    assert(ids_distinct(u));
                    lemma_latest_map(u);
                    lemma_latest_map(before);
                    assert(before[i as int].0@ == validator_id@);
                    assert forall|k: Seq<u8>| #[trigger] latest_map(u).contains_key(k) <==>
                        latest_map(before).insert(validator_id@, (block_slot, block_hash@)).contains_key(k) by {
                        if latest_map(before).contains_key(k) {
                            let j = choose|j: int| 0 <= j < before.len() && before[j].0@ == k;
                            assert(u[j].0@ == k);
                        }
                        if latest_map(u).contains_key(k) {
                            let j = choose|j: int| 0 <= j < u.len() && u[j].0@ == k;
                            assert(before[j].0@ == k);
                        }
                        if k == validator_id@ {
                            assert(u[i as int].0@ == k);
                        }
                    }
                    assert forall|k: Seq<u8>| latest_map(u).contains_key(k) implies
                        #[trigger] latest_map(u)[k] == latest_map(before).insert(validator_id@, (block_slot, block_hash@))[k] by {
                        let j = choose|j: int| 0 <= j < u.len() && u[j].0@ == k;
                        assert(latest_map(u)[u[j].0@] == (u[j].1.0, u[j].1.1@));
                        if j != i {
                            assert(latest_map(before)[before[j].0@] == (before[j].1.0, before[j].1.1@));
                        }
                    }
                    assert(latest_map(u) =~= latest_map(before).insert(validator_id@, (block_slot, block_hash@)));
                }
                return;
            }
            i = i + 1;
        }
        let ghost before = self.data@;
        self.data.push((validator_id, (block_slot, block_hash)));
        proof {
            assert(self.data@.drop_last() =~= before);
            assert forall|a: int, b: int| 0 <= a < b < self.data@.len() implies
                (#[trigger] self.data@[a]).0@ != (#[trigger] self.data@[b]).0@ by {
                if b == before.len() {
                    assert(self.data@[a] == before[a]);
                }
            }
        }
    }

    /// The latest attestation of a validator, if it has one.
    pub fn get(&self, validator_id: &ValidatorId) -> (r: Option<(u64, H256)>)
        requires
            self.wf(),
        ensures
            match r {
                Some(v) => self@.contains_key(validator_id@) && self@[validator_id@] == (v.0, v.1@),
                None => !self@.contains_key(validator_id@),
            },
    {
        let mut i: usize = 0;
        while i < self.data.len()
            invariant
                self.wf(),
                i <= self.data@.len(),
                forall|j: int| 0 <= j < i ==> self.data@[j].0@ != validator_id@,
            decreases self.data@.len() - i,
        {
            if id_eq(&self.data[i].0, validator_id) {
                proof {
                    lemma_latest_map(self.data@);
                    assert(latest_map(self.data@)[self.data@[i as int].0@] == (self.data@[i as int].1.0, self.data@[i as int].1.1@));
                }
                return Some(self.data[i].1);
            }
            i = i + 1;
        }
        proof {
            lemma_latest_map(self.data@);
        }
        None
    }

    /// The attestations read back from a list of entries; where a validator
    /// occurs twice, its later entry stands.
    pub fn from_entries(entries: &[AttestationEntry]) -> (r: Self)
        ensures
            r.wf(),
            r@ == latest_map(entries@),
    {
        let mut r = LatestAttestations::new();
        let mut i: usize = 0;
        while i < entries.len()
            invariant
                i <= entries@.len(),
                r.wf(),
                r@ == latest_map(entries@.subrange(0, i as int)),
            decreases entries@.len() - i,
        {
            let e = entries[i];
            r.set(e.0, e.1.0, e.1.1);
            proof {
                assert(entries@.subrange(0, i + 1).drop_last() =~= entries@.subrange(0, i as int));
            }
            i = i + 1;
        }
        proof {
            assert(entries@.subrange(0, entries@.len() as int) =~= entries@);
        }
        r
    }

    /// Note a validator's attestation of a block: it replaces the one noted
    /// before only if its slot is later.
    pub fn note_validator_attestation(&mut self, validator_id: ValidatorId, block_slot: u64, block_hash: H256)
        requires
            old(self).wf(),
        ensures
            final(self).wf(),
            final(self)@ == note_spec(old(self)@, (validator_id, (block_slot, block_hash))),
    {
        match self.get(&validator_id) {
            Some(entry) => {
                if entry.0 < block_slot {
                    self.set(validator_id, block_slot, block_hash);
                }
            },
            None => {
                self.set(validator_id, block_slot, block_hash);
            },
        }
    }

    /// Note the attestations a block carries, list after list, each list
    /// being what one of its extrinsics attests; a block without a body
    /// notes nothing.
    pub fn note_block(&mut self, body: Option<&[Vec<AttestationEntry>]>)
        requires
            old(self).wf(),
        ensures
            final(self).wf(),
            final(self)@ == match body {
                Some(lists) => note_lists(old(self)@, lists@),
                None => old(self)@,
            },
    {
        if let Some(lists) = body {
            let mut i: usize = 0;
            while i < lists.len()
                invariant
                    i <= lists@.len(),
                    self.wf(),
                    self@ == note_lists(old(self)@, lists@.subrange(0, i as int)),
                decreases lists@.len() - i,
            {
                let list = &lists[i];
                let ghost start = self@;
                let mut j: usize = 0;
                while j < list.len()
                    invariant
                        j <= list@.len(),
                        self.wf(),
                        self@ == note_entries(start, list@.subrange(0, j as int)),
                    decreases list@.len() - j,
                {
                    let e = list[j];
                    self.note_validator_attestation(e.0, e.1.0, e.1.1);
                    proof {
                        assert(list@.subrange(0, j + 1).drop_last() =~= list@.subrange(0, j as int));
                    }
                    j = j + 1;
                }
                proof {
                    assert(list@.subrange(0, list@.len() as int) =~= list@);
                    assert(lists@.subrange(0, i + 1).drop_last() =~= lists@.subrange(0, i as int));
                }
                i = i + 1;
            }
            proof {
                assert(lists@.subrange(0, lists@.len() as int) =~= lists@);
            }
        }
    }

    /// How many validators' latest attestations are of one of the given
    /// blocks.
    pub fn score(&self, blocks: &[H256]) -> (r: usize)
        ensures
            r == score_spec(self.data@, hash_views(blocks@)),
    {
        let mut count: usize = 0;
        let mut i: usize = 0;
        while i < self.data.len()
            invariant
                i <= self.data@.len(),
                count <= i,
                count == score_spec(self.data@.subrange(0, i as int), hash_views(blocks@)),
            decreases self.data@.len() - i,
        {
            proof {
                assert(self.data@.subrange(0, i + 1).drop_last() =~= self.data@.subrange(0, i as int));
            }
            if hash_listed(blocks, &self.data[i].1.1) {
                count = count + 1;
            }
            i = i + 1;
        }
        proof {
            assert(self.data@.subrange(0, self.data@.len() as int) =~= self.data@);
        }
        count
    }

    /// Whether the head built on `new_parent` is preferred to the current
    /// head, given the blocks each route enacts from the common start and
    /// the heights of the current head and of the new parent.
    pub fn is_new_best(&self, current_enacted: &[H256], new_enacted: &[H256], current_height: u64, new_parent_height: u64) -> (r: bool)
        requires
            new_parent_height < u64::MAX,
        ensures
            r == prefers_new_spec(
                score_spec(self.data@, hash_views(current_enacted@)),
                score_spec(self.data@, hash_views(new_enacted@)),
                current_height as nat,
                (new_parent_height + 1) as nat,
            ),
    {
        let current_score = self.score(current_enacted);
        let new_score = self.score(new_enacted);
        let new_height = new_parent_height + 1;
        if current_score > new_score {
            false
        } else if current_score < new_score {
            true
        } else {
            new_height > current_height
        }
    }
}

/// The leaf with the highest justified slot, the last one among equals;
/// `None` when there are no leaves.
pub open spec fn highest_justified_spec(leaves: Seq<(H256, u64)>) -> Option<(H256, u64)>
    decreases leaves.len(),
{
    if leaves.len() == 0 {
        None
    } else {
        match highest_justified_spec(leaves.drop_last()) {
            Some(best) => if leaves.last().1 >= best.1 { Some(leaves.last()) } else { Some(best) },
            None => Some(leaves.last()),
        }
    }
}

/// The leaf whose justified slot is highest; among equal slots the last.
pub fn highest_justified_leaf(leaves: &[(H256, u64)]) -> (r: Option<(H256, u64)>)
    ensures
        r == highest_justified_spec(leaves@),
{
    let mut best: Option<(H256, u64)> = None;
    let mut i: usize = 0;
    while i < leaves.len()
        invariant
            i <= leaves@.len(),
            best == highest_justified_spec(leaves@.subrange(0, i as int)),
        decreases leaves@.len() - i,
    {
        proof {
            assert(leaves@.subrange(0, i + 1).drop_last() =~= leaves@.subrange(0, i as int));
        }
        let leaf = leaves[i];
        best = match best {
            Some(b) => if leaf.1 >= b.1 { Some(leaf) } else { Some(b) },
            None => Some(leaf),
        };
        i = i + 1;
    }
    proof {
        assert(leaves@.subrange(0, leaves@.len() as int) =~= leaves@);
    }
    best
}

} // verus!
