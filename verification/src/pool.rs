//! The pool of attestations waiting to be included in a block, grouped by
//! the root of the data they attest. A new attestation is aggregated into
//! the first existing one within whose length it sets no bit; when it sets
//! a bit within the length of each, it is kept beside them.

use vstd::prelude::*;
use crate::hash::H256;
use crate::shuffle::hash_eq;

verus! {

/// An attestation as the pool keeps it: the data it attests, as encoded,
/// the bits of the validators that signed it, their custody bits and the
/// aggregate signature.
#[derive(Debug)]
pub struct PoolAttestation {
    /// The encoded attestation data.
    pub data: Vec<u8>,
    /// One bit per committee member who signed.
    pub aggregation_bits: Vec<bool>,
    /// One custody bit per committee member.
    pub custody_bits: Vec<bool>,
    /// The aggregate signature.
    pub signature: Vec<u8>,
}

/// An attestation's fields, as sequences.
pub type AttestationView = (Seq<u8>, Seq<bool>, Seq<bool>, Seq<u8>);

impl View for PoolAttestation {
    type V = AttestationView;

    open spec fn view(&self) -> AttestationView {
        (self.data@, self.aggregation_bits@, self.custody_bits@, self.signature@)
    }
}

/// The attestations of one data root, as the pool holds them.
pub type PoolEntry = (H256, Vec<PoolAttestation>);

/// The views of a list of attestations.
pub open spec fn attestation_views(s: Seq<PoolAttestation>) -> Seq<AttestationView> {
    s.map_values(|a: PoolAttestation| a@)
}

/// The attestations kept under a data root, if any; a later entry wins.
pub open spec fn lookup(s: Seq<PoolEntry>, root: Seq<u8>) -> Option<Seq<AttestationView>>
    decreases s.len(),
{
    if s.len() == 0 {
        None
    } else if s.last().0@ == root {
        Some(attestation_views(s.last().1@))
    } else {
        lookup(s.drop_last(), root)
    }
}

/// No data root occurs twice.
pub open spec fn roots_distinct(s: Seq<PoolEntry>) -> bool {
    forall|i: int, j: int| 0 <= i < j < s.len() ==> (#[trigger] s[i]).0@ != (#[trigger] s[j]).0@
}

/// Whether the new bits are set at some position of an existing
/// attestation's bits.
pub open spec fn has_duplicate(existing: AttestationView, bits: Seq<bool>) -> bool {
    exists|i: int| 0 <= i < existing.1.len() && #[trigger] bits[i]
}

/// The first existing attestation within whose length the new bits set
/// no bit.
pub open spec fn merge_index(existings: Seq<AttestationView>, bits: Seq<bool>) -> Option<nat>
    decreases existings.len(),
{
    if existings.len() == 0 {
        None
    } else if !has_duplicate(existings[0], bits) {
        Some(0)
    } else {
        match merge_index(existings.drop_first(), bits) {
            Some(k) => Some(k + 1),
            None => None,
        }
    }
}

/// Where the bits of a new attestation under a data root go: into the
/// attestation at the given position, or nowhere when it is kept apart.
pub open spec fn merge_target_spec(s: Seq<PoolEntry>, root: Seq<u8>, bits: Seq<bool>) -> Option<nat> {
    match lookup(s, root) {
        Some(existings) => merge_index(existings, bits),
        None => None,
    }
}

/// The bytes of a signature, if one is given.
pub open spec fn signature_view(s: Option<Vec<u8>>) -> Option<Seq<u8>> {
    match s {
        Some(v) => Some(v@),
        None => None,
    }
}

/// The bytes of a signature, empty when none is given.
pub open spec fn signature_of(s: Option<Vec<u8>>) -> Seq<u8> {
    match s {
        Some(v) => v@,
        None => Seq::empty(),
    }
}

/// Bitwise or of two bit lists, over the first one's positions.
pub open spec fn or_bits(a: Seq<bool>, b: Seq<bool>) -> Seq<bool> {
    Seq::new(a.len(), |i: int| a[i] || b[i])
}

/// An existing attestation with a new one aggregated into it.
pub open spec fn merged(existing: AttestationView, a: AttestationView, signature: Seq<u8>) -> AttestationView {
    (existing.0, or_bits(existing.1, a.1), or_bits(existing.2, a.2), signature)
}

/// The attestations under a data root once a new one is pushed.
pub open spec fn pushed(existings: Seq<AttestationView>, a: AttestationView, signature: Seq<u8>) -> Seq<AttestationView> {
    match merge_index(existings, a.1) {
        Some(k) => existings.update(k as int, merged(existings[k as int], a, signature)),
        None => existings.push(a),
    }
}

/// The new bits reach as far as the bits of each existing attestation
/// they are checked against: all of them up to the first within whose
/// length they set no bit.
pub open spec fn bits_cover(existings: Seq<AttestationView>, bits: Seq<bool>) -> bool {
    forall|j: int| 0 <= j < existings.len() && (forall|m: int| 0 <= m < j ==> has_duplicate(#[trigger] existings[m], bits))
        ==> bits.len() >= (#[trigger] existings[j]).1.len()
}

/// The inputs on which pushing is defined: the new bits cover the existing
/// attestations they are checked against, and the one they are aggregated
/// into has as many bits and custody bits, the new custody bits being all
/// unset, with the aggregate signature given.
pub open spec fn push_defined(existings: Seq<AttestationView>, a: AttestationView, aggregated: Option<Seq<u8>>) -> bool {
    &&& bits_cover(existings, a.1)
    &&& match merge_index(existings, a.1) {
        Some(k) => {
            &&& a.1.len() == existings[k as int].1.len()
            &&& a.2.len() == existings[k as int].2.len()
            &&& forall|i: int| 0 <= i < a.2.len() ==> !(#[trigger] a.2[i])
            &&& aggregated is Some
        },
        None => true,
    }
}

proof fn lemma_lookup_found(s: Seq<PoolEntry>, i: int)
    requires
        roots_distinct(s),
        0 <= i < s.len(),
    ensures
        lookup(s, s[i].0@) == Some(attestation_views(s[i].1@)),
    decreases s.len(),
{
    if i < s.len() - 1 {
        assert(s.drop_last()[i] == s[i]);
        lemma_lookup_found(s.drop_last(), i);
    }
}

proof fn lemma_lookup_absent(s: Seq<PoolEntry>, root: Seq<u8>)
    requires
        forall|j: int| 0 <= j < s.len() ==> (#[trigger] s[j]).0@ != root,
    ensures
        lookup(s, root) is None,
    decreases s.len(),
{
    if s.len() > 0 {
        assert(s[s.len() - 1].0@ != root);
        lemma_lookup_absent(s.drop_last(), root);
    }
}

/// Setting the attestations under the root of entry `i` changes that root
/// only.
proof fn lemma_lookup_update(s: Seq<PoolEntry>, i: int, list: Vec<PoolAttestation>, root: Seq<u8>)
    requires
        roots_distinct(s),
        0 <= i < s.len(),
    ensures
        roots_distinct(s.update(i, (s[i].0, list))),
        lookup(s.update(i, (s[i].0, list)), root)
            == if root == s[i].0@ { Some(attestation_views(list@)) } else { lookup(s, root) },
    decreases s.len(),
{
    let u = s.update(i, (s[i].0, list));
    assert(roots_distinct(u));
    if i == s.len() - 1 {
        assert(u.drop_last() =~= s.drop_last());
    } else {
        assert(u.drop_last() =~= s.drop_last().update(i, (s[i].0, list)));
        assert(s.drop_last()[i] == s[i]);
        lemma_lookup_update(s.drop_last(), i, list, root);
        if root == s[i].0@ {
            assert(s[s.len() - 1].0@ != root);
        }
    }
}

/// Removing entry `i` removes its root only.
proof fn lemma_lookup_remove(s: Seq<PoolEntry>, i: int, root: Seq<u8>)
    requires
        roots_distinct(s),
        0 <= i < s.len(),
    ensures
        roots_distinct(s.remove(i)),
        lookup(s.remove(i), root) == if root == s[i].0@ { None } else { lookup(s, root) },
    decreases s.len(),
{
    let r = s.remove(i);
    assert(roots_distinct(r)) by {
        assert forall|a: int, b: int| 0 <= a < b < r.len() implies (#[trigger] r[a]).0@ != (#[trigger] r[b]).0@ by {
            let a2 = if a < i { a } else { a + 1 };
            let b2 = if b < i { b } else { b + 1 };
            assert(r[a] == s[a2]);
            assert(r[b] == s[b2]);
        }
    }
    if i == s.len() - 1 {
        assert(r =~= s.drop_last());
        if root == s[i].0@ {
            assert forall|j: int| 0 <= j < r.len() implies (#[trigger] r[j]).0@ != root by {
                assert(r[j] == s[j]);
            }
            lemma_lookup_absent(r, root);
        }
    } else {
        assert(r.drop_last() =~= s.drop_last().remove(i));
        assert(r.last() == s.last());
        assert(s.drop_last()[i] == s[i]);
        lemma_lookup_remove(s.drop_last(), i, root);
        if root == s[i].0@ {
            assert(s[s.len() - 1].0@ != root);
        }
    }
}

/// A copy of a list of plain values.
fn copy_vec<T: Copy>(v: &Vec<T>) -> (r: Vec<T>)
    ensures
        r@ == v@,
{
    let mut r: Vec<T> = Vec::new();
    let mut i: usize = 0;
    while i < v.len()
        invariant
            i <= v@.len(),
            r@ == v@.subrange(0, i as int),
        decreases v@.len() - i,
    {
        r.push(v[i]);
        i = i + 1;
        proof {
            assert(r@ =~= v@.subrange(0, i as int));
        }
    }
    proof {
        assert(v@.subrange(0, v@.len() as int) =~= v@);
    }
    r
}

impl PoolAttestation {
    /// A copy of the attestation.
    pub fn copy(&self) -> (r: PoolAttestation)
        ensures
            r@ == self@,
    {
        PoolAttestation {
            data: copy_vec(&self.data),
            aggregation_bits: copy_vec(&self.aggregation_bits),
            custody_bits: copy_vec(&self.custody_bits),
            signature: copy_vec(&self.signature),
        }
    }
}

/// Whether the new bits are set at some position of the existing
/// attestation's bits.
fn duplicate_in(existing: &PoolAttestation, bits: &[bool]) -> (r: bool)
    requires
        bits@.len() >= existing.aggregation_bits@.len(),
    ensures
        r == has_duplicate(existing@, bits@),
{
    let mut has_duplicate = false;
    let mut i: usize = 0;
    while i < existing.aggregation_bits.len()
        invariant
            i <= existing.aggregation_bits@.len(),
            bits@.len() >= existing.aggregation_bits@.len(),
            has_duplicate == exists|j: int| 0 <= j < i && #[trigger] bits@[j],
        decreases existing.aggregation_bits@.len() - i,
    {
        if bits[i] {
            has_duplicate = true;
        }
        i = i + 1;
    }
    has_duplicate
}

/// The first existing attestation within whose length the bits set no
/// bit, checking each in turn.
fn first_mergeable(existings: &Vec<PoolAttestation>, bits: &[bool]) -> (r: Option<usize>)
    requires
        bits_cover(attestation_views(existings@), bits@),
    ensures
        match r {
            Some(k) => k < existings@.len() && merge_index(attestation_views(existings@), bits@) == Some(k as nat),
            None => merge_index(attestation_views(existings@), bits@) is None,
        },
{
    let ghost views = attestation_views(existings@);
    let mut i: usize = 0;
    proof {
        assert(views.subrange(0, views.len() as int) =~= views);
    }
    while i < existings.len()
        invariant
            i <= existings@.len(),
            views == attestation_views(existings@),
            forall|m: int| 0 <= m < i ==> has_duplicate(#[trigger] views[m], bits@),
            bits_cover(views, bits@),
            merge_index(views, bits@) == match merge_index(views.subrange(i as int, views.len() as int), bits@) {
                Some(k) => Some((k + i) as nat),
                None => None::<nat>,
            },
        decreases existings@.len() - i,
    {
        let ghost rest = views.subrange(i as int, views.len() as int);
        proof {
            assert(rest[0] == existings@[i as int]@);
            assert(views[i as int] == existings@[i as int]@);
            assert(rest.drop_first() =~= views.subrange(i + 1, views.len() as int));
        }
        if !duplicate_in(&existings[i], bits) {
            return Some(i);
        }
        i = i + 1;
    }
    proof {
        assert(views.subrange(i as int, views.len() as int) =~= Seq::<AttestationView>::empty());
    }
    None
}

/// The pool of attestations waiting for inclusion.
#[derive(Debug)]
pub struct AttestationPool {
    /// The attestations of each data root, one entry per root.
    pub pool: Vec<PoolEntry>,
}

impl AttestationPool {
    /// One entry per data root.
    pub open spec fn wf(&self) -> bool {
        roots_distinct(self.pool@)
    }

    /// The attestations under a data root, if any.
    pub open spec fn attestations_under(&self, root: Seq<u8>) -> Option<Seq<AttestationView>> {
        lookup(self.pool@, root)
    }

    /// An empty pool.
    pub fn new() -> (r: Self)
        ensures
            r.wf(),
            forall|root: Seq<u8>| r.attestations_under(root) is None,
    {
        AttestationPool { pool: Vec::new() }
    }

    /// The position of the entry of a data root.
    fn position(&self, root: &H256) -> (r: Option<usize>)
        requires
            self.wf(),
        ensures
            match r {
                Some(i) => i < self.pool@.len() && self.pool@[i as int].0@ == root@,
                None => forall|j: int| 0 <= j < self.pool@.len() ==> (#[trigger] self.pool@[j]).0@ != root@,
            },
    {
        let mut i: usize = 0;
        while i < self.pool.len()
            invariant
                i <= self.pool@.len(),
                forall|j: int| 0 <= j < i ==> (#[trigger] self.pool@[j]).0@ != root@,
            decreases self.pool@.len() - i,
        {
            if hash_eq(&self.pool[i].0, root) {
                return Some(i);
            }
            i = i + 1;
        }
        None
    }

    /// The position of the attestation, under the given data root, that an
    /// attestation with these bits would be aggregated into.
    pub fn merge_target(&self, hash: &H256, aggregation_bits: &[bool]) -> (r: Option<usize>)
        requires
            self.wf(),
            match self.attestations_under(hash@) {
                Some(existings) => bits_cover(existings, aggregation_bits@),
                None => true,
            },
        ensures
            match r {
                Some(k) => merge_target_spec(self.pool@, hash@, aggregation_bits@) == Some(k as nat),
                None => merge_target_spec(self.pool@, hash@, aggregation_bits@) is None,
            },
    {
        match self.position(hash) {
            Some(i) => {
                proof {
                    lemma_lookup_found(self.pool@, i as int);
                }
                first_mergeable(&self.pool[i].1, aggregation_bits)
            },
            None => {
                proof {
                    lemma_lookup_absent(self.pool@, hash@);
                }
                None
            },
        }
    }

    /// Add an attestation under its data root: aggregated into the first
    /// attestation there within whose length it sets no bit, with the bits or-ed
    /// and the given aggregate signature, or else kept beside them.
    pub fn push(&mut self, hash: H256, attestation: PoolAttestation, aggregated_signature: Option<Vec<u8>>)
        requires
            old(self).wf(),
            match old(self).attestations_under(hash@) {
                Some(existings) => push_defined(existings, attestation@, signature_view(aggregated_signature)),
                None => true,
            },
        ensures
            final(self).wf(),
            final(self).attestations_under(hash@) == Some(match old(self).attestations_under(hash@) {
                Some(existings) => pushed(existings, attestation@, signature_of(aggregated_signature)),
                None => seq![attestation@],
            }),
            forall|root: Seq<u8>| root != hash@ ==> final(self).attestations_under(root) == old(self).attestations_under(root),
            ({
                let before = match old(self).attestations_under(hash@) {
                    Some(existings) => existings,
                    None => Seq::<AttestationView>::empty(),
                };
                let after = final(self).attestations_under(hash@).unwrap();
                same_data(before, attestation@) ==> {
                    &&& covered(after, attestation@)
                    &&& forall|j: int| 0 <= j < before.len() ==> covered(after, #[trigger] before[j])
                }
            }),
    {
        match self.position(&hash) {
            None => {
                let ghost before = self.pool@;
                let mut list: Vec<PoolAttestation> = Vec::new();
                list.push(attestation);
                self.pool.push((hash, list));
                proof {
                    assert(self.pool@.drop_last() =~= before);
                    assert(attestation_views(list@) =~= seq![attestation@]);
                    assert forall|a: int, b: int| 0 <= a < b < self.pool@.len() implies
                        (#[trigger] self.pool@[a]).0@ != (#[trigger] self.pool@[b]).0@ by {
                        if b == before.len() {
                            assert(self.pool@[a] == before[a]);
                        }
                    }
                    lemma_lookup_absent(before, hash@);
                    assert(bits_within(attestation@.1, attestation@.1));
                    assert(seq![attestation@][0] == attestation@);
                }
            },
            Some(i) => {
                let ghost before = self.pool@;
                proof {
                    lemma_lookup_found(before, i as int);
                }
                let (root, mut list) = self.pool.remove(i);
                let ghost existings = attestation_views(list@);
                proof {
                    assert(list == before[i as int].1);
                    assert(root == before[i as int].0);
                    assert(lookup(before, hash@) == Some(existings));
                }
                match first_mergeable(&list, &attestation.aggregation_bits) {
                    Some(k) => {
                        proof {
                            lemma_merge_index_found(existings, attestation@.1);
                        }
                        let ghost old_list = list@;
                        let mut existing = list.remove(k);
                        proof {
                            assert(existings == attestation_views(old_list));
                            assert(existing == old_list[k as int]);
                            assert(existings[k as int] == existing@);
                            assert(merge_index(existings, attestation@.1) == Some(k as nat));
                            assert(push_defined(existings, attestation@, signature_view(aggregated_signature)));
                            assert(attestation@.1.len() == existings[k as int].1.len());
                        }
                        let mut b: usize = 0;
                        while b < attestation.aggregation_bits.len()
                            invariant
                                b <= attestation.aggregation_bits@.len(),
                                attestation.aggregation_bits@.len() == existing.aggregation_bits@.len(),
                                existing.aggregation_bits@.len() == existings[k as int].1.len(),
                                existing.data@ == existings[k as int].0,
                                existing.custody_bits@ == existings[k as int].2,
                                forall|m: int| 0 <= m < b ==> existing.aggregation_bits@[m]
                                    == (existings[k as int].1[m] || attestation.aggregation_bits@[m]),
                                forall|m: int| b <= m < existing.aggregation_bits@.len() ==> existing.aggregation_bits@[m]
                                    == existings[k as int].1[m],
                            decreases attestation.aggregation_bits@.len() - b,
                        {
                            let bit = existing.aggregation_bits[b] || attestation.aggregation_bits[b];
                            existing.aggregation_bits.set(b, bit);
                            b = b + 1;
                        }
                        let ghost merged_bits = or_bits(existings[k as int].1, attestation@.1);
                        proof {
                            assert(existing.aggregation_bits@ =~= merged_bits);
                        }
                        let mut c: usize = 0;
                        while c < attestation.custody_bits.len()
                            invariant
                                c <= attestation.custody_bits@.len(),
                                attestation.custody_bits@.len() == existing.custody_bits@.len(),
                                existing.custody_bits@.len() == existings[k as int].2.len(),
                                existing.aggregation_bits@ == merged_bits,
                                existing.data@ == existings[k as int].0,
                                forall|m: int| 0 <= m < c ==> existing.custody_bits@[m]
                                    == (existings[k as int].2[m] || attestation.custody_bits@[m]),
                                forall|m: int| c <= m < existing.custody_bits@.len() ==> existing.custody_bits@[m]
                                    == existings[k as int].2[m],
                            decreases attestation.custody_bits@.len() - c,
                        {
                            let bit = existing.custody_bits[c] || attestation.custody_bits[c];
                            existing.custody_bits.set(c, bit);
                            c = c + 1;
                        }
                        proof {
                            assert(existing.custody_bits@ =~= or_bits(existings[k as int].2, attestation@.2));
                        }
                        let ghost signature = signature_of(aggregated_signature);
                        match aggregated_signature {
                            Some(s) => {
                                existing.signature = s;
                            },
                            None => {},
                        }
                        proof {
                            assert(existing@ == merged(existings[k as int], attestation@, signature));
                        }
                        list.insert(k, existing);
                        proof {
                            assert(list@ =~= old_list.update(k as int, existing));
                            assert(attestation_views(list@) =~= pushed(existings, attestation@, signature));
                        }
                    },
                    None => {
                        list.push(attestation);
                        proof {
                            assert(attestation_views(list@) =~= existings.push(attestation@));
                        }
                    },
                }
                self.pool.insert(i, (root, list));
                proof {
                    assert(self.pool@ == before.update(i as int, (before[i as int].0, list)));
                    assert forall|r: Seq<u8>| true implies lookup(self.pool@, r)
                        == if r == before[i as int].0@ { Some(attestation_views(list@)) } else { lookup(before, r) } by {
                        lemma_lookup_update(before, i as int, list, r);
                    }
                    lemma_lookup_update(before, i as int, list, hash@);
                    assert(push_defined(existings, attestation@, Some(signature_of(aggregated_signature))));
                    if same_data(existings, attestation@) {
                        lemma_push_covers(existings, attestation@, signature_of(aggregated_signature));
                    }
                }
            },
        }
    }

    /// Drop the attestations under a data root.
    pub fn pop(&mut self, key: &H256)
        requires
            old(self).wf(),
        ensures
            final(self).wf(),
            final(self).attestations_under(key@) is None,
            forall|root: Seq<u8>| root != key@ ==> final(self).attestations_under(root) == old(self).attestations_under(root),
    {
        match self.position(key) {
            Some(i) => {
                let ghost before = self.pool@;
                self.pool.remove(i);
                proof {
                    assert forall|r: Seq<u8>| true implies lookup(self.pool@, r)
                        == if r == before[i as int].0@ { None } else { lookup(before, r) } by {
                        lemma_lookup_remove(before, i as int, r);
                    }
                    lemma_lookup_remove(before, i as int, key@);
                }
            },
            None => {
                proof {
                    lemma_lookup_absent(self.pool@, key@);
                }
            },
        }
    }

    /// Every attestation of the pool with its data root, root by root.
    pub fn iter(&self) -> (r: Vec<(H256, PoolAttestation)>)
        ensures
            r@.len() == pool_size(self.pool@),
            forall|i: int| 0 <= i < r@.len() ==> (#[trigger] r@[i]).0 == pool_flat(self.pool@)[i].0
                && r@[i].1@ == pool_flat(self.pool@)[i].1,
    {
        let mut r: Vec<(H256, PoolAttestation)> = Vec::new();
        let mut i: usize = 0;
        while i < self.pool.len()
            invariant
                i <= self.pool@.len(),
                r@.len() == pool_size(self.pool@.subrange(0, i as int)),
                forall|m: int| 0 <= m < r@.len() ==> (#[trigger] r@[m]).0 == pool_flat(self.pool@.subrange(0, i as int))[m].0
                    && r@[m].1@ == pool_flat(self.pool@.subrange(0, i as int))[m].1,
            decreases self.pool@.len() - i,
        {
            let ghost prefix = self.pool@.subrange(0, i as int);
            let ghost start = r@;
            let entry = &self.pool[i];
            let mut j: usize = 0;
            while j < entry.1.len()
                invariant
                    j <= entry.1@.len(),
                    r@.len() == start.len() + j,
                    forall|m: int| 0 <= m < start.len() ==> r@[m] == start[m],
                    forall|m: int| 0 <= m < j ==> (#[trigger] r@[start.len() + m]).0 == entry.0
                        && r@[start.len() + m].1@ == entry.1@[m]@,
                decreases entry.1@.len() - j,
            {
                r.push((entry.0, entry.1[j].copy()));
                j = j + 1;
            }
            proof {
                assert(self.pool@.subrange(0, i + 1).drop_last() =~= prefix);
                assert(self.pool@.subrange(0, i + 1).last() == *entry);
                let flat = pool_flat(self.pool@.subrange(0, i + 1));
                assert(flat == pool_flat(prefix) + entry_flat(*entry));
                assert(pool_flat(prefix).len() == start.len());
                assert forall|m: int| 0 <= m < r@.len() implies (#[trigger] r@[m]).0 == flat[m].0
                    && r@[m].1@ == flat[m].1 by {
                    if m >= start.len() {
                        let jj = m - start.len();
                        assert(r@[start.len() + jj] == r@[m]);
                        assert(flat[m] == entry_flat(*entry)[jj]);
                    } else {
                        assert(r@[m] == start[m]);
                        assert(flat[m] == pool_flat(prefix)[m]);
                    }
                }
            }
            i = i + 1;
        }
        proof {
            assert(self.pool@.subrange(0, self.pool@.len() as int) =~= self.pool@);
        }
        r
    }
}

/// The attestations of one entry, each with the entry's root.
pub open spec fn entry_flat(e: PoolEntry) -> Seq<(H256, AttestationView)> {
    Seq::new(e.1@.len(), |j: int| (e.0, e.1@[j]@))
}

/// Every attestation of a pool with its data root, entry by entry.
pub open spec fn pool_flat(s: Seq<PoolEntry>) -> Seq<(H256, AttestationView)>
    decreases s.len(),
{
    if s.len() == 0 {
        Seq::empty()
    } else {
        pool_flat(s.drop_last()) + entry_flat(s.last())
    }
}

/// How many attestations a pool holds.
pub open spec fn pool_size(s: Seq<PoolEntry>) -> nat {
    pool_flat(s).len()
}

/// The attestation the bits are merged into lies in the list.
proof fn lemma_merge_index_found(existings: Seq<AttestationView>, bits: Seq<bool>)
    requires
        merge_index(existings, bits) is Some,
    ensures
        merge_index(existings, bits)->0 < existings.len(),
    decreases existings.len(),
{
    if has_duplicate(existings[0], bits) {
        lemma_merge_index_found(existings.drop_first(), bits);
    }
}

/// The position of the first occurrence of `v`, or the length.
pub open spec fn position_of(committee: Seq<u64>, v: u64) -> nat
    decreases committee.len(),
{
    if committee.len() == 0 {
        0
    } else if committee[0] == v {
        0
    } else {
        1 + position_of(committee.drop_first(), v)
    }
}

proof fn lemma_position_of(committee: Seq<u64>, v: u64)
    ensures
        position_of(committee, v) <= committee.len(),
        position_of(committee, v) < committee.len() ==> committee[position_of(committee, v) as int] == v,
        forall|j: int| 0 <= j < position_of(committee, v) ==> committee[j] != v,
    decreases committee.len(),
{
    if committee.len() > 0 && committee[0] != v {
        let rest = committee.drop_first();
        lemma_position_of(rest, v);
        assert forall|j: int| 0 <= j < position_of(committee, v) implies committee[j] != v by {
            if j > 0 {
                assert(committee[j] == rest[j - 1]);
            }
        }
    }
}

/// The bits of a validator's own attestation for its committee: the
/// aggregation bit at its first position in the committee, and no custody
/// bits.
pub fn own_attestation_bits(committee: &[u64], validator_index: u64) -> (r: (Vec<bool>, Vec<bool>))
    requires
        committee@.contains(validator_index),
    ensures
        r.0@.len() == committee@.len(),
        r.1@.len() == committee@.len(),
        forall|i: int| 0 <= i < committee@.len() ==> r.0@[i] == (i == position_of(committee@, validator_index)),
        forall|i: int| 0 <= i < committee@.len() ==> !r.1@[i],
{
    proof {
        lemma_position_of(committee@, validator_index);
        let k = choose|k: int| 0 <= k < committee@.len() && committee@[k] == validator_index;
        assert(position_of(committee@, validator_index) <= k);
    }
    let mut index_into_committee: usize = 0;
    while index_into_committee < committee.len() && committee[index_into_committee] != validator_index
        invariant
            index_into_committee <= position_of(committee@, validator_index),
            position_of(committee@, validator_index) < committee@.len(),
            committee@[position_of(committee@, validator_index) as int] == validator_index,
            forall|j: int| 0 <= j < position_of(committee@, validator_index) ==> committee@[j] != validator_index,
        decreases committee@.len() - index_into_committee,
    {
        index_into_committee = index_into_committee + 1;
    }
    let mut aggregation_bits: Vec<bool> = Vec::new();
    let mut custody_bits: Vec<bool> = Vec::new();
    let mut i: usize = 0;
    while i < committee.len()
        invariant
            i <= committee@.len(),
            index_into_committee == position_of(committee@, validator_index),
            aggregation_bits@.len() == i,
            custody_bits@.len() == i,
            forall|j: int| 0 <= j < i ==> aggregation_bits@[j] == (j == index_into_committee),
            forall|j: int| 0 <= j < i ==> !custody_bits@[j],
        decreases committee@.len() - i,
    {
        aggregation_bits.push(i == index_into_committee);
        custody_bits.push(false);
        i = i + 1;
    }
    (aggregation_bits, custody_bits)
}

/// Every bit set in `a` is set in `x`.
pub open spec fn bits_within(a: Seq<bool>, x: Seq<bool>) -> bool {
    forall|i: int| 0 <= i < a.len() && #[trigger] a[i] ==> i < x.len() && x[i]
}

/// Every attestation of the list attests the data of `a`.
pub open spec fn same_data(list: Seq<AttestationView>, a: AttestationView) -> bool {
    forall|j: int| 0 <= j < list.len() ==> (#[trigger] list[j]).0 == a.0
}

/// Some attestation of the list attests the same data with all the bits of `a`.
pub open spec fn covered(list: Seq<AttestationView>, a: AttestationView) -> bool {
    exists|j: int| 0 <= j < list.len() && (#[trigger] list[j]).0 == a.0 && bits_within(a.1, list[j].1)
}

/// Pushing an attestation under a root whose attestations all attest the
/// same data leaves its bits covered, and every attestation there before
/// stays covered: no signer is lost.
pub proof fn lemma_push_covers(existings: Seq<AttestationView>, a: AttestationView, signature: Seq<u8>)
    requires
        push_defined(existings, a, Some(signature)),
        same_data(existings, a),
    ensures
        covered(pushed(existings, a, signature), a),
        forall|j: int| 0 <= j < existings.len() ==> covered(pushed(existings, a, signature), #[trigger] existings[j]),
{
    let p = pushed(existings, a, signature);
    match merge_index(existings, a.1) {
        Some(k) => {
            lemma_merge_index_found(existings, a.1);
            let m = merged(existings[k as int], a, signature);
            assert(p[k as int] == m);
            assert(bits_within(a.1, m.1));
            assert(covered(p, a));
            assert forall|j: int| 0 <= j < existings.len() implies covered(p, #[trigger] existings[j]) by {
                if j == k {
                    assert(bits_within(existings[j].1, m.1));
                    assert(p[j] == m);
                } else {
                    assert(p[j] == existings[j]);
                    assert(bits_within(existings[j].1, p[j].1));
                }
            }
        },
        None => {
            assert(p[existings.len() as int] == a);
            assert(bits_within(a.1, a.1));
            assert(covered(p, a));
            assert forall|j: int| 0 <= j < existings.len() implies covered(p, #[trigger] existings[j]) by {
                assert(p[j] == existings[j]);
                assert(bits_within(existings[j].1, p[j].1));
            }
        },
    }
}

} // verus!
