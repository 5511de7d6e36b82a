//! A small map keyed by an id and a number, kept as a list with one entry per key.

use vstd::prelude::*;

verus! {

/// A key: an id and a number.
pub type PairKey = (u64, usize);

/// The map a list of entries stands for; a later entry wins.
pub open spec fn map_of<V>(s: Seq<(PairKey, V)>) -> Map<PairKey, V>
    decreases s.len(),
{
    if s.len() == 0 {
        Map::empty()
    } else {
        map_of(s.drop_last()).insert(s.last().0, s.last().1)
    }
}

/// No key occurs twice.
pub open spec fn keys_distinct<V>(s: Seq<(PairKey, V)>) -> bool {
    forall|i: int, j: int| 0 <= i < j < s.len() ==> (#[trigger] s[i]).0 != (#[trigger] s[j]).0
}

/// The keys of the map are those of the entries, each with its entry's value.
pub proof fn lemma_map_of<V>(s: Seq<(PairKey, V)>)
    requires
        keys_distinct(s),
    ensures
        forall|k: PairKey| #[trigger] map_of(s).contains_key(k) <==> exists|i: int| 0 <= i < s.len() && s[i].0 == k,
        forall|i: int| 0 <= i < s.len() ==> #[trigger] map_of(s)[s[i].0] == s[i].1,
    decreases s.len(),
{
    if s.len() > 0 {
        let t = s.drop_last();
        assert(keys_distinct(t));
        lemma_map_of(t);
        assert forall|k: PairKey| #[trigger] map_of(s).contains_key(k) <==> exists|i: int| 0 <= i < s.len() && s[i].0 == k by {
            assert(map_of(s).contains_key(k) == (k == s.last().0 || map_of(t).contains_key(k)));
            if map_of(t).contains_key(k) {
                let i = choose|i: int| 0 <= i < t.len() && t[i].0 == k;
                assert(s[i] == t[i]);
            }
            if k == s.last().0 {
                assert(s[s.len() - 1].0 == k);
            }
            if exists|i: int| 0 <= i < s.len() && s[i].0 == k {
                let i = choose|i: int| 0 <= i < s.len() && s[i].0 == k;
                if i < t.len() {
                    assert(t[i] == s[i]);
                    assert(map_of(t).contains_key(k));
                }
            }
        }
        assert forall|i: int| 0 <= i < s.len() implies #[trigger] map_of(s)[s[i].0] == s[i].1 by {
            if i < s.len() - 1 {
                assert(t[i] == s[i]);
                assert(s[i].0 != s[s.len() - 1].0);
                assert(map_of(t)[t[i].0] == t[i].1);
                assert(map_of(s)[s[i].0] == map_of(t)[s[i].0]);
            }
        }
    }
}

/// Replacing the value of an entry sets that key in the map.
pub proof fn lemma_map_of_update<V>(s: Seq<(PairKey, V)>, i: int, v: V)
    requires
        keys_distinct(s),
        0 <= i < s.len(),
    ensures
        keys_distinct(s.update(i, (s[i].0, v))),
        map_of(s.update(i, (s[i].0, v))) == map_of(s).insert(s[i].0, v),
{
    let u = s.update(i, (s[i].0, v));
    assert(keys_distinct(u));
    lemma_map_of(s);
    lemma_map_of(u);
    assert forall|k: PairKey| #[trigger] map_of(u).contains_key(k) <==> map_of(s).insert(s[i].0, v).contains_key(k) by {
        if map_of(s).contains_key(k) {
            let j = choose|j: int| 0 <= j < s.len() && s[j].0 == k;
            assert(u[j].0 == k);
        }
        if map_of(u).contains_key(k) {
            let j = choose|j: int| 0 <= j < u.len() && u[j].0 == k;
            assert(s[j].0 == k);
        }
        if k == s[i].0 {
            assert(u[i].0 == k);
        }
    }
    assert forall|k: PairKey| map_of(u).contains_key(k) implies #[trigger] map_of(u)[k] == map_of(s).insert(s[i].0, v)[k] by {
        let j = choose|j: int| 0 <= j < u.len() && u[j].0 == k;
        assert(map_of(u)[u[j].0] == u[j].1);
        if j != i {
            assert(map_of(s)[s[j].0] == s[j].1);
        }
    }
    assert(map_of(u) =~= map_of(s).insert(s[i].0, v));
}

/// A map keyed by an id and a number.
#[derive(Clone, Debug)]
pub struct PairMap<V> {
    /// The entries, one per key.
    pub entries: Vec<(PairKey, V)>,
}

impl<V: Copy> PairMap<V> {
    /// The map the entries stand for.
    pub open spec fn map(&self) -> Map<PairKey, V> {
        map_of(self.entries@)
    }

    /// One entry per key.
    pub open spec fn wf(&self) -> bool {
        keys_distinct(self.entries@)
    }

    /// The empty map.
    pub fn new() -> (r: Self)
        ensures
            r.wf(),
            r.map() == Map::<PairKey, V>::empty(),
    {
        PairMap { entries: Vec::new() }
    }

    /// The value of `k`, if it has one.
    pub fn get(&self, k: PairKey) -> (r: Option<V>)
        requires
            self.wf(),
        ensures
            r == if self.map().contains_key(k) { Some(self.map()[k]) } else { None::<V> },
    {
        proof {
            lemma_map_of(self.entries@);
        }
        let mut i: usize = 0;
        while i < self.entries.len()
            invariant
                self.wf(),
                i <= self.entries@.len(),
                forall|j: int| 0 <= j < i ==> self.entries@[j].0 != k,
                forall|k2: PairKey| #[trigger] self.map().contains_key(k2) <==> exists|j: int| 0 <= j < self.entries@.len() && self.entries@[j].0 == k2,
                forall|j: int| 0 <= j < self.entries@.len() ==> #[trigger] self.map()[self.entries@[j].0] == self.entries@[j].1,
            decreases self.entries@.len() - i,
        {
            if self.entries[i].0.0 == k.0 && self.entries[i].0.1 == k.1 {
                proof {
                    assert(self.map()[self.entries@[i as int].0] == self.entries@[i as int].1);
                }
                return Some(self.entries[i].1);
            }
            i = i + 1;
        }
        None
    }

    /// Set `k` to `v`.
    pub fn insert(&mut self, k: PairKey, v: V)
        requires
            old(self).wf(),
        ensures
            final(self).wf(),
            final(self).map() == old(self).map().insert(k, v),
    {
        let mut i: usize = 0;
        while i < self.entries.len()
            invariant
                self.wf(),
                self.entries@ == old(self).entries@,
                i <= self.entries@.len(),
                forall|j: int| 0 <= j < i ==> self.entries@[j].0 != k,
            decreases self.entries@.len() - i,
        {
            if self.entries[i].0.0 == k.0 && self.entries[i].0.1 == k.1 {
                proof {
                    lemma_map_of_update(self.entries@, i as int, v);
                }
                self.entries.set(i, (k, v));
                return;
            }
            i = i + 1;
        }
        let ghost before = self.entries@;
        self.entries.push((k, v));
        proof {
            assert(self.entries@.drop_last() =~= before);
            assert forall|a: int, b: int| 0 <= a < b < self.entries@.len() implies
                (#[trigger] self.entries@[a]).0 != (#[trigger] self.entries@[b]).0 by {
                if b == before.len() {
                    assert(self.entries@[a] == before[a]);
                }
            }
        }
    }
}

} // verus!
