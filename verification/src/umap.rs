//! A small association map from `u64` keys to copyable values, backed by a
//! vector of entries with pairwise-distinct keys.
//!
//! The engine keys every record by plain integer identifiers, so one map
//! shape serves configurations, price feeds, debt totals, pool deposits and
//! reward accumulators alike.  The abstract value is a `Map<u64, V>`; the
//! entry sequence is also exposed so callers can iterate and can reason about
//! sums over the entries.

use vstd::prelude::*;

verus! {

/// Association map with unique `u64` keys.
pub struct UMap<V> {
    pub entries: Vec<(u64, V)>,
}

impl<V: Copy> UMap<V> {
    /// Keys are pairwise distinct.
    pub open spec fn wf(self) -> bool {
        forall|i: int, j: int|
            0 <= i < j < self.entries.len() ==> self.entries[i].0 != self.entries[j].0
    }

    /// Whether some entry carries key `k`.
    pub open spec fn dom_has(self, k: u64) -> bool {
        exists|i: int| 0 <= i < self.entries.len() && self.entries[i].0 == k
    }

    /// The index of the entry carrying key `k` (meaningful when `dom_has(k)`).
    pub open spec fn idx_of(self, k: u64) -> int {
        choose|i: int| 0 <= i < self.entries.len() && self.entries[i].0 == k
    }

    /// The abstract map value.
    pub open spec fn m(self) -> Map<u64, V> {
        Map::new(|k: u64| self.dom_has(k), |k: u64| self.entries[self.idx_of(k)].1)
    }

    /// The value at `k`, if any.
    pub open spec fn get_opt(self, k: u64) -> Option<V> {
        if self.m().contains_key(k) {
            Some(self.m()[k])
        } else {
            None
        }
    }

    /// Under well-formedness, the entry at any index is the map's value for
    /// that entry's key.
    pub proof fn lemma_at(self, i: int)
        requires
            self.wf(),
            0 <= i < self.entries.len(),
        ensures
            self.dom_has(self.entries[i].0),
            self.idx_of(self.entries[i].0) == i,
            self.m().contains_key(self.entries[i].0),
            self.m()[self.entries[i].0] == self.entries[i].1,
    {
        let k = self.entries[i].0;
        assert(self.dom_has(k));
        let j = self.idx_of(k);
        assert(0 <= j < self.entries.len() && self.entries[j].0 == k);
        if i < j {
            assert(self.entries[i].0 != self.entries[j].0);
        } else if j < i {
            assert(self.entries[j].0 != self.entries[i].0);
        }
    }

    /// Two maps with the same entries have the same abstract value.
    pub proof fn lemma_view_eq(a: UMap<V>, b: UMap<V>)
        requires
            a.wf(),
            b.entries@ == a.entries@,
        ensures
            b.wf(),
            b.m() == a.m(),
            forall|k: u64| b.get_opt(k) == a.get_opt(k),
    {
        assert forall|k: u64| #[trigger] b.dom_has(k) implies a.dom_has(k) by {
            let i = b.idx_of(k);
            assert(a.entries@[i].0 == k);
        }
        assert forall|k: u64| #[trigger] a.dom_has(k) implies b.dom_has(k) by {
            let i = a.idx_of(k);
            assert(b.entries@[i].0 == k);
        }
        assert forall|k: u64| a.dom_has(k) implies #[trigger] b.m()[k] == a.m()[k] by {
            let i = a.idx_of(k);
            a.lemma_at(i);
            assert(b.entries@[i].0 == k);
            b.lemma_at(i);
        }
        assert(b.m() =~= a.m());
    }

    pub fn new() -> (r: UMap<V>)
        ensures
            r.wf(),
            r.entries@ =~= Seq::<(u64, V)>::empty(),
            r.m() =~= Map::<u64, V>::empty(),
    {
        UMap { entries: Vec::new() }
    }

    pub fn len(&self) -> (r: usize)
        ensures
            r == self.entries@.len(),
    {
        self.entries.len()
    }

    /// An entry-for-entry copy.
    pub fn duplicate(&self) -> (r: UMap<V>)
        ensures
            r.entries@ == self.entries@,
    {
        let n = self.entries.len();
        let mut entries: Vec<(u64, V)> = Vec::new();
        let mut i: usize = 0;
        while i < n
            invariant
                n == self.entries@.len(),
                i <= n,
                entries@ =~= self.entries@.take(i as int),
            decreases n - i,
        {
            entries.push(self.entries[i]);
            proof {
                assert(entries@ =~= self.entries@.take(i + 1 as int));
            }
            i = i + 1;
        }
        proof {
            assert(entries@ =~= self.entries@);
        }
        UMap { entries }
    }

    /// The key of the entry at position `i`.
    pub fn key_at(&self, i: usize) -> (r: u64)
        requires
            i < self.entries@.len(),
        ensures
            r == self.entries@[i as int].0,
    {
        self.entries[i].0
    }

    /// The value of the entry at position `i`.
    pub fn val_at(&self, i: usize) -> (r: V)
        requires
            i < self.entries@.len(),
        ensures
            r == self.entries@[i as int].1,
    {
        self.entries[i].1
    }

    /// Looks the key up.
    pub fn get(&self, k: u64) -> (r: Option<V>)
        requires
            self.wf(),
        ensures
            r == self.get_opt(k),
    {
        let n = self.entries.len();
        let mut i: usize = 0;
        while i < n
            invariant
                self.wf(),
                n == self.entries@.len(),
                i <= n,
                forall|j: int| 0 <= j < i ==> self.entries@[j].0 != k,
            decreases n - i,
        {
            if self.entries[i].0 == k {
                proof {
                    self.lemma_at(i as int);
                }
                return Some(self.entries[i].1);
            }
            i = i + 1;
        }
        proof {
            if self.dom_has(k) {
                let j = self.idx_of(k);
                assert(0 <= j < self.entries@.len() && self.entries@[j].0 == k);
            }
        }
        None
    }

    /// Inserts or overwrites the value at `k`.
    pub fn set(&mut self, k: u64, v: V)
        requires
            old(self).wf(),
        ensures
            final(self).wf(),
            final(self).m() =~= old(self).m().insert(k, v),
            old(self).dom_has(k) ==> final(self).entries@ =~= old(self).entries@.update(
                old(self).idx_of(k),
                (k, v),
            ),
            !old(self).dom_has(k) ==> final(self).entries@ =~= old(self).entries@.push((k, v)),
    {
        let n = self.entries.len();
        let mut i: usize = 0;
        while i < n
            invariant
                self.wf(),
                self == old(self),
                n == self.entries@.len(),
                i <= n,
                forall|j: int| 0 <= j < i ==> self.entries@[j].0 != k,
            decreases n - i,
        {
            if self.entries[i].0 == k {
                proof {
                    self.lemma_at(i as int);
                }
                self.entries[i] = (k, v);
                proof {
                    let ghost new_self = *self;
                    assert forall|a: int, b: int|
                        0 <= a < b < new_self.entries@.len() implies new_self.entries@[a].0
                        != new_self.entries@[b].0 by {
                        assert(old(self).entries@[a].0 != old(self).entries@[b].0);
                    }
                    assert forall|k2: u64| #[trigger] new_self.dom_has(k2) implies old(
                        self,
                    ).dom_has(k2) by {
                        let j = new_self.idx_of(k2);
                        assert(old(self).entries@[j].0 == k2 || k2 == k);
                    }
                    assert forall|k2: u64| #[trigger] old(self).dom_has(k2) implies new_self.dom_has(
                        k2,
                    ) by {
                        let j = old(self).idx_of(k2);
                        assert(new_self.entries@[j].0 == k2 || k2 == k);
                    }
                    assert forall|k2: u64| new_self.dom_has(k2) && k2 != k implies #[trigger] new_self.m()[k2]
                        == old(self).m()[k2] by {
                        let j = new_self.idx_of(k2);
                        assert(new_self.entries@[j].0 == k2);
                        assert(old(self).entries@[j].0 == k2);
                        old(self).lemma_at(j);
                        new_self.lemma_at(j);
                    }
                    new_self.lemma_at(i as int);
                }
                return ;
            }
            i = i + 1;
        }
        proof {
            if self.dom_has(k) {
                let j = self.idx_of(k);
                assert(0 <= j < self.entries@.len() && self.entries@[j].0 == k);
            }
        }
        self.entries.push((k, v));
        proof {
            let ghost new_self = *self;
            let ghost oldn = old(self).entries@.len() as int;
            assert forall|a: int, b: int|
                0 <= a < b < new_self.entries@.len() implies new_self.entries@[a].0
                != new_self.entries@[b].0 by {
                if b < oldn {
                    assert(old(self).entries@[a].0 != old(self).entries@[b].0);
                } else {
                    assert(new_self.entries@[b] == (k, v));
                    assert(old(self).entries@[a].0 != k);
                }
            }
            assert forall|k2: u64| #[trigger] new_self.dom_has(k2) implies k2 == k || old(
                self,
            ).dom_has(k2) by {
                let j = new_self.idx_of(k2);
                if j < oldn {
                    assert(old(self).entries@[j].0 == k2);
                }
            }
            assert forall|k2: u64| #[trigger] old(self).dom_has(k2) implies new_self.dom_has(
                k2,
            ) by {
                let j = old(self).idx_of(k2);
                assert(new_self.entries@[j].0 == k2);
            }
            assert(new_self.entries@[oldn].0 == k);
            assert(new_self.dom_has(k));
            assert forall|k2: u64| new_self.dom_has(k2) && k2 != k implies #[trigger] new_self.m()[k2]
                == old(self).m()[k2] by {
                let j = new_self.idx_of(k2);
                assert(new_self.entries@[j].0 == k2);
                assert(j < oldn);
                assert(old(self).entries@[j].0 == k2);
                old(self).lemma_at(j);
                new_self.lemma_at(j);
            }
            new_self.lemma_at(oldn);
        }
    }

    /// Removes the entry at `k`, if any.
    pub fn remove(&mut self, k: u64)
        requires
            old(self).wf(),
        ensures
            final(self).wf(),
            final(self).m() =~= old(self).m().remove(k),
            old(self).dom_has(k) ==> final(self).entries@ =~= old(self).entries@.remove(
                old(self).idx_of(k),
            ),
            !old(self).dom_has(k) ==> final(self).entries@ =~= old(self).entries@,
    {
        let n = self.entries.len();
        let mut i: usize = 0;
        while i < n
            invariant
                self.wf(),
                self == old(self),
                n == self.entries@.len(),
                i <= n,
                forall|j: int| 0 <= j < i ==> self.entries@[j].0 != k,
            decreases n - i,
        {
            if self.entries[i].0 == k {
                proof {
                    self.lemma_at(i as int);
                }
                self.entries.remove(i);
                proof {
                    let ghost new_self = *self;
                    let ghost oldseq = old(self).entries@;
                    assert forall|a: int, b: int|
                        0 <= a < b < new_self.entries@.len() implies new_self.entries@[a].0
                        != new_self.entries@[b].0 by {
                        let a0: int = if a < i { a } else { a + 1 };
                        let b0: int = if b < i { b } else { b + 1 };
                        assert(new_self.entries@[a] == oldseq[a0]);
                        assert(new_self.entries@[b] == oldseq[b0]);
                        assert(oldseq[a0].0 != oldseq[b0].0);
                    }
                    assert forall|k2: u64| #[trigger] new_self.dom_has(k2) implies old(
                        self,
                    ).dom_has(k2) && k2 != k by {
                        let j = new_self.idx_of(k2);
                        let j0: int = if j < i { j } else { j + 1 };
                        assert(new_self.entries@[j] == oldseq[j0]);
                        assert(oldseq[j0].0 == k2);
                        if k2 == k {
                            assert(j0 != i);
                            assert(old(self).entries@[i as int].0 != oldseq[j0].0);
                        }
                    }
                    assert forall|k2: u64| #[trigger] old(self).dom_has(k2) && k2 != k implies new_self.dom_has(
                        k2,
                    ) by {
                        let j = old(self).idx_of(k2);
                        assert(j != i);
                        let jn: int = if j < i { j } else { j - 1 };
                        assert(new_self.entries@[jn] == oldseq[j]);
                    }
                    assert forall|k2: u64| new_self.dom_has(k2) implies #[trigger] new_self.m()[k2]
                        == old(self).m()[k2] by {
                        let j = new_self.idx_of(k2);
                        let j0: int = if j < i { j } else { j + 1 };
                        assert(new_self.entries@[j] == oldseq[j0]);
                        assert(oldseq[j0].0 == k2);
                        old(self).lemma_at(j0);
                        new_self.lemma_at(j);
                    }
                }
                return ;
            }
            i = i + 1;
        }
        proof {
            if self.dom_has(k) {
                let j = self.idx_of(k);
                assert(0 <= j < self.entries@.len() && self.entries@[j].0 == k);
            }
            assert(self.m() =~= old(self).m().remove(k));
        }
    }
}

} // verus!
