//! The concrete count maps: pre-token byte strings, token id sequences and
//! symbol id pairs, each mapped to a positive frequency.
//!
//! Each type is an association list specified through `assoc_count` and
//! `assoc_total` of `crate::counts`.

use vstd::prelude::*;
use vstd::pervasive::VecAdditionalExecFns;
use vstd::std_specs::cmp::PartialEqSpec;
use crate::counts::{
    assoc_count, assoc_total, assoc_wf, keys_distinct, lemma_count_absent, lemma_count_at,
    lemma_count_le_total, lemma_push, lemma_remove, lemma_update,
};

verus! {

/// Subtraction on counts that stops at zero.
pub open spec fn sat_sub(a: nat, b: nat) -> nat {
    if a <= b {
        0
    } else {
        (a - b) as nat
    }
}

/// Equality of byte vectors, reflected to their views.
pub fn bytes_eq(a: &Vec<u8>, b: &Vec<u8>) -> (r: bool)
    ensures
        r == (a@ == b@),
{
    let r = a == b;
    proof {
        if r {
            assert(a@ =~= b@);
        } else {
            if a@ == b@ {
                assert(a.eq_spec(b));
            }
        }
    }
    r
}

/// Equality of token id vectors, reflected to their views.
pub fn ids_eq(a: &Vec<usize>, b: &Vec<usize>) -> (r: bool)
    ensures
        r == (a@ == b@),
{
    let r = a == b;
    proof {
        if r {
            assert(a@ =~= b@);
        } else {
            if a@ == b@ {
                assert(a.eq_spec(b));
            }
        }
    }
    r
}

/// The entry views of a token-count list.
pub open spec fn tok_entries_view(s: Seq<(Vec<usize>, usize)>) -> Seq<(Seq<usize>, usize)> {
    s.map_values(|p: (Vec<usize>, usize)| (p.0@, p.1))
}

/// Pre-token byte string -> number of occurrences.
pub struct ByteCounts {
    entries: Vec<(Vec<u8>, usize)>,
}

impl View for ByteCounts {
    type V = Seq<(Seq<u8>, usize)>;

    closed spec fn view(&self) -> Seq<(Seq<u8>, usize)> {
        self.entries@.map_values(|p: (Vec<u8>, usize)| (p.0@, p.1))
    }
}

impl ByteCounts {
    pub open spec fn wf(&self) -> bool {
        assoc_wf(self@)
    }

    pub fn new() -> (r: ByteCounts)
        ensures
            r.wf(),
            r@ == Seq::<(Seq<u8>, usize)>::empty(),
    {
        let r = ByteCounts { entries: Vec::new() };
        proof {
            assert(r@ =~= Seq::<(Seq<u8>, usize)>::empty());
        }
        r
    }

    pub fn num_entries(&self) -> (n: usize)
        ensures
            n == self@.len(),
    {
        self.entries.len()
    }

    pub fn key_at(&self, i: usize) -> (r: &Vec<u8>)
        requires
            i < self@.len(),
        ensures
            r@ == self@[i as int].0,
    {
        &self.entries[i].0
    }

    pub fn val_at(&self, i: usize) -> (r: usize)
        requires
            i < self@.len(),
        ensures
            r == self@[i as int].1,
    {
        self.entries[i].1
    }

    /// The count that the map assigns to `key` (zero when absent).
    pub fn get(&self, key: &Vec<u8>) -> (r: usize)
        requires
            self.wf(),
        ensures
            r == assoc_count(self@, key@),
    {
        let n = self.entries.len();
        let mut i: usize = 0;
        while i < n
            invariant
                self.wf(),
                n == self@.len(),
                i <= n,
                forall|j: int| 0 <= j < i ==> self@[j].0 != key@,
            decreases n - i,
        {
            if bytes_eq(&self.entries[i].0, key) {
                proof {
                    assert(self@[i as int].0 == key@);
                    lemma_count_at(self@, i as int);
                }
                return self.entries[i].1;
            }
            assert(self@[i as int].0 != key@);
            i += 1;
        }
        proof {
            lemma_count_absent(self@, key@);
        }
        0
    }

    /// Raise the count of `key` by `amount`, inserting it when absent.
    pub fn add(&mut self, key: Vec<u8>, amount: usize)
        requires
            old(self).wf(),
            amount >= 1,
            assoc_count(old(self)@, key@) + amount <= usize::MAX,
        ensures
            final(self).wf(),
            forall|k: Seq<u8>|
                assoc_count(final(self)@, k) == assoc_count(old(self)@, k) + if k == key@ {
                    amount as nat
                } else {
                    0
                },
            assoc_total(final(self)@) == assoc_total(old(self)@) + amount,
    {
        let n = self.entries.len();
        let mut i: usize = 0;
        while i < n
            invariant
                self.wf(),
                self@ == old(self)@,
                n == self@.len(),
                i <= n,
                assoc_count(old(self)@, key@) + amount <= usize::MAX,
                forall|j: int| 0 <= j < i ==> self@[j].0 != key@,
            decreases n - i,
        {
            if bytes_eq(&self.entries[i].0, &key) {
                proof {
                    assert(self@[i as int].0 == key@);
                    lemma_count_at(self@, i as int);
                }
                let v = self.entries[i].1;
                let ghost gk = key@;
                self.entries.set(i, (key, v + amount));
                proof {
                    assert(self@ =~= old(self)@.update(i as int, (gk, (v + amount) as usize)));
                    lemma_update(old(self)@, i as int, (gk, (v + amount) as usize));
                }
                return ;
            }
            assert(self@[i as int].0 != key@);
            i += 1;
        }
        proof {
            lemma_count_absent(self@, key@);
        }
        let ghost pre = self@;
        let ghost gk = key@;
        self.entries.push((key, amount));
        proof {
            assert(self@ =~= pre.push((gk, amount)));
            lemma_push(pre, (gk, amount));
        }
    }
}

/// Token id sequence -> weighted number of occurrences. This is the corpus
/// map `tok_counts` of the merge loop.
pub struct TokCounts {
    entries: Vec<(Vec<usize>, usize)>,
}

impl View for TokCounts {
    type V = Seq<(Seq<usize>, usize)>;

    closed spec fn view(&self) -> Seq<(Seq<usize>, usize)> {
        tok_entries_view(self.entries@)
    }
}

impl TokCounts {
    pub open spec fn wf(&self) -> bool {
        assoc_wf(self@)
    }

    pub fn new() -> (r: TokCounts)
        ensures
            r.wf(),
            r@ == Seq::<(Seq<usize>, usize)>::empty(),
    {
        let r = TokCounts { entries: Vec::new() };
        proof {
            assert(r@ =~= Seq::<(Seq<usize>, usize)>::empty());
        }
        r
    }

    pub fn num_entries(&self) -> (n: usize)
        ensures
            n == self@.len(),
    {
        self.entries.len()
    }

    pub fn key_at(&self, i: usize) -> (r: &Vec<usize>)
        requires
            i < self@.len(),
        ensures
            r@ == self@[i as int].0,
    {
        &self.entries[i].0
    }

    pub fn val_at(&self, i: usize) -> (r: usize)
        requires
            i < self@.len(),
        ensures
            r == self@[i as int].1,
    {
        self.entries[i].1
    }

    /// The count that the map assigns to `key` (zero when absent).
    pub fn get(&self, key: &Vec<usize>) -> (r: usize)
        requires
            self.wf(),
        ensures
            r == assoc_count(self@, key@),
    {
        let n = self.entries.len();
        let mut i: usize = 0;
        while i < n
            invariant
                self.wf(),
                n == self@.len(),
                i <= n,
                forall|j: int| 0 <= j < i ==> self@[j].0 != key@,
            decreases n - i,
        {
            if ids_eq(&self.entries[i].0, key) {
                proof {
                    assert(self@[i as int].0 == key@);
                    lemma_count_at(self@, i as int);
                }
                return self.entries[i].1;
            }
            assert(self@[i as int].0 != key@);
            i += 1;
        }
        proof {
            lemma_count_absent(self@, key@);
        }
        0
    }

    /// Raise the count of `key` by `amount`, inserting it when absent.
    pub fn add(&mut self, key: Vec<usize>, amount: usize)
        requires
            old(self).wf(),
            amount >= 1,
            assoc_count(old(self)@, key@) + amount <= usize::MAX,
        ensures
            final(self).wf(),
            forall|k: Seq<usize>|
                assoc_count(final(self)@, k) == assoc_count(old(self)@, k) + if k == key@ {
                    amount as nat
                } else {
                    0
                },
            assoc_total(final(self)@) == assoc_total(old(self)@) + amount,
    {
        let n = self.entries.len();
        let mut i: usize = 0;
        while i < n
            invariant
                self.wf(),
                self@ == old(self)@,
                n == self@.len(),
                i <= n,
                assoc_count(old(self)@, key@) + amount <= usize::MAX,
                forall|j: int| 0 <= j < i ==> self@[j].0 != key@,
            decreases n - i,
        {
            if ids_eq(&self.entries[i].0, &key) {
                proof {
                    assert(self@[i as int].0 == key@);
                    lemma_count_at(self@, i as int);
                }
                let v = self.entries[i].1;
                let ghost gk = key@;
                self.entries.set(i, (key, v + amount));
                proof {
                    assert(self@ =~= old(self)@.update(i as int, (gk, (v + amount) as usize)));
                    lemma_update(old(self)@, i as int, (gk, (v + amount) as usize));
                }
                return ;
            }
            assert(self@[i as int].0 != key@);
            i += 1;
        }
        proof {
            lemma_count_absent(self@, key@);
        }
        let ghost pre = self@;
        let ghost gk = key@;
        self.entries.push((key, amount));
        proof {
            assert(self@ =~= pre.push((gk, amount)));
            lemma_push(pre, (gk, amount));
        }
    }

    /// An independent copy with the same view.
    pub fn duplicate(&self) -> (r: TokCounts)
        ensures
            r@ == self@,
    {
        let mut entries: Vec<(Vec<usize>, usize)> = Vec::new();
        let n = self.entries.len();
        let mut i: usize = 0;
        while i < n
            invariant
                n == self@.len(),
                i <= n,
                tok_entries_view(entries@) =~= self@.take(i as int),
            decreases n - i,
        {
            let k = self.entries[i].0.clone();
            let v = self.entries[i].1;
            proof {
                assert(k@ =~= self@[i as int].0);
            }
            let ghost pre = entries@;
            entries.push((k, v));
            proof {
                assert(tok_entries_view(entries@) =~= tok_entries_view(pre).push((k@, v)));
                assert(tok_entries_view(entries@) =~= self@.take(i + 1));
            }
            i += 1;
        }
        let r = TokCounts { entries };
        proof {
            assert(r@ =~= self@.take(n as int));
            assert(self@.take(n as int) =~= self@);
        }
        r
    }

    /// Whether the two maps assign equal counts to every key.
    pub fn same_counts(&self, other: &TokCounts) -> (r: bool)
        requires
            self.wf(),
            other.wf(),
        ensures
            r == (forall|k: Seq<usize>| assoc_count(self@, k) == assoc_count(other@, k)),
    {
        let n = self.entries.len();
        let mut i: usize = 0;
        while i < n
            invariant
                self.wf(),
                other.wf(),
                n == self@.len(),
                i <= n,
                forall|j: int|
                    0 <= j < i ==> assoc_count(other@, #[trigger] self@[j].0) == self@[j].1,
            decreases n - i,
        {
            let v = other.get(&self.entries[i].0);
            proof {
                lemma_count_at(self@, i as int);
            }
            if v != self.entries[i].1 {
                proof {
                    assert(assoc_count(self@, self@[i as int].0) != assoc_count(
                        other@,
                        self@[i as int].0,
                    ));
                }
                return false;
            }
            i += 1;
        }
        let m = other.entries.len();
        let mut j: usize = 0;
        while j < m
            invariant
                self.wf(),
                other.wf(),
                n == self@.len(),
                m == other@.len(),
                j <= m,
                forall|l: int|
                    0 <= l < n ==> assoc_count(other@, #[trigger] self@[l].0) == self@[l].1,
                forall|l: int|
                    0 <= l < j ==> assoc_count(self@, #[trigger] other@[l].0) == other@[l].1,
            decreases m - j,
        {
            let v = self.get(&other.entries[j].0);
            proof {
                lemma_count_at(other@, j as int);
            }
            if v != other.entries[j].1 {
                proof {
                    assert(assoc_count(self@, other@[j as int].0) != assoc_count(
                        other@,
                        other@[j as int].0,
                    ));
                }
                return false;
            }
            j += 1;
        }
        proof {
            assert forall|k: Seq<usize>|
                assoc_count(self@, k) == assoc_count(other@, k) by {
                if assoc_count(self@, k) > 0 {
                    crate::counts::lemma_count_pos_exists(self@, k);
                    let w = choose|w: int| 0 <= w < self@.len() && self@[w].0 == k;
                    lemma_count_at(self@, w);
                } else if assoc_count(other@, k) > 0 {
                    crate::counts::lemma_count_pos_exists(other@, k);
                    let w = choose|w: int| 0 <= w < other@.len() && other@[w].0 == k;
                    lemma_count_at(other@, w);
                }
            }
        }
        true
    }

    /// Lower the count of `key` by `amount`, stopping at zero; an entry
    /// whose count reaches zero is removed. Absent keys stay absent.
    pub fn sub_or_remove(&mut self, key: &Vec<usize>, amount: usize)
        requires
            old(self).wf(),
        ensures
            final(self).wf(),
            forall|k: Seq<usize>|
                assoc_count(final(self)@, k) == if k == key@ {
                    sat_sub(assoc_count(old(self)@, key@), amount as nat)
                } else {
                    assoc_count(old(self)@, k)
                },
            assoc_total(final(self)@) + assoc_count(old(self)@, key@) == assoc_total(old(self)@)
                + sat_sub(assoc_count(old(self)@, key@), amount as nat),
    {
        let n = self.entries.len();
        let mut i: usize = 0;
        while i < n
            invariant
                self.wf(),
                self@ == old(self)@,
                n == self@.len(),
                i <= n,
                forall|j: int| 0 <= j < i ==> self@[j].0 != key@,
            decreases n - i,
        {
            if ids_eq(&self.entries[i].0, key) {
                proof {
                    assert(self@[i as int].0 == key@);
                    lemma_count_at(self@, i as int);
                }
                let v = self.entries[i].1;
                if v > amount {
                    let k2 = self.entries[i].0.clone();
                    proof {
                        assert(k2@ =~= self@[i as int].0);
                    }
                    self.entries.set(i, (k2, v - amount));
                    proof {
                        assert(self@ =~= old(self)@.update(i as int, (key@, (v - amount) as usize)));
                        lemma_update(old(self)@, i as int, (key@, (v - amount) as usize));
                    }
                } else {
                    self.entries.remove(i);
                    proof {
                        assert(self@ =~= old(self)@.remove(i as int));
                        lemma_remove(old(self)@, i as int);
                    }
                }
                return ;
            }
            assert(self@[i as int].0 != key@);
            i += 1;
        }
        proof {
            lemma_count_absent(self@, key@);
        }
    }
}

/// Symbol id pair -> weighted number of adjacencies. This is `pair_count`
/// of the pair index. Additions saturate at `usize::MAX`.
pub struct PairCounts {
    entries: Vec<((usize, usize), usize)>,
}

impl View for PairCounts {
    type V = Seq<((usize, usize), usize)>;

    closed spec fn view(&self) -> Seq<((usize, usize), usize)> {
        self.entries@
    }
}

impl PairCounts {
    pub open spec fn wf(&self) -> bool {
        assoc_wf(self@)
    }

    pub fn new() -> (r: PairCounts)
        ensures
            r.wf(),
            r@ == Seq::<((usize, usize), usize)>::empty(),
    {
        PairCounts { entries: Vec::new() }
    }

    /// The count that the map assigns to `key` (zero when absent).
    pub fn get(&self, key: (usize, usize)) -> (r: usize)
        requires
            self.wf(),
        ensures
            r == assoc_count(self@, key),
    {
        let n = self.entries.len();
        let mut i: usize = 0;
        while i < n
            invariant
                self.wf(),
                n == self@.len(),
                i <= n,
                forall|j: int| 0 <= j < i ==> self@[j].0 != key,
            decreases n - i,
        {
            let e = self.entries[i];
            if e.0.0 == key.0 && e.0.1 == key.1 {
                proof {
                    lemma_count_at(self@, i as int);
                }
                return e.1;
            }
            i += 1;
        }
        proof {
            lemma_count_absent(self@, key);
        }
        0
    }

    /// Raise the count of `key` by `amount` saturating at `usize::MAX`,
    /// inserting the key when absent; returns the new count.
    pub fn add_saturating(&mut self, key: (usize, usize), amount: usize) -> (r: usize)
        requires
            old(self).wf(),
            amount >= 1,
        ensures
            final(self).wf(),
            r == if assoc_count(old(self)@, key) + amount > usize::MAX {
                usize::MAX as nat
            } else {
                (assoc_count(old(self)@, key) + amount) as nat
            },
            forall|k: (usize, usize)|
                assoc_count(final(self)@, k) == if k == key {
                    r as nat
                } else {
                    assoc_count(old(self)@, k)
                },
            assoc_total(final(self)@) + assoc_count(old(self)@, key) == assoc_total(old(self)@)
                + r,
    {
        let n = self.entries.len();
        let mut i: usize = 0;
        while i < n
            invariant
                self.wf(),
                self@ == old(self)@,
                n == self@.len(),
                i <= n,
                forall|j: int| 0 <= j < i ==> self@[j].0 != key,
            decreases n - i,
        {
            let e = self.entries[i];
            if e.0.0 == key.0 && e.0.1 == key.1 {
                proof {
                    lemma_count_at(self@, i as int);
                }
                let v = e.1;
                let nv = if v <= usize::MAX - amount {
                    v + amount
                } else {
                    usize::MAX
                };
                self.entries.set(i, (key, nv));
                proof {
                    assert(self@ =~= old(self)@.update(i as int, (key, nv)));
                    lemma_update(old(self)@, i as int, (key, nv));
                }
                return nv;
            }
            i += 1;
        }
        proof {
            lemma_count_absent(self@, key);
        }
        let ghost pre = self@;
        self.entries.push((key, amount));
        proof {
            assert(self@ =~= pre.push((key, amount)));
            lemma_push(pre, (key, amount));
        }
        amount
    }

    /// Lower the count of `key` by `amount`, stopping at zero; an entry
    /// whose count reaches zero is removed. Returns the new count.
    pub fn sub_or_remove(&mut self, key: (usize, usize), amount: usize) -> (r: usize)
        requires
            old(self).wf(),
        ensures
            final(self).wf(),
            r == sat_sub(assoc_count(old(self)@, key), amount as nat),
            forall|k: (usize, usize)|
                assoc_count(final(self)@, k) == if k == key {
                    r as nat
                } else {
                    assoc_count(old(self)@, k)
                },
            assoc_total(final(self)@) + assoc_count(old(self)@, key) == assoc_total(old(self)@)
                + r,
    {
        let n = self.entries.len();
        let mut i: usize = 0;
        while i < n
            invariant
                self.wf(),
                self@ == old(self)@,
                n == self@.len(),
                i <= n,
                forall|j: int| 0 <= j < i ==> self@[j].0 != key,
            decreases n - i,
        {
            let e = self.entries[i];
            if e.0.0 == key.0 && e.0.1 == key.1 {
                proof {
                    lemma_count_at(self@, i as int);
                }
                let v = e.1;
                if v > amount {
                    self.entries.set(i, (key, v - amount));
                    proof {
                        assert(self@ =~= old(self)@.update(i as int, (key, (v - amount) as usize)));
                        lemma_update(old(self)@, i as int, (key, (v - amount) as usize));
                    }
                    return v - amount;
                } else {
                    self.entries.remove(i);
                    proof {
                        assert(self@ =~= old(self)@.remove(i as int));
                        lemma_remove(old(self)@, i as int);
                    }
                    return 0;
                }
            }
            i += 1;
        }
        proof {
            lemma_count_absent(self@, key);
        }
        0
    }
}

} // verus!
