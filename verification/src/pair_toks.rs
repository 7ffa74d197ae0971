//! The `pair_tokens` side of the pair index: for every symbol pair, the set
//! of token sequences currently holding that adjacency.
//!
//! Sets are kept as duplicate-free vectors; membership is the only notion
//! the contracts speak of, so the surrounding code never depends on any
//! internal order.

use vstd::prelude::*;
use crate::maps::ids_eq;

verus! {

/// The views of a vector of token sequences.
pub open spec fn toks_view(r: Seq<Vec<usize>>) -> Seq<Seq<usize>> {
    r.map_values(|t: Vec<usize>| t@)
}

/// No token sequence occurs twice.
pub open spec fn tokset_distinct(s: Seq<Seq<usize>>) -> bool {
    forall|a: int, b: int| 0 <= a < b < s.len() ==> s[a] != s[b]
}

/// Symbol id pair -> set of token sequences containing the pair.
pub struct PairToks {
    entries: Vec<((usize, usize), Vec<Vec<usize>>)>,
}

impl View for PairToks {
    type V = Seq<((usize, usize), Seq<Seq<usize>>)>;

    closed spec fn view(&self) -> Seq<((usize, usize), Seq<Seq<usize>>)> {
        self.entries@.map_values(
            |p: ((usize, usize), Vec<Vec<usize>>)| (p.0, toks_view(p.1@)),
        )
    }
}

impl PairToks {
    pub open spec fn wf(&self) -> bool {
        &&& forall|i: int, j: int| 0 <= i < j < self@.len() ==> self@[i].0 != self@[j].0
        &&& forall|i: int| 0 <= i < self@.len() ==> tokset_distinct(#[trigger] self@[i].1)
    }

    /// Token sequence `t` is recorded under pair `q`.
    pub open spec fn member(&self, q: (usize, usize), t: Seq<usize>) -> bool {
        exists|i: int| 0 <= i < self@.len() && self@[i].0 == q && self@[i].1.contains(t)
    }

    pub fn new() -> (r: PairToks)
        ensures
            r.wf(),
            forall|q: (usize, usize), t: Seq<usize>| !r.member(q, t),
    {
        let r = PairToks { entries: Vec::new() };
        proof {
            assert(r@ =~= Seq::<((usize, usize), Seq<Seq<usize>>)>::empty());
        }
        r
    }

    /// Record `tok` under `pair`; recording an already present member
    /// changes nothing.
    pub fn insert(&mut self, pair: (usize, usize), tok: Vec<usize>)
        requires
            old(self).wf(),
        ensures
            final(self).wf(),
            forall|q: (usize, usize), t: Seq<usize>|
                final(self).member(q, t) <==> old(self).member(q, t) || (q == pair && t == tok@),
    {
        let n = self.entries.len();
        let mut i: usize = 0;
        while i < n
            invariant
                self.wf(),
                self@ == old(self)@,
                n == self@.len(),
                i <= n,
                forall|j: int| 0 <= j < i ==> self@[j].0 != pair,
            decreases n - i,
        {
            let key = self.entries[i].0;
            if key.0 == pair.0 && key.1 == pair.1 {
                let m = self.entries[i].1.len();
                assert(m == self@[i as int].1.len());
                let mut j: usize = 0;
                while j < m
                    invariant
                        self.wf(),
                        self@ == old(self)@,
                        i < self@.len(),
                        self@[i as int].0 == pair,
                        m == self@[i as int].1.len(),
                        j <= m,
                        forall|l: int| 0 <= l < j ==> self@[i as int].1[l] != tok@,
                    decreases m - j,
                {
                    if ids_eq(&self.entries[i].1[j], &tok) {
                        proof {
                            assert(self@[i as int].1[j as int] == tok@);
                            assert(self@[i as int].1.contains(tok@));
                            assert(old(self).member(pair, tok@));
                        }
                        return ;
                    }
                    assert(self@[i as int].1[j as int] != tok@);
                    j += 1;
                }
                let ghost oldv = self@;
                let ghost gt = tok@;
                self.entries[i].1.push(tok);
                proof {
                    assert(self@ =~~= oldv.update(i as int, (pair, oldv[i as int].1.push(gt))));
                    let iv = i as int;
                    assert forall|q: (usize, usize), t: Seq<usize>|
                        self.member(q, t) <==> old(self).member(q, t) || (q == pair && t
                            == gt) by {
                        if q == pair {
                            if self.member(q, t) {
                                let w = choose|w: int|
                                    0 <= w < self@.len() && self@[w].0 == q && self@[w].1.contains(
                                        t,
                                    );
                                assert(w == iv);
                                let l = choose|l: int|
                                    0 <= l < self@[iv].1.len() && self@[iv].1[l] == t;
                                if l < oldv[iv].1.len() {
                                    assert(oldv[iv].1.contains(t));
                                    assert(old(self).member(q, t));
                                } else {
                                    assert(t == gt);
                                }
                            }
                            if old(self).member(q, t) {
                                let w = choose|w: int|
                                    0 <= w < oldv.len() && oldv[w].0 == q && oldv[w].1.contains(t);
                                assert(w == iv);
                                let l = choose|l: int|
                                    0 <= l < oldv[iv].1.len() && oldv[iv].1[l] == t;
                                assert(self@[iv].1[l] == t);
                                assert(self@[iv].1.contains(t));
                                assert(self.member(q, t));
                            }
                            if t == gt {
                                assert(self@[iv].1[self@[iv].1.len() - 1] == t);
                                assert(self@[iv].1.contains(t));
                                assert(self.member(q, t));
                            }
                        } else {
                            if self.member(q, t) {
                                let w = choose|w: int|
                                    0 <= w < self@.len() && self@[w].0 == q && self@[w].1.contains(
                                        t,
                                    );
                                assert(w != iv);
                                assert(oldv[w] == self@[w]);
                                assert(old(self).member(q, t));
                            }
                            if old(self).member(q, t) {
                                let w = choose|w: int|
                                    0 <= w < oldv.len() && oldv[w].0 == q && oldv[w].1.contains(t);
                                assert(w != iv);
                                assert(self@[w] == oldv[w]);
                                assert(self.member(q, t));
                            }
                        }
                    }
                }
                return ;
            }
            assert(self@[i as int].0 != pair);
            i += 1;
        }
        let ghost oldv = self@;
        let ghost gt = tok@;
        let mut row: Vec<Vec<usize>> = Vec::new();
        row.push(tok);
        assert(toks_view(row@) =~= seq![gt]);
        self.entries.push((pair, row));
        proof {
            assert(self@ =~~= oldv.push((pair, seq![gt])));
            let iv = oldv.len() as int;
            assert forall|q: (usize, usize), t: Seq<usize>|
                self.member(q, t) <==> old(self).member(q, t) || (q == pair && t == gt) by {
                if self.member(q, t) {
                    let w = choose|w: int|
                        0 <= w < self@.len() && self@[w].0 == q && self@[w].1.contains(t);
                    if w == iv {
                        assert(q == pair);
                        let l = choose|l: int| 0 <= l < seq![gt].len() && seq![gt][l] == t;
                        assert(t == gt);
                    } else {
                        assert(oldv[w] == self@[w]);
                        assert(old(self).member(q, t));
                    }
                }
                if old(self).member(q, t) {
                    let w = choose|w: int|
                        0 <= w < oldv.len() && oldv[w].0 == q && oldv[w].1.contains(t);
                    assert(self@[w] == oldv[w]);
                    assert(self.member(q, t));
                }
                if q == pair && t == gt {
                    assert(self@[iv].1[0] == t);
                    assert(self@[iv].1.contains(t));
                    assert(self.member(q, t));
                }
            }
        }
    }

    /// Strike `tok` from the set of `pair`; nothing else changes. Striking
    /// an absent member changes nothing.
    pub fn remove_tok(&mut self, pair: (usize, usize), tok: &Vec<usize>)
        requires
            old(self).wf(),
        ensures
            final(self).wf(),
            forall|q: (usize, usize), t: Seq<usize>|
                final(self).member(q, t) <==> old(self).member(q, t) && !(q == pair && t
                    == tok@),
    {
        let n = self.entries.len();
        let mut i: usize = 0;
        while i < n
            invariant
                self.wf(),
                self@ == old(self)@,
                n == self@.len(),
                i <= n,
                forall|j: int| 0 <= j < i ==> self@[j].0 != pair,
            decreases n - i,
        {
            let key = self.entries[i].0;
            if key.0 == pair.0 && key.1 == pair.1 {
                let m = self.entries[i].1.len();
                assert(m == self@[i as int].1.len());
                let mut j: usize = 0;
                while j < m
                    invariant
                        self.wf(),
                        self@ == old(self)@,
                        i < self@.len(),
                        self@[i as int].0 == pair,
                        m == self@[i as int].1.len(),
                        j <= m,
                        forall|l: int| 0 <= l < j ==> self@[i as int].1[l] != tok@,
                    decreases m - j,
                {
                    if ids_eq(&self.entries[i].1[j], tok) {
                        proof {
                            assert(self@[i as int].1[j as int] == tok@);
                        }
                        let ghost oldv = self@;
                        let ghost gt = tok@;
                        self.entries[i].1.remove(j);
                        proof {
                            let iv = i as int;
                            let jv = j as int;
                            assert(self@ =~~= oldv.update(iv, (pair, oldv[iv].1.remove(jv))));
                            oldv[iv].1.remove_ensures(jv);
                            assert forall|a: int, b: int|
                                0 <= a < b < self@[iv].1.len() implies self@[iv].1[a]
                                != self@[iv].1[b] by {
                                let a0 = if a < jv {
                                    a
                                } else {
                                    a + 1
                                };
                                let b0 = if b < jv {
                                    b
                                } else {
                                    b + 1
                                };
                                assert(self@[iv].1[a] == oldv[iv].1[a0]);
                                assert(self@[iv].1[b] == oldv[iv].1[b0]);
                            }
                            assert forall|q: (usize, usize), t: Seq<usize>|
                                self.member(q, t) <==> old(self).member(q, t) && !(q == pair && t
                                    == gt) by {
                                if q == pair {
                                    if self.member(q, t) {
                                        let w = choose|w: int|
                                            0 <= w < self@.len() && self@[w].0 == q
                                                && self@[w].1.contains(t);
                                        assert(w == iv);
                                        let l = choose|l: int|
                                            0 <= l < self@[iv].1.len() && self@[iv].1[l] == t;
                                        let l0 = if l < jv {
                                            l
                                        } else {
                                            l + 1
                                        };
                                        assert(oldv[iv].1[l0] == t);
                                        assert(oldv[iv].1.contains(t));
                                        assert(old(self).member(q, t));
                                        assert(l0 != jv);
                                        assert(t != gt);
                                    }
                                    if old(self).member(q, t) && t != gt {
                                        let w = choose|w: int|
                                            0 <= w < oldv.len() && oldv[w].0 == q
                                                && oldv[w].1.contains(t);
                                        assert(w == iv);
                                        let l0 = choose|l0: int|
                                            0 <= l0 < oldv[iv].1.len() && oldv[iv].1[l0] == t;
                                        assert(l0 != jv);
                                        let l = if l0 < jv {
                                            l0
                                        } else {
                                            l0 - 1
                                        };
                                        assert(self@[iv].1[l] == t);
                                        assert(self@[iv].1.contains(t));
                                        assert(self.member(q, t));
                                    }
                                } else {
                                    if self.member(q, t) {
                                        let w = choose|w: int|
                                            0 <= w < self@.len() && self@[w].0 == q
                                                && self@[w].1.contains(t);
                                        assert(w != iv);
                                        assert(oldv[w] == self@[w]);
                                        assert(old(self).member(q, t));
                                    }
                                    if old(self).member(q, t) {
                                        let w = choose|w: int|
                                            0 <= w < oldv.len() && oldv[w].0 == q
                                                && oldv[w].1.contains(t);
                                        assert(w != iv);
                                        assert(self@[w] == oldv[w]);
                                        assert(self.member(q, t));
                                    }
                                }
                            }
                        }
                        return ;
                    }
                    assert(self@[i as int].1[j as int] != tok@);
                    j += 1;
                }
                proof {
                    assert forall|t: Seq<usize>| !(old(self).member(pair, t) && t == tok@) by {
                        if old(self).member(pair, tok@) {
                            let w = choose|w: int|
                                0 <= w < self@.len() && self@[w].0 == pair && self@[w].1.contains(
                                    tok@,
                                );
                            assert(w == i as int);
                        }
                    }
                }
                return ;
            }
            assert(self@[i as int].0 != pair);
            i += 1;
        }
        proof {
            assert forall|t: Seq<usize>| !old(self).member(pair, t) by {
                if old(self).member(pair, t) {
                    let w = choose|w: int|
                        0 <= w < self@.len() && self@[w].0 == pair && self@[w].1.contains(t);
                }
            }
        }
    }

    /// A copy of the set recorded under `pair`, empty when the pair is
    /// unknown.
    pub fn get_list(&self, pair: (usize, usize)) -> (r: Vec<Vec<usize>>)
        requires
            self.wf(),
        ensures
            tokset_distinct(toks_view(r@)),
            forall|t: Seq<usize>| toks_view(r@).contains(t) <==> self.member(pair, t),
    {
        let n = self.entries.len();
        let mut i: usize = 0;
        while i < n
            invariant
                self.wf(),
                n == self@.len(),
                i <= n,
                forall|j: int| 0 <= j < i ==> self@[j].0 != pair,
            decreases n - i,
        {
            let key = self.entries[i].0;
            if key.0 == pair.0 && key.1 == pair.1 {
                let m = self.entries[i].1.len();
                assert(m == self@[i as int].1.len());
                let mut r: Vec<Vec<usize>> = Vec::new();
                let mut j: usize = 0;
                while j < m
                    invariant
                        self.wf(),
                        i < self@.len(),
                        self@[i as int].0 == pair,
                        m == self@[i as int].1.len(),
                        j <= m,
                        r@.len() == j,
                        forall|l: int| 0 <= l < j ==> toks_view(r@)[l] == self@[i as int].1[l],
                    decreases m - j,
                {
                    let item = self.entries[i].1[j].clone();
                    proof {
                        assert(item@ =~= self@[i as int].1[j as int]);
                    }
                    let ghost prev = r@;
                    let ghost gi = item@;
                    r.push(item);
                    proof {
                        assert forall|l: int| 0 <= l < j + 1 implies toks_view(r@)[l]
                            == self@[i as int].1[l] by {
                            assert(toks_view(r@)[l] == r@[l]@);
                            if l < j {
                                assert(r@[l] == prev[l]);
                                assert(toks_view(prev)[l] == prev[l]@);
                            } else {
                                assert(r@[l]@ == gi);
                            }
                        }
                    }
                    j += 1;
                }
                proof {
                    assert(toks_view(r@) =~= self@[i as int].1);
                    assert forall|t: Seq<usize>|
                        toks_view(r@).contains(t) <==> self.member(pair, t) by {
                        if self@[i as int].1.contains(t) {
                            assert(self.member(pair, t));
                        }
                        if self.member(pair, t) {
                            let w = choose|w: int|
                                0 <= w < self@.len() && self@[w].0 == pair && self@[w].1.contains(
                                    t,
                                );
                            assert(w == i as int);
                        }
                    }
                }
                return r;
            }
            assert(self@[i as int].0 != pair);
            i += 1;
        }
        let r: Vec<Vec<usize>> = Vec::new();
        proof {
            assert(toks_view(r@) =~= Seq::<Seq<usize>>::empty());
            assert forall|t: Seq<usize>| !self.member(pair, t) by {
                if self.member(pair, t) {
                    let w = choose|w: int|
                        0 <= w < self@.len() && self@[w].0 == pair && self@[w].1.contains(t);
                }
            }
        }
        r
    }
}

} // verus!
