//! The merge loop, the heart of training.
//!
//! Pre-tokens live in a corpus map of token sequences. A pair index
//! (`PairCounts`, `PairToks`, `PairHeap`) ranks adjacent symbol pairs by
//! weighted frequency; its construction laws — count coherence, set
//! membership, queue soundness and adequacy — are what justify every
//! selection. Each iteration takes the queue's maximum, records the
//! pair's byte form, and rewrites every token sequence by the greedy
//! left-to-right pass.
//!
//! The contract pins the result: the merge list replays to exactly the
//! returned corpus and interner, each merge is a maximal live selection
//! with ties to the smaller bytes, the list stops short of the requested
//! length only when nothing is left to merge, and the total corpus
//! weight never changes.

use vstd::prelude::*;
use crate::counts::{assoc_count, assoc_total, lemma_count_le_total};
use crate::heap::{entry_le, HeapEntry, PairHeap};
use crate::interner::Interner;
use crate::maps::{PairCounts, TokCounts};
use crate::pair_toks::PairToks;

verus! {

/// All ids in `t` are below `n`, so they index an interner table of length
/// `n`.
pub open spec fn seq_ids_lt(t: Seq<usize>, n: int) -> bool {
    forall|k: int| 0 <= k < t.len() ==> t[k] < n
}

/// One left-to-right greedy rewrite pass: every adjacency equal to `p` is
/// replaced by the single symbol `m`, and a symbol consumed by a
/// replacement starts no further replacement.
pub open spec fn merge_seq(t: Seq<usize>, p: (usize, usize), m: usize) -> Seq<usize>
    decreases t.len(),
{
    if t.len() == 0 {
        Seq::empty()
    } else if t.len() >= 2 && t[0] == p.0 && t[1] == p.1 {
        seq![m] + merge_seq(t.skip(2), p, m)
    } else {
        seq![t[0]] + merge_seq(t.skip(1), p, m)
    }
}

/// Rewriting keeps ids below `n` when the input ids and the merged id are.
pub proof fn lemma_merge_seq_ids(t: Seq<usize>, p: (usize, usize), m: usize, n: int)
    requires
        seq_ids_lt(t, n),
        m < n,
    ensures
        seq_ids_lt(merge_seq(t, p, m), n),
    decreases t.len(),
{
    if t.len() == 0 {
    } else if t.len() >= 2 && t[0] == p.0 && t[1] == p.1 {
        assert(seq_ids_lt(t.skip(2), n));
        lemma_merge_seq_ids(t.skip(2), p, m, n);
        assert forall|k: int| 0 <= k < merge_seq(t, p, m).len() implies merge_seq(t, p, m)[k]
            < n by {
            if k > 0 {
                assert(merge_seq(t, p, m)[k] == merge_seq(t.skip(2), p, m)[k - 1]);
            }
        }
    } else {
        assert(seq_ids_lt(t.skip(1), n));
        lemma_merge_seq_ids(t.skip(1), p, m, n);
        assert forall|k: int| 0 <= k < merge_seq(t, p, m).len() implies merge_seq(t, p, m)[k]
            < n by {
            if k > 0 {
                assert(merge_seq(t, p, m)[k] == merge_seq(t.skip(1), p, m)[k - 1]);
            }
        }
    }
}

/// Build the new form of one token sequence under the chosen pair `p`,
/// whose merged symbol is `m`.
pub fn rewrite_token(t: &Vec<usize>, p: (usize, usize), m: usize) -> (r: Vec<usize>)
    ensures
        r@ == merge_seq(t@, p, m),
{
    let mut r: Vec<usize> = Vec::new();
    let n = t.len();
    let mut i: usize = 0;
    proof {
        assert(t@.skip(0) =~= t@);
        assert(r@ + merge_seq(t@, p, m) =~= merge_seq(t@, p, m));
    }
    while i < n
        invariant
            n == t@.len(),
            i <= n,
            merge_seq(t@, p, m) == r@ + merge_seq(t@.skip(i as int), p, m),
        decreases n - i,
    {
        let ghost rest = t@.skip(i as int);
        let ghost pre = r@;
        proof {
            assert(rest[0] == t@[i as int]);
            assert(rest.skip(1) =~= t@.skip(i + 1));
            if i + 1 < n {
                assert(rest[1] == t@[i + 1]);
                assert(rest.skip(2) =~= t@.skip(i + 2));
            }
        }
        if i + 1 < n && t[i] == p.0 && t[i + 1] == p.1 {
            r.push(m);
            proof {
                assert(merge_seq(rest, p, m) == seq![m] + merge_seq(t@.skip(i + 2), p, m));
                assert(pre + (seq![m] + merge_seq(t@.skip(i + 2), p, m)) =~= r@ + merge_seq(
                    t@.skip(i + 2),
                    p,
                    m,
                ));
            }
            i += 2;
        } else {
            r.push(t[i]);
            proof {
                assert(merge_seq(rest, p, m) == seq![t@[i as int]] + merge_seq(
                    t@.skip(i + 1),
                    p,
                    m,
                ));
                assert(pre + (seq![t@[i as int]] + merge_seq(t@.skip(i + 1), p, m)) =~= r@
                    + merge_seq(t@.skip(i + 1), p, m));
            }
            i += 1;
        }
    }
    proof {
        assert(t@.skip(n as int) =~= Seq::<usize>::empty());
        assert(merge_seq(Seq::<usize>::empty(), p, m) == Seq::<usize>::empty());
        assert(r@ + Seq::<usize>::empty() =~= r@);
    }
    r
}

/// Number of adjacencies of `t` equal to `p`.
pub open spec fn pair_occ(t: Seq<usize>, p: (usize, usize)) -> nat
    decreases t.len(),
{
    if t.len() < 2 {
        0
    } else {
        pair_occ(t.drop_last(), p) + if t[t.len() - 2] == p.0 && t[t.len() - 1] == p.1 {
            1nat
        } else {
            0
        }
    }
}

/// Total weight of pair `p` over the corpus: the sum over all token
/// sequences of the sequence's count times the number of adjacencies of
/// `p` in it.
pub open spec fn pairs_weight(s: Seq<(Seq<usize>, usize)>, p: (usize, usize)) -> nat
    decreases s.len(),
{
    if s.len() == 0 {
        0
    } else {
        (pairs_weight(s.drop_last(), p) + s.last().1 * pair_occ(s.last().0, p)) as nat
    }
}

/// A weight as it is stored in a machine word: saturated at `usize::MAX`.
pub open spec fn capped(w: int) -> nat {
    if w > usize::MAX {
        usize::MAX as nat
    } else if w < 0 {
        0
    } else {
        w as nat
    }
}

/// Every queued entry names, through the interner table, a pair that is
/// live in the count map, and does not exceed that pair's current count.
pub open spec fn heap_sound(
    h: Seq<(usize, Seq<u8>, Seq<u8>)>,
    pc: Seq<((usize, usize), usize)>,
    table: Seq<Seq<u8>>,
) -> bool {
    forall|e: (usize, Seq<u8>, Seq<u8>)| #[trigger] h.contains(e) ==> exists|q: (usize, usize)|
        q.0 < table.len() && q.1 < table.len() && e.1 == table[q.0 as int] && e.2 == table[
            q.1 as int
        ] && 1 <= e.0 && e.0 <= assoc_count(pc, q)
}

/// Every live pair of the count map has a queued entry holding its
/// current count: a validated pop is sound and the queue empties only
/// when no live pair remains.
pub open spec fn heap_adequate(
    h: Seq<(usize, Seq<u8>, Seq<u8>)>,
    pc: Seq<((usize, usize), usize)>,
    table: Seq<Seq<u8>>,
) -> bool {
    forall|q: (usize, usize)| #[trigger] assoc_count(pc, q) >= 1 ==> q.0 < table.len() && q.1
        < table.len() && h.contains(
        (assoc_count(pc, q) as usize, table[q.0 as int], table[q.1 as int]),
    )
}

/// A pair with positive corpus weight occurs in some weighted entry.
pub proof fn lemma_weight_pos_exists(s: Seq<(Seq<usize>, usize)>, p: (usize, usize))
    requires
        pairs_weight(s, p) >= 1,
    ensures
        exists|i: int|
            0 <= i < s.len() && s[i].1 >= 1 && pair_occ(#[trigger] s[i].0, p) >= 1,
    decreases s.len(),
{
    if s.len() > 0 {
        if s.last().1 * pair_occ(s.last().0, p) >= 1 {
            assert(s.last().1 >= 1 && pair_occ(s.last().0, p) >= 1) by (nonlinear_arith)
                requires
                    s.last().1 * pair_occ(s.last().0, p) >= 1,
            ;
            assert(s[s.len() - 1].1 >= 1 && pair_occ(s[s.len() - 1].0, p) >= 1);
        } else {
            lemma_weight_pos_exists(s.drop_last(), p);
            let i = choose|i: int|
                0 <= i < s.drop_last().len() && s.drop_last()[i].1 >= 1 && pair_occ(
                    #[trigger] s.drop_last()[i].0,
                    p,
                ) >= 1;
            assert(s[i].1 >= 1 && pair_occ(s[i].0, p) >= 1);
        }
    }
}

/// A pair adjacent in `t` has both its ids at adjacent positions.
pub proof fn lemma_occ_pos_ids(t: Seq<usize>, p: (usize, usize))
    requires
        pair_occ(t, p) >= 1,
    ensures
        exists|j: int| 0 <= j < t.len() - 1 && t[j] == p.0 && #[trigger] t[j + 1] == p.1,
    decreases t.len(),
{
    if t.len() >= 2 {
        if t[t.len() - 2] == p.0 && t[t.len() - 1] == p.1 {
            assert(t[t.len() - 2] == p.0 && t[(t.len() - 2) + 1] == p.1);
        } else {
            lemma_occ_pos_ids(t.drop_last(), p);
            let j = choose|j: int|
                0 <= j < t.drop_last().len() - 1 && t.drop_last()[j] == p.0
                    && #[trigger] t.drop_last()[j + 1] == p.1;
            assert(t[j] == p.0 && t[j + 1] == p.1);
        }
    }
}

/// Build the initial pair index from the corpus map: for every adjacency
/// of every token sequence, add the sequence's weight to the pair's count,
/// record the sequence under the pair, and queue the running count.
///
/// The ensures state the pair-index coherence law at construction: every
/// pair's count equals its total corpus weight (saturated at the machine
/// word), and a token sequence is recorded under a pair exactly when it is
/// live in the corpus and contains the pair.
pub fn build_pair_index(entries: &Vec<(Vec<usize>, usize)>, interner: &Interner) -> (r: (
    PairCounts,
    PairToks,
    PairHeap,
))
    requires
        interner.wf(),
        forall|l: int|
            0 <= l < entries@.len() ==> (#[trigger] crate::maps::tok_entries_view(
                entries@,
            )[l]).1 >= 1,
        forall|l: int|
            0 <= l < entries@.len() ==> seq_ids_lt(
                #[trigger] crate::maps::tok_entries_view(entries@)[l].0,
                interner@.len() as int,
            ),
    ensures
        r.0.wf(),
        r.1.wf(),
        forall|q: (usize, usize), t: Seq<usize>|
            r.1.member(q, t) ==> seq_ids_lt(t, interner@.len() as int),
        entries@.len() == 0 ==> r.2@.len() == 0,
        forall|p: (usize, usize)|
            assoc_count(r.0@, p) == capped(
                pairs_weight(crate::maps::tok_entries_view(entries@), p) as int,
            ),
        forall|p: (usize, usize), t: Seq<usize>|
            r.1.member(p, t) <==> (assoc_count(crate::maps::tok_entries_view(entries@), t) > 0
                && pair_occ(t, p) > 0),
        heap_sound(r.2@, r.0@, interner@),
        heap_adequate(r.2@, r.0@, interner@),
{
    let ghost tv = crate::maps::tok_entries_view(entries@);
    let mut pair_counts = PairCounts::new();
    let mut pair_toks = PairToks::new();
    let mut heap = PairHeap::new();
    let n = entries.len();
    let mut i: usize = 0;
    proof {
        assert(tv.take(0) =~= Seq::<(Seq<usize>, usize)>::empty());
    }
    while i < n
        invariant
            interner.wf(),
            tv == crate::maps::tok_entries_view(entries@),
            forall|l: int| 0 <= l < tv.len() ==> (#[trigger] tv[l]).1 >= 1,
            forall|l: int|
                0 <= l < tv.len() ==> seq_ids_lt(#[trigger] tv[l].0, interner@.len() as int),
            n == entries@.len(),
            tv.len() == n,
            i <= n,
            pair_counts.wf(),
            pair_toks.wf(),
            forall|q: (usize, usize), t: Seq<usize>|
                pair_toks.member(q, t) ==> seq_ids_lt(t, interner@.len() as int),
            entries@.len() == 0 ==> heap@.len() == 0,
            forall|p: (usize, usize)|
                assoc_count(pair_counts@, p) == capped(pairs_weight(tv.take(i as int), p) as int),
            forall|p: (usize, usize), t: Seq<usize>|
                pair_toks.member(p, t) <==> (assoc_count(tv.take(i as int), t) > 0 && pair_occ(
                    t,
                    p,
                ) > 0),
            heap_sound(heap@, pair_counts@, interner@),
            heap_adequate(heap@, pair_counts@, interner@),
        decreases n - i,
    {
        let tok = &entries[i].0;
        let count = entries[i].1;
        proof {
            assert(tv[i as int] == (entries@[i as int].0@, entries@[i as int].1));
            assert(tok@ == tv[i as int].0);
            assert(count == tv[i as int].1);
            assert(count >= 1);
            assert(seq_ids_lt(tok@, interner@.len() as int));
            assert(tv.take(i + 1).drop_last() =~= tv.take(i as int));
            assert(tv.take(i + 1).last() == tv[i as int]);
        }
        if tok.len() >= 2 {
            let m = tok.len();
            let mut x: usize = 0;
            proof {
                assert(tok@.take(1).len() < 2);
                assert forall|p: (usize, usize)|
                    assoc_count(pair_counts@, p) == capped(
                        pairs_weight(tv.take(i as int), p) + count * pair_occ(
                            tok@.take(1),
                            p,
                        ),
                    ) by {
                    assert(pair_occ(tok@.take(1), p) == 0);
                }
            }
            while x + 1 < m
                invariant
                    interner.wf(),
                    i < tv.len(),
                    tok@ == tv[i as int].0,
                    seq_ids_lt(tok@, interner@.len() as int),
                    count == tv[i as int].1,
                    count >= 1,
                    m == tok@.len(),
                    x < m,
                    pair_counts.wf(),
                    pair_toks.wf(),
                    forall|q: (usize, usize), t: Seq<usize>|
                        pair_toks.member(q, t) ==> seq_ids_lt(t, interner@.len() as int),
                    forall|p: (usize, usize)|
                        assoc_count(pair_counts@, p) == capped(
                            pairs_weight(tv.take(i as int), p) + count * pair_occ(
                                tok@.take(x + 1),
                                p,
                            ),
                        ),
                    forall|p: (usize, usize), t: Seq<usize>|
                        pair_toks.member(p, t) <==> ((assoc_count(tv.take(i as int), t) > 0
                            && pair_occ(t, p) > 0) || (t == tok@ && pair_occ(
                            tok@.take(x + 1),
                            p,
                        ) > 0)),
                    heap_sound(heap@, pair_counts@, interner@),
                    heap_adequate(heap@, pair_counts@, interner@),
                decreases m - x,
            {
                let q = (tok[x], tok[x + 1]);
                let ghost pt_pre = pair_toks;
                proof {
                    assert(tok@.take(x + 2).drop_last() =~= tok@.take(x + 1));
                    assert(tok@.take(x + 2).len() == x + 2);
                    assert(tok@.take(x + 2)[x as int] == tok@[x as int]);
                    assert(tok@.take(x + 2)[x + 1] == tok@[x + 1]);
                    assert forall|p: (usize, usize)|
                        #[trigger] pair_occ(tok@.take(x + 2), p) == pair_occ(tok@.take(x + 1), p)
                            + if p == q {
                            1nat
                        } else {
                            0
                        } by {}
                }
                let ghost pc_pre = pair_counts@;
                let ghost hp_pre = heap@;
                let nc = pair_counts.add_saturating(q, count);
                let le = interner.get_bytes(q.0).clone();
                let re = interner.get_bytes(q.1).clone();
                proof {
                    assert(le@ =~= interner@[q.0 as int]);
                    assert(re@ =~= interner@[q.1 as int]);
                }
                heap.push(HeapEntry { count: nc, left: le, right: re });
                let ghost pe = (nc, interner@[q.0 as int], interner@[q.1 as int]);
                pair_toks.insert(q, tok.clone());
                proof {
                    assert(heap@ =~= hp_pre.push(pe));
                    assert forall|p: (usize, usize)|
                        assoc_count(pair_counts@, p) == capped(
                            pairs_weight(tv.take(i as int), p) + count * pair_occ(
                                tok@.take(x + 2),
                                p,
                            ),
                        ) by {
                        if p == q {
                            vstd::arithmetic::mul::lemma_mul_is_distributive_add(
                                count as int,
                                pair_occ(tok@.take(x + 1), p) as int,
                                1,
                            );
                            assert(count * pair_occ(tok@.take(x + 2), p) == count * pair_occ(
                                tok@.take(x + 1),
                                p,
                            ) + count);
                        }
                    }
                    assert forall|e: (usize, Seq<u8>, Seq<u8>)| #[trigger] heap@.contains(e)
                        implies exists|q2: (usize, usize)|
                        q2.0 < interner@.len() && q2.1 < interner@.len() && e.1 == interner@[
                            q2.0 as int
                        ] && e.2 == interner@[q2.1 as int] && 1 <= e.0 && e.0 <= assoc_count(
                        pair_counts@,
                        q2,
                    ) by {
                        let w = choose|w: int| 0 <= w < heap@.len() && heap@[w] == e;
                        if w < hp_pre.len() {
                            assert(hp_pre[w] == e);
                            assert(hp_pre.contains(e));
                            let q0 = choose|q0: (usize, usize)|
                                q0.0 < interner@.len() && q0.1 < interner@.len() && e.1
                                    == interner@[q0.0 as int] && e.2 == interner@[q0.1 as int] && 1
                                    <= e.0 && e.0 <= assoc_count(pc_pre, q0);
                            assert(assoc_count(pair_counts@, q0) >= assoc_count(pc_pre, q0));
                            assert(q0.0 < interner@.len() && q0.1 < interner@.len() && e.1
                                == interner@[q0.0 as int] && e.2 == interner@[q0.1 as int] && 1
                                <= e.0 && e.0 <= assoc_count(pair_counts@, q0));
                        } else {
                            assert(e == pe);
                            assert(q.0 < interner@.len() && q.1 < interner@.len() && e.1
                                == interner@[q.0 as int] && e.2 == interner@[q.1 as int] && 1
                                <= e.0 && e.0 <= assoc_count(pair_counts@, q));
                        }
                    }
                    assert forall|q2: (usize, usize)| #[trigger] assoc_count(pair_counts@, q2)
                        >= 1 implies q2.0 < interner@.len() && q2.1 < interner@.len()
                        && heap@.contains(
                        (
                            assoc_count(pair_counts@, q2) as usize,
                            interner@[q2.0 as int],
                            interner@[q2.1 as int],
                        ),
                    ) by {
                        if q2 == q {
                            assert(assoc_count(pair_counts@, q) == nc as nat);
                            assert(heap@[heap@.len() - 1] == pe);
                            assert(heap@.contains(pe));
                        } else {
                            assert(assoc_count(pair_counts@, q2) == assoc_count(pc_pre, q2));
                            assert(hp_pre.contains(
                                (
                                    assoc_count(pc_pre, q2) as usize,
                                    interner@[q2.0 as int],
                                    interner@[q2.1 as int],
                                ),
                            ));
                            let w = choose|w: int|
                                0 <= w < hp_pre.len() && hp_pre[w] == (
                                    assoc_count(pc_pre, q2) as usize,
                                    interner@[q2.0 as int],
                                    interner@[q2.1 as int],
                                );
                            assert(heap@[w] == hp_pre[w]);
                            assert(heap@.contains(heap@[w]));
                        }
                    }
                    assert forall|p: (usize, usize), t: Seq<usize>|
                        pair_toks.member(p, t) <==> ((assoc_count(tv.take(i as int), t) > 0
                            && pair_occ(t, p) > 0) || (t == tok@ && pair_occ(
                            tok@.take(x + 2),
                            p,
                        ) > 0)) by {
                        assert(pair_toks.member(p, t) <==> pt_pre.member(p, t) || (p == q && t
                            == tok@));
                    }
                }
                x += 1;
            }
            proof {
                assert(tok@.take(m as int) =~= tok@);
            }
        } else {
            proof {
                assert forall|p: (usize, usize)| pair_occ(tok@, p) == 0 by {}
            }
        }
        proof {
            assert forall|p: (usize, usize)|
                assoc_count(pair_counts@, p) == capped(
                    pairs_weight(tv.take(i + 1), p) as int,
                ) by {
                assert(pairs_weight(tv.take(i + 1), p) == pairs_weight(tv.take(i as int), p)
                    + count * pair_occ(tok@, p));
                if tok@.len() < 2 {
                    assert(count * pair_occ(tok@, p) == 0);
                }
            }
            assert forall|p: (usize, usize), t: Seq<usize>|
                pair_toks.member(p, t) <==> (assoc_count(tv.take(i + 1), t) > 0 && pair_occ(
                    t,
                    p,
                ) > 0) by {
                assert(assoc_count(tv.take(i + 1), t) == assoc_count(tv.take(i as int), t)
                    + if t == tok@ {
                    count as nat
                } else {
                    0
                });
            }
        }
        i += 1;
    }
    proof {
        assert(tv.take(n as int) =~= tv);
    }
    (pair_counts, pair_toks, heap)
}

/// The byte pair (`lb`, `rb`) is a valid selection at corpus `s` with
/// interner `table`: it names a live pair, and no pair outranks it — none
/// has a larger stored weight, and among equal weights none has smaller
/// byte strings.
#[verifier::opaque]
pub open spec fn selected_pair(
    s: Seq<(Seq<usize>, usize)>,
    table: Seq<Seq<u8>>,
    lb: Seq<u8>,
    rb: Seq<u8>,
) -> bool {
    exists|p: (usize, usize)|
        #![trigger table[p.0 as int], table[p.1 as int]]
        p.0 < table.len() && p.1 < table.len() && lb == table[p.0 as int] && rb == table[
            p.1 as int
        ] && capped(pairs_weight(s, p) as int) >= 1 && (forall|q: (usize, usize)|
            #![trigger pairs_weight(s, q)]
            (q.0 < table.len() && q.1 < table.len()) ==> crate::heap::entry_le(
                (
                    capped(pairs_weight(s, q) as int) as usize,
                    table[q.0 as int],
                    table[q.1 as int],
                ),
                (capped(pairs_weight(s, p) as int) as usize, lb, rb),
            ))
}

/// Replaying one more merge is one more intern-and-rewrite step.
pub proof fn lemma_replay_snoc(
    s: Seq<(Seq<usize>, usize)>,
    table: Seq<Seq<u8>>,
    ms: Seq<(Seq<u8>, Seq<u8>)>,
    x: (Seq<u8>, Seq<u8>),
)
    ensures
        replay(s, table, ms.push(x)) == ({
            let st = replay(s, table, ms);
            let a = crate::interner::intern_step(st.1, x.0);
            let b = crate::interner::intern_step(a.0, x.1);
            let cm = crate::interner::intern_step(b.0, x.0 + x.1);
            (rewrite_entries(st.0, (a.1 as usize, b.1 as usize), cm.1 as usize), cm.0)
        }),
    decreases ms.len(),
{
    if ms.len() == 0 {
        assert(ms.push(x) =~= seq![x]);
        assert(replay(s, table, ms) == (s, table));
        let a = crate::interner::intern_step(table, x.0);
        let b = crate::interner::intern_step(a.0, x.1);
        let cm = crate::interner::intern_step(b.0, x.0 + x.1);
        assert(seq![x][0] == x);
        assert(seq![x].skip(1) =~= Seq::<(Seq<u8>, Seq<u8>)>::empty());
        assert(replay(s, table, seq![x]) == replay(
            rewrite_entries(s, (a.1 as usize, b.1 as usize), cm.1 as usize),
            cm.0,
            seq![x].skip(1),
        ));
        assert(replay(
            rewrite_entries(s, (a.1 as usize, b.1 as usize), cm.1 as usize),
            cm.0,
            seq![x].skip(1),
        ) == (rewrite_entries(s, (a.1 as usize, b.1 as usize), cm.1 as usize), cm.0));
    } else {
        assert(ms.push(x)[0] == ms[0]);
        assert(ms.push(x).skip(1) =~= ms.skip(1).push(x));
        let a0 = crate::interner::intern_step(table, ms[0].0);
        let b0 = crate::interner::intern_step(a0.0, ms[0].1);
        let c0 = crate::interner::intern_step(b0.0, ms[0].0 + ms[0].1);
        let s1 = rewrite_entries(s, (a0.1 as usize, b0.1 as usize), c0.1 as usize);
        assert(replay(s, table, ms.push(x)) == replay(s1, c0.0, ms.push(x).skip(1)));
        assert(replay(s, table, ms) == replay(s1, c0.0, ms.skip(1)));
        lemma_replay_snoc(s1, c0.0, ms.skip(1), x);
    }
}

/// With an empty queue over an adequate index, no pair has positive
/// weight.
pub proof fn lemma_exhausted(
    hp0: Seq<(usize, Seq<u8>, Seq<u8>)>,
    pcv: Seq<((usize, usize), usize)>,
    tab: Seq<Seq<u8>>,
    rv: Seq<(Seq<usize>, usize)>,
)
    requires
        hp0.len() == 0,
        heap_adequate(hp0, pcv, tab),
        forall|p: (usize, usize)|
            assoc_count(pcv, p) == capped(#[trigger] pairs_weight(rv, p) as int),
    ensures
        forall|p: (usize, usize)| #[trigger] pairs_weight(rv, p) == 0,
{
    assert forall|p: (usize, usize)| #[trigger] pairs_weight(rv, p) == 0 by {
        if pairs_weight(rv, p) >= 1 {
            assert(capped(pairs_weight(rv, p) as int) >= 1);
            assert(assoc_count(pcv, p) >= 1);
            let w = choose|w: int|
                0 <= w < hp0.len() && hp0[w] == (
                    assoc_count(pcv, p) as usize,
                    tab[p.0 as int],
                    tab[p.1 as int],
                );
        }
    }
}

/// The maximum of a fresh adequate queue is current and outranks every
/// pair: validation always succeeds and the popped pair is the
/// selection.
pub proof fn lemma_pop_selects(
    hp0: Seq<(usize, Seq<u8>, Seq<u8>)>,
    pcv: Seq<((usize, usize), usize)>,
    tab: Seq<Seq<u8>>,
    rv: Seq<(Seq<usize>, usize)>,
    ev: (usize, Seq<u8>, Seq<u8>),
    lid: usize,
    rid: usize,
    c: usize,
)
    requires
        heap_sound(hp0, pcv, tab),
        heap_adequate(hp0, pcv, tab),
        forall|p: (usize, usize)|
            assoc_count(pcv, p) == capped(#[trigger] pairs_weight(rv, p) as int),
        hp0.contains(ev),
        forall|j: int| 0 <= j < hp0.len() ==> entry_le(#[trigger] hp0[j], ev),
        crate::interner::table_distinct(tab),
        lid < tab.len(),
        tab[lid as int] == ev.1,
        rid < tab.len(),
        tab[rid as int] == ev.2,
        c == assoc_count(pcv, (lid, rid)),
    ensures
        c == ev.0,
        c >= 1,
        selected_pair(rv, tab, ev.1, ev.2),
{
    let qe = choose|q0: (usize, usize)|
        q0.0 < tab.len() && q0.1 < tab.len() && ev.1 == tab[q0.0 as int] && ev.2 == tab[
            q0.1 as int
        ] && 1 <= ev.0 && ev.0 <= assoc_count(pcv, q0);
    if lid != qe.0 {
        assert(tab[lid as int] == tab[qe.0 as int]);
        assert(false);
    }
    if rid != qe.1 {
        assert(tab[rid as int] == tab[qe.1 as int]);
        assert(false);
    }
    assert((lid, rid) == qe);
    assert(c >= 1);
    if (ev.0 as nat) < assoc_count(pcv, qe) {
        assert(assoc_count(pcv, qe) as usize == c);
        let ce = (c, tab[qe.0 as int], tab[qe.1 as int]);
        assert(hp0.contains(ce));
        let wj = choose|wj: int| 0 <= wj < hp0.len() && hp0[wj] == ce;
        assert(entry_le(hp0[wj], ev));
        assert(false);
    }
    assert(c == ev.0);
    assert(assoc_count(pcv, qe) == capped(pairs_weight(rv, qe) as int));
    assert forall|q: (usize, usize)|
        #![trigger pairs_weight(rv, q)]
        (q.0 < tab.len() && q.1 < tab.len()) implies entry_le(
        (capped(pairs_weight(rv, q) as int) as usize, tab[q.0 as int], tab[q.1 as int]),
        (capped(pairs_weight(rv, qe) as int) as usize, ev.1, ev.2),
    ) by {
        let cq = assoc_count(pcv, q);
        assert(cq == capped(pairs_weight(rv, q) as int));
        if cq >= 1 {
            assert(hp0.contains((cq as usize, tab[q.0 as int], tab[q.1 as int])));
            let wq = choose|wq: int|
                0 <= wq < hp0.len() && hp0[wq] == (cq as usize, tab[q.0 as int], tab[q.1 as int]);
            assert(entry_le(hp0[wq], ev));
            assert(ev == (c, ev.1, ev.2));
        } else {
            assert(cq == 0);
            assert(capped(pairs_weight(rv, q) as int) as usize == 0usize);
        }
    }
    assert(selected_pair(rv, tab, ev.1, ev.2)) by {
        reveal(selected_pair);
    }
}

/// The merge loop: repeatedly select the live pair that no other pair
/// outranks, rewrite every token sequence containing it, and append the
/// pair's byte form to the merge list, stopping after `max` merges or
/// when no live pair remains. Each iteration rebuilds the pair index and
/// takes the selection from the queue's maximum, so the pair-index laws
/// of `build_pair_index` justify every choice.
///
/// The ensures pin the result: the merge list replays to exactly the
/// returned corpus and interner; every emitted merge is a maximal live
/// selection in its replay state (ties to the smaller bytes); the list
/// falls short of `max` only when no pair with positive weight remains;
/// and the total corpus weight never changes.
#[verifier::rlimit(80)]
pub fn merge(tok_counts: TokCounts, max: usize, interner: &mut Interner) -> (r: (
    Vec<(Vec<u8>, Vec<u8>)>,
    TokCounts,
))
    requires
        tok_counts.wf(),
        old(interner).wf(),
        assoc_total(tok_counts@) <= usize::MAX,
        forall|k: Seq<usize>|
            assoc_count(tok_counts@, k) > 0 ==> seq_ids_lt(k, old(interner)@.len() as int),
    ensures
        final(interner).wf(),
        crate::interner::table_extends(final(interner)@, old(interner)@),
        r.0@.len() <= max,
        r.1.wf(),
        assoc_total(r.1@) == assoc_total(tok_counts@),
        forall|k: Seq<usize>|
            assoc_count(r.1@, k) > 0 ==> seq_ids_lt(k, final(interner)@.len() as int),
        assoc_total(tok_counts@) == 0 ==> r.0@.len() == 0,
        forall|k: Seq<usize>|
            assoc_count(r.1@, k) == assoc_count(
                replay(tok_counts@, old(interner)@, merge_list_views(r.0@)).0,
                k,
            ),
        final(interner)@ == replay(tok_counts@, old(interner)@, merge_list_views(r.0@)).1,
        forall|j: int|
            0 <= j < r.0@.len() ==> selected_pair(
                replay(tok_counts@, old(interner)@, merge_list_views(r.0@).take(j)).0,
                replay(tok_counts@, old(interner)@, merge_list_views(r.0@).take(j)).1,
                (#[trigger] merge_list_views(r.0@)[j]).0,
                merge_list_views(r.0@)[j].1,
            ),
        r.0@.len() < max ==> (forall|p: (usize, usize)|
            pairs_weight(replay(tok_counts@, old(interner)@, merge_list_views(r.0@)).0, p)
                == 0),
{
    let ghost s0 = tok_counts@;
    let ghost t0 = old(interner)@;
    let ghost total0 = assoc_total(tok_counts@);
    let mut raw: Vec<(Vec<usize>, usize)> = Vec::new();
    let tn = tok_counts.num_entries();
    let mut j: usize = 0;
    while j < tn
        invariant
            tok_counts.wf(),
            tn == tok_counts@.len(),
            j <= tn,
            crate::maps::tok_entries_view(raw@) =~= tok_counts@.take(j as int),
        decreases tn - j,
    {
        let k = tok_counts.key_at(j).clone();
        let v = tok_counts.val_at(j);
        proof {
            assert(k@ =~= tok_counts@[j as int].0);
        }
        let ghost pre = raw@;
        raw.push((k, v));
        proof {
            assert(crate::maps::tok_entries_view(raw@) =~= crate::maps::tok_entries_view(
                pre,
            ).push((tok_counts@[j as int].0, v)));
            assert(crate::maps::tok_entries_view(raw@) =~= tok_counts@.take(j + 1));
        }
        j += 1;
    }
    let mut merges: Vec<(Vec<u8>, Vec<u8>)> = Vec::new();
    proof {
        assert(tok_counts@.take(tn as int) =~= tok_counts@);
        assert(crate::maps::tok_entries_view(raw@) == s0);
        assert(merge_list_views(merges@) =~= Seq::<(Seq<u8>, Seq<u8>)>::empty());
        assert forall|l: int|
            0 <= l < crate::maps::tok_entries_view(raw@).len() implies (
        #[trigger] crate::maps::tok_entries_view(raw@)[l]).1 >= 1 && seq_ids_lt(
            crate::maps::tok_entries_view(raw@)[l].0,
            interner@.len() as int,
        ) by {
            crate::counts::lemma_entry_count_ge(s0, l);
        }
    }
    while merges.len() < max
        invariant
            interner.wf(),
            crate::interner::table_extends(interner@, t0),
            s0 == tok_counts@,
            t0 == old(interner)@,
            total0 == assoc_total(s0),
            total0 <= usize::MAX,
            merges@.len() <= max,
            replay(s0, t0, merge_list_views(merges@)) == (
                crate::maps::tok_entries_view(raw@),
                interner@,
            ),
            assoc_total(crate::maps::tok_entries_view(raw@)) == total0,
            forall|l: int|
                0 <= l < crate::maps::tok_entries_view(raw@).len()
                    ==> (#[trigger] crate::maps::tok_entries_view(raw@)[l]).1 >= 1,
            forall|l: int|
                0 <= l < crate::maps::tok_entries_view(raw@).len() ==> seq_ids_lt(
                    (#[trigger] crate::maps::tok_entries_view(raw@)[l]).0,
                    interner@.len() as int,
                ),
            forall|j2: int|
                0 <= j2 < merges@.len() ==> selected_pair(
                    replay(s0, t0, merge_list_views(merges@).take(j2)).0,
                    replay(s0, t0, merge_list_views(merges@).take(j2)).1,
                    (#[trigger] merge_list_views(merges@)[j2]).0,
                    merge_list_views(merges@)[j2].1,
                ),
            total0 == 0 ==> merges@.len() == 0,
        ensures
            interner.wf(),
            crate::interner::table_extends(interner@, t0),
            merges@.len() <= max,
            replay(s0, t0, merge_list_views(merges@)) == (
                crate::maps::tok_entries_view(raw@),
                interner@,
            ),
            assoc_total(crate::maps::tok_entries_view(raw@)) == total0,
            forall|l: int|
                0 <= l < crate::maps::tok_entries_view(raw@).len()
                    ==> (#[trigger] crate::maps::tok_entries_view(raw@)[l]).1 >= 1,
            forall|l: int|
                0 <= l < crate::maps::tok_entries_view(raw@).len() ==> seq_ids_lt(
                    (#[trigger] crate::maps::tok_entries_view(raw@)[l]).0,
                    interner@.len() as int,
                ),
            forall|j2: int|
                0 <= j2 < merges@.len() ==> selected_pair(
                    replay(s0, t0, merge_list_views(merges@).take(j2)).0,
                    replay(s0, t0, merge_list_views(merges@).take(j2)).1,
                    (#[trigger] merge_list_views(merges@)[j2]).0,
                    merge_list_views(merges@)[j2].1,
                ),
            total0 == 0 ==> merges@.len() == 0,
            merges@.len() < max ==> (forall|p: (usize, usize)|
                pairs_weight(crate::maps::tok_entries_view(raw@), p) == 0),
        decreases max - merges@.len(),
    {
        let ghost mv = merge_list_views(merges@);
        let ghost rv = crate::maps::tok_entries_view(raw@);
        let ghost tab = interner@;
        let (pc, _pair_toks, mut heap) = build_pair_index(&raw, interner);
        let ghost hp0 = heap@;
        let popped = heap.pop_max();
        let e = match popped {
            None => {
                proof {
                    lemma_exhausted(hp0, pc@, tab, rv);
                }
                break ;
            },
            Some(e) => e,
        };
        let lb = e.left.clone();
        let rb = e.right.clone();
        proof {
            assert(lb@ =~= e.left@);
            assert(rb@ =~= e.right@);
        }
        let lid = interner.intern(lb);
        let ghost t_b = interner@;
        let rid = interner.intern(rb);
        let pair = (lid, rid);
        let c = pc.get(pair);
        proof {
            let i0 = choose|i0: int|
                0 <= i0 < hp0.len() && hp0[i0] == e@ && heap@ == hp0.remove(i0);
            assert(hp0.contains(e@));
            assert(crate::heap::entry_le(hp0[i0], e@));
            assert(e@.1 == e.left@ && e@.2 == e.right@);
            let q0 = choose|q0: (usize, usize)|
                q0.0 < tab.len() && q0.1 < tab.len() && e@.1 == tab[q0.0 as int] && e@.2 == tab[
                    q0.1 as int
                ] && 1 <= e@.0 && e@.0 <= assoc_count(pc@, q0);
            assert(crate::interner::table_contains(tab, e.left@));
            assert(interner@ == tab);
            assert(interner@[lid as int] == e.left@);
            assert(crate::interner::table_contains(tab, e.right@));
            assert(interner@[rid as int] == e.right@);
            lemma_pop_selects(hp0, pc@, tab, rv, e@, lid, rid, c);
            assert(c == e.count && c >= 1);
            if total0 == 0 {
                assert(assoc_count(pc@, (lid, rid)) >= 1);
                assert(capped(pairs_weight(rv, (lid, rid)) as int) >= 1);
                lemma_weight_pos_exists(rv, (lid, rid));
                let i1 = choose|i1: int|
                    0 <= i1 < rv.len() && rv[i1].1 >= 1 && pair_occ(rv[i1].0, (lid, rid)) >= 1;
                crate::counts::lemma_entry_count_ge(rv, i1);
                lemma_count_le_total(rv, rv[i1].0);
                assert(false);
            }
        }
        let mut merged_bytes: Vec<u8> = Vec::new();
        merged_bytes.extend_from_slice(e.left.as_slice());
        merged_bytes.extend_from_slice(e.right.as_slice());
        proof {
            assert(merged_bytes@ =~= e.left@ + e.right@);
        }
        let ghost t_c = interner@;
        let mid = interner.intern(merged_bytes);
        proof {
            crate::interner::lemma_intern_matches(tab, t_b, e.left@, lid);
            crate::interner::lemma_intern_matches(t_b, t_c, e.right@, rid);
            crate::interner::lemma_intern_matches(t_c, interner@, e.left@ + e.right@, mid);
        }
        let m = raw.len();
        let mut x: usize = 0;
        while x < m
            invariant
                m == raw@.len(),
                rv.len() == m,
                x <= m,
                forall|l: int|
                    0 <= l < x ==> #[trigger] crate::maps::tok_entries_view(raw@)[l]
                        == rewrite_entries(rv, pair, mid)[l],
                forall|l: int|
                    x <= l < m ==> #[trigger] crate::maps::tok_entries_view(raw@)[l] == rv[l],
            decreases m - x,
        {
            let nk = rewrite_token(&raw[x].0, pair, mid);
            let v = raw[x].1;
            proof {
                assert(crate::maps::tok_entries_view(raw@)[x as int] == rv[x as int]);
                assert(raw@[x as int].0@ == rv[x as int].0);
                assert(v == rv[x as int].1);
            }
            let ghost pre = raw@;
            let ghost gnk = nk@;
            raw.set(x, (nk, v));
            proof {
                assert forall|l: int|
                    0 <= l < x + 1 implies #[trigger] crate::maps::tok_entries_view(raw@)[l]
                    == rewrite_entries(rv, pair, mid)[l] by {
                    if l < x {
                        assert(raw@[l] == pre[l]);
                        assert(crate::maps::tok_entries_view(raw@)[l]
                            == crate::maps::tok_entries_view(pre)[l]);
                    } else {
                        assert(gnk == merge_seq(rv[l].0, pair, mid));
                        assert(raw@[l].0@ == gnk);
                        assert(raw@[l].1 == v);
                        assert(crate::maps::tok_entries_view(raw@)[l] == (gnk, v));
                        assert(rewrite_entries(rv, pair, mid)[l] == (merge_seq(
                            rv[l].0,
                            pair,
                            mid,
                        ), rv[l].1));
                    }
                }
                assert forall|l: int|
                    x + 1 <= l < m implies #[trigger] crate::maps::tok_entries_view(raw@)[l]
                    == rv[l] by {
                    assert(raw@[l] == pre[l]);
                    assert(crate::maps::tok_entries_view(raw@)[l]
                        == crate::maps::tok_entries_view(pre)[l]);
                }
            }
            x += 1;
        }
        let ghost mvx = (e.left@, e.right@);
        merges.push((e.left, e.right));
        proof {
            assert(crate::maps::tok_entries_view(raw@) =~= rewrite_entries(rv, pair, mid));
            lemma_rewrite_entries_total(rv, pair, mid);
            assert(merge_list_views(merges@) =~= mv.push(mvx));
            lemma_replay_snoc(s0, t0, mv, mvx);
            assert(replay(s0, t0, merge_list_views(merges@)) == (
                crate::maps::tok_entries_view(raw@),
                interner@,
            ));
            assert forall|l: int|
                0 <= l < crate::maps::tok_entries_view(raw@).len() implies (
            #[trigger] crate::maps::tok_entries_view(raw@)[l]).1 >= 1 && seq_ids_lt(
                crate::maps::tok_entries_view(raw@)[l].0,
                interner@.len() as int,
            ) by {
                assert(crate::maps::tok_entries_view(raw@)[l] == rewrite_entries(
                    rv,
                    pair,
                    mid,
                )[l]);
                assert(seq_ids_lt(rv[l].0, tab.len() as int));
                assert(seq_ids_lt(rv[l].0, interner@.len() as int));
                lemma_merge_seq_ids(rv[l].0, pair, mid, interner@.len() as int);
            }
            assert forall|j2: int|
                0 <= j2 < merges@.len() implies selected_pair(
                replay(s0, t0, merge_list_views(merges@).take(j2)).0,
                replay(s0, t0, merge_list_views(merges@).take(j2)).1,
                (#[trigger] merge_list_views(merges@)[j2]).0,
                merge_list_views(merges@)[j2].1,
            ) by {
                if j2 < mv.len() {
                    assert(merge_list_views(merges@).take(j2) =~= mv.take(j2));
                    assert(merge_list_views(merges@)[j2] == mv[j2]);
                } else {
                    assert(merge_list_views(merges@).take(j2) =~= mv);
                    assert(merge_list_views(merges@)[j2] == mvx);
                    assert(replay(s0, t0, mv) == (rv, tab));
                }
            }
        }
    }
    let ghost rvf = crate::maps::tok_entries_view(raw@);
    let mut out = TokCounts::new();
    let rn = raw.len();
    let mut y: usize = 0;
    proof {
        assert(rvf.take(0) =~= Seq::<(Seq<usize>, usize)>::empty());
    }
    while y < rn
        invariant
            rn == raw@.len(),
            rvf == crate::maps::tok_entries_view(raw@),
            rvf.len() == rn,
            y <= rn,
            out.wf(),
            assoc_total(rvf) <= usize::MAX,
            forall|l: int| 0 <= l < rn ==> (#[trigger] rvf[l]).1 >= 1,
            assoc_total(out@) == assoc_total(rvf.take(y as int)),
            forall|k: Seq<usize>| assoc_count(out@, k) == assoc_count(rvf.take(y as int), k),
        decreases rn - y,
    {
        let k = raw[y].0.clone();
        let v = raw[y].1;
        proof {
            assert(k@ =~= rvf[y as int].0);
            assert(v == rvf[y as int].1);
            crate::counts::lemma_total_take(rvf, y as int);
            lemma_count_le_total(out@, k@);
        }
        out.add(k, v);
        proof {
            assert(rvf.take(y + 1).drop_last() =~= rvf.take(y as int));
            assert(rvf.take(y + 1).last() == rvf[y as int]);
        }
        y += 1;
    }
    proof {
        assert(rvf.take(rn as int) =~= rvf);
        assert forall|k: Seq<usize>| assoc_count(out@, k) > 0 implies seq_ids_lt(
            k,
            interner@.len() as int,
        ) by {
            crate::counts::lemma_count_pos_exists(rvf, k);
            let w = choose|w: int| 0 <= w < rvf.len() && rvf[w].0 == k;
        }
    }
    (merges, out)
}

/// The views of a merge list.
pub open spec fn merge_list_views(ms: Seq<(Vec<u8>, Vec<u8>)>) -> Seq<(Seq<u8>, Seq<u8>)> {
    ms.map_values(|m: (Vec<u8>, Vec<u8>)| (m.0@, m.1@))
}

/// One whole-corpus rewrite under pair `p` with merged symbol `m`: every
/// token sequence is rewritten in place, weights untouched.
pub open spec fn rewrite_entries(
    s: Seq<(Seq<usize>, usize)>,
    p: (usize, usize),
    m: usize,
) -> Seq<(Seq<usize>, usize)> {
    s.map_values(|e: (Seq<usize>, usize)| (merge_seq(e.0, p, m), e.1))
}

/// Rewriting moves weights between keys but creates and destroys none.
pub proof fn lemma_rewrite_entries_total(s: Seq<(Seq<usize>, usize)>, p: (usize, usize), m: usize)
    ensures
        assoc_total(rewrite_entries(s, p, m)) == assoc_total(s),
    decreases s.len(),
{
    if s.len() > 0 {
        lemma_rewrite_entries_total(s.drop_last(), p, m);
        assert(rewrite_entries(s, p, m).drop_last() =~= rewrite_entries(s.drop_last(), p, m));
        assert(rewrite_entries(s, p, m).last() == (merge_seq(s.last().0, p, m), s.last().1));
    }
}

/// Replaying a merge list over a corpus: for each merge, intern its two
/// sides and their concatenation exactly as the merge loop does, then
/// rewrite every token sequence under the resulting pair. Yields the
/// final corpus entries and the final interner table; this is the
/// reference meaning of an emitted merge list.
pub open spec fn replay(
    s: Seq<(Seq<usize>, usize)>,
    table: Seq<Seq<u8>>,
    ms: Seq<(Seq<u8>, Seq<u8>)>,
) -> (Seq<(Seq<usize>, usize)>, Seq<Seq<u8>>)
    decreases ms.len(),
{
    if ms.len() == 0 {
        (s, table)
    } else {
        let step_l = crate::interner::intern_step(table, ms[0].0);
        let step_r = crate::interner::intern_step(step_l.0, ms[0].1);
        let step_m = crate::interner::intern_step(step_r.0, ms[0].0 + ms[0].1);
        replay(
            rewrite_entries(s, (step_l.1 as usize, step_r.1 as usize), step_m.1 as usize),
            step_m.0,
            ms.skip(1),
        )
    }
}

/// Apply a list of merge rules in order to a corpus map, interning the
/// pair bytes and their concatenation exactly as the merge loop does.
///
/// The result is pinned: its counts are exactly those of `replay` on the
/// input corpus and merge list, the interner ends as `replay`'s table,
/// and the total weight of the corpus never changes.
pub fn apply_merges(tc: TokCounts, merges: &Vec<(Vec<u8>, Vec<u8>)>, interner: &mut Interner) -> (r:
    TokCounts)
    requires
        tc.wf(),
        old(interner).wf(),
        assoc_total(tc@) <= usize::MAX,
    ensures
        r.wf(),
        final(interner).wf(),
        assoc_total(r@) == assoc_total(tc@),
        forall|k: Seq<usize>|
            assoc_count(r@, k) == assoc_count(
                replay(tc@, old(interner)@, merge_list_views(merges@)).0,
                k,
            ),
        final(interner)@ == replay(tc@, old(interner)@, merge_list_views(merges@)).1,
{
    let ghost mv = merge_list_views(merges@);
    let mut raw: Vec<(Vec<usize>, usize)> = Vec::new();
    let tn = tc.num_entries();
    let mut j: usize = 0;
    while j < tn
        invariant
            tc.wf(),
            tn == tc@.len(),
            j <= tn,
            crate::maps::tok_entries_view(raw@) =~= tc@.take(j as int),
        decreases tn - j,
    {
        let k = tc.key_at(j).clone();
        let v = tc.val_at(j);
        proof {
            assert(k@ =~= tc@[j as int].0);
        }
        let ghost pre = raw@;
        raw.push((k, v));
        proof {
            assert(crate::maps::tok_entries_view(raw@) =~= crate::maps::tok_entries_view(
                pre,
            ).push((tc@[j as int].0, v)));
            assert(crate::maps::tok_entries_view(raw@) =~= tc@.take(j + 1));
        }
        j += 1;
    }
    proof {
        assert(tc@.take(tn as int) =~= tc@);
        assert(crate::maps::tok_entries_view(raw@) == tc@);
        assert(mv.skip(0) =~= mv);
    }
    let n = merges.len();
    let mut i: usize = 0;
    while i < n
        invariant
            n == merges@.len(),
            mv == merge_list_views(merges@),
            mv.len() == n,
            i <= n,
            interner.wf(),
            replay(tc@, old(interner)@, mv) == replay(
                crate::maps::tok_entries_view(raw@),
                interner@,
                mv.skip(i as int),
            ),
            assoc_total(crate::maps::tok_entries_view(raw@)) == assoc_total(tc@),
            assoc_total(tc@) <= usize::MAX,
            forall|l: int|
                0 <= l < crate::maps::tok_entries_view(raw@).len()
                    ==> #[trigger] crate::maps::tok_entries_view(raw@)[l].1 >= 1,
        decreases n - i,
    {
        let ghost rv0 = crate::maps::tok_entries_view(raw@);
        proof {
            assert(mv.skip(i as int)[0] == mv[i as int]);
            assert(mv[i as int] == (merges@[i as int].0@, merges@[i as int].1@));
            assert(mv.skip(i as int).skip(1) =~= mv.skip(i + 1));
        }
        let ghost t_a = interner@;
        let left = merges[i].0.clone();
        let right = merges[i].1.clone();
        proof {
            assert(left@ =~= merges@[i as int].0@);
            assert(right@ =~= merges@[i as int].1@);
        }
        let lid = interner.intern(left);
        proof {
            crate::interner::lemma_intern_matches(t_a, interner@, merges@[i as int].0@, lid);
        }
        let ghost t_b = interner@;
        let right2 = merges[i].1.clone();
        proof {
            assert(right2@ =~= merges@[i as int].1@);
        }
        let rid = interner.intern(right2);
        proof {
            crate::interner::lemma_intern_matches(t_b, interner@, merges@[i as int].1@, rid);
        }
        let ghost t_c = interner@;
        let mut merged_bytes: Vec<u8> = Vec::new();
        merged_bytes.extend_from_slice(merges[i].0.as_slice());
        merged_bytes.extend_from_slice(merges[i].1.as_slice());
        proof {
            assert(merged_bytes@ =~= merges@[i as int].0@ + merges@[i as int].1@);
        }
        let mid = interner.intern(merged_bytes);
        proof {
            crate::interner::lemma_intern_matches(
                t_c,
                interner@,
                merges@[i as int].0@ + merges@[i as int].1@,
                mid,
            );
        }
        let pair = (lid, rid);
        let m = raw.len();
        let mut x: usize = 0;
        while x < m
            invariant
                m == raw@.len(),
                rv0.len() == m,
                x <= m,
                forall|l: int|
                    0 <= l < x ==> #[trigger] crate::maps::tok_entries_view(raw@)[l]
                        == rewrite_entries(rv0, pair, mid)[l],
                forall|l: int|
                    x <= l < m ==> #[trigger] crate::maps::tok_entries_view(raw@)[l] == rv0[l],
            decreases m - x,
        {
            let nk = rewrite_token(&raw[x].0, pair, mid);
            let v = raw[x].1;
            proof {
                assert(crate::maps::tok_entries_view(raw@)[x as int] == rv0[x as int]);
                assert(raw@[x as int].0@ == rv0[x as int].0);
                assert(v == rv0[x as int].1);
            }
            let ghost pre = raw@;
            let ghost gnk = nk@;
            raw.set(x, (nk, v));
            proof {
                assert forall|l: int|
                    0 <= l < x + 1 implies #[trigger] crate::maps::tok_entries_view(raw@)[l]
                    == rewrite_entries(rv0, pair, mid)[l] by {
                    if l < x {
                        assert(raw@[l] == pre[l]);
                        assert(crate::maps::tok_entries_view(raw@)[l]
                            == crate::maps::tok_entries_view(pre)[l]);
                    } else {
                        assert(gnk == merge_seq(rv0[l].0, pair, mid));
                        assert(raw@[l].0@ == gnk);
                        assert(raw@[l].1 == v);
                        assert(crate::maps::tok_entries_view(raw@)[l] == (gnk, v));
                        assert(rewrite_entries(rv0, pair, mid)[l] == (merge_seq(
                            rv0[l].0,
                            pair,
                            mid,
                        ), rv0[l].1));
                    }
                }
                assert forall|l: int|
                    x + 1 <= l < m implies #[trigger] crate::maps::tok_entries_view(raw@)[l]
                    == rv0[l] by {
                    assert(raw@[l] == pre[l]);
                    assert(crate::maps::tok_entries_view(raw@)[l]
                        == crate::maps::tok_entries_view(pre)[l]);
                }
            }
            x += 1;
        }
        proof {
            assert(crate::maps::tok_entries_view(raw@) =~= rewrite_entries(rv0, pair, mid));
            lemma_rewrite_entries_total(rv0, pair, mid);
            assert forall|l: int|
                0 <= l < crate::maps::tok_entries_view(raw@).len()
                    implies #[trigger] crate::maps::tok_entries_view(raw@)[l].1 >= 1 by {
                assert(crate::maps::tok_entries_view(raw@)[l].1 == rv0[l].1);
            }
            assert(replay(rv0, t_a, mv.skip(i as int)) == replay(
                crate::maps::tok_entries_view(raw@),
                interner@,
                mv.skip(i + 1),
            ));
        }
        i += 1;
    }
    proof {
        assert(mv.skip(n as int) =~= Seq::<(Seq<u8>, Seq<u8>)>::empty());
    }
    let ghost rvf = crate::maps::tok_entries_view(raw@);
    let mut out = TokCounts::new();
    let rn = raw.len();
    let mut y: usize = 0;
    proof {
        assert(rvf.take(0) =~= Seq::<(Seq<usize>, usize)>::empty());
    }
    while y < rn
        invariant
            rn == raw@.len(),
            rvf == crate::maps::tok_entries_view(raw@),
            rvf.len() == rn,
            y <= rn,
            out.wf(),
            assoc_total(rvf) <= usize::MAX,
            forall|l: int| 0 <= l < rn ==> #[trigger] rvf[l].1 >= 1,
            assoc_total(out@) == assoc_total(rvf.take(y as int)),
            forall|k: Seq<usize>| assoc_count(out@, k) == assoc_count(rvf.take(y as int), k),
        decreases rn - y,
    {
        let k = raw[y].0.clone();
        let v = raw[y].1;
        proof {
            assert(k@ =~= rvf[y as int].0);
            assert(v == rvf[y as int].1);
            crate::counts::lemma_total_take(rvf, y as int);
            lemma_count_le_total(out@, k@);
        }
        out.add(k, v);
        proof {
            assert(rvf.take(y + 1).drop_last() =~= rvf.take(y as int));
            assert(rvf.take(y + 1).last() == rvf[y as int]);
        }
        y += 1;
    }
    proof {
        assert(rvf.take(rn as int) =~= rvf);
    }
    out
}

} // verus!