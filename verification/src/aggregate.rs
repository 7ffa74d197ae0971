//! Aggregation of per-chunk pre-token counts and conversion of the global
//! byte-string counts into the interned corpus map.

use vstd::prelude::*;
use crate::counts::{
    assoc_count, assoc_total, lemma_count_le_total, lemma_total_take,
};
use crate::interner::{
    byte_ids_of, bytes_contained, lemma_byte_ids_injective, lemma_byte_ids_stable,
    lemma_id_of_at, Interner,
};
use crate::maps::{ByteCounts, TokCounts};
use crate::merge::seq_ids_lt;

verus! {

/// Sum over all local maps of the count of `k`.
pub open spec fn sum_counts(ls: Seq<ByteCounts>, k: Seq<u8>) -> nat
    decreases ls.len(),
{
    if ls.len() == 0 {
        0
    } else {
        sum_counts(ls.drop_last(), k) + assoc_count(ls.last()@, k)
    }
}

/// Sum over all local maps of their totals.
pub open spec fn sum_totals(ls: Seq<ByteCounts>) -> nat
    decreases ls.len(),
{
    if ls.len() == 0 {
        0
    } else {
        sum_totals(ls.drop_last()) + assoc_total(ls.last()@)
    }
}

/// A prefix of the local maps, together with the next one, never exceeds
/// the whole sum.
pub proof fn lemma_sum_totals_take(ls: Seq<ByteCounts>, i: int)
    requires
        0 <= i < ls.len(),
    ensures
        sum_totals(ls.take(i)) + assoc_total(ls[i]@) <= sum_totals(ls),
    decreases ls.len(),
{
    if i == ls.len() - 1 {
        assert(ls.take(i) =~= ls.drop_last());
    } else {
        lemma_sum_totals_take(ls.drop_last(), i);
        assert(ls.drop_last().take(i) =~= ls.take(i));
    }
}

/// Merge the local chunk maps into one global map by adding counts
/// pointwise. Succeeds exactly when the grand total fits a `usize`;
/// addition over naturals is commutative and associative, so any chunk
/// order yields this same result.
pub fn aggregate(locals: &Vec<ByteCounts>) -> (r: Option<ByteCounts>)
    requires
        forall|i: int| 0 <= i < locals@.len() ==> (#[trigger] locals@[i]).wf(),
    ensures
        (r is Some) == (sum_totals(locals@) <= usize::MAX),
        r matches Some(g) ==> {
            &&& g.wf()
            &&& assoc_total(g@) == sum_totals(locals@)
            &&& forall|k: Seq<u8>| assoc_count(g@, k) == sum_counts(locals@, k)
        },
{
    let mut g = ByteCounts::new();
    let mut running: usize = 0;
    let n = locals.len();
    let mut i: usize = 0;
    proof {
        assert(locals@.take(0) =~= Seq::<ByteCounts>::empty());
    }
    while i < n
        invariant
            forall|w: int| 0 <= w < locals@.len() ==> (#[trigger] locals@[w]).wf(),
            n == locals@.len(),
            i <= n,
            g.wf(),
            running == sum_totals(locals@.take(i as int)),
            assoc_total(g@) == running,
            forall|k: Seq<u8>| assoc_count(g@, k) == sum_counts(locals@.take(i as int), k),
        decreases n - i,
    {
        let ghost liv = locals@[i as int]@;
        let m = locals[i].num_entries();
        let mut j: usize = 0;
        proof {
            assert(liv.take(0) =~= Seq::<(Seq<u8>, usize)>::empty());
        }
        while j < m
            invariant
                forall|w: int| 0 <= w < locals@.len() ==> (#[trigger] locals@[w]).wf(),
                n == locals@.len(),
                i < n,
                liv == locals@[i as int]@,
                m == liv.len(),
                j <= m,
                g.wf(),
                running == sum_totals(locals@.take(i as int)) + assoc_total(liv.take(j as int)),
                assoc_total(g@) == running,
                forall|k: Seq<u8>|
                    assoc_count(g@, k) == sum_counts(locals@.take(i as int), k) + assoc_count(
                        liv.take(j as int),
                        k,
                    ),
            decreases m - j,
        {
            let key = locals[i].key_at(j).clone();
            let v = locals[i].val_at(j);
            proof {
                assert(key@ =~= liv[j as int].0);
                assert(liv[j as int].1 >= 1);
            }
            if running > usize::MAX - v {
                proof {
                    lemma_total_take(liv, j as int);
                    lemma_sum_totals_take(locals@, i as int);
                }
                return None;
            }
            proof {
                lemma_count_le_total(g@, key@);
            }
            g.add(key, v);
            running = running + v;
            proof {
                assert(liv.take(j + 1).drop_last() =~= liv.take(j as int));
                assert(liv.take(j + 1).last() == liv[j as int]);
            }
            j += 1;
        }
        proof {
            assert(liv.take(m as int) =~= liv);
            assert(locals@.take(i + 1).drop_last() =~= locals@.take(i as int));
            assert(locals@.take(i + 1).last() == locals@[i as int]);
        }
        i += 1;
    }
    proof {
        assert(locals@.take(n as int) =~= locals@);
    }
    Some(g)
}

/// Intern the distinct byte values of the corpus in ascending order, then
/// turn every pre-token byte string into its sequence of single-byte
/// symbol ids.
///
/// The conversion is exact: the total weight carries over unchanged,
/// every pre-token byte string keeps its count under its id-sequence
/// image, every corpus entry is such an image, and every id in the result
/// indexes the interner.
pub fn intern_corpus(bc: &ByteCounts) -> (r: (TokCounts, Interner))
    requires
        bc.wf(),
        assoc_total(bc@) <= usize::MAX,
    ensures
        r.0.wf(),
        r.1.wf(),
        assoc_total(r.0@) == assoc_total(bc@),
        forall|k: Seq<usize>|
            assoc_count(r.0@, k) > 0 ==> seq_ids_lt(k, r.1@.len() as int),
        forall|k: Seq<u8>|
            assoc_count(bc@, k) > 0 ==> bytes_contained(r.1@, k) && assoc_count(
                r.0@,
                byte_ids_of(r.1@, k),
            ) == assoc_count(bc@, k),
        forall|t: Seq<usize>|
            assoc_count(r.0@, t) > 0 ==> exists|k: Seq<u8>|
                assoc_count(bc@, k) > 0 && t == byte_ids_of(r.1@, k),
{
    let mut interner = Interner::new();
    let mut seen: Vec<bool> = Vec::new();
    let mut b: usize = 0;
    while b < 256
        invariant
            seen@.len() == b,
            b <= 256,
        decreases 256 - b,
    {
        seen.push(false);
        b += 1;
    }
    let n = bc.num_entries();
    let mut i: usize = 0;
    while i < n
        invariant
            bc.wf(),
            n == bc@.len(),
            i <= n,
            seen@.len() == 256,
        decreases n - i,
    {
        let key = bc.key_at(i);
        let m = key.len();
        let mut x: usize = 0;
        while x < m
            invariant
                m == key@.len(),
                x <= m,
                seen@.len() == 256,
            decreases m - x,
        {
            let byte = key[x];
            seen.set(byte as usize, true);
            x += 1;
        }
        i += 1;
    }
    let mut v: usize = 0;
    while v < 256
        invariant
            v <= 256,
            seen@.len() == 256,
            interner.wf(),
        decreases 256 - v,
    {
        if seen[v] {
            let mut single: Vec<u8> = Vec::new();
            single.push(v as u8);
            interner.intern(single);
        }
        v += 1;
    }
    let mut tc = TokCounts::new();
    let mut i2: usize = 0;
    proof {
        assert(bc@.take(0) =~= Seq::<(Seq<u8>, usize)>::empty());
    }
    while i2 < n
        invariant
            bc.wf(),
            assoc_total(bc@) <= usize::MAX,
            n == bc@.len(),
            i2 <= n,
            interner.wf(),
            tc.wf(),
            assoc_total(tc@) == assoc_total(bc@.take(i2 as int)),
            forall|k: Seq<usize>|
                assoc_count(tc@, k) > 0 ==> seq_ids_lt(k, interner@.len() as int),
            forall|k: Seq<u8>|
                assoc_count(bc@.take(i2 as int), k) > 0 ==> bytes_contained(interner@, k)
                    && assoc_count(tc@, byte_ids_of(interner@, k)) == assoc_count(
                    bc@.take(i2 as int),
                    k,
                ),
            forall|t: Seq<usize>|
                assoc_count(tc@, t) > 0 ==> exists|k: Seq<u8>|
                    assoc_count(bc@.take(i2 as int), k) > 0 && t == byte_ids_of(interner@, k)
                        && bytes_contained(interner@, k),
        decreases n - i2,
    {
        let key = bc.key_at(i2);
        let c = bc.val_at(i2);
        proof {
            assert(key@ =~= bc@[i2 as int].0);
            assert(c == bc@[i2 as int].1);
            assert(c >= 1);
            assert forall|j: int|
                0 <= j < bc@.take(i2 as int).len() implies bc@.take(i2 as int)[j].0
                != key@ by {
                assert(bc@.take(i2 as int)[j] == bc@[j]);
            }
            crate::counts::lemma_count_absent(bc@.take(i2 as int), key@);
        }
        let m = key.len();
        let mut ids: Vec<usize> = Vec::new();
        let mut x: usize = 0;
        while x < m
            invariant
                bc.wf(),
                n == bc@.len(),
                i2 < n,
                key@ == bc@[i2 as int].0,
                m == key@.len(),
                x <= m,
                ids@.len() == x,
                interner.wf(),
                tc.wf(),
                bytes_contained(interner@, key@.take(x as int)),
                ids@ == byte_ids_of(interner@, key@.take(x as int)),
                forall|k: Seq<usize>|
                    assoc_count(tc@, k) > 0 ==> seq_ids_lt(k, interner@.len() as int),
                forall|k: Seq<u8>|
                    assoc_count(bc@.take(i2 as int), k) > 0 ==> bytes_contained(interner@, k)
                        && assoc_count(tc@, byte_ids_of(interner@, k)) == assoc_count(
                        bc@.take(i2 as int),
                        k,
                    ),
                forall|t: Seq<usize>|
                    assoc_count(tc@, t) > 0 ==> exists|k: Seq<u8>|
                        assoc_count(bc@.take(i2 as int), k) > 0 && t == byte_ids_of(interner@, k)
                            && bytes_contained(interner@, k),
            decreases m - x,
        {
            let mut single: Vec<u8> = Vec::new();
            single.push(key[x]);
            proof {
                assert(single@ =~= seq![key@[x as int]]);
            }
            let ghost table0 = interner@;
            let id = interner.intern(single);
            proof {
                lemma_id_of_at(interner@, id as int);
                let ghost e = seq![key@[x as int]];
                if !crate::interner::table_contains(table0, e) {
                    assert(interner@ == table0.push(e));
                    lemma_byte_ids_stable(table0, e, key@.take(x as int));
                }
                assert(bytes_contained(interner@, key@.take(x as int)));
                assert(ids@ == byte_ids_of(interner@, key@.take(x as int)));
                assert forall|k: Seq<u8>|
                    assoc_count(bc@.take(i2 as int), k) > 0 implies bytes_contained(interner@, k)
                    && assoc_count(tc@, byte_ids_of(interner@, k)) == assoc_count(
                    bc@.take(i2 as int),
                    k,
                ) by {
                    assert(bytes_contained(table0, k));
                    if !crate::interner::table_contains(table0, e) {
                        lemma_byte_ids_stable(table0, e, k);
                    }
                }
                assert forall|t: Seq<usize>| assoc_count(tc@, t) > 0 implies exists|k: Seq<u8>|
                    assoc_count(bc@.take(i2 as int), k) > 0 && t == byte_ids_of(interner@, k)
                        && bytes_contained(interner@, k) by {
                    let k0 = choose|k0: Seq<u8>|
                        assoc_count(bc@.take(i2 as int), k0) > 0 && t == byte_ids_of(table0, k0)
                            && bytes_contained(table0, k0);
                    if !crate::interner::table_contains(table0, e) {
                        lemma_byte_ids_stable(table0, e, k0);
                    }
                    assert(assoc_count(bc@.take(i2 as int), k0) > 0 && t == byte_ids_of(
                        interner@,
                        k0,
                    ) && bytes_contained(interner@, k0));
                }
            }
            ids.push(id);
            proof {
                assert(key@.take(x + 1).drop_last() =~= key@.take(x as int));
                assert(key@.take(x + 1).last() == key@[x as int]);
                assert(interner@[id as int] == seq![key@[x as int]]);
                assert(crate::interner::table_contains(interner@, seq![key@[x as int]]));
                assert forall|j: int| 0 <= j < x + 1 implies crate::interner::table_contains(
                    interner@,
                    seq![#[trigger] key@.take(x + 1)[j]],
                ) by {
                    if j < x {
                        assert(key@.take(x + 1)[j] == key@.take(x as int)[j]);
                    }
                }
                assert(bytes_contained(interner@, key@.take(x + 1)));
                assert(ids@ =~= byte_ids_of(interner@, key@.take(x + 1)));
            }
            x += 1;
        }
        let interner_len = interner.len();
        proof {
            assert(interner@.len() == interner_len);
            assert(key@.take(m as int) =~= key@);
            assert(bytes_contained(interner@, key@));
            assert(ids@ == byte_ids_of(interner@, key@));
            lemma_total_take(bc@, i2 as int);
            lemma_count_le_total(tc@, ids@);
            assert(seq_ids_lt(ids@, interner@.len() as int)) by {
                assert forall|l: int| 0 <= l < ids@.len() implies ids@[l]
                    < interner@.len() by {
                    let b = seq![key@[l]];
                    let w = crate::interner::id_of(interner@, b);
                    assert(0 <= w < interner@.len() && interner@[w] == b);
                    assert(ids@[l] == w as usize);
                }
            }
            if assoc_count(tc@, ids@) > 0 {
                let k0 = choose|k0: Seq<u8>|
                    assoc_count(bc@.take(i2 as int), k0) > 0 && ids@ == byte_ids_of(
                        interner@,
                        k0,
                    ) && bytes_contained(interner@, k0);
                lemma_byte_ids_injective(interner@, k0, key@);
            }
            assert(assoc_count(tc@, ids@) == 0);
        }
        let ghost gids = ids@;
        let ghost table1 = interner@;
        let ghost tc_pre = tc@;
        tc.add(ids, c);
        proof {
            assert(bc@.take(i2 + 1).drop_last() =~= bc@.take(i2 as int));
            assert(bc@.take(i2 + 1).last() == bc@[i2 as int]);
            assert forall|k: Seq<usize>| assoc_count(tc@, k) > 0 implies seq_ids_lt(
                k,
                interner@.len() as int,
            ) by {
                if k != gids {
                }
            }
            assert forall|k: Seq<u8>|
                assoc_count(bc@.take(i2 + 1), k) > 0 implies bytes_contained(interner@, k)
                && assoc_count(tc@, byte_ids_of(interner@, k)) == assoc_count(
                bc@.take(i2 + 1),
                k,
            ) by {
                assert(assoc_count(bc@.take(i2 + 1), k) == assoc_count(bc@.take(i2 as int), k)
                    + if k == key@ {
                    c as nat
                } else {
                    0
                });
                if k == key@ {
                    assert(byte_ids_of(interner@, k) == gids);
                    assert(assoc_count(tc@, gids) == c);
                } else {
                    assert(assoc_count(bc@.take(i2 as int), k) > 0);
                    assert(bytes_contained(table1, k));
                    assert(assoc_count(tc_pre, byte_ids_of(table1, k)) == assoc_count(
                        bc@.take(i2 as int),
                        k,
                    ));
                    if byte_ids_of(interner@, k) == gids {
                        lemma_byte_ids_injective(table1, k, key@);
                        assert(false);
                    }
                    assert(assoc_count(tc@, byte_ids_of(interner@, k)) == assoc_count(
                        tc_pre,
                        byte_ids_of(interner@, k),
                    ));
                }
            }
            assert forall|t: Seq<usize>| assoc_count(tc@, t) > 0 implies exists|k: Seq<u8>|
                assoc_count(bc@.take(i2 + 1), k) > 0 && t == byte_ids_of(interner@, k)
                    && bytes_contained(interner@, k) by {
                if t == gids {
                    assert(assoc_count(bc@.take(i2 + 1), key@) > 0 && t == byte_ids_of(
                        interner@,
                        key@,
                    ) && bytes_contained(interner@, key@));
                } else {
                    let k0 = choose|k0: Seq<u8>|
                        assoc_count(bc@.take(i2 as int), k0) > 0 && t == byte_ids_of(
                            interner@,
                            k0,
                        ) && bytes_contained(interner@, k0);
                    assert(assoc_count(bc@.take(i2 + 1), k0) > 0 && t == byte_ids_of(
                        interner@,
                        k0,
                    ) && bytes_contained(interner@, k0));
                }
            }
        }
        i2 += 1;
    }
    proof {
        assert(bc@.take(n as int) =~= bc@);
        assert forall|t: Seq<usize>| assoc_count(tc@, t) > 0 implies exists|k: Seq<u8>|
            assoc_count(bc@, k) > 0 && t == byte_ids_of(interner@, k) by {
            let k0 = choose|k0: Seq<u8>|
                assoc_count(bc@.take(n as int), k0) > 0 && t == byte_ids_of(interner@, k0)
                    && bytes_contained(interner@, k0);
            assert(assoc_count(bc@, k0) > 0 && t == byte_ids_of(interner@, k0));
        }
    }
    (tc, interner)
}

} // verus!
