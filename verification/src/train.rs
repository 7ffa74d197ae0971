//! End-to-end training from chunk bytes: per-chunk pre-token counting,
//! aggregation, interning, and the merge loop, in sequence.
//!
//! The caller supplies the corpus as a list of byte chunks whose
//! boundaries must not fall inside a pre-token or special token; reading
//! those chunks from a file is the caller's business. Aggregation adds
//! counts pointwise, so any chunk order — and any boundary choice that
//! respects token borders — yields the same totals.

use vstd::prelude::*;
use crate::aggregate::{aggregate, intern_corpus, sum_counts, sum_totals};
use crate::counts::{assoc_count, assoc_total};
use crate::interner::{
    byte_ids_of, bytes_contained, lemma_byte_ids_extend, table_extends, Interner,
};
use crate::maps::TokCounts;
use crate::merge::{merge, merge_list_views, pairs_weight, replay, selected_pair};
use crate::pretoken::{
    bytes_views_of, chunk_pre_token_counts, count_in, lossy_decode_spec, pretokens_spec,
    views_of,
};
use crate::maps::ByteCounts;

verus! {

/// Every chunk pre-tokenizes successfully.
pub open spec fn all_chunks_ok(chunks: Seq<Seq<u8>>, sp: Seq<Seq<char>>) -> bool {
    forall|i: int|
        0 <= i < chunks.len() ==> pretokens_spec(
            lossy_decode_spec(#[trigger] chunks[i]),
            sp,
        ) is Some
}

/// The number of pre-tokens of one chunk (zero when pre-tokenization
/// fails).
pub open spec fn chunk_pretok_len(chunk: Seq<u8>, sp: Seq<Seq<char>>) -> nat {
    match pretokens_spec(lossy_decode_spec(chunk), sp) {
        None => 0,
        Some(t) => t.len(),
    }
}

/// The number of pre-token occurrences over all chunks.
pub open spec fn total_pretokens(chunks: Seq<Seq<u8>>, sp: Seq<Seq<char>>) -> nat
    decreases chunks.len(),
{
    if chunks.len() == 0 {
        0
    } else {
        total_pretokens(chunks.drop_last(), sp) + chunk_pretok_len(chunks.last(), sp)
    }
}

/// The number of occurrences of the pre-token byte string `k` over all
/// chunks.
pub open spec fn corpus_count(chunks: Seq<Seq<u8>>, sp: Seq<Seq<char>>, k: Seq<u8>) -> nat
    decreases chunks.len(),
{
    if chunks.len() == 0 {
        0
    } else {
        corpus_count(chunks.drop_last(), sp, k) + match pretokens_spec(
            lossy_decode_spec(chunks.last()),
            sp,
        ) {
            None => 0,
            Some(toks) => count_in(toks, k),
        }
    }
}

/// Cutting one chunk in two changes no corpus count, provided the cut is
/// safe: the two pieces' pre-token streams concatenate to the whole
/// chunk's stream, as happens when no pre-token or special token spans
/// the cut. Aggregation is therefore independent of such boundary
/// choices.
pub proof fn lemma_safe_boundary_preserves_counts(
    whole: Seq<u8>,
    a: Seq<u8>,
    b: Seq<u8>,
    sp: Seq<Seq<char>>,
    k: Seq<u8>,
)
    requires
        pretokens_spec(lossy_decode_spec(a), sp) matches Some(x) && pretokens_spec(
            lossy_decode_spec(b),
            sp,
        ) matches Some(y) && pretokens_spec(lossy_decode_spec(whole), sp) == Some(x + y),
    ensures
        corpus_count(seq![whole], sp, k) == corpus_count(seq![a, b], sp, k),
{
    let x = pretokens_spec(lossy_decode_spec(a), sp)->0;
    let y = pretokens_spec(lossy_decode_spec(b), sp)->0;
    assert(seq![whole].drop_last() =~= Seq::<Seq<u8>>::empty());
    assert(seq![whole].last() == whole);
    assert(seq![a, b].drop_last() =~= seq![a]);
    assert(seq![a, b].last() == b);
    assert(seq![a].drop_last() =~= Seq::<Seq<u8>>::empty());
    assert(seq![a].last() == a);
    crate::pretoken::lemma_count_in_append(x, y, k);
    assert(corpus_count(Seq::<Seq<u8>>::empty(), sp, k) == 0);
    assert(corpus_count(seq![whole], sp, k) == count_in(x + y, k));
    assert(corpus_count(seq![a], sp, k) == count_in(x, k));
    assert(corpus_count(seq![a, b], sp, k) == count_in(x, k) + count_in(y, k));
}

/// Full training, also handing back the interned corpus before and after
/// the merge loop and the final interner, so that a caller can check the
/// merge list against the corpus.
///
/// Succeeds exactly when every chunk pre-tokenizes and the total
/// pre-token count fits a `usize`. On success the pre-merge corpus is
/// the interned image of the chunk counts; the merge list replays, from
/// that corpus and some table the final interner extends, to exactly the
/// final corpus and interner; every merge is a maximal live selection in
/// its replay state; the list stops short of `max` only when nothing is
/// left to merge; and the corpus weight never changes — it is the
/// pre-token occurrence count.
pub fn train_details(chunks: &Vec<Vec<u8>>, specials: &Vec<String>, max: usize) -> (r: Option<
    (Vec<(Vec<u8>, Vec<u8>)>, TokCounts, TokCounts, Interner),
>)
    ensures
        (r is Some) == (all_chunks_ok(bytes_views_of(chunks@), views_of(specials@))
            && total_pretokens(bytes_views_of(chunks@), views_of(specials@)) <= usize::MAX),
        r matches Some(t) ==> {
            &&& t.0@.len() <= max
            &&& t.1.wf()
            &&& t.2.wf()
            &&& t.3.wf()
            &&& assoc_total(t.1@) == total_pretokens(
                bytes_views_of(chunks@),
                views_of(specials@),
            )
            &&& assoc_total(t.2@) == assoc_total(t.1@)
            &&& (assoc_total(t.1@) == 0 ==> t.0@.len() == 0)
            &&& forall|k: Seq<u8>|
                corpus_count(bytes_views_of(chunks@), views_of(specials@), k) > 0
                    ==> bytes_contained(t.3@, k) && assoc_count(t.1@, byte_ids_of(t.3@, k))
                    == corpus_count(bytes_views_of(chunks@), views_of(specials@), k)
            &&& forall|tk: Seq<usize>|
                assoc_count(t.1@, tk) > 0 ==> exists|k: Seq<u8>|
                    corpus_count(bytes_views_of(chunks@), views_of(specials@), k) > 0 && tk
                        == byte_ids_of(t.3@, k)
            &&& exists|tb: Seq<Seq<u8>>|
                #![trigger replay(t.1@, tb, merge_list_views(t.0@))]
                {
                    &&& table_extends(t.3@, tb)
                    &&& t.3@ == replay(t.1@, tb, merge_list_views(t.0@)).1
                    &&& (forall|k: Seq<usize>|
                        assoc_count(t.2@, k) == assoc_count(
                            replay(t.1@, tb, merge_list_views(t.0@)).0,
                            k,
                        ))
                    &&& (forall|j: int|
                        0 <= j < t.0@.len() ==> selected_pair(
                            replay(t.1@, tb, merge_list_views(t.0@).take(j)).0,
                            replay(t.1@, tb, merge_list_views(t.0@).take(j)).1,
                            (#[trigger] merge_list_views(t.0@)[j]).0,
                            merge_list_views(t.0@)[j].1,
                        ))
                    &&& (t.0@.len() < max ==> (forall|p: (usize, usize)|
                        pairs_weight(replay(t.1@, tb, merge_list_views(t.0@)).0, p) == 0))
                }
        },
{
    let ghost cv = bytes_views_of(chunks@);
    let ghost sp = views_of(specials@);
    let mut locals: Vec<ByteCounts> = Vec::new();
    let n = chunks.len();
    let mut i: usize = 0;
    proof {
        assert(cv.take(0) =~= Seq::<Seq<u8>>::empty());
    }
    while i < n
        invariant
            n == chunks@.len(),
            cv == bytes_views_of(chunks@),
            sp == views_of(specials@),
            cv.len() == n,
            i <= n,
            locals@.len() == i,
            forall|w: int| 0 <= w < i ==> (#[trigger] locals@[w]).wf(),
            forall|w: int|
                0 <= w < i ==> pretokens_spec(lossy_decode_spec(#[trigger] cv[w]), sp) is Some,
            sum_totals(locals@) == total_pretokens(cv.take(i as int), sp),
            forall|k: Seq<u8>|
                sum_counts(locals@, k) == corpus_count(cv.take(i as int), sp, k),
        decreases n - i,
    {
        proof {
            assert(cv[i as int] == chunks@[i as int]@);
        }
        match chunk_pre_token_counts(&chunks[i], specials) {
            None => {
                proof {
                    assert(pretokens_spec(lossy_decode_spec(cv[i as int]), sp) is None);
                    assert(!all_chunks_ok(cv, sp));
                }
                return None;
            },
            Some(bc) => {
                let ghost pre = locals@;
                let ghost bcv = bc@;
                locals.push(bc);
                proof {
                    assert(locals@.drop_last() =~= pre);
                    assert(locals@.last()@ == bcv);
                    assert(cv.take(i + 1).drop_last() =~= cv.take(i as int));
                    assert(cv.take(i + 1).last() == cv[i as int]);
                    assert forall|k: Seq<u8>|
                        sum_counts(locals@, k) == corpus_count(cv.take(i + 1), sp, k) by {
                        assert(sum_counts(locals@, k) == sum_counts(pre, k) + assoc_count(
                            bcv,
                            k,
                        ));
                        assert(corpus_count(cv.take(i + 1), sp, k) == corpus_count(
                            cv.take(i as int),
                            sp,
                            k,
                        ) + match pretokens_spec(lossy_decode_spec(cv[i as int]), sp) {
                            None => 0nat,
                            Some(toks) => count_in(toks, k),
                        });
                    }
                }
            },
        }
        i += 1;
    }
    proof {
        assert(cv.take(n as int) =~= cv);
    }
    let global = match aggregate(&locals) {
        None => {
            return None;
        },
        Some(g) => g,
    };
    proof {
        assert forall|k: Seq<u8>|
            sum_counts(locals@, k) == corpus_count(cv, sp, k) by {
        }
    }
    let (tc0, mut interner) = intern_corpus(&global);
    let ghost table0 = interner@;
    let tc1 = tc0.duplicate();
    let (merges, tcf) = merge(tc1, max, &mut interner);
    proof {
        assert(table_extends(interner@, table0)
            && interner@ == replay(tc0@, table0, merge_list_views(merges@)).1 && (forall|
            k: Seq<usize>,
        |
            assoc_count(tcf@, k) == assoc_count(
                replay(tc0@, table0, merge_list_views(merges@)).0,
                k,
            )) && (forall|j: int|
            0 <= j < merges@.len() ==> selected_pair(
                replay(tc0@, table0, merge_list_views(merges@).take(j)).0,
                replay(tc0@, table0, merge_list_views(merges@).take(j)).1,
                (#[trigger] merge_list_views(merges@)[j]).0,
                merge_list_views(merges@)[j].1,
            )) && (merges@.len() < max ==> (forall|p: (usize, usize)|
            pairs_weight(replay(tc0@, table0, merge_list_views(merges@)).0, p) == 0)));
        assert(table_extends(interner@, table0));
        assert forall|k: Seq<u8>|
            corpus_count(cv, sp, k) > 0 implies bytes_contained(interner@, k) && assoc_count(
            tc0@,
            byte_ids_of(interner@, k),
        ) == corpus_count(cv, sp, k) by {
            assert(assoc_count(global@, k) > 0);
            assert(bytes_contained(table0, k));
            lemma_byte_ids_extend(table0, interner@, k);
        }
        assert forall|tk: Seq<usize>| assoc_count(tc0@, tk) > 0 implies exists|k: Seq<u8>|
            corpus_count(cv, sp, k) > 0 && tk == byte_ids_of(interner@, k) by {
            let k0 = choose|k0: Seq<u8>|
                assoc_count(global@, k0) > 0 && tk == byte_ids_of(table0, k0);
            assert(bytes_contained(table0, k0));
            lemma_byte_ids_extend(table0, interner@, k0);
            assert(corpus_count(cv, sp, k0) > 0 && tk == byte_ids_of(interner@, k0));
        }
    }
    Some((merges, tc0, tcf, interner))
}

/// End-to-end training: the ordered merge list alone.
pub fn train_from_chunks(chunks: &Vec<Vec<u8>>, specials: &Vec<String>, max: usize) -> (r: Option<
    Vec<(Vec<u8>, Vec<u8>)>,
>)
    ensures
        (r is Some) == (all_chunks_ok(bytes_views_of(chunks@), views_of(specials@))
            && total_pretokens(bytes_views_of(chunks@), views_of(specials@)) <= usize::MAX),
        r matches Some(v) ==> v@.len() <= max,
        r matches Some(v) ==> (total_pretokens(bytes_views_of(chunks@), views_of(specials@)) == 0
            ==> v@.len() == 0),
{
    match train_details(chunks, specials, max) {
        None => None,
        Some(t) => Some(t.0),
    }
}

} // verus!
