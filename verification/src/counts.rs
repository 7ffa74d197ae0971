//! Frequency maps used throughout training, kept as association lists with
//! distinct keys and strictly positive values.
//!
//! The spec functions below treat such a list as a total count function:
//! `assoc_count` of an absent key is zero. All map operations are specified
//! pointwise over `assoc_count`, together with how they move `assoc_total`,
//! the sum of all values.

use vstd::prelude::*;

verus! {

/// Total count that `s` assigns to `key`: the sum of the values of all
/// entries whose key equals `key` (zero when absent).
pub open spec fn assoc_count<K>(s: Seq<(K, usize)>, key: K) -> nat
    decreases s.len(),
{
    if s.len() == 0 {
        0
    } else {
        assoc_count(s.drop_last(), key) + if s.last().0 == key {
            s.last().1 as nat
        } else {
            0
        }
    }
}

/// Sum of all values of `s`.
pub open spec fn assoc_total<K>(s: Seq<(K, usize)>) -> nat
    decreases s.len(),
{
    if s.len() == 0 {
        0
    } else {
        assoc_total(s.drop_last()) + s.last().1 as nat
    }
}

pub open spec fn keys_distinct<K>(s: Seq<(K, usize)>) -> bool {
    forall|i: int, j: int| 0 <= i < j < s.len() ==> s[i].0 != s[j].0
}

pub open spec fn vals_positive<K>(s: Seq<(K, usize)>) -> bool {
    forall|i: int| 0 <= i < s.len() ==> #[trigger] s[i].1 >= 1
}

pub open spec fn assoc_wf<K>(s: Seq<(K, usize)>) -> bool {
    keys_distinct(s) && vals_positive(s)
}

/// No key can hold more than the sum of all values.
pub proof fn lemma_count_le_total<K>(s: Seq<(K, usize)>, key: K)
    ensures
        assoc_count(s, key) <= assoc_total(s),
    decreases s.len(),
{
    if s.len() > 0 {
        lemma_count_le_total(s.drop_last(), key);
    }
}

/// A key that appears in no entry counts zero.
pub proof fn lemma_count_absent<K>(s: Seq<(K, usize)>, key: K)
    requires
        forall|i: int| 0 <= i < s.len() ==> s[i].0 != key,
    ensures
        assoc_count(s, key) == 0,
    decreases s.len(),
{
    if s.len() > 0 {
        lemma_count_absent(s.drop_last(), key);
    }
}

/// With distinct keys, the count of the key at index `i` is exactly the
/// value stored there.
pub proof fn lemma_count_at<K>(s: Seq<(K, usize)>, i: int)
    requires
        keys_distinct(s),
        0 <= i < s.len(),
    ensures
        assoc_count(s, s[i].0) == s[i].1,
    decreases s.len(),
{
    if i == s.len() - 1 {
        assert(forall|j: int| 0 <= j < s.drop_last().len() ==> s.drop_last()[j].0 != s[i].0);
        lemma_count_absent(s.drop_last(), s[i].0);
    } else {
        lemma_count_at(s.drop_last(), i);
    }
}

/// No entry's value exceeds the count of its own key, duplicates or not.
pub proof fn lemma_entry_count_ge<K>(s: Seq<(K, usize)>, i: int)
    requires
        0 <= i < s.len(),
    ensures
        s[i].1 <= assoc_count(s, s[i].0),
    decreases s.len(),
{
    if i < s.len() - 1 {
        lemma_entry_count_ge(s.drop_last(), i);
    }
}

/// A positive count names some entry.
pub proof fn lemma_count_pos_exists<K>(s: Seq<(K, usize)>, key: K)
    requires
        assoc_count(s, key) > 0,
    ensures
        exists|i: int| 0 <= i < s.len() && s[i].0 == key,
    decreases s.len(),
{
    if s.len() > 0 {
        if s.last().0 != key {
            lemma_count_pos_exists(s.drop_last(), key);
            let i = choose|i: int| 0 <= i < s.drop_last().len() && s.drop_last()[i].0 == key;
            assert(s[i].0 == key);
        } else {
            assert(s[s.len() - 1].0 == key);
        }
    }
}

/// Appending an entry raises one count and the total by its value.
pub proof fn lemma_push<K>(s: Seq<(K, usize)>, e: (K, usize))
    ensures
        forall|k: K|
            assoc_count(s.push(e), k) == assoc_count(s, k) + if e.0 == k {
                e.1 as nat
            } else {
                0
            },
        assoc_total(s.push(e)) == assoc_total(s) + e.1,
{
    assert(s.push(e).drop_last() =~= s);
    assert(s.push(e).last() == e);
}

/// Replacing the entry at `i` moves the counts of the old and the new key
/// by the old and the new value.
pub proof fn lemma_update<K>(s: Seq<(K, usize)>, i: int, e: (K, usize))
    requires
        0 <= i < s.len(),
    ensures
        forall|k: K|
            assoc_count(s.update(i, e), k) + if s[i].0 == k {
                s[i].1 as nat
            } else {
                0
            } == assoc_count(s, k) + if e.0 == k {
                e.1 as nat
            } else {
                0
            },
        assoc_total(s.update(i, e)) + s[i].1 == assoc_total(s) + e.1,
    decreases s.len(),
{
    let t = s.update(i, e);
    if i == s.len() - 1 {
        assert(t.drop_last() =~= s.drop_last());
        assert(t.last() == e);
    } else {
        lemma_update(s.drop_last(), i, e);
        assert(t.drop_last() =~= s.drop_last().update(i, e));
        assert(t.last() == s.last());
        assert forall|k: K|
            assoc_count(t, k) + (if s[i].0 == k {
                s[i].1 as nat
            } else {
                0
            }) == assoc_count(s, k) + (if e.0 == k {
                e.1 as nat
            } else {
                0
            }) by {
            assert(assoc_count(t, k) == assoc_count(t.drop_last(), k) + if t.last().0 == k {
                t.last().1 as nat
            } else {
                0
            });
            assert(assoc_count(s, k) == assoc_count(s.drop_last(), k) + if s.last().0 == k {
                s.last().1 as nat
            } else {
                0
            });
        }
    }
}

/// A prefix of the entries, together with the next value, never exceeds
/// the whole total.
pub proof fn lemma_total_take<K>(s: Seq<(K, usize)>, j: int)
    requires
        0 <= j < s.len(),
    ensures
        assoc_total(s.take(j)) + s[j].1 <= assoc_total(s),
    decreases s.len(),
{
    if j == s.len() - 1 {
        assert(s.take(j) =~= s.drop_last());
    } else {
        lemma_total_take(s.drop_last(), j);
        assert(s.drop_last().take(j) =~= s.take(j));
    }
}

/// With positive values, a total of zero means no entries at all.
pub proof fn lemma_total_zero<K>(s: Seq<(K, usize)>)
    requires
        vals_positive(s),
        assoc_total(s) == 0,
    ensures
        s.len() == 0,
{
    if s.len() > 0 {
        assert(s[s.len() - 1].1 >= 1);
    }
}

/// Deleting the entry at `i` lowers the count of its key and the total by
/// its value.
pub proof fn lemma_remove<K>(s: Seq<(K, usize)>, i: int)
    requires
        0 <= i < s.len(),
    ensures
        forall|k: K|
            assoc_count(s.remove(i), k) + if s[i].0 == k {
                s[i].1 as nat
            } else {
                0
            } == assoc_count(s, k),
        assoc_total(s.remove(i)) + s[i].1 == assoc_total(s),
    decreases s.len(),
{
    let t = s.remove(i);
    if i == s.len() - 1 {
        assert(t =~= s.drop_last());
    } else {
        lemma_remove(s.drop_last(), i);
        assert(t.drop_last() =~= s.drop_last().remove(i));
        assert(t.last() == s.last());
        assert forall|k: K|
            assoc_count(t, k) + (if s[i].0 == k {
                s[i].1 as nat
            } else {
                0
            }) == assoc_count(s, k) by {
            assert(assoc_count(t, k) == assoc_count(t.drop_last(), k) + if t.last().0 == k {
                t.last().1 as nat
            } else {
                0
            });
            assert(assoc_count(s, k) == assoc_count(s.drop_last(), k) + if s.last().0 == k {
                s.last().1 as nat
            } else {
                0
            });
        }
    }
}

} // verus!
