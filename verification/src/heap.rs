//! Priority queue of `(count, pair)` candidates for the merge loop.
//!
//! Entries are ranked by count descending; among equal counts the pair
//! with the lexicographically smaller byte strings ranks higher, so that
//! the chosen merge is deterministic. The queue may hold stale entries;
//! the merge loop discards them after popping. `pop_max` always yields an
//! entry that no remaining entry outranks.

use vstd::prelude::*;

verus! {

/// Lexicographic "less or equal" on byte strings, a prefix being smaller
/// than every extension.
pub open spec fn bytes_le(a: Seq<u8>, b: Seq<u8>) -> bool
    decreases a.len(),
{
    if a.len() == 0 {
        true
    } else if b.len() == 0 {
        false
    } else if a[0] < b[0] {
        true
    } else if a[0] > b[0] {
        false
    } else {
        bytes_le(a.skip(1), b.skip(1))
    }
}

pub open spec fn bytes_lt(a: Seq<u8>, b: Seq<u8>) -> bool {
    bytes_le(a, b) && a != b
}

pub proof fn lemma_bytes_le_total(a: Seq<u8>, b: Seq<u8>)
    ensures
        bytes_le(a, b) || bytes_le(b, a),
    decreases a.len(),
{
    if a.len() > 0 && b.len() > 0 && a[0] == b[0] {
        lemma_bytes_le_total(a.skip(1), b.skip(1));
    }
}

pub proof fn lemma_bytes_le_refl(a: Seq<u8>)
    ensures
        bytes_le(a, a),
    decreases a.len(),
{
    if a.len() > 0 {
        lemma_bytes_le_refl(a.skip(1));
    }
}

pub proof fn lemma_bytes_le_antisym(a: Seq<u8>, b: Seq<u8>)
    requires
        bytes_le(a, b),
        bytes_le(b, a),
    ensures
        a == b,
    decreases a.len(),
{
    if a.len() == 0 {
        assert(b.len() == 0);
        assert(a =~= b);
    } else {
        assert(b.len() > 0);
        assert(a[0] == b[0]);
        lemma_bytes_le_antisym(a.skip(1), b.skip(1));
        assert(a =~= seq![a[0]] + a.skip(1));
        assert(b =~= seq![b[0]] + b.skip(1));
    }
}

pub proof fn lemma_bytes_le_trans(a: Seq<u8>, b: Seq<u8>, c: Seq<u8>)
    requires
        bytes_le(a, b),
        bytes_le(b, c),
    ensures
        bytes_le(a, c),
    decreases a.len(),
{
    if a.len() > 0 && b.len() > 0 && c.len() > 0 && a[0] == b[0] && b[0] == c[0] {
        lemma_bytes_le_trans(a.skip(1), b.skip(1), c.skip(1));
    }
}

/// A queued candidate: the pair's two byte strings with the pair count at
/// the time it was pushed.
pub struct HeapEntry {
    pub count: usize,
    pub left: Vec<u8>,
    pub right: Vec<u8>,
}

impl View for HeapEntry {
    type V = (usize, Seq<u8>, Seq<u8>);

    open spec fn view(&self) -> (usize, Seq<u8>, Seq<u8>) {
        (self.count, self.left@, self.right@)
    }
}

/// `a` ranks at or below `b`: a lower count, or an equal count with the
/// lexicographically larger pair. The highest rank therefore goes to the
/// largest count and, among equal counts, the smallest pair bytes.
pub open spec fn entry_le(a: (usize, Seq<u8>, Seq<u8>), b: (usize, Seq<u8>, Seq<u8>)) -> bool {
    ||| a.0 < b.0
    ||| (a.0 == b.0 && bytes_lt(b.1, a.1))
    ||| (a.0 == b.0 && a.1 == b.1 && bytes_le(b.2, a.2))
}

pub proof fn lemma_entry_le_total(a: (usize, Seq<u8>, Seq<u8>), b: (usize, Seq<u8>, Seq<u8>))
    ensures
        entry_le(a, b) || entry_le(b, a),
{
    lemma_bytes_le_total(a.1, b.1);
    lemma_bytes_le_total(a.2, b.2);
}

pub proof fn lemma_entry_le_trans(
    a: (usize, Seq<u8>, Seq<u8>),
    b: (usize, Seq<u8>, Seq<u8>),
    c: (usize, Seq<u8>, Seq<u8>),
)
    requires
        entry_le(a, b),
        entry_le(b, c),
    ensures
        entry_le(a, c),
{
    if a.0 == b.0 && b.0 == c.0 {
        lemma_bytes_le_refl(a.1);
        lemma_bytes_le_refl(b.1);
        assert(bytes_le(b.1, a.1));
        assert(bytes_le(c.1, b.1));
        lemma_bytes_le_trans(c.1, b.1, a.1);
        if a.1 == c.1 {
            lemma_bytes_le_antisym(b.1, a.1);
            lemma_bytes_le_trans(c.2, b.2, a.2);
        }
    }
}

/// Every entry ranks at or below itself.
pub proof fn lemma_entry_le_refl(a: (usize, Seq<u8>, Seq<u8>))
    ensures
        entry_le(a, a),
{
    lemma_bytes_le_refl(a.2);
}

/// Lexicographic three-way comparison of byte strings: 0 for less, 1 for
/// equal, 2 for greater.
pub fn bytes_cmp(a: &Vec<u8>, b: &Vec<u8>) -> (r: u8)
    ensures
        r == 0 || r == 1 || r == 2,
        (r == 0) == bytes_lt(a@, b@),
        (r == 1) == (a@ == b@),
        (r == 2) == bytes_lt(b@, a@),
{
    let na = a.len();
    let nb = b.len();
    let mut i: usize = 0;
    proof {
        assert(a@.skip(0) =~= a@);
        assert(b@.skip(0) =~= b@);
    }
    while i < na && i < nb
        invariant
            na == a@.len(),
            nb == b@.len(),
            i <= na,
            i <= nb,
            forall|l: int| 0 <= l < i ==> a@[l] == b@[l],
            bytes_le(a@, b@) == bytes_le(a@.skip(i as int), b@.skip(i as int)),
            bytes_le(b@, a@) == bytes_le(b@.skip(i as int), a@.skip(i as int)),
        decreases na - i,
    {
        let x = a[i];
        let y = b[i];
        proof {
            assert(a@.skip(i as int)[0] == a@[i as int]);
            assert(b@.skip(i as int)[0] == b@[i as int]);
            assert(a@.skip(i as int).skip(1) =~= a@.skip(i + 1));
            assert(b@.skip(i as int).skip(1) =~= b@.skip(i + 1));
        }
        if x < y {
            proof {
                assert(bytes_le(a@, b@));
                assert(!bytes_le(b@, a@));
                if a@ == b@ {
                    assert(a@[i as int] == b@[i as int]);
                }
            }
            return 0;
        }
        if x > y {
            proof {
                assert(bytes_le(b@, a@));
                assert(!bytes_le(a@, b@));
                if a@ == b@ {
                    assert(a@[i as int] == b@[i as int]);
                }
            }
            return 2;
        }
        i += 1;
    }
    if na == nb {
        proof {
            assert(a@ =~= b@);
        }
        1
    } else if na < nb {
        proof {
            assert(a@.skip(i as int).len() == 0);
            assert(b@.skip(i as int).len() > 0);
            assert(bytes_le(a@, b@));
            assert(!bytes_le(b@, a@));
            if a@ == b@ {
                assert(a@.len() == b@.len());
            }
        }
        0
    } else {
        proof {
            assert(b@.skip(i as int).len() == 0);
            assert(a@.skip(i as int).len() > 0);
            assert(bytes_le(b@, a@));
            assert(!bytes_le(a@, b@));
            if a@ == b@ {
                assert(a@.len() == b@.len());
            }
        }
        2
    }
}

/// `a` does not outrank `b`.
pub fn entry_le_exec(a: &HeapEntry, b: &HeapEntry) -> (r: bool)
    ensures
        r == entry_le(a@, b@),
{
    if a.count < b.count {
        true
    } else if a.count > b.count {
        false
    } else {
        let c = bytes_cmp(&a.left, &b.left);
        if c == 2 {
            true
        } else if c == 0 {
            false
        } else {
            let c2 = bytes_cmp(&a.right, &b.right);
            proof {
                lemma_bytes_le_total(a.right@, b.right@);
            }
            c2 != 0
        }
    }
}

/// The queue itself: a bag of entries with a maximum-extraction operation.
pub struct PairHeap {
    entries: Vec<HeapEntry>,
}

impl View for PairHeap {
    type V = Seq<(usize, Seq<u8>, Seq<u8>)>;

    closed spec fn view(&self) -> Seq<(usize, Seq<u8>, Seq<u8>)> {
        self.entries@.map_values(|e: HeapEntry| e@)
    }
}

impl PairHeap {
    pub fn new() -> (r: PairHeap)
        ensures
            r@ == Seq::<(usize, Seq<u8>, Seq<u8>)>::empty(),
    {
        let r = PairHeap { entries: Vec::new() };
        proof {
            assert(r@ =~= Seq::<(usize, Seq<u8>, Seq<u8>)>::empty());
        }
        r
    }

    pub fn len(&self) -> (n: usize)
        ensures
            n == self@.len(),
    {
        self.entries.len()
    }

    pub fn push(&mut self, e: HeapEntry)
        ensures
            final(self)@ == old(self)@.push(e@),
    {
        let ghost ge = e@;
        let ghost pre = self@;
        self.entries.push(e);
        proof {
            assert(self@ =~= pre.push(ge));
        }
    }

    /// Remove and return an entry that no other entry ranks above; `None`
    /// exactly when the queue is empty.
    pub fn pop_max(&mut self) -> (r: Option<HeapEntry>)
        ensures
            (r is None) == (old(self)@.len() == 0),
            r is None ==> final(self)@ == old(self)@,
            r matches Some(e) ==> exists|i: int|
                0 <= i < old(self)@.len() && old(self)@[i] == e@ && final(self)@ == old(
                    self,
                )@.remove(i),
            r matches Some(e) ==> forall|j: int|
                0 <= j < old(self)@.len() ==> entry_le(#[trigger] old(self)@[j], e@),
    {
        let n = self.entries.len();
        if n == 0 {
            return None;
        }
        let mut best: usize = 0;
        let mut i: usize = 1;
        proof {
            lemma_entry_le_refl(self@[0]);
        }
        while i < n
            invariant
                self@ == old(self)@,
                n == self@.len(),
                best < i <= n,
                forall|j: int| 0 <= j < i ==> entry_le(#[trigger] self@[j], self@[best as int]),
            decreases n - i,
        {
            if !entry_le_exec(&self.entries[i], &self.entries[best]) {
                proof {
                    lemma_entry_le_total(self@[i as int], self@[best as int]);
                    assert forall|j: int| 0 <= j < i + 1 implies entry_le(
                        #[trigger] self@[j],
                        self@[i as int],
                    ) by {
                        if j < i {
                            lemma_entry_le_trans(self@[j], self@[best as int], self@[i as int]);
                        } else {
                            lemma_entry_le_refl(self@[i as int]);
                        }
                    }
                }
                best = i;
            }
            i += 1;
        }
        let ghost pre = self@;
        let e = self.entries.remove(best);
        proof {
            assert(self@ =~= pre.remove(best as int));
        }
        Some(e)
    }
}

} // verus!
