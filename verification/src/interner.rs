//! Bijection between byte sequences and small integer symbol ids.
//!
//! Ids are assigned in order of first interning and stay stable for the
//! lifetime of one training run; nothing is ever removed.

use vstd::prelude::*;

verus! {

/// True when `b` occurs somewhere in `table`.
pub open spec fn table_contains(table: Seq<Seq<u8>>, b: Seq<u8>) -> bool {
    exists|i: int| 0 <= i < table.len() && table[i] == b
}

/// All entries of `table` are distinct.
pub open spec fn table_distinct(table: Seq<Seq<u8>>) -> bool {
    forall|i: int, j: int| 0 <= i < j < table.len() ==> table[i] != table[j]
}

/// The id under which `b` is interned (meaningful only when the table
/// contains `b` and is distinct).
pub open spec fn id_of(table: Seq<Seq<u8>>, b: Seq<u8>) -> int {
    choose|i: int| 0 <= i < table.len() && table[i] == b
}

/// In a distinct table, the id of the entry at `i` is `i` itself.
pub proof fn lemma_id_of_at(table: Seq<Seq<u8>>, i: int)
    requires
        table_distinct(table),
        0 <= i < table.len(),
    ensures
        id_of(table, table[i]) == i,
{
    assert(table_contains(table, table[i]));
    let w = choose|w: int| 0 <= w < table.len() && table[w] == table[i];
    assert(w == i);
}

/// Ids of entries already present do not move when the table grows.
pub proof fn lemma_id_of_stable(table: Seq<Seq<u8>>, e: Seq<u8>, b: Seq<u8>)
    requires
        table_distinct(table.push(e)),
        table_contains(table, b),
    ensures
        id_of(table.push(e), b) == id_of(table, b),
{
    let i = id_of(table, b);
    assert(0 <= i < table.len() && table[i] == b);
    assert(table.push(e)[i] == b);
    lemma_id_of_at(table.push(e), i);
}

/// The table and id that interning `b` yields: the id of an existing
/// entry, or the old length after appending a new one.
pub open spec fn intern_step(table: Seq<Seq<u8>>, b: Seq<u8>) -> (Seq<Seq<u8>>, int) {
    if table_contains(table, b) {
        (table, id_of(table, b))
    } else {
        (table.push(b), table.len() as int)
    }
}

/// `Interner::intern`'s contract determines `intern_step` exactly.
pub proof fn lemma_intern_matches(
    old_t: Seq<Seq<u8>>,
    new_t: Seq<Seq<u8>>,
    b: Seq<u8>,
    id: usize,
)
    requires
        table_distinct(old_t),
        id < new_t.len(),
        new_t[id as int] == b,
        table_contains(old_t, b) ==> new_t == old_t && id < old_t.len(),
        !table_contains(old_t, b) ==> new_t == old_t.push(b) && id == old_t.len(),
    ensures
        intern_step(old_t, b) == (new_t, id as int),
{
    if table_contains(old_t, b) {
        lemma_id_of_at(old_t, id as int);
    }
}

/// Every byte of `k` is interned as a single-byte entry.
pub open spec fn bytes_contained(table: Seq<Seq<u8>>, k: Seq<u8>) -> bool {
    forall|j: int| 0 <= j < k.len() ==> table_contains(table, seq![k[j]])
}

/// The byte string `k` as a sequence of single-byte symbol ids.
pub open spec fn byte_ids_of(table: Seq<Seq<u8>>, k: Seq<u8>) -> Seq<usize> {
    Seq::new(k.len(), |j: int| id_of(table, seq![k[j]]) as usize)
}

/// Growing the table moves no id of a byte string already contained.
pub proof fn lemma_byte_ids_stable(table: Seq<Seq<u8>>, e: Seq<u8>, k: Seq<u8>)
    requires
        table_distinct(table.push(e)),
        bytes_contained(table, k),
    ensures
        bytes_contained(table.push(e), k),
        byte_ids_of(table.push(e), k) == byte_ids_of(table, k),
{
    assert forall|j: int| 0 <= j < k.len() implies table_contains(
        table.push(e),
        seq![k[j]],
    ) && id_of(table.push(e), seq![k[j]]) == id_of(table, seq![k[j]]) by {
        let i = id_of(table, seq![k[j]]);
        assert(0 <= i < table.len() && table[i] == seq![k[j]]);
        assert(table.push(e)[i] == seq![k[j]]);
        lemma_id_of_stable(table, e, seq![k[j]]);
    }
    assert(byte_ids_of(table.push(e), k) =~= byte_ids_of(table, k));
}

/// `t2` extends `t1`: every entry of `t1` stands unchanged at its index.
pub open spec fn table_extends(t2: Seq<Seq<u8>>, t1: Seq<Seq<u8>>) -> bool {
    t1.len() <= t2.len() && forall|i: int| 0 <= i < t1.len() ==> t2[i] == t1[i]
}

/// Growing a table moves no id of a byte string already contained.
pub proof fn lemma_byte_ids_extend(t1: Seq<Seq<u8>>, t2: Seq<Seq<u8>>, k: Seq<u8>)
    requires
        table_distinct(t2),
        table_extends(t2, t1),
        bytes_contained(t1, k),
    ensures
        bytes_contained(t2, k),
        byte_ids_of(t2, k) == byte_ids_of(t1, k),
{
    assert forall|j: int| 0 <= j < k.len() implies table_contains(t2, seq![k[j]]) && id_of(
        t2,
        seq![k[j]],
    ) == id_of(t1, seq![k[j]]) by {
        let i = id_of(t1, seq![k[j]]);
        assert(0 <= i < t1.len() && t1[i] == seq![k[j]]);
        assert(t2[i] == seq![k[j]]);
        lemma_id_of_at(t2, i);
    }
    assert(byte_ids_of(t2, k) =~= byte_ids_of(t1, k));
}

/// Distinct byte strings with interned bytes have distinct id sequences.
pub proof fn lemma_byte_ids_injective(table: Seq<Seq<u8>>, k1: Seq<u8>, k2: Seq<u8>)
    requires
        table_distinct(table),
        table.len() <= usize::MAX,
        bytes_contained(table, k1),
        bytes_contained(table, k2),
        byte_ids_of(table, k1) == byte_ids_of(table, k2),
    ensures
        k1 == k2,
{
    assert(byte_ids_of(table, k1).len() == k1.len());
    assert(byte_ids_of(table, k2).len() == k2.len());
    assert(k1.len() == k2.len());
    assert forall|j: int| 0 <= j < k1.len() implies k1[j] == k2[j] by {
        let i1 = id_of(table, seq![k1[j]]);
        let i2 = id_of(table, seq![k2[j]]);
        assert(0 <= i1 < table.len() && table[i1] == seq![k1[j]]);
        assert(0 <= i2 < table.len() && table[i2] == seq![k2[j]]);
        assert(byte_ids_of(table, k1)[j] == i1 as usize);
        assert(byte_ids_of(table, k2)[j] == i2 as usize);
        assert(i1 == i2);
        assert(seq![k1[j]] == seq![k2[j]]);
        assert(seq![k1[j]][0] == seq![k2[j]][0]);
    }
    assert(k1 =~= k2);
}

/// Bijection between byte sequences and the ids `0 .. table.len()`.
pub struct Interner {
    table: Vec<Vec<u8>>,
}

impl Interner {
    /// The sequence of byte strings, indexed by id.
    pub closed spec fn view(&self) -> Seq<Seq<u8>> {
        self.table@.map_values(|v: Vec<u8>| v@)
    }

    /// All interned byte strings are distinct, so ids determine bytes and
    /// bytes determine ids.
    pub open spec fn wf(&self) -> bool {
        table_distinct(self@)
    }

    pub open spec fn spec_len(&self) -> nat {
        self@.len()
    }

    pub fn new() -> (r: Interner)
        ensures
            r.wf(),
            r@ == Seq::<Seq<u8>>::empty(),
    {
        let r = Interner { table: Vec::new() };
        proof {
            assert(r@ =~= Seq::<Seq<u8>>::empty());
        }
        r
    }

    pub fn len(&self) -> (n: usize)
        ensures
            n == self@.len(),
    {
        self.table.len()
    }

    /// Return the id of `bytes`, appending it to the table when it is new.
    pub fn intern(&mut self, bytes: Vec<u8>) -> (id: usize)
        requires
            old(self).wf(),
        ensures
            final(self).wf(),
            id < final(self)@.len(),
            final(self)@[id as int] == bytes@,
            old(self)@.len() <= final(self)@.len(),
            table_contains(old(self)@, bytes@) ==> final(self)@ == old(self)@ && id < old(
                self,
            )@.len(),
            !table_contains(old(self)@, bytes@) ==> final(self)@ == old(self)@.push(bytes@) && id
                == old(self)@.len(),
    {
        let n = self.table.len();
        let mut i: usize = 0;
        while i < n
            invariant
                n == self@.len(),
                i <= n,
                self.wf(),
                self@ == old(self)@,
                forall|j: int| 0 <= j < i ==> self@[j] != bytes@,
            decreases n - i,
        {
            if self.table[i] == bytes {
                assert(self@[i as int] == bytes@);
                return i;
            }
            assert(self@[i as int] != bytes@);
            i += 1;
        }
        assert(!table_contains(self@, bytes@));
        let ghost old_view = self@;
        let id = self.table.len();
        self.table.push(bytes);
        proof {
            assert(self@ =~= old_view.push(bytes@));
        }
        id
    }

    /// The byte string that `id` stands for.
    pub fn get_bytes(&self, id: usize) -> (r: &Vec<u8>)
        requires
            id < self@.len(),
        ensures
            r@ == self@[id as int],
    {
        &self.table[id]
    }

    /// Equal ids name equal byte strings, and distinct ids name distinct
    /// ones: the table is a bijection.
    pub proof fn lemma_injective(&self, i: int, j: int)
        requires
            self.wf(),
            0 <= i < self@.len(),
            0 <= j < self@.len(),
        ensures
            (self@[i] == self@[j]) <==> (i == j),
    {
    }
}

} // verus!
