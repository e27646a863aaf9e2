//! Keyed tables with idempotent upsert, the storage model behind ingestion:
//! writing a row whose key is already present replaces it, so writing the same
//! batch again leaves the table as it was.
use vstd::prelude::*;

verus! {

/// A row of a keyed table.
pub trait KeyedRow: View + Sized {
    type Key;

    /// The key of a row, read from its abstract value.
    spec fn key_of(v: Self::V) -> Self::Key;

    fn same_key(&self, other: &Self) -> (r: bool)
        ensures
            r == (Self::key_of(self@) == Self::key_of(other@)),
    ;
}

/// What a batch of upserts does to a table's contents: each row, in order,
/// takes the place of whatever its key held.
pub open spec fn upserted<T: KeyedRow>(m: Map<T::Key, T::V>, batch: Seq<T::V>) -> Map<T::Key, T::V>
    decreases batch.len(),
{
    if batch.len() == 0 {
        m
    } else {
        upserted::<T>(m, batch.drop_last()).insert(T::key_of(batch.last()), batch.last())
    }
}

/// A table holding at most one row per key.
pub struct Table<T: KeyedRow> {
    rows: Vec<T>,
}

impl<T: KeyedRow> Table<T> {
    /// No two rows share a key.
    pub closed spec fn wf(&self) -> bool {
        forall|i: int, j: int|
            0 <= i < self.rows@.len() && 0 <= j < self.rows@.len() && i != j ==> T::key_of(
            #[trigger] self.rows@[i]@) != T::key_of(#[trigger] self.rows@[j]@)
    }

    /// The rows, in the order in which their keys were first written.
    pub closed spec fn rows(&self) -> Seq<T> {
        self.rows@
    }

    /// The row held under each key.
    pub closed spec fn contents(&self) -> Map<T::Key, T::V> {
        Map::new(
            |k: T::Key| exists|i: int| 0 <= i < self.rows@.len() && T::key_of(#[trigger] self.rows@[i]@) == k,
            |k: T::Key|
                self.rows@[choose|i: int| 0 <= i < self.rows@.len() && T::key_of(#[trigger] self.rows@[i]@) == k]@,
        )
    }

    proof fn lemma_contents_at(&self, i: int)
        requires
            self.wf(),
            0 <= i < self.rows@.len(),
        ensures
            self.contents().contains_key(T::key_of(self.rows@[i]@)),
            self.contents()[T::key_of(self.rows@[i]@)] == self.rows@[i]@,
    {
        let k = T::key_of(self.rows@[i]@);
        assert(self.contents().contains_key(k));
        let j = choose|j: int| 0 <= j < self.rows@.len() && T::key_of(#[trigger] self.rows@[j]@) == k;
        assert(i == j);
    }

    pub fn new() -> (t: Self)
        ensures
            t.wf(),
            t.contents() == Map::<T::Key, T::V>::empty(),
    {
        let t = Table { rows: Vec::new() };
        assert(t.contents() =~= Map::<T::Key, T::V>::empty());
        t
    }

    pub fn len(&self) -> (n: usize)
        requires
            self.wf(),
        ensures
            n == self.contents().dom().len(),
            n == self.rows().len(),
    {
        proof { self.lemma_dom_len(); }
        self.rows.len()
    }

    proof fn lemma_dom_len(&self)
        requires
            self.wf(),
        ensures
            self.contents().dom().len() == self.rows@.len(),
    {
        let keys = self.rows@.map_values(|r: T| T::key_of(r@));
        assert(keys.no_duplicates()) by {
            assert forall|i: int, j: int| 0 <= i < keys.len() && 0 <= j < keys.len() && i != j implies keys[i] != keys[j] by {
                assert(T::key_of(self.rows@[i]@) != T::key_of(self.rows@[j]@));
            }
        }
        assert(self.contents().dom() =~= keys.to_set()) by {
            assert forall|k: T::Key| self.contents().dom().contains(k) implies keys.to_set().contains(k) by {
                let i = choose|i: int| 0 <= i < self.rows@.len() && T::key_of(#[trigger] self.rows@[i]@) == k;
                assert(keys[i] == k);
            }
            assert forall|k: T::Key| keys.to_set().contains(k) implies self.contents().dom().contains(k) by {
                let i = choose|i: int| 0 <= i < keys.len() && keys[i] == k;
                assert(T::key_of(self.rows@[i]@) == k);
            }
        }
        keys.unique_seq_to_set();
    }

    /// The rows, in the order in which their keys were first written.
    pub fn items(&self) -> (r: &Vec<T>)
        ensures
            r@ == self.rows(),
    {
        &self.rows
    }

    /// Writes `row`, replacing the row that held its key, if any.
    pub fn upsert(&mut self, row: T)
        requires
            old(self).wf(),
        ensures
            final(self).wf(),
            final(self).contents() == old(self).contents().insert(T::key_of(row@), row@),
    {
        let ghost k = T::key_of(row@);
        let mut i: usize = 0;
        while i < self.rows.len()
            invariant
                i <= self.rows@.len(),
                self.wf(),
                *self == *old(self),
                k == T::key_of(row@),
                forall|j: int| 0 <= j < i ==> T::key_of(#[trigger] self.rows@[j]@) != k,
            decreases self.rows@.len() - i,
        {
            if self.rows[i].same_key(&row) {
                let ghost before = *self;
                assert(T::key_of(before.rows@[i as int]@) == k);
                self.rows.set(i, row);
                proof {
                    assert(self.wf()) by {
                        assert forall|a: int, b: int|
                            0 <= a < self.rows@.len() && 0 <= b < self.rows@.len() && a != b implies T::key_of(
                            #[trigger] self.rows@[a]@) != T::key_of(#[trigger] self.rows@[b]@) by {
                            assert(T::key_of(before.rows@[a]@) != T::key_of(before.rows@[b]@));
                        }
                    }
                    assert forall|key: T::Key| #[trigger] self.contents().contains_key(key) <==> before.contents().insert(k, self.rows@[i as int]@).contains_key(key) by {
                        if self.contents().contains_key(key) {
                            let j = choose|j: int| 0 <= j < self.rows@.len() && T::key_of(#[trigger] self.rows@[j]@) == key;
                            if j != i {
                                assert(T::key_of(before.rows@[j]@) == key);
                            }
                        }
                        if before.contents().contains_key(key) {
                            let j = choose|j: int| 0 <= j < before.rows@.len() && T::key_of(#[trigger] before.rows@[j]@) == key;
                            if j != i {
                                assert(T::key_of(self.rows@[j]@) == key);
                            }
                        }
                        assert(T::key_of(self.rows@[i as int]@) == k);
                    }
                    assert forall|key: T::Key| #[trigger] self.contents().contains_key(key) implies self.contents()[key] == before.contents().insert(k, self.rows@[i as int]@)[key] by {
                        let j = choose|j: int| 0 <= j < self.rows@.len() && T::key_of(#[trigger] self.rows@[j]@) == key;
                        self.lemma_contents_at(j);
                        if j != i {
                            assert(before.rows@[j] == self.rows@[j]);
                            before.lemma_contents_at(j);
                        }
                    }
                    assert(self.contents() =~= before.contents().insert(k, self.rows@[i as int]@));
                }
                return;
            }
            i = i + 1;
        }
        let ghost before = *self;
        self.rows.push(row);
        proof {
            let n = before.rows@.len() as int;
            assert(self.wf()) by {
                assert forall|a: int, b: int|
                    0 <= a < self.rows@.len() && 0 <= b < self.rows@.len() && a != b implies T::key_of(
                    #[trigger] self.rows@[a]@) != T::key_of(#[trigger] self.rows@[b]@) by {
                    if a < n && b < n {
                        assert(T::key_of(before.rows@[a]@) != T::key_of(before.rows@[b]@));
                    }
                }
            }
            assert forall|key: T::Key| #[trigger] self.contents().contains_key(key) <==> before.contents().insert(k, row@).contains_key(key) by {
                if self.contents().contains_key(key) {
                    let j = choose|j: int| 0 <= j < self.rows@.len() && T::key_of(#[trigger] self.rows@[j]@) == key;
                    if j < n {
                        assert(T::key_of(before.rows@[j]@) == key);
                    }
                }
                if before.contents().contains_key(key) {
                    let j = choose|j: int| 0 <= j < before.rows@.len() && T::key_of(#[trigger] before.rows@[j]@) == key;
                    assert(T::key_of(self.rows@[j]@) == key);
                }
                assert(T::key_of(self.rows@[n]@) == k);
            }
            assert forall|key: T::Key| #[trigger] self.contents().contains_key(key) implies self.contents()[key] == before.contents().insert(k, row@)[key] by {
                let j = choose|j: int| 0 <= j < self.rows@.len() && T::key_of(#[trigger] self.rows@[j]@) == key;
                self.lemma_contents_at(j);
                if j < n {
                    assert(before.rows@[j] == self.rows@[j]);
                    before.lemma_contents_at(j);
                }
            }
            assert(self.contents() =~= before.contents().insert(k, row@));
        }
    }

    /// Writes each row of `batch` in order.
    pub fn upsert_all(&mut self, batch: Vec<T>)
        requires
            old(self).wf(),
        ensures
            final(self).wf(),
            final(self).contents() == upserted::<T>(
                old(self).contents(),
                batch@.map_values(|t: T| t@),
            ),
    {
        let ghost start = self.contents();
        let ghost all = batch@;
        let ghost allv = batch@.map_values(|t: T| t@);
        let mut batch = batch;
        let mut rev: Vec<T> = Vec::new();
        while batch.len() > 0
            invariant
                all.len() == batch@.len() + rev@.len(),
                forall|q: int| 0 <= q < rev@.len() ==> #[trigger] rev@[q] == all[all.len() - 1 - q],
                batch@ == all.subrange(0, batch@.len() as int),
            decreases batch@.len(),
        {
            let r = batch.pop().unwrap();
            rev.push(r);
        }
        while rev.len() > 0
            invariant
                self.wf(),
                rev@.len() <= all.len(),
                allv == all.map_values(|t: T| t@),
                forall|q: int| 0 <= q < rev@.len() ==> #[trigger] rev@[q] == all[all.len() - 1 - q],
                self.contents() == upserted::<T>(start, allv.subrange(0, all.len() - rev@.len())),
            decreases rev@.len(),
        {
            let r = rev.pop().unwrap();
            proof {
                let done = allv.subrange(0, all.len() - rev@.len());
                assert(done.drop_last() =~= allv.subrange(0, all.len() - rev@.len() - 1));
                assert(done.last() == r@);
            }
            self.upsert(r);
        }
        assert(allv.subrange(0, all.len() as int) =~= allv);
    }
}

/// Upserting a batch a second time changes nothing.
pub proof fn lemma_upsert_idempotent<T: KeyedRow>(m: Map<T::Key, T::V>, batch: Seq<T::V>)
    ensures
        upserted::<T>(upserted::<T>(m, batch), batch) == upserted::<T>(m, batch),
{
    lemma_upserted_union::<T>(m, batch);
    lemma_upserted_union::<T>(upserted::<T>(m, batch), batch);
    let b = upserted::<T>(Map::<T::Key, T::V>::empty(), batch);
    assert(m.union_prefer_right(b).union_prefer_right(b) =~= m.union_prefer_right(b));
}

proof fn lemma_upserted_union<T: KeyedRow>(m: Map<T::Key, T::V>, batch: Seq<T::V>)
    ensures
        upserted::<T>(m, batch) == m.union_prefer_right(
            upserted::<T>(Map::<T::Key, T::V>::empty(), batch),
        ),
    decreases batch.len(),
{
    if batch.len() == 0 {
        assert(m.union_prefer_right(Map::<T::Key, T::V>::empty()) =~= m);
    } else {
        lemma_upserted_union::<T>(m, batch.drop_last());
        let b = upserted::<T>(Map::<T::Key, T::V>::empty(), batch.drop_last());
        assert(m.union_prefer_right(b).insert(T::key_of(batch.last()), batch.last())
            =~= m.union_prefer_right(b.insert(T::key_of(batch.last()), batch.last())));
    }
}

} // verus!
