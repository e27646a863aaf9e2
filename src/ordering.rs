//! The canonical order of transactions: ascending by `(block number, index)`.
//!
//! The order is built by inserting each transaction into a sequence kept in
//! descending order; reading that sequence from its end gives the ascending one.
use vstd::prelude::*;
use vstd::seq_lib::*;
use crate::model::Tx;

verus! {

broadcast use vstd::seq_lib::group_to_multiset_ensures;

/// `a` comes strictly before `b` in `(block number, index)` order.
pub open spec fn key_lt(a: Tx, b: Tx) -> bool {
    a.block_number < b.block_number || (a.block_number == b.block_number && a.tx_index
        < b.tx_index)
}

/// `a` and `b` share a block number and an index.
pub open spec fn same_key(a: Tx, b: Tx) -> bool {
    a.block_number == b.block_number && a.tx_index == b.tx_index
}

/// No two positions of `s` hold transactions with the same block number and index.
pub open spec fn keys_unique(s: Seq<Tx>) -> bool {
    forall|i: int, j: int|
        0 <= i < s.len() && 0 <= j < s.len() && i != j ==> !same_key(#[trigger] s[i], #[trigger] s[j])
}

/// `s` never rises in `(block number, index)` order.
pub open spec fn is_descending(s: Seq<Tx>) -> bool {
    forall|i: int, j: int| 0 <= i < j < s.len() ==> !key_lt(#[trigger] s[i], #[trigger] s[j])
}

/// `s` never falls in `(block number, index)` order.
pub open spec fn is_ascending(s: Seq<Tx>) -> bool {
    forall|i: int, j: int| 0 <= i < j < s.len() ==> !key_lt(#[trigger] s[j], #[trigger] s[i])
}

/// Where `x` goes into the descending `s`: after every element strictly above it.
pub open spec fn insert_pos(s: Seq<Tx>, x: Tx) -> int
    decreases s.len(),
{
    if s.len() == 0 {
        0
    } else if key_lt(x, s[0]) {
        1 + insert_pos(s.drop_first(), x)
    } else {
        0
    }
}

/// `s` in descending order, inserting its elements from last to first.
pub open spec fn descending(s: Seq<Tx>) -> Seq<Tx>
    decreases s.len(),
{
    if s.len() == 0 {
        Seq::empty()
    } else {
        let d = descending(s.drop_first());
        d.insert(insert_pos(d, s[0]), s[0])
    }
}

/// `s` in ascending `(block number, index)` order.
pub open spec fn ordered(s: Seq<Tx>) -> Seq<Tx> {
    let d = descending(s);
    Seq::new(d.len(), |i: int| d[d.len() - 1 - i])
}

pub proof fn lemma_insert_pos_bounds(s: Seq<Tx>, x: Tx)
    ensures
        0 <= insert_pos(s, x) <= s.len(),
        forall|j: int| 0 <= j < insert_pos(s, x) ==> key_lt(x, #[trigger] s[j]),
        insert_pos(s, x) < s.len() ==> !key_lt(x, s[insert_pos(s, x)]),
    decreases s.len(),
{
    if s.len() > 0 && key_lt(x, s[0]) {
        lemma_insert_pos_bounds(s.drop_first(), x);
        if insert_pos(s, x) < s.len() {
            assert(s[insert_pos(s, x)] == s.drop_first()[insert_pos(s, x) - 1]);
        }
        assert forall|j: int| 0 <= j < insert_pos(s, x) implies key_lt(x, #[trigger] s[j]) by {
            if j > 0 {
                assert(s[j] == s.drop_first()[j - 1]);
            }
        }
    }
}

/// A scan that stops at the first element not strictly above `x` finds `insert_pos`.
pub proof fn lemma_insert_pos_found(s: Seq<Tx>, x: Tx, i: int)
    requires
        0 <= i <= s.len(),
        forall|j: int| 0 <= j < i ==> key_lt(x, #[trigger] s[j]),
        i == s.len() || !key_lt(x, s[i]),
    ensures
        insert_pos(s, x) == i,
    decreases i,
{
    if i > 0 {
        assert(key_lt(x, s[0]));
        assert forall|j: int| 0 <= j < i - 1 implies key_lt(x, #[trigger] s.drop_first()[j]) by {
            assert(s.drop_first()[j] == s[j + 1]);
        }
        if i < s.len() {
            assert(s.drop_first()[i - 1] == s[i]);
        }
        lemma_insert_pos_found(s.drop_first(), x, i - 1);
    }
}

pub proof fn lemma_descending(s: Seq<Tx>)
    ensures
        descending(s).len() == s.len(),
        descending(s).to_multiset() == s.to_multiset(),
        is_descending(descending(s)),
    decreases s.len(),
{
    if s.len() > 0 {
        let t = s.drop_first();
        lemma_descending(t);
        let d = descending(t);
        let x = s[0];
        let p = insert_pos(d, x);
        lemma_insert_pos_bounds(d, x);
        let r = d.insert(p, x);
        d.insert_ensures(p, x);
        to_multiset_insert(d, p, x);
        assert(s =~= t.insert(0, x));
        to_multiset_insert(t, 0, x);
        assert forall|i: int, j: int| 0 <= i < j < r.len() implies !key_lt(
            #[trigger] r[i],
            #[trigger] r[j],
        ) by {
            if p < d.len() {
                assert(!key_lt(x, d[p]));
            }
            if j < p {
            } else if j == p {
            } else if i < p {
                assert(r[j] == d[j - 1]);
                if p < d.len() {
                    assert(!key_lt(d[p], d[j - 1]) || p == j - 1);
                }
            } else if i == p {
                assert(r[j] == d[j - 1]);
                assert(!key_lt(d[p], d[j - 1]) || p == j - 1);
            } else {
                assert(r[i] == d[i - 1] && r[j] == d[j - 1]);
            }
        }
    }
}

pub proof fn lemma_ordered(s: Seq<Tx>)
    ensures
        ordered(s).len() == s.len(),
        ordered(s).to_multiset() == s.to_multiset(),
        is_ascending(ordered(s)),
        forall|x: Tx| ordered(s).contains(x) <==> s.contains(x),
{
    lemma_descending(s);
    let d = descending(s);
    let o = ordered(s);
    assert(o =~= d.reverse());
    d.lemma_reverse_to_multiset();
    assert forall|x: Tx| o.contains(x) <==> s.contains(x) by {
        assert(o.to_multiset().count(x) == s.to_multiset().count(x));
    }
}

/// Two sequences with the same elements hold the same number of them, and
/// unique keys in one mean unique keys in the other.
pub proof fn lemma_keys_unique_multiset(s: Seq<Tx>, t: Seq<Tx>)
    requires
        s.to_multiset() == t.to_multiset(),
        keys_unique(s),
    ensures
        keys_unique(t),
        t.len() == s.len(),
{
    assert(s.to_multiset().len() == s.len());
    assert(t.to_multiset().len() == t.len());
    assert(s.no_duplicates()) by {
        assert forall|i: int, j: int| 0 <= i < s.len() && 0 <= j < s.len() && i != j implies s[i]
            != s[j] by {
            assert(!same_key(s[i], s[j]));
        }
    }
    s.lemma_multiset_has_no_duplicates();
    t.lemma_multiset_has_no_duplicates_conv();
    assert forall|i: int, j: int| 0 <= i < t.len() && 0 <= j < t.len() && i != j implies !same_key(
        #[trigger] t[i],
        #[trigger] t[j],
    ) by {
        assert(t.to_multiset().count(t[i]) > 0);
        assert(t.to_multiset().count(t[j]) > 0);
        assert(s.contains(t[i]));
        assert(s.contains(t[j]));
        let p = choose|p: int| 0 <= p < s.len() && s[p] == t[i];
        let q = choose|q: int| 0 <= q < s.len() && s[q] == t[j];
        if p != q {
            assert(!same_key(s[p], s[q]));
        }
    }
}

/// Two descending sequences with the same elements and unique keys are equal.
pub proof fn lemma_descending_unique(a: Seq<Tx>, b: Seq<Tx>)
    requires
        is_descending(a),
        is_descending(b),
        keys_unique(a),
        keys_unique(b),
        a.to_multiset() == b.to_multiset(),
    ensures
        a == b,
    decreases a.len(),
{
    assert(a.to_multiset().len() == a.len());
    assert(b.to_multiset().len() == b.len());
    if a.len() > 0 {
        assert(a.to_multiset().count(a[0]) > 0);
        assert(b.to_multiset().count(b[0]) > 0);
        assert(b.contains(a[0]));
        assert(a.contains(b[0]));
        let m = choose|m: int| 0 <= m < b.len() && b[m] == a[0];
        let l = choose|l: int| 0 <= l < a.len() && a[l] == b[0];
        if m > 0 {
            assert(!key_lt(b[0], b[m]));
        }
        if l > 0 {
            assert(!key_lt(a[0], a[l]));
            assert(!same_key(a[0], a[l]));
        }
        assert(a[0] == b[0]);
        let a1 = a.drop_first();
        let b1 = b.drop_first();
        assert(a.remove(0) =~= a1);
        assert(b.remove(0) =~= b1);
        assert forall|i: int, j: int| 0 <= i < j < a1.len() implies !key_lt(
            #[trigger] a1[i],
            #[trigger] a1[j],
        ) by {
            assert(a1[i] == a[i + 1] && a1[j] == a[j + 1]);
        }
        assert forall|i: int, j: int| 0 <= i < j < b1.len() implies !key_lt(
            #[trigger] b1[i],
            #[trigger] b1[j],
        ) by {
            assert(b1[i] == b[i + 1] && b1[j] == b[j + 1]);
        }
        assert forall|i: int, j: int|
            0 <= i < a1.len() && 0 <= j < a1.len() && i != j implies !same_key(
            #[trigger] a1[i],
            #[trigger] a1[j],
        ) by {
            assert(a1[i] == a[i + 1] && a1[j] == a[j + 1]);
        }
        assert forall|i: int, j: int|
            0 <= i < b1.len() && 0 <= j < b1.len() && i != j implies !same_key(
            #[trigger] b1[i],
            #[trigger] b1[j],
        ) by {
            assert(b1[i] == b[i + 1] && b1[j] == b[j + 1]);
        }
        lemma_descending_unique(a1, b1);
        assert forall|i: int| 0 <= i < a.len() implies a[i] == b[i] by {
            if i > 0 {
                assert(a[i] == a1[i - 1] && b[i] == b1[i - 1]);
            }
        }
        assert(a =~= b);
    }
}

/// With unique keys, the ascending order depends only on which transactions
/// there are, not on the order in which they are given.
pub proof fn lemma_ordered_unique(s: Seq<Tx>, t: Seq<Tx>)
    requires
        s.to_multiset() == t.to_multiset(),
        keys_unique(s),
    ensures
        ordered(s) == ordered(t),
{
    lemma_keys_unique_multiset(s, t);
    lemma_descending(s);
    lemma_descending(t);
    lemma_keys_unique_multiset(s, descending(s));
    lemma_keys_unique_multiset(t, descending(t));
    lemma_descending_unique(descending(s), descending(t));
}

} // verus!
