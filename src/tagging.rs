//! The correlation engine: merges transactions with per-extractor observation
//! rows and tags each transaction with one first-seen timestamp per extractor.
//!
//! Correlation is positional: a transaction at index `i` of its block takes the
//! `i`-th observation of every extractor row for that block. If an extractor's
//! own order ever differs from the block's, timestamps land on the wrong
//! transaction and nothing here can tell.
use vstd::prelude::*;
use crate::model::{BlockExtractorRow, BlockNumber, ExtractorTimestamp, TaggedTx, Tx};
use crate::ordering::{
    key_lt, keys_unique, lemma_descending, lemma_insert_pos_found, lemma_ordered,
    lemma_ordered_unique, descending, ordered,
};

verus! {

/// Why a batch could not be tagged. Every variant rejects the whole batch.
#[derive(Clone, Copy, Debug, PartialEq, Eq, Structural)]
pub enum TagError {
    /// The transactions and the extractor rows do not cover the same blocks.
    BlockSetMismatch,
    /// Two extractor rows for one block hold observation sequences of different lengths.
    UnequalLengths,
    /// A transaction's index is no position of an extractor row for its block.
    IndexOutOfRange,
}

/// The rows for block `b`, in the order in which they are given.
pub open spec fn rows_of_block(rows: Seq<BlockExtractorRow>, b: BlockNumber) -> Seq<
    BlockExtractorRow,
>
    decreases rows.len(),
{
    if rows.len() == 0 {
        Seq::empty()
    } else {
        let p = rows_of_block(rows.drop_last(), b);
        if rows.last().block_number == b {
            p.push(rows.last())
        } else {
            p
        }
    }
}

/// The block numbers that the transactions cover.
pub open spec fn tx_blocks(txs: Seq<Tx>) -> Set<BlockNumber> {
    Set::new(|b: BlockNumber| exists|i: int| 0 <= i < txs.len() && (#[trigger] txs[i]).block_number == b)
}

/// The block numbers that the extractor rows cover.
pub open spec fn row_blocks(rows: Seq<BlockExtractorRow>) -> Set<BlockNumber> {
    Set::new(
        |b: BlockNumber| exists|j: int| 0 <= j < rows.len() && (#[trigger] rows[j]).block_number == b,
    )
}

/// Within each block, every extractor row holds as many observations as the others.
pub open spec fn lengths_agree(rows: Seq<BlockExtractorRow>) -> bool {
    forall|b: BlockNumber, i: int, j: int|
        0 <= i < rows_of_block(rows, b).len() && 0 <= j < rows_of_block(rows, b).len()
            ==> (#[trigger] rows_of_block(rows, b)[i]).tx_data@.len() == (
        #[trigger] rows_of_block(rows, b)[j]).tx_data@.len()
}

/// Every transaction's index is a position of every extractor row for its block.
pub open spec fn indices_in_range(txs: Seq<Tx>, rows: Seq<BlockExtractorRow>) -> bool {
    forall|i: int, k: int|
        0 <= i < txs.len() && 0 <= k < rows_of_block(rows, txs[i].block_number).len() ==> 0
            <= (#[trigger] txs[i]).tx_index < (#[trigger] rows_of_block(
            rows,
            txs[i].block_number,
        )[k]).tx_data@.len()
}

/// The timestamp that `row` gives the transaction at `index`.
pub open spec fn stamp(row: BlockExtractorRow, index: int) -> ExtractorTimestamp {
    ExtractorTimestamp { id: row.extractor, timestamp: row.tx_data@[index].0 }
}

/// The timestamps of `tx`: one per row for its block, in the rows' order.
pub open spec fn stamps(rows: Seq<BlockExtractorRow>, tx: Tx) -> Seq<ExtractorTimestamp> {
    rows_of_block(rows, tx.block_number).map_values(|r: BlockExtractorRow| stamp(r, tx.tx_index as int))
}

/// What tagging `txs` against `rows` gives: the first failed check, in the order
/// block coverage, observation lengths, index range; else every transaction in
/// `(block number, index)` order with its timestamps.
pub open spec fn tag_outcome(txs: Seq<Tx>, rows: Seq<BlockExtractorRow>) -> Result<
    Seq<(Tx, Seq<ExtractorTimestamp>)>,
    TagError,
> {
    if tx_blocks(txs) != row_blocks(rows) {
        Err(TagError::BlockSetMismatch)
    } else if !lengths_agree(rows) {
        Err(TagError::UnequalLengths)
    } else if !indices_in_range(txs, rows) {
        Err(TagError::IndexOutOfRange)
    } else {
        Ok(ordered(txs).map_values(|tx: Tx| (tx, stamps(rows, tx))))
    }
}

/// The abstract value of a tagging result.
pub open spec fn outcome_view(r: Result<Vec<TaggedTx>, TagError>) -> Result<
    Seq<(Tx, Seq<ExtractorTimestamp>)>,
    TagError,
> {
    match r {
        Ok(v) => Ok(v@.map_values(|t: TaggedTx| t@)),
        Err(e) => Err(e),
    }
}

/// `idx` lists the positions of `rows` that hold block `b`, in order.
pub open spec fn indexes_block(idx: Seq<usize>, rows: Seq<BlockExtractorRow>, b: BlockNumber) -> bool {
    &&& idx.len() == rows_of_block(rows, b).len()
    &&& forall|k: int|
        0 <= k < idx.len() ==> idx[k] < rows.len() && rows[#[trigger] idx[k] as int]
            == rows_of_block(rows, b)[k]
}

/// Every row of `rows_of_block(rows, b)` is for block `b`, and there is one
/// exactly where some row is for `b`.
pub proof fn lemma_rows_of_block(rows: Seq<BlockExtractorRow>, b: BlockNumber)
    ensures
        forall|k: int|
            0 <= k < rows_of_block(rows, b).len() ==> (#[trigger] rows_of_block(rows, b)[k]).block_number
                == b,
        rows_of_block(rows, b).len() > 0 <==> row_blocks(rows).contains(b),
    decreases rows.len(),
{
    if rows.len() > 0 {
        let q = rows.drop_last();
        lemma_rows_of_block(q, b);
        if row_blocks(q).contains(b) {
            let j = choose|j: int| 0 <= j < q.len() && (#[trigger] q[j]).block_number == b;
            assert(rows[j] == q[j]);
        }
        if row_blocks(rows).contains(b) {
            let j = choose|j: int| 0 <= j < rows.len() && (#[trigger] rows[j]).block_number == b;
            if j < q.len() {
                assert(rows[j] == q[j]);
            }
        }
    }
}

/// The positions of `rows` that hold block `b`, in order.
fn block_rows(rows: &Vec<BlockExtractorRow>, b: BlockNumber) -> (r: Vec<usize>)
    ensures
        indexes_block(r@, rows@, b),
{
    let mut r: Vec<usize> = Vec::new();
    let mut i: usize = 0;
    while i < rows.len()
        invariant
            i <= rows@.len(),
            r@.len() == rows_of_block(rows@.subrange(0, i as int), b).len(),
            forall|k: int|
                0 <= k < r@.len() ==> r@[k] < i && rows@[#[trigger] r@[k] as int]
                    == rows_of_block(rows@.subrange(0, i as int), b)[k],
        decreases rows@.len() - i,
    {
        assert(rows@.subrange(0, i + 1).drop_last() =~= rows@.subrange(0, i as int));
        if rows[i].block_number == b {
            r.push(i);
        }
        i = i + 1;
    }
    assert(rows@.subrange(0, i as int) =~= rows@);
    r
}

/// Relies on itertools' `Itertools::unique`: it keeps the first of equal
/// items and drops the rest, so each value of `v` comes out exactly once.
#[verifier::external_body]
fn unique_block_numbers(v: Vec<BlockNumber>) -> (r: Vec<BlockNumber>)
    ensures
        r@.no_duplicates(),
        forall|b: BlockNumber| r@.contains(b) <==> v@.contains(b),
{
    itertools::Itertools::unique(v.into_iter()).collect()
}

/// Each distinct block number of `txs`, once.
fn distinct_blocks(txs: &Vec<Tx>) -> (bs: Vec<BlockNumber>)
    ensures
        forall|i: int| 0 <= i < txs@.len() ==> bs@.contains(#[trigger] txs@[i].block_number),
        forall|g: int| 0 <= g < bs@.len() ==> tx_blocks(txs@).contains(#[trigger] bs@[g]),
{
    let mut numbers: Vec<BlockNumber> = Vec::new();
    let mut i: usize = 0;
    while i < txs.len()
        invariant
            i <= txs@.len(),
            numbers@.len() == i,
            forall|k: int| 0 <= k < i ==> #[trigger] numbers@[k] == txs@[k].block_number,
        decreases txs@.len() - i,
    {
        numbers.push(txs[i].block_number);
        i = i + 1;
    }
    let ghost all = numbers@;
    let bs = unique_block_numbers(numbers);
    proof {
        assert forall|i: int| 0 <= i < txs@.len() implies bs@.contains(#[trigger] txs@[i].block_number) by {
            assert(all[i] == txs@[i].block_number);
            assert(all.contains(all[i]));
        }
        assert forall|g: int| 0 <= g < bs@.len() implies tx_blocks(txs@).contains(#[trigger] bs@[g]) by {
            assert(bs@.contains(bs@[g]));
            let k = choose|k: int| 0 <= k < all.len() && all[k] == bs@[g];
            assert(txs@[k].block_number == bs@[g]);
        }
    }
    bs
}

fn contains_block(bs: &Vec<BlockNumber>, b: BlockNumber) -> (r: bool)
    ensures
        r == bs@.contains(b),
{
    let mut g: usize = 0;
    while g < bs.len()
        invariant
            g <= bs@.len(),
            forall|h: int| 0 <= h < g ==> bs@[h] != b,
        decreases bs@.len() - g,
    {
        if bs[g] == b {
            return true;
        }
        g = g + 1;
    }
    false
}

fn find_block(bs: &Vec<BlockNumber>, b: BlockNumber) -> (g: usize)
    requires
        bs@.contains(b),
    ensures
        g < bs@.len(),
        bs@[g as int] == b,
{
    let mut g: usize = 0;
    while g < bs.len()
        invariant
            g <= bs@.len(),
            bs@.contains(b),
            forall|h: int| 0 <= h < g ==> bs@[h] != b,
        decreases bs@.len() - g,
    {
        if bs[g] == b {
            return g;
        }
        g = g + 1;
    }
    g
}

/// Tags each transaction with the timestamp that every extractor row for its
/// block holds at the transaction's index. The result lists the transactions in
/// `(block number, index)` order; the timestamps of one transaction follow the
/// order of the rows for its block. The batch fails as a whole, with the first
/// check that fails: block coverage, then observation lengths, then index range.
pub fn tag_transactions(txs: Vec<Tx>, rows: Vec<BlockExtractorRow>) -> (r: Result<
    Vec<TaggedTx>,
    TagError,
>)
    ensures
        outcome_view(r) == tag_outcome(txs@, rows@),
{
    let ghost orig = txs@;
    let bs = distinct_blocks(&txs);
    let mut groups: Vec<Vec<usize>> = Vec::new();
    let mut g: usize = 0;
    while g < bs.len()
        invariant
            g <= bs@.len(),
            groups@.len() == g,
            txs@ == orig,
            forall|h: int| 0 <= h < bs@.len() ==> tx_blocks(orig).contains(#[trigger] bs@[h]),
            forall|h: int|
                0 <= h < g ==> indexes_block(#[trigger] groups@[h]@, rows@, bs@[h])
                    && groups@[h]@.len() > 0,
        decreases bs@.len() - g,
    {
        let idx = block_rows(&rows, bs[g]);
        if idx.len() == 0 {
            proof {
                lemma_rows_of_block(rows@, bs@[g as int]);
                assert(tx_blocks(orig).contains(bs@[g as int]));
                assert(!row_blocks(rows@).contains(bs@[g as int]));
            }
            return Err(TagError::BlockSetMismatch);
        }
        groups.push(idx);
        g = g + 1;
    }
    let mut j: usize = 0;
    while j < rows.len()
        invariant
            j <= rows@.len(),
            forall|l: int| 0 <= l < j ==> bs@.contains(#[trigger] rows@[l].block_number),
            txs@ == orig,
            forall|i: int| 0 <= i < orig.len() ==> bs@.contains(#[trigger] orig[i].block_number),
            groups@.len() == bs@.len(),
            forall|h: int|
                0 <= h < bs@.len() ==> indexes_block(#[trigger] groups@[h]@, rows@, bs@[h])
                    && groups@[h]@.len() > 0,
        decreases rows@.len() - j,
    {
        if !contains_block(&bs, rows[j].block_number) {
            proof {
                let b = rows@[j as int].block_number;
                assert(row_blocks(rows@).contains(b));
                if tx_blocks(orig).contains(b) {
                    let i = choose|i: int| 0 <= i < orig.len() && (#[trigger] orig[i]).block_number == b;
                    assert(bs@.contains(orig[i].block_number));
                }
            }
            return Err(TagError::BlockSetMismatch);
        }
        j = j + 1;
    }
    proof {
        assert forall|b: BlockNumber| row_blocks(rows@).contains(b) implies bs@.contains(b) by {
            let l = choose|l: int| 0 <= l < rows@.len() && (#[trigger] rows@[l]).block_number == b;
            assert(bs@.contains(rows@[l].block_number));
        }
        assert forall|b: BlockNumber| tx_blocks(orig).contains(b) implies row_blocks(rows@).contains(b) by {
            let i = choose|i: int| 0 <= i < orig.len() && (#[trigger] orig[i]).block_number == b;
            assert(bs@.contains(orig[i].block_number));
            let h = choose|h: int| 0 <= h < bs@.len() && bs@[h] == b;
            assert(indexes_block(groups@[h]@, rows@, bs@[h]));
            lemma_rows_of_block(rows@, b);
        }
        assert(tx_blocks(orig) =~= row_blocks(rows@));
    }
    if !check_lengths(&rows, &bs, &groups) {
        return Err(TagError::UnequalLengths);
    }
    let mut pending = txs;
    let mut st: Vec<TaggedTx> = Vec::new();
    while pending.len() > 0
        invariant
            txs@ == orig,
            pending@.len() <= orig.len(),
            pending@ == orig.subrange(0, pending@.len() as int),
            tx_blocks(orig) == row_blocks(rows@),
            lengths_agree(rows@),
            forall|i: int| 0 <= i < orig.len() ==> bs@.contains(#[trigger] orig[i].block_number),
            groups@.len() == bs@.len(),
            forall|h: int|
                0 <= h < bs@.len() ==> indexes_block(#[trigger] groups@[h]@, rows@, bs@[h])
                    && groups@[h]@.len() > 0,
            forall|h: int, k: int|
                0 <= h < groups@.len() && 0 <= k < groups@[h]@.len() ==> rows@[#[trigger] groups@[h]@[k] as int].tx_data@.len()
                    == rows@[groups@[h]@[0] as int].tx_data@.len(),
            st@.map_values(|t: TaggedTx| t.tx) == descending(
                orig.subrange(pending@.len() as int, orig.len() as int),
            ),
            forall|p: int| 0 <= p < st@.len() ==> (#[trigger] st@[p]).timestamps@ == stamps(rows@, st@[p].tx),
            forall|i: int, q: int|
                pending@.len() <= i < orig.len() && 0 <= q < rows_of_block(rows@, orig[i].block_number).len()
                    ==> 0 <= (#[trigger] orig[i]).tx_index < (#[trigger] rows_of_block(
                    rows@,
                    orig[i].block_number,
                )[q]).tx_data@.len(),
        decreases pending@.len(),
    {
        let ghost k = pending@.len() - 1;
        let x = pending.pop().unwrap();
        assert(x == orig[k]);
        let g = find_block(&bs, x.block_number);
        let group = &groups[g];
        assert(indexes_block(group@, rows@, bs@[g as int]));
        let n0 = rows[group[0]].tx_data.len();
        if x.tx_index < 0 || x.tx_index as u64 >= n0 as u64 {
            proof {
                assert(rows_of_block(rows@, x.block_number)[0] == rows@[group@[0] as int]);
                assert(rows_of_block(rows@, orig[k].block_number).len() > 0);
                assert(!(0 <= orig[k].tx_index < rows_of_block(rows@, orig[k].block_number)[0].tx_data@.len()));
                assert(!indices_in_range(orig, rows@));
            }
            return Err(TagError::IndexOutOfRange);
        }
        let pos = x.tx_index as usize;
        proof {
            assert forall|q: int| 0 <= q < group@.len() implies pos < rows@[#[trigger] group@[q] as int].tx_data@.len() by {
                assert(rows@[groups@[g as int]@[q] as int].tx_data@.len() == n0);
            }
            assert forall|q: int| 0 <= q < rows_of_block(rows@, orig[k].block_number).len()
                implies 0 <= orig[k].tx_index < (#[trigger] rows_of_block(rows@, orig[k].block_number)[q]).tx_data@.len() by {
                assert(rows@[group@[q] as int] == rows_of_block(rows@, x.block_number)[q]);
            }
        }
        let ts = stamps_at(&rows, group, x.block_number, pos);
        let ghost d = st@.map_values(|t: TaggedTx| t.tx);
        let mut p: usize = 0;
        while p < st.len() && tx_before(&x, &st[p].tx)
            invariant
                p <= st@.len(),
                d == st@.map_values(|t: TaggedTx| t.tx),
                forall|j: int| 0 <= j < p ==> key_lt(x, #[trigger] d[j]),
            decreases st@.len() - p,
        {
            p = p + 1;
        }
        proof {
            lemma_insert_pos_found(d, x, p as int);
            let s = orig.subrange(k, orig.len() as int);
            assert(s.drop_first() =~= orig.subrange(k + 1, orig.len() as int));
            assert(s[0] == x);
        }
        let ghost before = st@;
        st.insert(p, TaggedTx { tx: x, timestamps: ts });
        proof {
            assert(st@.map_values(|t: TaggedTx| t.tx) =~= d.insert(p as int, x));
            assert forall|q: int| 0 <= q < st@.len() implies (#[trigger] st@[q]).timestamps@ == stamps(rows@, st@[q].tx) by {
                if q > p as int {
                    assert(st@[q] == before[q - 1]);
                }
            }
        }
    }
    let ghost full = st@;
    let ghost n = st@.len();
    assert(orig.subrange(0, orig.len() as int) =~= orig);
    let mut out: Vec<TaggedTx> = Vec::new();
    while st.len() > 0
        invariant
            st@ == full.subrange(0, st@.len() as int),
            out@.len() + st@.len() == n,
            n == full.len(),
            forall|q: int| 0 <= q < out@.len() ==> #[trigger] out@[q] == full[n - 1 - q],
        decreases st@.len(),
    {
        let t = st.pop().unwrap();
        out.push(t);
    }
    proof {
        lemma_descending(orig);
        assert(full.map_values(|t: TaggedTx| t.tx) == descending(orig));
        let want = ordered(orig).map_values(|tx: Tx| (tx, stamps(rows@, tx)));
        let got = out@.map_values(|t: TaggedTx| t@);
        assert forall|q: int| 0 <= q < n implies #[trigger] got[q] == want[q] by {
            assert(full.map_values(|t: TaggedTx| t.tx)[n - 1 - q] == full[n - 1 - q].tx);
            assert(full[n - 1 - q].timestamps@ == stamps(rows@, full[n - 1 - q].tx));
        }
        assert(got =~= want);
    }
    Ok(out)
}

/// Each block's rows report each extractor once.
pub open spec fn extractors_unique(rows: Seq<BlockExtractorRow>) -> bool {
    forall|b: BlockNumber|
        (#[trigger] rows_of_block(rows, b)).map_values(|r: BlockExtractorRow| r.extractor).no_duplicates()
}

/// Every row for block `b` is among `rows_of_block(rows, b)`.
pub proof fn lemma_row_in_block(rows: Seq<BlockExtractorRow>, j: int)
    requires
        0 <= j < rows.len(),
    ensures
        rows_of_block(rows, rows[j].block_number).contains(rows[j]),
    decreases rows.len(),
{
    let b = rows[j].block_number;
    let q = rows.drop_last();
    if j < q.len() {
        assert(q[j] == rows[j]);
        lemma_row_in_block(q, j);
        let w = choose|w: int| 0 <= w < rows_of_block(q, b).len() && rows_of_block(q, b)[w] == rows[j];
        if rows.last().block_number == b {
            assert(rows_of_block(rows, b)[w] == rows[j]);
        }
    } else {
        assert(rows_of_block(rows, b)[rows_of_block(rows, b).len() - 1] == rows[j]);
    }
}

/// Tagging succeeds exactly when the blocks match, the lengths agree and every
/// index is in range; it then yields one tagged transaction per transaction,
/// in ascending `(block number, index)` order, and otherwise none at all.
pub proof fn lemma_all_or_nothing(txs: Seq<Tx>, rows: Seq<BlockExtractorRow>)
    ensures
        tag_outcome(txs, rows) is Ok <==> (tx_blocks(txs) == row_blocks(rows) && lengths_agree(rows)
            && indices_in_range(txs, rows)),
        tag_outcome(txs, rows) matches Ok(v) ==> v.len() == txs.len() && v.map_values(
            |t: (Tx, Seq<ExtractorTimestamp>)| t.0,
        ).to_multiset() == txs.to_multiset() && forall|i: int, j: int|
            0 <= i < j < v.len() ==> !key_lt(#[trigger] v[j].0, #[trigger] v[i].0),
{
    lemma_ordered(txs);
    if let Ok(v) = tag_outcome(txs, rows) {
        assert(v.map_values(|t: (Tx, Seq<ExtractorTimestamp>)| t.0) =~= ordered(txs));
        assert forall|i: int, j: int| 0 <= i < j < v.len() implies !key_lt(
            #[trigger] v[j].0,
            #[trigger] v[i].0,
        ) by {
            assert(v[i].0 == ordered(txs)[i] && v[j].0 == ordered(txs)[j]);
        }
    }
}

/// The timestamps of each tagged transaction come from exactly the extractors
/// that reported for its block, in their order; where each block's rows name
/// each extractor once, no extractor appears twice.
pub proof fn lemma_stamps_name_reporting_extractors(txs: Seq<Tx>, rows: Seq<BlockExtractorRow>)
    ensures
        tag_outcome(txs, rows) matches Ok(v) ==> forall|i: int|
            0 <= i < v.len() ==> (#[trigger] v[i]).1.map_values(|e: ExtractorTimestamp| e.id)
                == rows_of_block(rows, v[i].0.block_number).map_values(
                |r: BlockExtractorRow| r.extractor,
            ),
        extractors_unique(rows) ==> (tag_outcome(txs, rows) matches Ok(v) ==> forall|i: int|
            0 <= i < v.len() ==> (#[trigger] v[i]).1.map_values(
                |e: ExtractorTimestamp| e.id,
            ).no_duplicates()),
{
    if let Ok(v) = tag_outcome(txs, rows) {
        assert forall|i: int| 0 <= i < v.len() implies (#[trigger] v[i]).1.map_values(
            |e: ExtractorTimestamp| e.id,
        ) == rows_of_block(rows, v[i].0.block_number).map_values(
            |r: BlockExtractorRow| r.extractor,
        ) by {
            assert(v[i].1.map_values(|e: ExtractorTimestamp| e.id) =~= rows_of_block(
                rows,
                v[i].0.block_number,
            ).map_values(|r: BlockExtractorRow| r.extractor));
        }
        if extractors_unique(rows) {
            assert forall|i: int| 0 <= i < v.len() implies (#[trigger] v[i]).1.map_values(
                |e: ExtractorTimestamp| e.id,
            ).no_duplicates() by {
                let b = v[i].0.block_number;
                assert(rows_of_block(rows, b).map_values(|r: BlockExtractorRow| r.extractor).no_duplicates());
            }
        }
    }
}

/// Two rows for one block with observation sequences of different lengths fail
/// the whole batch.
pub proof fn lemma_unequal_lengths_fail(txs: Seq<Tx>, rows: Seq<BlockExtractorRow>, i: int, j: int)
    requires
        0 <= i < rows.len(),
        0 <= j < rows.len(),
        rows[i].block_number == rows[j].block_number,
        rows[i].tx_data@.len() != rows[j].tx_data@.len(),
    ensures
        tag_outcome(txs, rows) is Err,
{
    let b = rows[i].block_number;
    lemma_row_in_block(rows, i);
    lemma_row_in_block(rows, j);
    let p = choose|p: int| 0 <= p < rows_of_block(rows, b).len() && rows_of_block(rows, b)[p] == rows[i];
    let q = choose|q: int| 0 <= q < rows_of_block(rows, b).len() && rows_of_block(rows, b)[q] == rows[j];
    assert(!lengths_agree(rows));
}

/// Transactions and rows that cover different blocks fail the whole batch.
pub proof fn lemma_block_mismatch_fails(txs: Seq<Tx>, rows: Seq<BlockExtractorRow>)
    requires
        tx_blocks(txs) != row_blocks(rows),
    ensures
        tag_outcome(txs, rows) == Err::<Seq<(Tx, Seq<ExtractorTimestamp>)>, TagError>(
            TagError::BlockSetMismatch,
        ),
{
}

proof fn lemma_same_elements(s: Seq<Tx>, t: Seq<Tx>)
    requires
        s.to_multiset() == t.to_multiset(),
    ensures
        forall|x: Tx| s.contains(x) <==> t.contains(x),
{
    assert forall|x: Tx| s.contains(x) <==> t.contains(x) by {
        vstd::seq_lib::to_multiset_contains(s, x);
        vstd::seq_lib::to_multiset_contains(t, x);
    }
}

/// Tagging does not depend on the order of its inputs: the transactions may
/// come in any order, and the rows too, as long as the rows of each block keep
/// their relative order (which fixes the order of each transaction's
/// timestamps). Transactions must have unique `(block number, index)` keys.
pub proof fn lemma_input_order_irrelevant(
    txs1: Seq<Tx>,
    txs2: Seq<Tx>,
    rows1: Seq<BlockExtractorRow>,
    rows2: Seq<BlockExtractorRow>,
)
    requires
        txs1.to_multiset() == txs2.to_multiset(),
        keys_unique(txs1),
        forall|b: BlockNumber| rows_of_block(rows1, b) == rows_of_block(rows2, b),
    ensures
        tag_outcome(txs1, rows1) == tag_outcome(txs2, rows2),
{
    lemma_same_elements(txs1, txs2);
    assert forall|b: BlockNumber| tx_blocks(txs1).contains(b) <==> tx_blocks(txs2).contains(b) by {
        if tx_blocks(txs1).contains(b) {
            let i = choose|i: int| 0 <= i < txs1.len() && (#[trigger] txs1[i]).block_number == b;
            assert(txs2.contains(txs1[i]));
        }
        if tx_blocks(txs2).contains(b) {
            let i = choose|i: int| 0 <= i < txs2.len() && (#[trigger] txs2[i]).block_number == b;
            assert(txs1.contains(txs2[i]));
        }
    }
    assert(tx_blocks(txs1) =~= tx_blocks(txs2));
    assert forall|b: BlockNumber| row_blocks(rows1).contains(b) <==> row_blocks(rows2).contains(b) by {
        lemma_rows_of_block(rows1, b);
        lemma_rows_of_block(rows2, b);
    }
    assert(row_blocks(rows1) =~= row_blocks(rows2));
    assert(lengths_agree(rows1) == lengths_agree(rows2)) by {
        if lengths_agree(rows1) {
            assert forall|b: BlockNumber, i: int, j: int|
                0 <= i < rows_of_block(rows2, b).len() && 0 <= j < rows_of_block(rows2, b).len()
                implies (#[trigger] rows_of_block(rows2, b)[i]).tx_data@.len() == (
            #[trigger] rows_of_block(rows2, b)[j]).tx_data@.len() by {
                assert(rows_of_block(rows1, b) == rows_of_block(rows2, b));
            }
        }
        if lengths_agree(rows2) {
            assert forall|b: BlockNumber, i: int, j: int|
                0 <= i < rows_of_block(rows1, b).len() && 0 <= j < rows_of_block(rows1, b).len()
                implies (#[trigger] rows_of_block(rows1, b)[i]).tx_data@.len() == (
            #[trigger] rows_of_block(rows1, b)[j]).tx_data@.len() by {
                assert(rows_of_block(rows1, b) == rows_of_block(rows2, b));
            }
        }
    }
    assert(indices_in_range(txs1, rows1) == indices_in_range(txs2, rows2)) by {
        if indices_in_range(txs1, rows1) {
            assert forall|i: int, k: int|
                0 <= i < txs2.len() && 0 <= k < rows_of_block(rows2, txs2[i].block_number).len()
                implies 0 <= (#[trigger] txs2[i]).tx_index < (#[trigger] rows_of_block(
                rows2,
                txs2[i].block_number,
            )[k]).tx_data@.len() by {
                assert(txs1.contains(txs2[i]));
                let p = choose|p: int| 0 <= p < txs1.len() && txs1[p] == txs2[i];
                assert(rows_of_block(rows1, txs2[i].block_number) == rows_of_block(rows2, txs2[i].block_number));
                assert(0 <= txs1[p].tx_index < rows_of_block(rows1, txs1[p].block_number)[k].tx_data@.len());
            }
        }
        if indices_in_range(txs2, rows2) {
            assert forall|i: int, k: int|
                0 <= i < txs1.len() && 0 <= k < rows_of_block(rows1, txs1[i].block_number).len()
                implies 0 <= (#[trigger] txs1[i]).tx_index < (#[trigger] rows_of_block(
                rows1,
                txs1[i].block_number,
            )[k]).tx_data@.len() by {
                assert(txs2.contains(txs1[i]));
                let p = choose|p: int| 0 <= p < txs2.len() && txs2[p] == txs1[i];
                assert(rows_of_block(rows1, txs1[i].block_number) == rows_of_block(rows2, txs1[i].block_number));
                assert(0 <= txs2[p].tx_index < rows_of_block(rows2, txs2[p].block_number)[k].tx_data@.len());
            }
        }
    }
    lemma_ordered_unique(txs1, txs2);
    let o = ordered(txs1);
    assert(o.map_values(|tx: Tx| (tx, stamps(rows1, tx))) =~= o.map_values(
        |tx: Tx| (tx, stamps(rows2, tx)),
    )) by {
        assert forall|i: int| 0 <= i < o.len() implies stamps(rows1, #[trigger] o[i]) == stamps(rows2, o[i]) by {
            assert(rows_of_block(rows1, o[i].block_number) == rows_of_block(rows2, o[i].block_number));
        }
    }
}

/// The lowest and highest block numbers of `txs`: the range for which the
/// extractor store is asked. `None` for an empty batch.
pub fn block_span(txs: &Vec<Tx>) -> (r: Option<(BlockNumber, BlockNumber)>)
    ensures
        r is None <==> txs@.len() == 0,
        r matches Some((lo, hi)) ==> {
            &&& forall|i: int| 0 <= i < txs@.len() ==> lo <= (#[trigger] txs@[i]).block_number <= hi
            &&& tx_blocks(txs@).contains(lo)
            &&& tx_blocks(txs@).contains(hi)
        },
{
    if txs.len() == 0 {
        return None;
    }
    let mut lo = txs[0].block_number;
    let mut hi = txs[0].block_number;
    assert(tx_blocks(txs@).contains(lo)) by {
        assert(txs@[0].block_number == lo);
    }
    let mut i: usize = 1;
    while i < txs.len()
        invariant
            1 <= i <= txs@.len(),
            forall|k: int| 0 <= k < i ==> lo <= (#[trigger] txs@[k]).block_number <= hi,
            tx_blocks(txs@).contains(lo),
            tx_blocks(txs@).contains(hi),
        decreases txs@.len() - i,
    {
        let b = txs[i].block_number;
        assert(tx_blocks(txs@).contains(b)) by {
            assert(txs@[i as int].block_number == b);
        }
        if b < lo {
            lo = b;
        }
        if b > hi {
            hi = b;
        }
        i = i + 1;
    }
    Some((lo, hi))
}

/// Whether the rows of each block agree on their observation count. The
/// groups must cover every block that a row holds.
fn check_lengths(
    rows: &Vec<BlockExtractorRow>,
    bs: &Vec<BlockNumber>,
    groups: &Vec<Vec<usize>>,
) -> (r: bool)
    requires
        groups@.len() == bs@.len(),
        forall|g: int| 0 <= g < bs@.len() ==> indexes_block(#[trigger] groups@[g]@, rows@, bs@[g]),
        forall|b: BlockNumber| row_blocks(rows@).contains(b) ==> bs@.contains(b),
    ensures
        r == lengths_agree(rows@),
        r ==> forall|g: int, k: int|
            0 <= g < groups@.len() && 0 <= k < groups@[g]@.len() ==> rows@[#[trigger] groups@[g]@[k] as int].tx_data@.len()
                == rows@[groups@[g]@[0] as int].tx_data@.len(),
{
    let mut g: usize = 0;
    while g < groups.len()
        invariant
            g <= groups@.len(),
            groups@.len() == bs@.len(),
            forall|g: int| 0 <= g < bs@.len() ==> indexes_block(#[trigger] groups@[g]@, rows@, bs@[g]),
            forall|h: int, k: int|
                0 <= h < g && 0 <= k < groups@[h]@.len() ==> rows@[#[trigger] groups@[h]@[k] as int].tx_data@.len()
                    == rows@[groups@[h]@[0] as int].tx_data@.len(),
        decreases groups@.len() - g,
    {
        let group = &groups[g];
        assert(indexes_block(group@, rows@, bs@[g as int]));
        if group.len() > 0 {
            let n0 = rows[group[0]].tx_data.len();
            let mut k: usize = 1;
            while k < group.len()
                invariant
                    1 <= k <= group@.len(),
                    group@ == groups@[g as int]@,
                    indexes_block(group@, rows@, bs@[g as int]),
                    n0 == rows@[group@[0] as int].tx_data@.len(),
                    forall|q: int| 0 <= q < k ==> rows@[#[trigger] group@[q] as int].tx_data@.len() == n0,
                decreases group@.len() - k,
            {
                if rows[group[k]].tx_data.len() != n0 {
                    proof {
                        let b = bs@[g as int];
                        assert(rows_of_block(rows@, b)[0] == rows@[group@[0] as int]);
                        assert(rows_of_block(rows@, b)[k as int] == rows@[group@[k as int] as int]);
                    }
                    return false;
                }
                k = k + 1;
            }
        }
        g = g + 1;
    }
    assert forall|b: BlockNumber, i: int, j: int|
        0 <= i < rows_of_block(rows@, b).len() && 0 <= j < rows_of_block(rows@, b).len()
        implies (#[trigger] rows_of_block(rows@, b)[i]).tx_data@.len() == (
        #[trigger] rows_of_block(rows@, b)[j]).tx_data@.len() by {
        lemma_rows_of_block(rows@, b);
        assert(row_blocks(rows@).contains(b));
        assert(bs@.contains(b));
        let h = choose|h: int| 0 <= h < bs@.len() && bs@[h] == b;
        assert(indexes_block(groups@[h]@, rows@, bs@[h]));
        assert(rows@[groups@[h]@[i] as int] == rows_of_block(rows@, b)[i]);
        assert(rows@[groups@[h]@[j] as int] == rows_of_block(rows@, b)[j]);
    }
    true
}

/// The timestamps that the rows at `idx`, those of block `b`, give position `pos`.
fn stamps_at(
    rows: &Vec<BlockExtractorRow>,
    idx: &Vec<usize>,
    b: BlockNumber,
    pos: usize,
) -> (r: Vec<ExtractorTimestamp>)
    requires
        indexes_block(idx@, rows@, b),
        forall|k: int| 0 <= k < idx@.len() ==> pos < rows@[#[trigger] idx@[k] as int].tx_data@.len(),
    ensures
        r@ == rows_of_block(rows@, b).map_values(|row: BlockExtractorRow| stamp(row, pos as int)),
{
    let mut r: Vec<ExtractorTimestamp> = Vec::new();
    let mut k: usize = 0;
    while k < idx.len()
        invariant
            k <= idx@.len(),
            indexes_block(idx@, rows@, b),
            forall|q: int| 0 <= q < idx@.len() ==> pos < rows@[#[trigger] idx@[q] as int].tx_data@.len(),
            r@ == rows_of_block(rows@, b).subrange(0, k as int).map_values(
                |row: BlockExtractorRow| stamp(row, pos as int),
            ),
        decreases idx@.len() - k,
    {
        let row = &rows[idx[k]];
        assert(pos < rows@[idx@[k as int] as int].tx_data@.len());
        r.push(ExtractorTimestamp { id: row.extractor, timestamp: row.tx_data[pos].0 });
        assert(rows_of_block(rows@, b).subrange(0, k + 1).map_values(
            |row: BlockExtractorRow| stamp(row, pos as int),
        ) =~= rows_of_block(rows@, b).subrange(0, k as int).map_values(
            |row: BlockExtractorRow| stamp(row, pos as int),
        ).push(stamp(rows_of_block(rows@, b)[k as int], pos as int)));
        k = k + 1;
    }
    assert(rows_of_block(rows@, b).subrange(0, k as int) =~= rows_of_block(rows@, b));
    r
}

fn tx_before(a: &Tx, b: &Tx) -> (r: bool)
    ensures
        r == key_lt(*a, *b),
{
    a.block_number < b.block_number || (a.block_number == b.block_number && a.tx_index
        < b.tx_index)
}

} // verus!
