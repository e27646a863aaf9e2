//! Checkpointed, idempotent ingestion: where each stream resumes, and what a
//! batch does to storage. Transactions are keyed by `(block number, hash)`,
//! blocks by number, delivered payloads by `(slot, block hash)`; a batch that
//! fails to tag leaves storage and checkpoints as they were.
use vstd::prelude::*;
use crate::model::{
    Block, BlockExtractorRow, BlockNumber, DeliveredPayload, ExtractorTimestamp, Millis, TaggedTx,
    Tx,
};
use crate::store::{lemma_upsert_idempotent, upserted, KeyedRow, Table};
use crate::tagging::{outcome_view, tag_outcome, tag_transactions, TagError};

verus! {

impl KeyedRow for TaggedTx {
    type Key = (BlockNumber, Seq<char>);

    open spec fn key_of(v: (Tx, Seq<ExtractorTimestamp>)) -> (BlockNumber, Seq<char>) {
        (v.0.block_number, v.0.tx_hash@)
    }

    fn same_key(&self, other: &Self) -> (r: bool) {
        self.tx.block_number == other.tx.block_number && self.tx.tx_hash == other.tx.tx_hash
    }
}

impl KeyedRow for Block {
    type Key = BlockNumber;

    open spec fn key_of(v: Block) -> BlockNumber {
        v.number
    }

    fn same_key(&self, other: &Self) -> (r: bool) {
        self.number == other.number
    }
}

impl KeyedRow for DeliveredPayload {
    type Key = (i64, Seq<char>);

    open spec fn key_of(v: DeliveredPayload) -> (i64, Seq<char>) {
        (v.slot, v.block_hash@)
    }

    fn same_key(&self, other: &Self) -> (r: bool) {
        self.slot == other.slot && self.block_hash == other.block_hash
    }
}

/// The later of two optional cursors; an absent one gives way to the other.
pub open spec fn later(c: Option<i64>, d: Option<i64>) -> Option<i64> {
    match (c, d) {
        (None, d) => d,
        (c, None) => c,
        (Some(a), Some(b)) => Some(if a >= b { a } else { b }),
    }
}

/// The latest block timestamp of a batch, if it has blocks.
pub open spec fn latest_timestamp(blocks: Seq<Block>) -> Option<Millis>
    decreases blocks.len(),
{
    if blocks.len() == 0 {
        None
    } else {
        later(latest_timestamp(blocks.drop_last()), Some(blocks.last().timestamp))
    }
}

/// The latest slot of a batch, if it has payloads.
pub open spec fn latest_slot(payloads: Seq<DeliveredPayload>) -> Option<i64>
    decreases payloads.len(),
{
    if payloads.len() == 0 {
        None
    } else {
        later(latest_slot(payloads.drop_last()), Some(payloads.last().slot))
    }
}

fn later_of(c: Option<i64>, d: Option<i64>) -> (r: Option<i64>)
    ensures
        r == later(c, d),
{
    match (c, d) {
        (None, d) => d,
        (c, None) => c,
        (Some(a), Some(b)) => Some(if a >= b { a } else { b }),
    }
}

fn max_timestamp(blocks: &Vec<Block>) -> (r: Option<Millis>)
    ensures
        r == latest_timestamp(blocks@),
{
    let mut r: Option<Millis> = None;
    let mut i: usize = 0;
    while i < blocks.len()
        invariant
            i <= blocks@.len(),
            r == latest_timestamp(blocks@.subrange(0, i as int)),
        decreases blocks@.len() - i,
    {
        assert(blocks@.subrange(0, i + 1).drop_last() =~= blocks@.subrange(0, i as int));
        r = later_of(r, Some(blocks[i].timestamp));
        i = i + 1;
    }
    assert(blocks@.subrange(0, i as int) =~= blocks@);
    r
}

fn max_slot(payloads: &Vec<DeliveredPayload>) -> (r: Option<i64>)
    ensures
        r == latest_slot(payloads@),
{
    let mut r: Option<i64> = None;
    let mut i: usize = 0;
    while i < payloads.len()
        invariant
            i <= payloads@.len(),
            r == latest_slot(payloads@.subrange(0, i as int)),
        decreases payloads@.len() - i,
    {
        assert(payloads@.subrange(0, i + 1).drop_last() =~= payloads@.subrange(0, i as int));
        r = later_of(r, Some(payloads[i].slot));
        i = i + 1;
    }
    assert(payloads@.subrange(0, i as int) =~= payloads@);
    r
}

/// Where the next ingestion range starts: at the stream's checkpoint, or at
/// the retention floor when the stream has none yet.
pub fn range_start(checkpoint: Option<i64>, retention_floor: i64) -> (r: i64)
    ensures
        r == match checkpoint {
            Some(c) => c,
            None => retention_floor,
        },
{
    match checkpoint {
        Some(c) => c,
        None => retention_floor,
    }
}

/// Storage for ingested data held in memory, with one cursor per stream.
pub struct MemoryStore {
    pub blocks: Table<Block>,
    pub txs: Table<TaggedTx>,
    pub payloads: Table<DeliveredPayload>,
    /// The latest block timestamp written: the on-chain stream's cursor.
    pub chain_checkpoint: Option<Millis>,
    /// The latest delivered-payload slot written: the relay stream's cursor.
    pub production_checkpoint: Option<i64>,
}

impl MemoryStore {
    pub open spec fn wf(&self) -> bool {
        self.blocks.wf() && self.txs.wf() && self.payloads.wf()
    }

    pub fn new() -> (s: Self)
        ensures
            s.wf(),
            s.blocks.contents() == Map::<BlockNumber, Block>::empty(),
            s.txs.contents() == Map::<(BlockNumber, Seq<char>), (Tx, Seq<ExtractorTimestamp>)>::empty(),
            s.payloads.contents() == Map::<(i64, Seq<char>), DeliveredPayload>::empty(),
            s.chain_checkpoint is None,
            s.production_checkpoint is None,
    {
        MemoryStore {
            blocks: Table::new(),
            txs: Table::new(),
            payloads: Table::new(),
            chain_checkpoint: None,
            production_checkpoint: None,
        }
    }

    /// The on-chain stream's cursor; `None` means ingest from the retention floor.
    pub fn get_chain_checkpoint(&self) -> (r: Option<Millis>)
        ensures
            r == self.chain_checkpoint,
    {
        self.chain_checkpoint
    }

    /// The relay stream's cursor; `None` means ingest from the retention floor.
    pub fn get_block_production_checkpoint(&self) -> (r: Option<i64>)
        ensures
            r == self.production_checkpoint,
    {
        self.production_checkpoint
    }

    /// Writes blocks and tagged transactions, replacing rows with the same
    /// keys, then moves the on-chain cursor up to the latest block written.
    pub fn put_chain_data(&mut self, blocks: Vec<Block>, txs: Vec<TaggedTx>)
        requires
            old(self).wf(),
        ensures
            final(self).wf(),
            final(self).blocks.contents() == upserted::<Block>(
                old(self).blocks.contents(),
                blocks@.map_values(|b: Block| b@),
            ),
            final(self).txs.contents() == upserted::<TaggedTx>(
                old(self).txs.contents(),
                txs@.map_values(|t: TaggedTx| t@),
            ),
            final(self).payloads == old(self).payloads,
            final(self).chain_checkpoint == later(old(self).chain_checkpoint, latest_timestamp(blocks@)),
            final(self).production_checkpoint == old(self).production_checkpoint,
    {
        let latest = max_timestamp(&blocks);
        self.blocks.upsert_all(blocks);
        self.txs.upsert_all(txs);
        self.chain_checkpoint = later_of(self.chain_checkpoint, latest);
    }

    /// Writes delivered payloads, replacing rows with the same keys, then moves
    /// the relay cursor up to the latest slot written.
    pub fn upsert_delivered_payloads(&mut self, payloads: Vec<DeliveredPayload>)
        requires
            old(self).wf(),
        ensures
            final(self).wf(),
            final(self).payloads.contents() == upserted::<DeliveredPayload>(
                old(self).payloads.contents(),
                payloads@.map_values(|p: DeliveredPayload| p@),
            ),
            final(self).blocks == old(self).blocks,
            final(self).txs == old(self).txs,
            final(self).chain_checkpoint == old(self).chain_checkpoint,
            final(self).production_checkpoint == later(
                old(self).production_checkpoint,
                latest_slot(payloads@),
            ),
    {
        let latest = max_slot(&payloads);
        self.payloads.upsert_all(payloads);
        self.production_checkpoint = later_of(self.production_checkpoint, latest);
    }

    /// One on-chain ingestion step: tags the batch and, only if that succeeds,
    /// writes it and advances the cursor. A batch that fails leaves the store
    /// untouched, so the next attempt resumes from the same place.
    pub fn ingest_chain_batch(
        &mut self,
        blocks: Vec<Block>,
        txs: Vec<Tx>,
        rows: Vec<BlockExtractorRow>,
    ) -> (r: Result<(), TagError>)
        requires
            old(self).wf(),
        ensures
            final(self).wf(),
            match tag_outcome(txs@, rows@) {
                Err(e) => r == Err::<(), TagError>(e) && *final(self) == *old(self),
                Ok(v) => {
                    &&& r is Ok
                    &&& final(self).txs.contents() == upserted::<TaggedTx>(old(self).txs.contents(), v)
                    &&& final(self).blocks.contents() == upserted::<Block>(
                        old(self).blocks.contents(),
                        blocks@.map_values(|b: Block| b@),
                    )
                    &&& final(self).payloads == old(self).payloads
                    &&& final(self).chain_checkpoint == later(
                        old(self).chain_checkpoint,
                        latest_timestamp(blocks@),
                    )
                    &&& final(self).production_checkpoint == old(self).production_checkpoint
                },
            },
    {
        match tag_transactions(txs, rows) {
            Err(e) => Err(e),
            Ok(tagged) => {
                self.put_chain_data(blocks, tagged);
                Ok(())
            },
        }
    }
}

/// Ingesting the same batch a second time changes neither the stored rows nor
/// the cursor: each key still holds one row, and the cursor already covers the
/// batch.
pub proof fn lemma_reingest_changes_nothing(
    stored_blocks: Map<BlockNumber, Block>,
    stored_txs: Map<(BlockNumber, Seq<char>), (Tx, Seq<ExtractorTimestamp>)>,
    checkpoint: Option<Millis>,
    blocks: Seq<Block>,
    tagged: Seq<(Tx, Seq<ExtractorTimestamp>)>,
)
    ensures
        upserted::<TaggedTx>(upserted::<TaggedTx>(stored_txs, tagged), tagged) == upserted::<
            TaggedTx,
        >(stored_txs, tagged),
        upserted::<Block>(upserted::<Block>(stored_blocks, blocks), blocks) == upserted::<Block>(
            stored_blocks,
            blocks,
        ),
        later(later(checkpoint, latest_timestamp(blocks)), latest_timestamp(blocks)) == later(
            checkpoint,
            latest_timestamp(blocks),
        ),
{
    lemma_upsert_idempotent::<TaggedTx>(stored_txs, tagged);
    lemma_upsert_idempotent::<Block>(stored_blocks, blocks);
}

} // verus!
