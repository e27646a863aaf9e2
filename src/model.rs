//! The data model shared by the correlation engine and the ingestion contract.
use vstd::prelude::*;

verus! {

/// A block number on the execution chain.
pub type BlockNumber = i64;

/// Milliseconds since the Unix epoch, UTC.
pub type Millis = i64;

/// The closed set of probe locations that report first-seen timestamps.
#[derive(Clone, Copy, Debug, PartialEq, Eq, Structural)]
pub enum ExtractorId {
    ZMevUS,
    ZMevEU,
    ZMevAS,
}

/// A transaction as it appears in a produced block.
#[derive(Clone, Debug)]
pub struct Tx {
    pub tx_hash: String,
    pub tx_index: i64,
    pub block_number: BlockNumber,
    pub max_fee: Option<i64>,
    pub max_prio_fee: Option<i64>,
    pub address_trace: Vec<String>,
}

/// When one extractor first saw a transaction.
#[derive(Clone, Copy, Debug, PartialEq, Eq, Structural)]
pub struct ExtractorTimestamp {
    pub id: ExtractorId,
    pub timestamp: Millis,
}

/// A transaction together with one first-seen timestamp per extractor that
/// reported for its block, in the extractors' order.
#[derive(Clone, Debug)]
pub struct TaggedTx {
    pub tx: Tx,
    pub timestamps: Vec<ExtractorTimestamp>,
}

impl View for TaggedTx {
    type V = (Tx, Seq<ExtractorTimestamp>);

    open spec fn view(&self) -> (Tx, Seq<ExtractorTimestamp>) {
        (self.tx, self.timestamps@)
    }
}

/// One extractor's observations for one block: a `(timestamp, value)` pair for
/// each transaction position of the block, in the extractor's order.
#[derive(Clone, Debug)]
pub struct BlockExtractorRow {
    pub block_number: BlockNumber,
    pub extractor: ExtractorId,
    pub tx_data: Vec<(Millis, i64)>,
}

/// A produced block.
#[derive(Clone, Debug)]
pub struct Block {
    pub number: BlockNumber,
    pub hash: String,
    pub timestamp: Millis,
}

impl View for Block {
    type V = Block;

    open spec fn view(&self) -> Block {
        *self
    }
}

/// A relay's record of a block payload delivered to a proposer: the ground
/// truth for who built which block.
#[derive(Clone, Debug)]
pub struct DeliveredPayload {
    pub slot: i64,
    pub block_number: BlockNumber,
    pub block_hash: String,
    pub builder_pubkey: String,
    pub proposer_pubkey: String,
    /// The payload's value, in wei.
    pub value: u128,
}

impl View for DeliveredPayload {
    type V = DeliveredPayload;

    open spec fn view(&self) -> DeliveredPayload {
        *self
    }
}

} // verus!
