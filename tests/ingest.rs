use censorship::ingest::{range_start, MemoryStore};
use censorship::model::{Block, BlockExtractorRow, DeliveredPayload, ExtractorId, Tx};
use censorship::tagging::TagError;

fn tx(hash: &str, block_number: i64, tx_index: i64) -> Tx {
    Tx {
        tx_hash: hash.to_string(),
        tx_index,
        block_number,
        max_fee: Some(30),
        max_prio_fee: Some(2),
        address_trace: vec!["0xabc".to_string()],
    }
}

fn block(number: i64, timestamp: i64) -> Block {
    Block { number, hash: format!("0xb{}", number), timestamp }
}

fn rows() -> Vec<BlockExtractorRow> {
    vec![
        BlockExtractorRow { block_number: 10, extractor: ExtractorId::ZMevUS, tx_data: vec![(100, 1), (101, 1)] },
        BlockExtractorRow { block_number: 11, extractor: ExtractorId::ZMevUS, tx_data: vec![(110, 1)] },
    ]
}

fn txs() -> Vec<Tx> {
    vec![tx("a", 10, 0), tx("b", 10, 1), tx("c", 11, 0)]
}

fn payload(slot: i64, hash: &str, value: u128) -> DeliveredPayload {
    DeliveredPayload {
        slot,
        block_number: slot + 1000,
        block_hash: hash.to_string(),
        builder_pubkey: "0xbuilder".to_string(),
        proposer_pubkey: "0xproposer".to_string(),
        value,
    }
}

#[test]
fn absent_checkpoint_starts_at_retention_floor() {
    let store = MemoryStore::new();
    assert_eq!(range_start(store.get_chain_checkpoint(), 1_600_000), 1_600_000);
    assert_eq!(range_start(store.get_block_production_checkpoint(), 4_000_000), 4_000_000);
}

#[test]
fn present_checkpoint_is_where_ingestion_resumes() {
    assert_eq!(range_start(Some(1_700_000), 1_600_000), 1_700_000);
}

#[test]
fn ingesting_a_batch_writes_rows_and_advances_checkpoint() {
    let mut store = MemoryStore::new();
    store.ingest_chain_batch(vec![block(10, 5000), block(11, 6000)], txs(), rows()).unwrap();
    assert_eq!(store.txs.len(), 3);
    assert_eq!(store.blocks.len(), 2);
    assert_eq!(store.get_chain_checkpoint(), Some(6000));
    assert_eq!(range_start(store.get_chain_checkpoint(), 0), 6000);
}

#[test]
fn ingesting_the_same_range_twice_is_idempotent() {
    let mut store = MemoryStore::new();
    store.ingest_chain_batch(vec![block(10, 5000), block(11, 6000)], txs(), rows()).unwrap();
    let after_first = store.get_chain_checkpoint();
    store.ingest_chain_batch(vec![block(10, 5000), block(11, 6000)], txs(), rows()).unwrap();
    assert_eq!(store.txs.len(), 3);
    assert_eq!(store.blocks.len(), 2);
    assert_eq!(store.get_chain_checkpoint(), after_first);
    let mut keys: Vec<(i64, String)> =
        store.txs.items().iter().map(|t| (t.tx.block_number, t.tx.tx_hash.clone())).collect();
    keys.sort();
    assert_eq!(keys, vec![(10, "a".to_string()), (10, "b".to_string()), (11, "c".to_string())]);
}

#[test]
fn failed_batch_leaves_store_untouched() {
    let mut store = MemoryStore::new();
    store.ingest_chain_batch(vec![block(10, 5000), block(11, 6000)], txs(), rows()).unwrap();
    let bad_rows = vec![BlockExtractorRow { block_number: 12, extractor: ExtractorId::ZMevEU, tx_data: vec![(1, 1)] }];
    let err = store.ingest_chain_batch(vec![block(12, 7000)], vec![tx("d", 12, 3)], bad_rows).unwrap_err();
    assert_eq!(err, TagError::IndexOutOfRange);
    assert_eq!(store.txs.len(), 3);
    assert_eq!(store.blocks.len(), 2);
    assert_eq!(store.get_chain_checkpoint(), Some(6000));
}

#[test]
fn checkpoint_never_moves_back() {
    let mut store = MemoryStore::new();
    store.put_chain_data(vec![block(20, 9000)], vec![]);
    store.put_chain_data(vec![block(10, 5000)], vec![]);
    assert_eq!(store.get_chain_checkpoint(), Some(9000));
}

#[test]
fn delivered_payloads_upsert_by_slot_and_hash() {
    let mut store = MemoryStore::new();
    store.upsert_delivered_payloads(vec![payload(5, "0x1", 10), payload(6, "0x2", 20)]);
    store.upsert_delivered_payloads(vec![payload(5, "0x1", 99), payload(5, "0x3", 1)]);
    assert_eq!(store.payloads.len(), 3);
    assert_eq!(store.get_block_production_checkpoint(), Some(6));
    let replaced = store.payloads.items().iter().find(|p| p.slot == 5 && p.block_hash == "0x1").unwrap();
    assert_eq!(replaced.value, 99);
}
