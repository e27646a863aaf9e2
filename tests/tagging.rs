use censorship::model::{BlockExtractorRow, ExtractorId, Tx};
use censorship::tagging::{block_span, tag_transactions, TagError};
use std::time::{SystemTime, UNIX_EPOCH};

fn tx(hash: &str, block_number: i64, tx_index: i64) -> Tx {
    Tx {
        tx_hash: hash.to_string(),
        tx_index,
        block_number,
        max_fee: None,
        max_prio_fee: None,
        address_trace: vec![],
    }
}

fn row(block_number: i64, extractor: ExtractorId, stamps: &[i64]) -> BlockExtractorRow {
    BlockExtractorRow {
        block_number,
        extractor,
        tx_data: stamps.iter().map(|s| (*s, 1000)).collect(),
    }
}

fn now_millis() -> i64 {
    SystemTime::now().duration_since(UNIX_EPOCH).unwrap().as_millis() as i64
}

#[test]
fn test_tag_transactions() {
    let txs = vec![
        Tx {
            tx_hash: "lol123".to_string(),
            tx_index: 0,
            block_number: 1000,
            max_fee: None,
            max_prio_fee: None,
            address_trace: vec![],
        },
        Tx {
            tx_hash: "bal234".to_string(),
            tx_index: 1,
            block_number: 1000,
            max_fee: None,
            max_prio_fee: None,
            address_trace: vec![],
        },
    ];

    let d0 = now_millis();
    let d1 = d0 + 10 * 1000;

    let rows = vec![
        BlockExtractorRow {
            block_number: 1000,
            extractor: ExtractorId::ZMevUS,
            tx_data: vec![(d0, 1000), (d0, 1000)],
        },
        BlockExtractorRow {
            block_number: 1000,
            extractor: ExtractorId::ZMevEU,
            tx_data: vec![(d1, 1000), (d1, 1000)],
        },
    ];

    let res = tag_transactions(txs, rows).unwrap();

    assert_eq!(res.len(), 2);

    assert_eq!(res[0].tx.tx_hash, "lol123".to_string());
    assert_eq!(res[0].timestamps[0].id, ExtractorId::ZMevUS);
    assert_eq!(res[0].timestamps[0].timestamp, d0);
    assert_eq!(res[0].timestamps[1].id, ExtractorId::ZMevEU);
    assert_eq!(res[0].timestamps[1].timestamp, d1);

    assert_eq!(res[1].tx.tx_hash, "bal234".to_string());
    assert_eq!(res[1].timestamps[0].id, ExtractorId::ZMevUS);
    assert_eq!(res[1].timestamps[0].timestamp, d0);
    assert_eq!(res[1].timestamps[1].id, ExtractorId::ZMevEU);
    assert_eq!(res[1].timestamps[1].timestamp, d1);
}

#[test]
fn output_is_sorted_and_independent_of_input_order() {
    let rows_a = vec![
        row(7, ExtractorId::ZMevUS, &[70, 71]),
        row(5, ExtractorId::ZMevUS, &[50, 51, 52]),
        row(7, ExtractorId::ZMevEU, &[170, 171]),
        row(5, ExtractorId::ZMevEU, &[150, 151, 152]),
    ];
    let rows_b = vec![
        row(5, ExtractorId::ZMevUS, &[50, 51, 52]),
        row(5, ExtractorId::ZMevEU, &[150, 151, 152]),
        row(7, ExtractorId::ZMevUS, &[70, 71]),
        row(7, ExtractorId::ZMevEU, &[170, 171]),
    ];
    let txs_a = vec![tx("c", 7, 1), tx("a", 5, 2), tx("b", 5, 0), tx("d", 7, 0)];
    let txs_b = vec![tx("d", 7, 0), tx("b", 5, 0), tx("c", 7, 1), tx("a", 5, 2)];
    let ra = tag_transactions(txs_a, rows_a).unwrap();
    let rb = tag_transactions(txs_b, rows_b).unwrap();
    let hashes: Vec<&str> = ra.iter().map(|t| t.tx.tx_hash.as_str()).collect();
    assert_eq!(hashes, vec!["b", "a", "d", "c"]);
    assert_eq!(ra.len(), rb.len());
    for (x, y) in ra.iter().zip(rb.iter()) {
        assert_eq!(x.tx.tx_hash, y.tx.tx_hash);
        assert_eq!(x.timestamps, y.timestamps);
    }
    assert_eq!(ra[1].timestamps[0].timestamp, 52);
    assert_eq!(ra[1].timestamps[1].timestamp, 152);
    assert_eq!(ra[3].timestamps[0].id, ExtractorId::ZMevUS);
    assert_eq!(ra[3].timestamps[1].timestamp, 171);
}

#[test]
fn empty_batch_gives_empty_output() {
    assert_eq!(tag_transactions(vec![], vec![]).unwrap().len(), 0);
}

#[test]
fn missing_extractor_block_fails() {
    let txs = vec![tx("a", 1, 0), tx("b", 2, 0)];
    let rows = vec![row(1, ExtractorId::ZMevUS, &[10])];
    assert_eq!(tag_transactions(txs, rows).unwrap_err(), TagError::BlockSetMismatch);
}

#[test]
fn extra_extractor_block_fails() {
    let txs = vec![tx("a", 1, 0)];
    let rows = vec![row(1, ExtractorId::ZMevUS, &[10]), row(3, ExtractorId::ZMevUS, &[30])];
    assert_eq!(tag_transactions(txs, rows).unwrap_err(), TagError::BlockSetMismatch);
}

#[test]
fn rows_without_transactions_fail() {
    let rows = vec![row(1, ExtractorId::ZMevUS, &[10])];
    assert_eq!(tag_transactions(vec![], rows).unwrap_err(), TagError::BlockSetMismatch);
}

#[test]
fn unequal_lengths_fail() {
    let txs = vec![tx("a", 1, 0)];
    let rows = vec![row(1, ExtractorId::ZMevUS, &[10, 11]), row(1, ExtractorId::ZMevEU, &[20])];
    assert_eq!(tag_transactions(txs, rows).unwrap_err(), TagError::UnequalLengths);
}

#[test]
fn block_mismatch_is_reported_before_unequal_lengths() {
    let txs = vec![tx("a", 1, 0)];
    let rows = vec![
        row(1, ExtractorId::ZMevUS, &[10, 11]),
        row(1, ExtractorId::ZMevEU, &[20]),
        row(2, ExtractorId::ZMevEU, &[20]),
    ];
    assert_eq!(tag_transactions(txs, rows).unwrap_err(), TagError::BlockSetMismatch);
}

#[test]
fn index_past_observations_fails() {
    let txs = vec![tx("a", 1, 0), tx("b", 1, 2)];
    let rows = vec![row(1, ExtractorId::ZMevUS, &[10, 11]), row(1, ExtractorId::ZMevEU, &[20, 21])];
    assert_eq!(tag_transactions(txs, rows).unwrap_err(), TagError::IndexOutOfRange);
}

#[test]
fn negative_index_fails() {
    let txs = vec![tx("a", 1, -1)];
    let rows = vec![row(1, ExtractorId::ZMevUS, &[10])];
    assert_eq!(tag_transactions(txs, rows).unwrap_err(), TagError::IndexOutOfRange);
}

#[test]
fn each_tagged_tx_names_every_reporting_extractor_once() {
    let txs = vec![tx("a", 1, 0), tx("b", 2, 0)];
    let rows = vec![
        row(1, ExtractorId::ZMevEU, &[1]),
        row(2, ExtractorId::ZMevAS, &[2]),
        row(1, ExtractorId::ZMevAS, &[3]),
        row(1, ExtractorId::ZMevUS, &[4]),
    ];
    let res = tag_transactions(txs, rows).unwrap();
    let ids0: Vec<ExtractorId> = res[0].timestamps.iter().map(|t| t.id).collect();
    let ids1: Vec<ExtractorId> = res[1].timestamps.iter().map(|t| t.id).collect();
    assert_eq!(ids0, vec![ExtractorId::ZMevEU, ExtractorId::ZMevAS, ExtractorId::ZMevUS]);
    assert_eq!(ids1, vec![ExtractorId::ZMevAS]);
}

#[test]
fn block_span_covers_lowest_to_highest_block() {
    assert_eq!(block_span(&vec![]), None);
    let txs = vec![tx("a", 12, 0), tx("b", 9, 3), tx("c", 15, 1), tx("d", 12, 1)];
    assert_eq!(block_span(&txs), Some((9, 15)));
}

#[test]
fn many_transactions_per_block_share_one_extractor_group() {
    let txs = vec![tx("x2", 3, 2), tx("x0", 3, 0), tx("x1", 3, 1), tx("y0", 4, 0)];
    let rows = vec![row(3, ExtractorId::ZMevUS, &[30, 31, 32]), row(4, ExtractorId::ZMevUS, &[40])];
    let res = tag_transactions(txs, rows).unwrap();
    let got: Vec<(String, i64)> = res.iter().map(|t| (t.tx.tx_hash.clone(), t.timestamps[0].timestamp)).collect();
    assert_eq!(
        got,
        vec![("x0".to_string(), 30), ("x1".to_string(), 31), ("x2".to_string(), 32), ("y0".to_string(), 40)]
    );
    assert!(res.iter().all(|t| t.timestamps.len() == 1));
}
