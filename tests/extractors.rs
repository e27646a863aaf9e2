use censorship::builders::{aggregate_builders, BuilderIdMapping, PubkeyBlockCount};
use censorship::extractor::{latest_reports, ObservationReport};
use censorship::model::ExtractorId;
use censorship::network::Network;

#[test]
fn network_stringifies_correctly() {
    let a = Network::Mainnet.to_string();
    let b = Network::Goerli.to_string();
    assert_eq!(a, "mainnet");
    assert_eq!(b, "goerli");
}

#[test]
fn extractor_codes_round_trip() {
    for id in [ExtractorId::ZMevUS, ExtractorId::ZMevEU, ExtractorId::ZMevAS] {
        assert_eq!(ExtractorId::from_code(&id.code()), Some(id));
    }
    assert_eq!(ExtractorId::ZMevUS.code(), "US");
    assert_eq!(ExtractorId::from_code("EU"), Some(ExtractorId::ZMevEU));
}

#[test]
fn unknown_extractor_code_is_rejected() {
    assert_eq!(ExtractorId::from_code("XX"), None);
    assert_eq!(ExtractorId::from_code(""), None);
    assert_eq!(ExtractorId::from_code("us"), None);
}

fn report(block_number: i64, extractor: ExtractorId, reported_at: i64, first: i64) -> ObservationReport {
    ObservationReport { block_number, extractor, reported_at, tx_data: vec![(first, 0), (first + 1, 0)] }
}

#[test]
fn latest_report_per_block_and_extractor_wins() {
    let reports = vec![
        report(1, ExtractorId::ZMevUS, 100, 10),
        report(1, ExtractorId::ZMevEU, 100, 20),
        report(1, ExtractorId::ZMevUS, 200, 30),
        report(2, ExtractorId::ZMevUS, 50, 40),
        report(1, ExtractorId::ZMevEU, 90, 50),
    ];
    let rows = latest_reports(&reports);
    assert_eq!(rows.len(), 3);
    assert_eq!((rows[0].block_number, rows[0].extractor, rows[0].tx_data[0].0), (1, ExtractorId::ZMevEU, 20));
    assert_eq!((rows[1].block_number, rows[1].extractor, rows[1].tx_data[0].0), (1, ExtractorId::ZMevUS, 30));
    assert_eq!((rows[2].block_number, rows[2].extractor, rows[2].tx_data[1].0), (2, ExtractorId::ZMevUS, 41));
}

#[test]
fn equally_recent_reports_keep_the_first() {
    let reports = vec![report(1, ExtractorId::ZMevUS, 100, 10), report(1, ExtractorId::ZMevUS, 100, 20)];
    let rows = latest_reports(&reports);
    assert_eq!(rows.len(), 1);
    assert_eq!(rows[0].tx_data[0].0, 10);
}

#[test]
fn builder_counts_sum_over_owned_keys() {
    let counts = vec![
        PubkeyBlockCount { pubkey: "k1".to_string(), block_count: 5 },
        PubkeyBlockCount { pubkey: "k2".to_string(), block_count: 7 },
        PubkeyBlockCount { pubkey: "k3".to_string(), block_count: 1 },
    ];
    let ids = vec![
        BuilderIdMapping { builder_id: "flashbots".to_string(), pubkey: "k1".to_string() },
        BuilderIdMapping { builder_id: "beaver".to_string(), pubkey: "k3".to_string() },
        BuilderIdMapping { builder_id: "flashbots".to_string(), pubkey: "k2".to_string() },
        BuilderIdMapping { builder_id: "rsync".to_string(), pubkey: "k9".to_string() },
    ];
    let mut out: Vec<(String, i64, Option<String>)> = aggregate_builders(&counts, &ids)
        .into_iter()
        .map(|b| (b.builder_id, b.block_count, b.extra_data))
        .collect();
    out.sort();
    assert_eq!(
        out,
        vec![
            ("beaver".to_string(), 1, Some(String::new())),
            ("flashbots".to_string(), 12, Some(String::new())),
            ("rsync".to_string(), 0, Some(String::new())),
        ]
    );
}
