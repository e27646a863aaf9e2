//! Transaction censorship detection: correlation of per-extractor first-seen
//! timestamps with the transactions of produced blocks, and the checkpointed,
//! idempotent ingestion contract around it.
pub mod model;
pub mod ordering;
pub mod tagging;
pub mod store;
pub mod ingest;
pub mod extractor;
pub mod beacon;
pub mod network;
pub mod builders;
