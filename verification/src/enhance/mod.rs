//! Coordinator and worker of the position-indexed enhancement tables.

pub mod activate;
pub mod answer;
pub mod buckets;
pub mod config;
pub mod coordinator;
pub mod hints;
pub mod ingest;
pub mod metrics;
pub mod observe;
pub mod publish;
pub mod query;
pub mod setup;
pub mod source;
pub mod spend;
pub mod status;
pub mod store;
pub mod sync;
pub mod types;
pub mod worker;
