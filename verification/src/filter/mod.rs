//! Transparent activity filters: what a block's filter covers, how filters are
//! stored, and what the service answers.

pub mod extract;
pub mod ingest;
pub mod metrics;
pub mod prevout;
pub mod service;
pub mod store;
pub mod types;
pub mod zakura;
