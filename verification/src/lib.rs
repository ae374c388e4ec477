//! Verified core of a private-information-retrieval service family.

pub mod apm;
pub mod bytemap;
pub mod codec;
pub mod digest;
pub mod engine;
pub mod enhance;
pub mod filter;
pub mod layout;
pub mod names;
pub mod numbers;
pub mod pir_types;
pub mod proto;
pub mod tables;
pub mod text;
pub mod witness;
