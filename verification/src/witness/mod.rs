//! Witnesses of note commitments: the client's side, the engine's framing and
//! the benchmarks of both.

pub mod bench;
pub mod client;
pub mod server;
