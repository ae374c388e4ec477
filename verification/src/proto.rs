//! Numbers of the light-client protocol's pool enumerations.

use vstd::prelude::*;

verus! {

/// Shielded pool selector of the subtree-roots request.
#[derive(Debug, Clone, Copy, PartialEq, Eq, Structural)]
pub enum ShieldedProtocol {
    Sapling,
    Orchard,
    Ironwood,
}

/// Pool selector of block-range requests.
#[derive(Debug, Clone, Copy, PartialEq, Eq, Structural)]
pub enum PoolType {
    Invalid,
    Transparent,
    Sapling,
    Orchard,
    Ironwood,
}

impl ShieldedProtocol {
    /// The raw wire number.
    pub fn number(&self) -> (n: i32)
        ensures
            n == (match self {
                ShieldedProtocol::Sapling => 0i32,
                ShieldedProtocol::Orchard => 1,
                ShieldedProtocol::Ironwood => 2,
            }),
    {
        match self {
            ShieldedProtocol::Sapling => 0,
            ShieldedProtocol::Orchard => 1,
            ShieldedProtocol::Ironwood => 2,
        }
    }
}

impl PoolType {
    /// The raw wire number.
    pub fn number(&self) -> (n: i32)
        ensures
            n == (match self {
                PoolType::Invalid => 0i32,
                PoolType::Transparent => 1,
                PoolType::Sapling => 2,
                PoolType::Orchard => 3,
                PoolType::Ironwood => 4,
            }),
    {
        match self {
            PoolType::Invalid => 0,
            PoolType::Transparent => 1,
            PoolType::Sapling => 2,
            PoolType::Orchard => 3,
            PoolType::Ironwood => 4,
        }
    }
}

} // verus!
