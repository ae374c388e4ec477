//! Lifecycle phase of the coordinator, and what it answers to probes.

use vstd::prelude::*;

use crate::enhance::types::{DatabaseId, Protocol};

verus! {

/// What the coordinator is doing.
#[derive(Debug)]
pub enum CoordinatorPhase {
    Syncing { current_height: u64, target_height: u64 },
    Building { anchor_height: u64 },
    Serving,
    Failed { reason: String },
}

/// How long a sync or a build may take before it counts as unhealthy.
pub const HEALTH_PHASE_GRACE_MILLIS: u64 = 30_000;

pub const HTTP_OK: u16 = 200;

pub const HTTP_UNAVAILABLE: u16 = 503;

/// Whether queries can be answered: the previous generation keeps serving
/// during a rebuild, so readiness follows the live snapshot; only a failed
/// ingest, a sync, or having nothing published yet is not ready.
pub fn is_ready(phase: &CoordinatorPhase, has_live_snapshot: bool) -> (ready: bool)
    ensures
        ready == (has_live_snapshot && (phase is Serving || phase is Building)),
{
    has_live_snapshot && match phase {
        CoordinatorPhase::Serving => true,
        CoordinatorPhase::Building { .. } => true,
        CoordinatorPhase::Syncing { .. } => false,
        CoordinatorPhase::Failed { .. } => false,
    }
}

pub open spec fn healthy(phase: CoordinatorPhase, non_serving_millis: u64) -> bool {
    match phase {
        CoordinatorPhase::Serving => true,
        CoordinatorPhase::Failed { .. } => false,
        _ => non_serving_millis <= HEALTH_PHASE_GRACE_MILLIS,
    }
}

/// Status code of the health route.
pub fn health_status(phase: &CoordinatorPhase, non_serving_millis: u64) -> (status: u16)
    ensures
        status == (if healthy(*phase, non_serving_millis) {
            HTTP_OK
        } else {
            HTTP_UNAVAILABLE
        }),
{
    match phase {
        CoordinatorPhase::Serving => HTTP_OK,
        CoordinatorPhase::Failed { .. } => HTTP_UNAVAILABLE,
        CoordinatorPhase::Syncing { .. } | CoordinatorPhase::Building { .. } => {
            if non_serving_millis > HEALTH_PHASE_GRACE_MILLIS {
                HTTP_UNAVAILABLE
            } else {
                HTTP_OK
            }
        },
    }
}

/// The larger of two sizes.
pub open spec fn larger(a: nat, b: nat) -> nat {
    if a < b {
        b
    } else {
        a
    }
}

/// Bytes of the largest table's shard.
pub open spec fn largest_shard(protocol: Protocol) -> nat {
    larger(
        DatabaseId::Enhance.geometry(protocol).shard_size(),
        protocol.spend_geometry().shard_size(),
    )
}

proof fn lemma_enhance_shard()
    ensures
        crate::enhance::types::enhance_layout().shard_size() == 53_452_800,
        crate::enhance::types::enhance_layout().row_size() == 6_525,
        crate::enhance::types::enhance_layout().positions_per_shard() == 73_728,
{
    let layout = crate::enhance::types::enhance_layout();
    assert(layout.row_size() == 725 * 9);
    assert(layout.shard_size() == 8192 * 6525);
}

/// Bytes of the largest table's shard: what a worker's body limit is based on.
pub fn max_shard_bytes(protocol: &Protocol) -> (bytes: usize)
    requires
        protocol.valid(),
    ensures
        bytes == largest_shard(*protocol),
{
    proof {
        lemma_enhance_shard();
        protocol.spend_geometry().lemma_valid_bounds();
    }
    let enhance: usize = DatabaseId::Enhance.layout(protocol).shard_bytes();
    let spend: usize = DatabaseId::TransparentSpendCold.layout(protocol).shard_bytes();
    if enhance < spend {
        spend
    } else {
        enhance
    }
}

/// Largest hint accepted from a worker: a multiple of the largest table's
/// shard, so that it covers a new table too.
pub fn worker_hint_limit(protocol: &Protocol) -> (limit: usize)
    requires
        protocol.valid(),
    ensures
        limit == 4 * largest_shard(*protocol),
{
    proof {
        lemma_enhance_shard();
    }
    max_shard_bytes(protocol) * 4
}

/// The hint limit covers twice the shard of every table.
pub proof fn law_hint_limit_covers_every_table(protocol: Protocol, table: DatabaseId)
    ensures
        4 * largest_shard(protocol) >= 2 * table.geometry(protocol).shard_size(),
{
}

/// A response body read piece by piece, refused once it exceeds its limit.
pub struct BoundedBody {
    limit: usize,
    bytes: Vec<u8>,
}

impl BoundedBody {
    pub closed spec fn bound(&self) -> nat {
        self.limit as nat
    }

    pub closed spec fn content(&self) -> Seq<u8> {
        self.bytes@
    }

    /// Starts reading a body whose announced length, if any, is within the
    /// limit.
    pub fn start(content_length: Option<u64>, limit: usize) -> (body: Result<BoundedBody, String>)
        ensures
            match body {
                Ok(body) => {
                    &&& content_length is Some ==> content_length->0 <= limit
                    &&& body.bound() == limit
                    &&& body.content().len() == 0
                },
                Err(message) => {
                    &&& content_length is Some && content_length->0 > limit
                    &&& message@ == "worker response exceeds limit"@
                },
            },
    {
        if let Some(length) = content_length {
            if length > limit as u64 {
                return Err(String::from_str("worker response exceeds limit"));
            }
        }
        Ok(BoundedBody { limit, bytes: Vec::new() })
    }

    /// Takes the next piece, if the whole stays within the limit.
    pub fn push_chunk(&mut self, chunk: &[u8]) -> (taken: Result<(), String>)
        ensures
            final(self).bound() == old(self).bound(),
            match taken {
                Ok(()) => {
                    &&& old(self).content().len() + chunk@.len() <= old(self).bound()
                    &&& final(self).content() == old(self).content() + chunk@
                },
                Err(message) => {
                    &&& old(self).content().len() + chunk@.len() > old(self).bound()
                    &&& final(self).content() == old(self).content()
                    &&& message@ == "worker response exceeds limit"@
                },
            },
    {
        if chunk.len() > self.limit || self.bytes.len() > self.limit - chunk.len() {
            return Err(String::from_str("worker response exceeds limit"));
        }
        crate::codec::push_bytes(&mut self.bytes, chunk);
        Ok(())
    }

    /// The body that was read.
    pub fn into_bytes(self) -> (bytes: Vec<u8>)
        ensures
            bytes@ == self.content(),
    {
        self.bytes
    }
}

/// A coordinator that serves is healthy, one that failed is not, and any other is for
/// half a minute.
pub proof fn law_health_allows_half_a_minute_without_serving(
    phase: CoordinatorPhase,
    non_serving_millis: u64,
)
    ensures
        healthy(phase, non_serving_millis) <==> phase is Serving || (!(phase is Failed)
            && non_serving_millis <= 30_000),
{
}

} // verus!
