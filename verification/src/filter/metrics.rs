//! The filter service's metrics.

use vstd::prelude::*;

use crate::filter::service::{Inner, Phase};

verus! {

/// Every family of metrics.
#[derive(Clone, Copy, Debug, PartialEq, Eq, Structural)]
pub enum FilterMetric {
    CoveredThrough,
    TipHeight,
    FiltersStored,
    Phase,
    BlocksIngested,
    PrevoutRpcLookups,
    PrevoutCacheHits,
    Rollbacks,
    RangeRequests,
    RangeRecords,
    RangeBytes,
}

impl FilterMetric {
    /// All families, in the order in which they are registered.
    pub const ALL: [FilterMetric; 11] = [
        FilterMetric::CoveredThrough,
        FilterMetric::TipHeight,
        FilterMetric::FiltersStored,
        FilterMetric::Phase,
        FilterMetric::BlocksIngested,
        FilterMetric::PrevoutRpcLookups,
        FilterMetric::PrevoutCacheHits,
        FilterMetric::Rollbacks,
        FilterMetric::RangeRequests,
        FilterMetric::RangeRecords,
        FilterMetric::RangeBytes,
    ];

    /// Whether the family only ever grows, rather than being set.
    pub fn is_counter(&self) -> (counts: bool)
        ensures
            counts == !(self is CoveredThrough || self is TipHeight || self is FiltersStored
                || self is Phase),
    {
        match self {
            FilterMetric::CoveredThrough => false,
            FilterMetric::TipHeight => false,
            FilterMetric::FiltersStored => false,
            FilterMetric::Phase => false,
            _ => true,
        }
    }

    pub open spec fn spelled(self) -> Seq<char> {
        match self {
            FilterMetric::CoveredThrough => "transparent_filter_covered_through_height"@,
            FilterMetric::TipHeight => "transparent_filter_tip_height"@,
            FilterMetric::FiltersStored => "transparent_filter_filters_stored"@,
            FilterMetric::Phase => "transparent_filter_phase"@,
            FilterMetric::BlocksIngested => "transparent_filter_blocks_ingested_total"@,
            FilterMetric::PrevoutRpcLookups => "transparent_filter_prevout_rpc_lookups_total"@,
            FilterMetric::PrevoutCacheHits => "transparent_filter_prevout_cache_hits_total"@,
            FilterMetric::Rollbacks => "transparent_filter_rollbacks_total"@,
            FilterMetric::RangeRequests => "transparent_filter_range_requests_total"@,
            FilterMetric::RangeRecords => "transparent_filter_range_records_total"@,
            FilterMetric::RangeBytes => "transparent_filter_range_bytes_total"@,
        }
    }

    pub fn name(&self) -> (name: &'static str)
        ensures
            name@ == self.spelled(),
    {
        match self {
            FilterMetric::CoveredThrough => "transparent_filter_covered_through_height",
            FilterMetric::TipHeight => "transparent_filter_tip_height",
            FilterMetric::FiltersStored => "transparent_filter_filters_stored",
            FilterMetric::Phase => "transparent_filter_phase",
            FilterMetric::BlocksIngested => "transparent_filter_blocks_ingested_total",
            FilterMetric::PrevoutRpcLookups => "transparent_filter_prevout_rpc_lookups_total",
            FilterMetric::PrevoutCacheHits => "transparent_filter_prevout_cache_hits_total",
            FilterMetric::Rollbacks => "transparent_filter_rollbacks_total",
            FilterMetric::RangeRequests => "transparent_filter_range_requests_total",
            FilterMetric::RangeRecords => "transparent_filter_range_records_total",
            FilterMetric::RangeBytes => "transparent_filter_range_bytes_total",
        }
    }

    pub open spec fn described(self) -> Seq<char> {
        match self {
            FilterMetric::CoveredThrough => "Highest height with durable filter coverage"@,
            FilterMetric::TipHeight => "Best-chain tip height reported by Zakura"@,
            FilterMetric::FiltersStored => "Filters held in the store, including orphaned branches"@,
            FilterMetric::Phase => "Ingest phase: 0 syncing, 1 serving, 2 failed"@,
            FilterMetric::BlocksIngested => "Blocks whose filter was built and appended"@,
            FilterMetric::PrevoutRpcLookups => "Previous-output lookups that required an RPC call"@,
            FilterMetric::PrevoutCacheHits => "Previous-output lookups answered from the output cache"@,
            FilterMetric::Rollbacks => "Blocks rolled back after a best-chain change"@,
            FilterMetric::RangeRequests => "Range requests answered"@,
            FilterMetric::RangeRecords => "Filter records delivered"@,
            FilterMetric::RangeBytes => "Envelope bytes delivered"@,
        }
    }

    pub fn help(&self) -> (help: &'static str)
        ensures
            help@ == self.described(),
    {
        match self {
            FilterMetric::CoveredThrough => "Highest height with durable filter coverage",
            FilterMetric::TipHeight => "Best-chain tip height reported by Zakura",
            FilterMetric::FiltersStored => "Filters held in the store, including orphaned branches",
            FilterMetric::Phase => "Ingest phase: 0 syncing, 1 serving, 2 failed",
            FilterMetric::BlocksIngested => "Blocks whose filter was built and appended",
            FilterMetric::PrevoutRpcLookups => "Previous-output lookups that required an RPC call",
            FilterMetric::PrevoutCacheHits => "Previous-output lookups answered from the output cache",
            FilterMetric::Rollbacks => "Blocks rolled back after a best-chain change",
            FilterMetric::RangeRequests => "Range requests answered",
            FilterMetric::RangeRecords => "Filter records delivered",
            FilterMetric::RangeBytes => "Envelope bytes delivered",
        }
    }
}

/// Number of a phase.
pub fn phase_code(phase: &Phase) -> (code: i64)
    ensures
        code == (match phase {
            Phase::Syncing { .. } => 0int,
            Phase::Serving => 1,
            Phase::Failed { .. } => 2,
        }),
{
    match phase {
        Phase::Syncing { .. } => 0,
        Phase::Serving => 1,
        Phase::Failed { .. } => 2,
    }
}

/// Values of the gauges.
#[derive(Clone, Copy, Debug, PartialEq, Eq, Structural)]
pub struct GaugeValues {
    pub covered_through: u64,
    pub tip_height: u64,
    pub filters_stored: u64,
    pub phase: i64,
}

/// What the gauges show: heights are zero where there are none.
pub fn gauge_values(inner: &Inner) -> (values: GaugeValues)
    requires
        inner.store.wf(),
    ensures
        values.covered_through == (if inner.store.covered() == 0 {
            0
        } else {
            inner.store.next() - 1
        }),
        values.tip_height == (match inner.tip_height {
            Some(height) => height,
            None => 0,
        }),
        values.filters_stored == inner.store.stored_hashes().len(),
        values.phase == (match inner.phase {
            Phase::Syncing { .. } => 0int,
            Phase::Serving => 1,
            Phase::Failed { .. } => 2,
        }),
{
    proof {
        inner.store.lemma_wf();
    }
    GaugeValues {
        covered_through: inner.store.covered_through().unwrap_or(0),
        tip_height: inner.tip_height.unwrap_or(0),
        filters_stored: inner.store.filters_stored(),
        phase: phase_code(&inner.phase),
    }
}

} // verus!
