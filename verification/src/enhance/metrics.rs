//! The coordinator's metrics: which families there are, what an observation
//! sets them to, and which requests are counted. Labels come from fixed sets
//! (endpoints, tables) and from configured worker names; nothing in them is
//! taken from a request.

use vstd::prelude::*;

use crate::enhance::observe::{
    Observation, TableObservation, WorkerObservation, WorkerTableObservation,
};
use crate::enhance::status::CoordinatorPhase;
use crate::enhance::types::{law_wire_names_round_trip, DatabaseId, Protocol};
use crate::text::{
    begins_with, cut_prefix, first_at, lemma_first_at, lemma_first_at_holds, same_text, split_first,
    split_once_at,
};

verus! {

/// How a family of metrics accumulates.
#[derive(Clone, Copy, Debug, PartialEq, Eq, Structural)]
pub enum MetricKind {
    Counter,
    Gauge,
    /// In seconds, with the boundaries of [`bucket_millis`].
    Histogram,
}

/// Which labels the metrics of a family carry.
#[derive(Clone, Copy, Debug, PartialEq, Eq, Structural)]
pub enum MetricScope {
    Single,
    Endpoint,
    Request,
    Table,
    Worker,
    WorkerTable,
}

impl MetricScope {
    pub open spec fn names(self) -> Seq<Seq<char>> {
        match self {
            MetricScope::Single => Seq::empty(),
            MetricScope::Endpoint => seq!["endpoint"@],
            MetricScope::Request => seq!["endpoint"@, "method"@, "status"@],
            MetricScope::Table => seq!["table"@],
            MetricScope::Worker => seq!["worker"@],
            MetricScope::WorkerTable => seq!["worker"@, "table"@],
        }
    }

    /// Names of the labels, in order.
    pub fn labels(&self) -> (labels: Vec<&'static str>)
        ensures
            labels@.map_values(|label: &'static str| label@) == self.names(),
    {
        let labels: Vec<&'static str> = match self {
            MetricScope::Single => Vec::new(),
            MetricScope::Endpoint => vec!["endpoint"],
            MetricScope::Request => vec!["endpoint", "method", "status"],
            MetricScope::Table => vec!["table"],
            MetricScope::Worker => vec!["worker"],
            MetricScope::WorkerTable => vec!["worker", "table"],
        };
        assert(labels@.map_values(|label: &'static str| label@) =~= self.names());
        labels
    }
}

/// Upper boundaries of the histogram buckets, in milliseconds.
pub open spec fn bucket_bounds() -> Seq<u64> {
    seq![50, 100, 250, 500, 1_000, 2_000, 5_000, 10_000, 30_000]
}

pub fn bucket_millis() -> (bounds: Vec<u64>)
    ensures
        bounds@ == bucket_bounds(),
{
    let bounds: Vec<u64> = vec![50, 100, 250, 500, 1_000, 2_000, 5_000, 10_000, 30_000];
    assert(bounds@ =~= bucket_bounds());
    bounds
}

/// Every family of metrics.
#[derive(Clone, Copy, Debug, PartialEq, Eq, Structural)]
pub enum MetricFamily {
    HttpRequests,
    HttpRequestDuration,
    HttpRequestProcessingDuration,
    HttpInFlight,
    HttpProcessingInFlight,
    SnapshotPhaseCode,
    SnapshotSyncCurrentHeight,
    SnapshotSyncTargetHeight,
    SnapshotAnchorHeight,
    SnapshotGeneration,
    SnapshotIronwoodTreeSize,
    SnapshotRetainedGenerations,
    TableRegistered,
    TableRecordBytes,
    TableRecordsPerRow,
    TableShardRows,
    TableShardPositions,
    TableShardsPerWorker,
    TablePoolWorkers,
    TableQuerySlotsAvailable,
    TablePositions,
    TableUsedRows,
    TableLogicalRows,
    TableShards,
    TableSealedShards,
    WorkerUp,
    WorkerGeneration,
    WorkerTableIndex,
    WorkerTableAssignedShards,
    WorkerTablePopulatedPositions,
    WorkerTableActiveShards,
    WorkerIndex,
    WorkerTotalMemoryBytes,
    WorkerAvailableMemoryBytes,
    WorkerProcessRssBytes,
    LayoutConfirmations,
    LayoutActivationHeight,
}

impl MetricFamily {
    /// All families, in the order in which they are registered.
    pub const ALL: [MetricFamily; 37] = [
        MetricFamily::HttpRequests,
        MetricFamily::HttpRequestDuration,
        MetricFamily::HttpRequestProcessingDuration,
        MetricFamily::HttpInFlight,
        MetricFamily::HttpProcessingInFlight,
        MetricFamily::SnapshotPhaseCode,
        MetricFamily::SnapshotSyncCurrentHeight,
        MetricFamily::SnapshotSyncTargetHeight,
        MetricFamily::SnapshotAnchorHeight,
        MetricFamily::SnapshotGeneration,
        MetricFamily::SnapshotIronwoodTreeSize,
        MetricFamily::SnapshotRetainedGenerations,
        MetricFamily::TableRegistered,
        MetricFamily::TableRecordBytes,
        MetricFamily::TableRecordsPerRow,
        MetricFamily::TableShardRows,
        MetricFamily::TableShardPositions,
        MetricFamily::TableShardsPerWorker,
        MetricFamily::TablePoolWorkers,
        MetricFamily::TableQuerySlotsAvailable,
        MetricFamily::TablePositions,
        MetricFamily::TableUsedRows,
        MetricFamily::TableLogicalRows,
        MetricFamily::TableShards,
        MetricFamily::TableSealedShards,
        MetricFamily::WorkerUp,
        MetricFamily::WorkerGeneration,
        MetricFamily::WorkerTableIndex,
        MetricFamily::WorkerTableAssignedShards,
        MetricFamily::WorkerTablePopulatedPositions,
        MetricFamily::WorkerTableActiveShards,
        MetricFamily::WorkerIndex,
        MetricFamily::WorkerTotalMemoryBytes,
        MetricFamily::WorkerAvailableMemoryBytes,
        MetricFamily::WorkerProcessRssBytes,
        MetricFamily::LayoutConfirmations,
        MetricFamily::LayoutActivationHeight,
    ];

    pub open spec fn spelled(self) -> Seq<char> {
        match self {
            MetricFamily::HttpRequests => "enhance_http_requests_total"@,
            MetricFamily::HttpRequestDuration => "enhance_http_request_duration_seconds"@,
            MetricFamily::HttpRequestProcessingDuration => "enhance_http_request_processing_duration_seconds"@,
            MetricFamily::HttpInFlight => "enhance_http_in_flight"@,
            MetricFamily::HttpProcessingInFlight => "enhance_http_processing_in_flight"@,
            MetricFamily::SnapshotPhaseCode => "enhance_snapshot_phase_code"@,
            MetricFamily::SnapshotSyncCurrentHeight => "enhance_snapshot_sync_current_height"@,
            MetricFamily::SnapshotSyncTargetHeight => "enhance_snapshot_sync_target_height"@,
            MetricFamily::SnapshotAnchorHeight => "enhance_snapshot_anchor_height"@,
            MetricFamily::SnapshotGeneration => "enhance_snapshot_generation"@,
            MetricFamily::SnapshotIronwoodTreeSize => "enhance_snapshot_ironwood_tree_size"@,
            MetricFamily::SnapshotRetainedGenerations => "enhance_snapshot_retained_generations"@,
            MetricFamily::TableRegistered => "enhance_table_registered"@,
            MetricFamily::TableRecordBytes => "enhance_table_record_bytes"@,
            MetricFamily::TableRecordsPerRow => "enhance_table_records_per_row"@,
            MetricFamily::TableShardRows => "enhance_table_shard_rows"@,
            MetricFamily::TableShardPositions => "enhance_table_shard_positions"@,
            MetricFamily::TableShardsPerWorker => "enhance_table_shards_per_worker"@,
            MetricFamily::TablePoolWorkers => "enhance_table_pool_workers"@,
            MetricFamily::TableQuerySlotsAvailable => "enhance_table_query_slots_available"@,
            MetricFamily::TablePositions => "enhance_table_positions"@,
            MetricFamily::TableUsedRows => "enhance_table_used_rows"@,
            MetricFamily::TableLogicalRows => "enhance_table_logical_rows"@,
            MetricFamily::TableShards => "enhance_table_shards"@,
            MetricFamily::TableSealedShards => "enhance_table_sealed_shards"@,
            MetricFamily::WorkerUp => "enhance_worker_up"@,
            MetricFamily::WorkerGeneration => "enhance_worker_generation"@,
            MetricFamily::WorkerTableIndex => "enhance_worker_table_index"@,
            MetricFamily::WorkerTableAssignedShards => "enhance_worker_table_assigned_shards"@,
            MetricFamily::WorkerTablePopulatedPositions => "enhance_worker_table_populated_positions"@,
            MetricFamily::WorkerTableActiveShards => "enhance_worker_table_active_shards"@,
            MetricFamily::WorkerIndex => "enhance_worker_index"@,
            MetricFamily::WorkerTotalMemoryBytes => "enhance_worker_total_memory_bytes"@,
            MetricFamily::WorkerAvailableMemoryBytes => "enhance_worker_available_memory_bytes"@,
            MetricFamily::WorkerProcessRssBytes => "enhance_worker_process_rss_bytes"@,
            MetricFamily::LayoutConfirmations => "enhance_layout_confirmations"@,
            MetricFamily::LayoutActivationHeight => "enhance_layout_activation_height"@,
        }
    }

    /// What tells a name from the others: its length, and some of its letters
    /// where it is not short.
    spec fn mark(self) -> (nat, char) {
        match self {
            MetricFamily::HttpRequests => (27, 'e'),
            MetricFamily::HttpRequestDuration => (37, 'e'),
            MetricFamily::HttpRequestProcessingDuration => (48, 'e'),
            MetricFamily::HttpInFlight => (22, 'l'),
            MetricFamily::HttpProcessingInFlight => (33, 'e'),
            MetricFamily::SnapshotPhaseCode => (27, 'p'),
            MetricFamily::SnapshotSyncCurrentHeight => (36, 's'),
            MetricFamily::SnapshotSyncTargetHeight => (35, 's'),
            MetricFamily::SnapshotAnchorHeight => (30, 'a'),
            MetricFamily::SnapshotGeneration => (27, 'g'),
            MetricFamily::SnapshotIronwoodTreeSize => (35, 'i'),
            MetricFamily::SnapshotRetainedGenerations => (37, 'r'),
            MetricFamily::TableRegistered => (24, 'i'),
            MetricFamily::TableRecordBytes => (26, 'o'),
            MetricFamily::TableRecordsPerRow => (29, 'o'),
            MetricFamily::TableShardRows => (24, 'r'),
            MetricFamily::TableShardPositions => (29, 'r'),
            MetricFamily::TableShardsPerWorker => (31, 'r'),
            MetricFamily::TablePoolWorkers => (26, 'l'),
            MetricFamily::TableQuerySlotsAvailable => (35, 'r'),
            MetricFamily::TablePositions => (23, 'i'),
            MetricFamily::TableUsedRows => (23, 'd'),
            MetricFamily::TableLogicalRows => (26, 'i'),
            MetricFamily::TableShards => (20, 'r'),
            MetricFamily::TableSealedShards => (27, 'l'),
            MetricFamily::WorkerUp => (17, ' '),
            MetricFamily::WorkerGeneration => (25, 'n'),
            MetricFamily::WorkerTableIndex => (26, 'b'),
            MetricFamily::WorkerTableAssignedShards => (36, 'b'),
            MetricFamily::WorkerTablePopulatedPositions => (40, 'b'),
            MetricFamily::WorkerTableActiveShards => (34, 'b'),
            MetricFamily::WorkerIndex => (20, 'd'),
            MetricFamily::WorkerTotalMemoryBytes => (33, 't'),
            MetricFamily::WorkerAvailableMemoryBytes => (37, 'a'),
            MetricFamily::WorkerProcessRssBytes => (32, 'o'),
            MetricFamily::LayoutConfirmations => (28, 'n'),
            MetricFamily::LayoutActivationHeight => (32, 't'),
        }
    }

    proof fn lemma_mark(self)
        ensures
            self.spelled().len() == self.mark().0,
            self.spelled().len() >= 20 ==> self.spelled()[17] == self.mark().1,
            begins_with(self.spelled(), "enhance_"@),
            self.spelled()[8] == 'h' ==> self.scope_of() is Request || self.scope_of() is Endpoint,
    {
        reveal_strlit("enhance_");
        match self {
            MetricFamily::HttpRequests => {
                reveal_strlit("enhance_http_requests_total");
            },
            MetricFamily::HttpRequestDuration => {
                reveal_strlit("enhance_http_request_duration_seconds");
            },
            MetricFamily::HttpRequestProcessingDuration => {
                reveal_strlit("enhance_http_request_processing_duration_seconds");
            },
            MetricFamily::HttpInFlight => {
                reveal_strlit("enhance_http_in_flight");
            },
            MetricFamily::HttpProcessingInFlight => {
                reveal_strlit("enhance_http_processing_in_flight");
            },
            MetricFamily::SnapshotPhaseCode => {
                reveal_strlit("enhance_snapshot_phase_code");
            },
            MetricFamily::SnapshotSyncCurrentHeight => {
                reveal_strlit("enhance_snapshot_sync_current_height");
            },
            MetricFamily::SnapshotSyncTargetHeight => {
                reveal_strlit("enhance_snapshot_sync_target_height");
            },
            MetricFamily::SnapshotAnchorHeight => {
                reveal_strlit("enhance_snapshot_anchor_height");
            },
            MetricFamily::SnapshotGeneration => {
                reveal_strlit("enhance_snapshot_generation");
            },
            MetricFamily::SnapshotIronwoodTreeSize => {
                reveal_strlit("enhance_snapshot_ironwood_tree_size");
            },
            MetricFamily::SnapshotRetainedGenerations => {
                reveal_strlit("enhance_snapshot_retained_generations");
            },
            MetricFamily::TableRegistered => {
                reveal_strlit("enhance_table_registered");
            },
            MetricFamily::TableRecordBytes => {
                reveal_strlit("enhance_table_record_bytes");
            },
            MetricFamily::TableRecordsPerRow => {
                reveal_strlit("enhance_table_records_per_row");
            },
            MetricFamily::TableShardRows => {
                reveal_strlit("enhance_table_shard_rows");
            },
            MetricFamily::TableShardPositions => {
                reveal_strlit("enhance_table_shard_positions");
            },
            MetricFamily::TableShardsPerWorker => {
                reveal_strlit("enhance_table_shards_per_worker");
            },
            MetricFamily::TablePoolWorkers => {
                reveal_strlit("enhance_table_pool_workers");
            },
            MetricFamily::TableQuerySlotsAvailable => {
                reveal_strlit("enhance_table_query_slots_available");
            },
            MetricFamily::TablePositions => {
                reveal_strlit("enhance_table_positions");
            },
            MetricFamily::TableUsedRows => {
                reveal_strlit("enhance_table_used_rows");
            },
            MetricFamily::TableLogicalRows => {
                reveal_strlit("enhance_table_logical_rows");
            },
            MetricFamily::TableShards => {
                reveal_strlit("enhance_table_shards");
            },
            MetricFamily::TableSealedShards => {
                reveal_strlit("enhance_table_sealed_shards");
            },
            MetricFamily::WorkerUp => {
                reveal_strlit("enhance_worker_up");
            },
            MetricFamily::WorkerGeneration => {
                reveal_strlit("enhance_worker_generation");
            },
            MetricFamily::WorkerTableIndex => {
                reveal_strlit("enhance_worker_table_index");
            },
            MetricFamily::WorkerTableAssignedShards => {
                reveal_strlit("enhance_worker_table_assigned_shards");
            },
            MetricFamily::WorkerTablePopulatedPositions => {
                reveal_strlit("enhance_worker_table_populated_positions");
            },
            MetricFamily::WorkerTableActiveShards => {
                reveal_strlit("enhance_worker_table_active_shards");
            },
            MetricFamily::WorkerIndex => {
                reveal_strlit("enhance_worker_index");
            },
            MetricFamily::WorkerTotalMemoryBytes => {
                reveal_strlit("enhance_worker_total_memory_bytes");
            },
            MetricFamily::WorkerAvailableMemoryBytes => {
                reveal_strlit("enhance_worker_available_memory_bytes");
            },
            MetricFamily::WorkerProcessRssBytes => {
                reveal_strlit("enhance_worker_process_rss_bytes");
            },
            MetricFamily::LayoutConfirmations => {
                reveal_strlit("enhance_layout_confirmations");
            },
            MetricFamily::LayoutActivationHeight => {
                reveal_strlit("enhance_layout_activation_height");
            },
        }
        assert(self.spelled().take(8) =~= "enhance_"@);
    }

    /// No two families share a name, and every name starts with the service's.
    pub proof fn law_family_names(self, other: MetricFamily)
        ensures
            self.spelled() == other.spelled() ==> self == other,
            begins_with(self.spelled(), "enhance_"@),
    {
        self.lemma_mark();
        other.lemma_mark();
    }

    /// What is measured of requests carries no label but the endpoint, the
    /// method and the status.
    pub proof fn law_request_labels(self, i: int)
        requires
            begins_with(self.spelled(), "enhance_http_"@),
            0 <= i < self.scope_of().names().len(),
        ensures
            seq!["endpoint"@, "method"@, "status"@].contains(self.scope_of().names()[i]),
    {
        self.lemma_mark();
        reveal_strlit("enhance_http_");
        assert(self.spelled().take(13)[8] == 'h');
        let allowed = seq!["endpoint"@, "method"@, "status"@];
        assert(allowed[0] == "endpoint"@ && allowed[1] == "method"@ && allowed[2] == "status"@);
        assert(allowed[i] == self.scope_of().names()[i]);
    }

    spec fn place(self) -> int {
        match self {
            MetricFamily::HttpRequests => 0,
            MetricFamily::HttpRequestDuration => 1,
            MetricFamily::HttpRequestProcessingDuration => 2,
            MetricFamily::HttpInFlight => 3,
            MetricFamily::HttpProcessingInFlight => 4,
            MetricFamily::SnapshotPhaseCode => 5,
            MetricFamily::SnapshotSyncCurrentHeight => 6,
            MetricFamily::SnapshotSyncTargetHeight => 7,
            MetricFamily::SnapshotAnchorHeight => 8,
            MetricFamily::SnapshotGeneration => 9,
            MetricFamily::SnapshotIronwoodTreeSize => 10,
            MetricFamily::SnapshotRetainedGenerations => 11,
            MetricFamily::TableRegistered => 12,
            MetricFamily::TableRecordBytes => 13,
            MetricFamily::TableRecordsPerRow => 14,
            MetricFamily::TableShardRows => 15,
            MetricFamily::TableShardPositions => 16,
            MetricFamily::TableShardsPerWorker => 17,
            MetricFamily::TablePoolWorkers => 18,
            MetricFamily::TableQuerySlotsAvailable => 19,
            MetricFamily::TablePositions => 20,
            MetricFamily::TableUsedRows => 21,
            MetricFamily::TableLogicalRows => 22,
            MetricFamily::TableShards => 23,
            MetricFamily::TableSealedShards => 24,
            MetricFamily::WorkerUp => 25,
            MetricFamily::WorkerGeneration => 26,
            MetricFamily::WorkerTableIndex => 27,
            MetricFamily::WorkerTableAssignedShards => 28,
            MetricFamily::WorkerTablePopulatedPositions => 29,
            MetricFamily::WorkerTableActiveShards => 30,
            MetricFamily::WorkerIndex => 31,
            MetricFamily::WorkerTotalMemoryBytes => 32,
            MetricFamily::WorkerAvailableMemoryBytes => 33,
            MetricFamily::WorkerProcessRssBytes => 34,
            MetricFamily::LayoutConfirmations => 35,
            MetricFamily::LayoutActivationHeight => 36,
        }
    }

    /// Every family is listed, and none twice.
    pub proof fn law_every_family_is_listed(self, i: int, j: int)
        requires
            0 <= i < j < MetricFamily::ALL@.len(),
        ensures
            MetricFamily::ALL@.contains(self),
            MetricFamily::ALL@[i] != MetricFamily::ALL@[j],
    {
        assert(MetricFamily::ALL@[self.place()] == self);
        assert(MetricFamily::ALL@[i].place() == i);
        assert(MetricFamily::ALL@[j].place() == j);
    }

    /// Name under which the family is exposed.
    pub fn name(&self) -> (name: &'static str)
        ensures
            name@ == self.spelled(),
    {
        match self {
            MetricFamily::HttpRequests => "enhance_http_requests_total",
            MetricFamily::HttpRequestDuration => "enhance_http_request_duration_seconds",
            MetricFamily::HttpRequestProcessingDuration => "enhance_http_request_processing_duration_seconds",
            MetricFamily::HttpInFlight => "enhance_http_in_flight",
            MetricFamily::HttpProcessingInFlight => "enhance_http_processing_in_flight",
            MetricFamily::SnapshotPhaseCode => "enhance_snapshot_phase_code",
            MetricFamily::SnapshotSyncCurrentHeight => "enhance_snapshot_sync_current_height",
            MetricFamily::SnapshotSyncTargetHeight => "enhance_snapshot_sync_target_height",
            MetricFamily::SnapshotAnchorHeight => "enhance_snapshot_anchor_height",
            MetricFamily::SnapshotGeneration => "enhance_snapshot_generation",
            MetricFamily::SnapshotIronwoodTreeSize => "enhance_snapshot_ironwood_tree_size",
            MetricFamily::SnapshotRetainedGenerations => "enhance_snapshot_retained_generations",
            MetricFamily::TableRegistered => "enhance_table_registered",
            MetricFamily::TableRecordBytes => "enhance_table_record_bytes",
            MetricFamily::TableRecordsPerRow => "enhance_table_records_per_row",
            MetricFamily::TableShardRows => "enhance_table_shard_rows",
            MetricFamily::TableShardPositions => "enhance_table_shard_positions",
            MetricFamily::TableShardsPerWorker => "enhance_table_shards_per_worker",
            MetricFamily::TablePoolWorkers => "enhance_table_pool_workers",
            MetricFamily::TableQuerySlotsAvailable => "enhance_table_query_slots_available",
            MetricFamily::TablePositions => "enhance_table_positions",
            MetricFamily::TableUsedRows => "enhance_table_used_rows",
            MetricFamily::TableLogicalRows => "enhance_table_logical_rows",
            MetricFamily::TableShards => "enhance_table_shards",
            MetricFamily::TableSealedShards => "enhance_table_sealed_shards",
            MetricFamily::WorkerUp => "enhance_worker_up",
            MetricFamily::WorkerGeneration => "enhance_worker_generation",
            MetricFamily::WorkerTableIndex => "enhance_worker_table_index",
            MetricFamily::WorkerTableAssignedShards => "enhance_worker_table_assigned_shards",
            MetricFamily::WorkerTablePopulatedPositions => "enhance_worker_table_populated_positions",
            MetricFamily::WorkerTableActiveShards => "enhance_worker_table_active_shards",
            MetricFamily::WorkerIndex => "enhance_worker_index",
            MetricFamily::WorkerTotalMemoryBytes => "enhance_worker_total_memory_bytes",
            MetricFamily::WorkerAvailableMemoryBytes => "enhance_worker_available_memory_bytes",
            MetricFamily::WorkerProcessRssBytes => "enhance_worker_process_rss_bytes",
            MetricFamily::LayoutConfirmations => "enhance_layout_confirmations",
            MetricFamily::LayoutActivationHeight => "enhance_layout_activation_height",
        }
    }

    pub open spec fn described(self) -> Seq<char> {
        match self {
            MetricFamily::HttpRequests => "Enhance PIR API requests partitioned by allowlisted endpoint, method, and status."@,
            MetricFamily::HttpRequestDuration => "Time from the coordinator receiving request headers until the route produces a response. Includes request body receive time but excludes response transmission."@,
            MetricFamily::HttpRequestProcessingDuration => "Time spent answering an allowlisted request after its complete body is available."@,
            MetricFamily::HttpInFlight => "Requests received by the coordinator that have not produced a response."@,
            MetricFamily::HttpProcessingInFlight => "Requests being processed after their complete bodies have been received."@,
            MetricFamily::SnapshotPhaseCode => "Coordinator phase: 0 syncing, 1 building, 2 serving, 3 failed."@,
            MetricFamily::SnapshotSyncCurrentHeight => "Height reached by the current sync (0 unless syncing)."@,
            MetricFamily::SnapshotSyncTargetHeight => "Height the current sync is aiming for (0 unless syncing)."@,
            MetricFamily::SnapshotAnchorHeight => "Anchor height of the snapshot currently being served (0 if none)."@,
            MetricFamily::SnapshotGeneration => "Generation of the snapshot currently being served (0 if none)."@,
            MetricFamily::SnapshotIronwoodTreeSize => "Ironwood tree size covered by the served snapshot (0 if none)."@,
            MetricFamily::SnapshotRetainedGenerations => "Generations still answerable (the newest plus the one before it)."@,
            MetricFamily::TableRegistered => "1 if the coordinator serves this table, 0 if it is only planned."@,
            MetricFamily::TableRecordBytes => "Bytes in one record."@,
            MetricFamily::TableRecordsPerRow => "Records packed into one PIR row."@,
            MetricFamily::TableShardRows => "PIR rows in one shard."@,
            MetricFamily::TableShardPositions => "Positions (records) covered by one shard."@,
            MetricFamily::TableShardsPerWorker => "Fixed number of shard ids each worker in the table's pool owns."@,
            MetricFamily::TablePoolWorkers => "Workers in the table's ordered pool."@,
            MetricFamily::TableQuerySlotsAvailable => "Free concurrent query slots for the table; queries are shed with 503 at 0."@,
            MetricFamily::TablePositions => "Positions published for the table in the newest generation."@,
            MetricFamily::TableUsedRows => "Rows holding real records in the newest generation."@,
            MetricFamily::TableLogicalRows => "Public database size in rows (power of two) in the newest generation."@,
            MetricFamily::TableShards => "Shards published for the table in the newest generation."@,
            MetricFamily::TableSealedShards => "Published shards that are full and will never be rebuilt."@,
            MetricFamily::WorkerUp => "1 if the worker answered its health probe on the last scrape, else 0."@,
            MetricFamily::WorkerGeneration => "Generation the worker reports as active (0 if unknown)."@,
            MetricFamily::WorkerTableIndex => "Zero-based position of the worker in this table's pool; fixes which shards it owns."@,
            MetricFamily::WorkerTableAssignedShards => "Shards of this table the newest generation assigns to the worker."@,
            MetricFamily::WorkerTablePopulatedPositions => "Positions held by the worker's shards of this table."@,
            MetricFamily::WorkerTableActiveShards => "Shards of this table the worker reports active in its newest generation."@,
            MetricFamily::WorkerIndex => "Zero-based position of the worker across all pools, first seen first."@,
            MetricFamily::WorkerTotalMemoryBytes => "Total RAM on the worker host, as reported by its health probe."@,
            MetricFamily::WorkerAvailableMemoryBytes => "Available RAM on the worker host, as reported by its health probe."@,
            MetricFamily::WorkerProcessRssBytes => "Resident memory of the worker process, as reported by its health probe."@,
            MetricFamily::LayoutConfirmations => "Confirmations a block needs before its actions are ingested."@,
            MetricFamily::LayoutActivationHeight => "Height at which Ironwood activated; ingest starts here."@,
        }
    }

    /// What the family measures, in words.
    pub fn help(&self) -> (help: &'static str)
        ensures
            help@ == self.described(),
    {
        match self {
            MetricFamily::HttpRequests => "Enhance PIR API requests partitioned by allowlisted endpoint, method, and status.",
            MetricFamily::HttpRequestDuration => "Time from the coordinator receiving request headers until the route produces a response. Includes request body receive time but excludes response transmission.",
            MetricFamily::HttpRequestProcessingDuration => "Time spent answering an allowlisted request after its complete body is available.",
            MetricFamily::HttpInFlight => "Requests received by the coordinator that have not produced a response.",
            MetricFamily::HttpProcessingInFlight => "Requests being processed after their complete bodies have been received.",
            MetricFamily::SnapshotPhaseCode => "Coordinator phase: 0 syncing, 1 building, 2 serving, 3 failed.",
            MetricFamily::SnapshotSyncCurrentHeight => "Height reached by the current sync (0 unless syncing).",
            MetricFamily::SnapshotSyncTargetHeight => "Height the current sync is aiming for (0 unless syncing).",
            MetricFamily::SnapshotAnchorHeight => "Anchor height of the snapshot currently being served (0 if none).",
            MetricFamily::SnapshotGeneration => "Generation of the snapshot currently being served (0 if none).",
            MetricFamily::SnapshotIronwoodTreeSize => "Ironwood tree size covered by the served snapshot (0 if none).",
            MetricFamily::SnapshotRetainedGenerations => "Generations still answerable (the newest plus the one before it).",
            MetricFamily::TableRegistered => "1 if the coordinator serves this table, 0 if it is only planned.",
            MetricFamily::TableRecordBytes => "Bytes in one record.",
            MetricFamily::TableRecordsPerRow => "Records packed into one PIR row.",
            MetricFamily::TableShardRows => "PIR rows in one shard.",
            MetricFamily::TableShardPositions => "Positions (records) covered by one shard.",
            MetricFamily::TableShardsPerWorker => "Fixed number of shard ids each worker in the table's pool owns.",
            MetricFamily::TablePoolWorkers => "Workers in the table's ordered pool.",
            MetricFamily::TableQuerySlotsAvailable => "Free concurrent query slots for the table; queries are shed with 503 at 0.",
            MetricFamily::TablePositions => "Positions published for the table in the newest generation.",
            MetricFamily::TableUsedRows => "Rows holding real records in the newest generation.",
            MetricFamily::TableLogicalRows => "Public database size in rows (power of two) in the newest generation.",
            MetricFamily::TableShards => "Shards published for the table in the newest generation.",
            MetricFamily::TableSealedShards => "Published shards that are full and will never be rebuilt.",
            MetricFamily::WorkerUp => "1 if the worker answered its health probe on the last scrape, else 0.",
            MetricFamily::WorkerGeneration => "Generation the worker reports as active (0 if unknown).",
            MetricFamily::WorkerTableIndex => "Zero-based position of the worker in this table's pool; fixes which shards it owns.",
            MetricFamily::WorkerTableAssignedShards => "Shards of this table the newest generation assigns to the worker.",
            MetricFamily::WorkerTablePopulatedPositions => "Positions held by the worker's shards of this table.",
            MetricFamily::WorkerTableActiveShards => "Shards of this table the worker reports active in its newest generation.",
            MetricFamily::WorkerIndex => "Zero-based position of the worker across all pools, first seen first.",
            MetricFamily::WorkerTotalMemoryBytes => "Total RAM on the worker host, as reported by its health probe.",
            MetricFamily::WorkerAvailableMemoryBytes => "Available RAM on the worker host, as reported by its health probe.",
            MetricFamily::WorkerProcessRssBytes => "Resident memory of the worker process, as reported by its health probe.",
            MetricFamily::LayoutConfirmations => "Confirmations a block needs before its actions are ingested.",
            MetricFamily::LayoutActivationHeight => "Height at which Ironwood activated; ingest starts here.",
        }
    }

    pub open spec fn kind_of(self) -> MetricKind {
        match self {
            MetricFamily::HttpRequests => MetricKind::Counter,
            MetricFamily::HttpRequestDuration => MetricKind::Histogram,
            MetricFamily::HttpRequestProcessingDuration => MetricKind::Histogram,
            _ => MetricKind::Gauge,
        }
    }

    pub fn kind(&self) -> (kind: MetricKind)
        ensures
            kind == self.kind_of(),
    {
        match self {
            MetricFamily::HttpRequests => MetricKind::Counter,
            MetricFamily::HttpRequestDuration => MetricKind::Histogram,
            MetricFamily::HttpRequestProcessingDuration => MetricKind::Histogram,
            _ => MetricKind::Gauge,
        }
    }

    pub open spec fn scope_of(self) -> MetricScope {
        match self {
            MetricFamily::HttpRequests => MetricScope::Request,
            MetricFamily::HttpRequestDuration
            | MetricFamily::HttpRequestProcessingDuration
            | MetricFamily::HttpInFlight
            | MetricFamily::HttpProcessingInFlight => MetricScope::Endpoint,
            MetricFamily::TableRegistered
            | MetricFamily::TableRecordBytes
            | MetricFamily::TableRecordsPerRow
            | MetricFamily::TableShardRows
            | MetricFamily::TableShardPositions
            | MetricFamily::TableShardsPerWorker
            | MetricFamily::TablePoolWorkers
            | MetricFamily::TableQuerySlotsAvailable
            | MetricFamily::TablePositions
            | MetricFamily::TableUsedRows
            | MetricFamily::TableLogicalRows
            | MetricFamily::TableShards
            | MetricFamily::TableSealedShards => MetricScope::Table,
            MetricFamily::WorkerUp
            | MetricFamily::WorkerGeneration
            | MetricFamily::WorkerIndex
            | MetricFamily::WorkerTotalMemoryBytes
            | MetricFamily::WorkerAvailableMemoryBytes
            | MetricFamily::WorkerProcessRssBytes => MetricScope::Worker,
            MetricFamily::WorkerTableIndex
            | MetricFamily::WorkerTableAssignedShards
            | MetricFamily::WorkerTablePopulatedPositions
            | MetricFamily::WorkerTableActiveShards => MetricScope::WorkerTable,
            _ => MetricScope::Single,
        }
    }

    pub fn scope(&self) -> (scope: MetricScope)
        ensures
            scope == self.scope_of(),
    {
        match self {
            MetricFamily::HttpRequests => MetricScope::Request,
            MetricFamily::HttpRequestDuration
            | MetricFamily::HttpRequestProcessingDuration
            | MetricFamily::HttpInFlight
            | MetricFamily::HttpProcessingInFlight => MetricScope::Endpoint,
            MetricFamily::TableRegistered
            | MetricFamily::TableRecordBytes
            | MetricFamily::TableRecordsPerRow
            | MetricFamily::TableShardRows
            | MetricFamily::TableShardPositions
            | MetricFamily::TableShardsPerWorker
            | MetricFamily::TablePoolWorkers
            | MetricFamily::TableQuerySlotsAvailable
            | MetricFamily::TablePositions
            | MetricFamily::TableUsedRows
            | MetricFamily::TableLogicalRows
            | MetricFamily::TableShards
            | MetricFamily::TableSealedShards => MetricScope::Table,
            MetricFamily::WorkerUp
            | MetricFamily::WorkerGeneration
            | MetricFamily::WorkerIndex
            | MetricFamily::WorkerTotalMemoryBytes
            | MetricFamily::WorkerAvailableMemoryBytes
            | MetricFamily::WorkerProcessRssBytes => MetricScope::Worker,
            MetricFamily::WorkerTableIndex
            | MetricFamily::WorkerTableAssignedShards
            | MetricFamily::WorkerTablePopulatedPositions
            | MetricFamily::WorkerTableActiveShards => MetricScope::WorkerTable,
            _ => MetricScope::Single,
        }
    }
}

/// One gauge and the value to set it to.
#[derive(Debug)]
pub struct GaugeSetting {
    pub family: MetricFamily,
    /// Label values, in the order of the family's label names.
    pub labels: Vec<String>,
    pub value: i64,
}

/// A setting as a value.
pub type SettingView = (MetricFamily, Seq<Seq<char>>, int);

pub open spec fn setting_views(settings: Seq<GaugeSetting>) -> Seq<SettingView> {
    settings.map_values(
        |setting: GaugeSetting|
            (setting.family, crate::text::texts(setting.labels@), setting.value as int),
    )
}

/// A gauge holds a signed word: larger values stop there.
pub open spec fn clamped(value: int) -> int {
    if value <= i64::MAX {
        value
    } else {
        i64::MAX as int
    }
}

pub fn clamp(value: u64) -> (clamped_value: i64)
    ensures
        clamped_value == clamped(value as int),
{
    if value <= i64::MAX as u64 {
        value as i64
    } else {
        i64::MAX
    }
}

/// Phase code, and the current and target heights of a sync.
pub open spec fn phase_figures(phase: Option<CoordinatorPhase>) -> (int, int, int) {
    match phase {
        None => (0, 0, 0),
        Some(CoordinatorPhase::Syncing { current_height, target_height }) => (
            0,
            current_height as int,
            target_height as int,
        ),
        Some(CoordinatorPhase::Building { .. }) => (1, 0, 0),
        Some(CoordinatorPhase::Serving) => (2, 0, 0),
        Some(CoordinatorPhase::Failed { .. }) => (3, 0, 0),
    }
}

pub open spec fn snapshot_settings(seen: Observation) -> Seq<SettingView> {
    let none: Seq<Seq<char>> = Seq::empty();
    let (code, current, target) = phase_figures(seen.phase);
    seq![
        (MetricFamily::SnapshotPhaseCode, none, code),
        (MetricFamily::SnapshotSyncCurrentHeight, none, clamped(current)),
        (MetricFamily::SnapshotSyncTargetHeight, none, clamped(target)),
        (MetricFamily::SnapshotAnchorHeight, none, clamped(seen.anchor_height as int)),
        (MetricFamily::SnapshotGeneration, none, clamped(seen.generation as int)),
        (MetricFamily::SnapshotIronwoodTreeSize, none, clamped(seen.ironwood_tree_size as int)),
        (MetricFamily::SnapshotRetainedGenerations, none, clamped(seen.retained_generations as int)),
    ]
}

pub open spec fn one_if(flag: bool) -> int {
    if flag {
        1
    } else {
        0
    }
}

pub open spec fn table_settings(seen: TableObservation, protocol: Protocol) -> Seq<SettingView> {
    let layout = seen.table.geometry(protocol);
    let label = seq![seen.table.wire_name()];
    seq![
        (MetricFamily::TableRegistered, label, one_if(seen.registered)),
        (MetricFamily::TableRecordBytes, label, clamped(layout.record_bytes as int)),
        (MetricFamily::TableRecordsPerRow, label, clamped(layout.records_per_row as int)),
        (MetricFamily::TableShardRows, label, clamped(layout.shard_rows as int)),
        (MetricFamily::TableShardPositions, label, clamped(layout.positions_per_shard() as int)),
        (MetricFamily::TableShardsPerWorker, label, clamped(protocol.shards_per_worker as int)),
        (MetricFamily::TablePoolWorkers, label, clamped(seen.pool_workers as int)),
        (MetricFamily::TableQuerySlotsAvailable, label, clamped(seen.query_slots_available as int)),
        (MetricFamily::TablePositions, label, clamped(seen.positions as int)),
        (MetricFamily::TableUsedRows, label, clamped(seen.used_rows as int)),
        (MetricFamily::TableLogicalRows, label, clamped(seen.logical_rows as int)),
        (MetricFamily::TableShards, label, clamped(seen.shards as int)),
        (MetricFamily::TableSealedShards, label, clamped(seen.sealed_shards as int)),
    ]
}

pub open spec fn share_settings(worker: Seq<char>, share: WorkerTableObservation) -> Seq<
    SettingView,
> {
    let label = seq![worker, share.table.wire_name()];
    seq![
        (MetricFamily::WorkerTableIndex, label, clamped(share.index as int)),
        (MetricFamily::WorkerTableAssignedShards, label, clamped(share.assigned_shards as int)),
        (
            MetricFamily::WorkerTablePopulatedPositions,
            label,
            clamped(share.populated_positions as int),
        ),
        (MetricFamily::WorkerTableActiveShards, label, clamped(share.active_shards as int)),
    ]
}

pub open spec fn all_share_settings(
    worker: Seq<char>,
    shares: Seq<WorkerTableObservation>,
) -> Seq<SettingView>
    decreases shares.len(),
{
    if shares.len() == 0 {
        Seq::empty()
    } else {
        all_share_settings(worker, shares.drop_last()) + share_settings(worker, shares.last())
    }
}

pub open spec fn worker_settings(seen: WorkerObservation) -> Seq<SettingView> {
    let label = seq![seen.name@];
    seq![
        (MetricFamily::WorkerUp, label, one_if(seen.up)),
        (MetricFamily::WorkerGeneration, label, clamped(seen.generation as int)),
        (MetricFamily::WorkerIndex, label, clamped(seen.index as int)),
        (MetricFamily::WorkerTotalMemoryBytes, label, clamped(seen.total_memory_bytes as int)),
        (
            MetricFamily::WorkerAvailableMemoryBytes,
            label,
            clamped(seen.available_memory_bytes as int),
        ),
        (MetricFamily::WorkerProcessRssBytes, label, clamped(seen.process_rss_bytes as int)),
    ] + all_share_settings(seen.name@, seen.tables@)
}

pub open spec fn all_table_settings(seen: Seq<TableObservation>, protocol: Protocol) -> Seq<
    SettingView,
>
    decreases seen.len(),
{
    if seen.len() == 0 {
        Seq::empty()
    } else {
        all_table_settings(seen.drop_last(), protocol) + table_settings(seen.last(), protocol)
    }
}

pub open spec fn all_worker_settings(seen: Seq<WorkerObservation>) -> Seq<SettingView>
    decreases seen.len(),
{
    if seen.len() == 0 {
        Seq::empty()
    } else {
        all_worker_settings(seen.drop_last()) + worker_settings(seen.last())
    }
}

pub open spec fn layout_settings(protocol: Protocol) -> Seq<SettingView> {
    let none: Seq<Seq<char>> = Seq::empty();
    seq![
        (MetricFamily::LayoutConfirmations, none, clamped(protocol.confirmations as int)),
        (MetricFamily::LayoutActivationHeight, none, clamped(protocol.activation_height as int)),
    ]
}

/// Everything an observation sets, in order.
pub open spec fn observed_settings(seen: Observation, protocol: Protocol) -> Seq<SettingView> {
    snapshot_settings(seen) + all_table_settings(seen.tables@, protocol) + all_worker_settings(
        seen.worker_details@,
    ) + layout_settings(protocol)
}

/// Every setting is of a gauge family and carries one value per label of the
/// family.
pub open spec fn fits_family(setting: SettingView) -> bool {
    &&& setting.0.kind_of() is Gauge
    &&& setting.1.len() == setting.0.scope_of().names().len()
}

pub open spec fn all_fit(settings: Seq<SettingView>) -> bool {
    forall|i: int| 0 <= i < settings.len() ==> fits_family(#[trigger] settings[i])
}

proof fn lemma_fit_joined(a: Seq<SettingView>, b: Seq<SettingView>)
    requires
        all_fit(a),
        all_fit(b),
    ensures
        all_fit(a + b),
{
    assert forall|i: int| 0 <= i < (a + b).len() implies fits_family(#[trigger] (a + b)[i]) by {
        if i < a.len() {
            assert((a + b)[i] == a[i]);
        } else {
            assert((a + b)[i] == b[i - a.len()]);
        }
    }
}

proof fn lemma_shares_fit(worker: Seq<char>, shares: Seq<WorkerTableObservation>)
    ensures
        all_fit(all_share_settings(worker, shares)),
    decreases shares.len(),
{
    if shares.len() > 0 {
        lemma_shares_fit(worker, shares.drop_last());
        lemma_fit_joined(
            all_share_settings(worker, shares.drop_last()),
            share_settings(worker, shares.last()),
        );
    }
}

proof fn lemma_tables_fit(seen: Seq<TableObservation>, protocol: Protocol)
    ensures
        all_fit(all_table_settings(seen, protocol)),
    decreases seen.len(),
{
    if seen.len() > 0 {
        lemma_tables_fit(seen.drop_last(), protocol);
        lemma_fit_joined(
            all_table_settings(seen.drop_last(), protocol),
            table_settings(seen.last(), protocol),
        );
    }
}

proof fn lemma_workers_fit(seen: Seq<WorkerObservation>)
    ensures
        all_fit(all_worker_settings(seen)),
    decreases seen.len(),
{
    if seen.len() > 0 {
        let last = seen.last();
        lemma_workers_fit(seen.drop_last());
        lemma_shares_fit(last.name@, last.tables@);
        let own = worker_settings(last).take(6);
        assert(all_fit(own));
        assert(worker_settings(last) =~= own + all_share_settings(last.name@, last.tables@));
        lemma_fit_joined(own, all_share_settings(last.name@, last.tables@));
        lemma_fit_joined(all_worker_settings(seen.drop_last()), worker_settings(last));
    }
}

/// Whatever is observed, each setting addresses a gauge by as many label values
/// as its family has labels.
pub proof fn law_settings_fit_their_families(seen: Observation, protocol: Protocol)
    ensures
        all_fit(observed_settings(seen, protocol)),
{
    lemma_tables_fit(seen.tables@, protocol);
    lemma_workers_fit(seen.worker_details@);
    let a = snapshot_settings(seen);
    let b = a + all_table_settings(seen.tables@, protocol);
    let c = b + all_worker_settings(seen.worker_details@);
    lemma_fit_joined(a, all_table_settings(seen.tables@, protocol));
    lemma_fit_joined(b, all_worker_settings(seen.worker_details@));
    lemma_fit_joined(c, layout_settings(protocol));
}

fn push_setting(
    settings: &mut Vec<GaugeSetting>,
    family: MetricFamily,
    labels: Vec<String>,
    value: i64,
)
    ensures
        setting_views(final(settings)@) == setting_views(old(settings)@).push(
            (family, crate::text::texts(labels@), value as int),
        ),
{
    settings.push(GaugeSetting { family, labels, value });
    assert(setting_views(settings@) =~= setting_views(old(settings)@).push(
        (family, crate::text::texts(labels@), value as int),
    ));
}

fn no_label() -> (labels: Vec<String>)
    ensures
        crate::text::texts(labels@) == Seq::<Seq<char>>::empty(),
{
    let labels: Vec<String> = Vec::new();
    assert(crate::text::texts(labels@) =~= Seq::<Seq<char>>::empty());
    labels
}

fn one_label(label: &str) -> (labels: Vec<String>)
    ensures
        crate::text::texts(labels@) == seq![label@],
{
    let mut labels: Vec<String> = Vec::new();
    labels.push(String::from_str(label));
    assert(crate::text::texts(labels@) =~= seq![label@]);
    labels
}

fn two_labels(first: &str, second: &str) -> (labels: Vec<String>)
    ensures
        crate::text::texts(labels@) == seq![first@, second@],
{
    let mut labels: Vec<String> = Vec::new();
    labels.push(String::from_str(first));
    labels.push(String::from_str(second));
    assert(crate::text::texts(labels@) =~= seq![first@, second@]);
    labels
}

fn record_snapshot(seen: &Observation, settings: &mut Vec<GaugeSetting>)
    ensures
        setting_views(final(settings)@) == setting_views(old(settings)@) + snapshot_settings(*seen),
{
    let (code, current, target): (i64, u64, u64) = match &seen.phase {
        None => (0, 0, 0),
        Some(CoordinatorPhase::Syncing { current_height, target_height }) => (
            0,
            *current_height,
            *target_height,
        ),
        Some(CoordinatorPhase::Building { .. }) => (1, 0, 0),
        Some(CoordinatorPhase::Serving) => (2, 0, 0),
        Some(CoordinatorPhase::Failed { .. }) => (3, 0, 0),
    };
    push_setting(settings, MetricFamily::SnapshotPhaseCode, no_label(), code);
    push_setting(settings, MetricFamily::SnapshotSyncCurrentHeight, no_label(), clamp(current));
    push_setting(settings, MetricFamily::SnapshotSyncTargetHeight, no_label(), clamp(target));
    push_setting(
        settings,
        MetricFamily::SnapshotAnchorHeight,
        no_label(),
        clamp(seen.anchor_height),
    );
    push_setting(settings, MetricFamily::SnapshotGeneration, no_label(), clamp(seen.generation));
    push_setting(
        settings,
        MetricFamily::SnapshotIronwoodTreeSize,
        no_label(),
        clamp(seen.ironwood_tree_size),
    );
    push_setting(
        settings,
        MetricFamily::SnapshotRetainedGenerations,
        no_label(),
        clamp(seen.retained_generations),
    );
    assert(setting_views(settings@) =~= setting_views(old(settings)@) + snapshot_settings(*seen));
}

fn record_table(seen: &TableObservation, protocol: &Protocol, settings: &mut Vec<GaugeSetting>)
    requires
        protocol.valid(),
    ensures
        setting_views(final(settings)@) == setting_views(old(settings)@) + table_settings(
            *seen,
            *protocol,
        ),
{
    let layout = seen.table.layout(protocol);
    proof {
        layout.lemma_valid_bounds();
    }
    let name = seen.table.as_str();
    let registered: i64 = if seen.registered {
        1
    } else {
        0
    };
    push_setting(settings, MetricFamily::TableRegistered, one_label(name), registered);
    push_setting(
        settings,
        MetricFamily::TableRecordBytes,
        one_label(name),
        clamp(layout.record_bytes as u64),
    );
    push_setting(
        settings,
        MetricFamily::TableRecordsPerRow,
        one_label(name),
        clamp(layout.records_per_row as u64),
    );
    push_setting(
        settings,
        MetricFamily::TableShardRows,
        one_label(name),
        clamp(layout.shard_rows as u64),
    );
    push_setting(
        settings,
        MetricFamily::TableShardPositions,
        one_label(name),
        clamp(layout.shard_positions() as u64),
    );
    push_setting(
        settings,
        MetricFamily::TableShardsPerWorker,
        one_label(name),
        clamp(protocol.shards_per_worker),
    );
    push_setting(
        settings,
        MetricFamily::TablePoolWorkers,
        one_label(name),
        clamp(seen.pool_workers),
    );
    push_setting(
        settings,
        MetricFamily::TableQuerySlotsAvailable,
        one_label(name),
        clamp(seen.query_slots_available),
    );
    push_setting(settings, MetricFamily::TablePositions, one_label(name), clamp(seen.positions));
    push_setting(settings, MetricFamily::TableUsedRows, one_label(name), clamp(seen.used_rows));
    push_setting(
        settings,
        MetricFamily::TableLogicalRows,
        one_label(name),
        clamp(seen.logical_rows),
    );
    push_setting(settings, MetricFamily::TableShards, one_label(name), clamp(seen.shards));
    push_setting(
        settings,
        MetricFamily::TableSealedShards,
        one_label(name),
        clamp(seen.sealed_shards),
    );
    assert(setting_views(settings@) =~= setting_views(old(settings)@) + table_settings(
        *seen,
        *protocol,
    ));
}

fn record_worker(seen: &WorkerObservation, settings: &mut Vec<GaugeSetting>)
    ensures
        setting_views(final(settings)@) == setting_views(old(settings)@) + worker_settings(*seen),
{
    let name = seen.name.as_str();
    let up: i64 = if seen.up {
        1
    } else {
        0
    };
    push_setting(settings, MetricFamily::WorkerUp, one_label(name), up);
    push_setting(settings, MetricFamily::WorkerGeneration, one_label(name), clamp(seen.generation));
    push_setting(settings, MetricFamily::WorkerIndex, one_label(name), clamp(seen.index));
    push_setting(
        settings,
        MetricFamily::WorkerTotalMemoryBytes,
        one_label(name),
        clamp(seen.total_memory_bytes),
    );
    push_setting(
        settings,
        MetricFamily::WorkerAvailableMemoryBytes,
        one_label(name),
        clamp(seen.available_memory_bytes),
    );
    push_setting(
        settings,
        MetricFamily::WorkerProcessRssBytes,
        one_label(name),
        clamp(seen.process_rss_bytes),
    );
    let ghost own = setting_views(settings@);
    let mut i: usize = 0;
    assert(own + all_share_settings(seen.name@, seen.tables@.take(0)) =~= own);
    while i < seen.tables.len()
        invariant
            i <= seen.tables.len(),
            name@ == seen.name@,
            setting_views(settings@) == own + all_share_settings(
                seen.name@,
                seen.tables@.take(i as int),
            ),
        decreases seen.tables.len() - i,
    {
        let share = &seen.tables[i];
        let ghost before = setting_views(settings@);
        let table = share.table.as_str();
        push_setting(
            settings,
            MetricFamily::WorkerTableIndex,
            two_labels(name, table),
            clamp(share.index),
        );
        push_setting(
            settings,
            MetricFamily::WorkerTableAssignedShards,
            two_labels(name, table),
            clamp(share.assigned_shards),
        );
        push_setting(
            settings,
            MetricFamily::WorkerTablePopulatedPositions,
            two_labels(name, table),
            clamp(share.populated_positions),
        );
        push_setting(
            settings,
            MetricFamily::WorkerTableActiveShards,
            two_labels(name, table),
            clamp(share.active_shards),
        );
        proof {
            assert(seen.tables@.take(i + 1).drop_last() =~= seen.tables@.take(i as int));
            assert(setting_views(settings@) =~= before + share_settings(seen.name@, *share));
            assert(own + all_share_settings(seen.name@, seen.tables@.take(i + 1)) =~= before
                + share_settings(seen.name@, *share));
        }
        i = i + 1;
    }
    assert(seen.tables@.take(i as int) =~= seen.tables@);
    assert(setting_views(settings@) =~= setting_views(old(settings)@) + worker_settings(*seen));
}

/// What the gauges are to be set to.
pub fn record_observation(observation: &Observation, protocol: &Protocol) -> (settings: Vec<
    GaugeSetting,
>)
    requires
        protocol.valid(),
    ensures
        setting_views(settings@) == observed_settings(*observation, *protocol),
{
    let mut settings: Vec<GaugeSetting> = Vec::new();
    assert(setting_views(settings@) =~= Seq::empty());
    record_snapshot(observation, &mut settings);
    let ghost snapshot = setting_views(settings@);
    assert(snapshot =~= snapshot_settings(*observation));
    let tables = &observation.tables;
    let mut i: usize = 0;
    assert(snapshot + all_table_settings(tables@.take(0), *protocol) =~= snapshot);
    while i < tables.len()
        invariant
            i <= tables.len(),
            protocol.valid(),
            setting_views(settings@) == snapshot + all_table_settings(
                tables@.take(i as int),
                *protocol,
            ),
        decreases tables.len() - i,
    {
        record_table(&tables[i], protocol, &mut settings);
        proof {
            assert(tables@.take(i + 1).drop_last() =~= tables@.take(i as int));
            assert(setting_views(settings@) =~= snapshot + all_table_settings(
                tables@.take(i + 1),
                *protocol,
            ));
        }
        i = i + 1;
    }
    assert(tables@.take(i as int) =~= tables@);
    let ghost with_tables = setting_views(settings@);
    let workers = &observation.worker_details;
    let mut w: usize = 0;
    assert(with_tables + all_worker_settings(workers@.take(0)) =~= with_tables);
    while w < workers.len()
        invariant
            w <= workers.len(),
            setting_views(settings@) == with_tables + all_worker_settings(workers@.take(w as int)),
        decreases workers.len() - w,
    {
        record_worker(&workers[w], &mut settings);
        proof {
            assert(workers@.take(w + 1).drop_last() =~= workers@.take(w as int));
            assert(setting_views(settings@) =~= with_tables + all_worker_settings(
                workers@.take(w + 1),
            ));
        }
        w = w + 1;
    }
    assert(workers@.take(w as int) =~= workers@);
    push_setting(
        &mut settings,
        MetricFamily::LayoutConfirmations,
        no_label(),
        clamp(protocol.confirmations),
    );
    push_setting(
        &mut settings,
        MetricFamily::LayoutActivationHeight,
        no_label(),
        clamp(protocol.activation_height),
    );
    assert(setting_views(settings@) =~= observed_settings(*observation, *protocol));
    settings
}

/// Method of a request, as far as the endpoints tell methods apart.
#[derive(Clone, Copy, Debug, PartialEq, Eq, Structural)]
pub enum RequestMethod {
    Get,
    Post,
    Other,
}

/// Endpoint label of a table's query route.
pub fn query_endpoint(_table: DatabaseId) -> (endpoint: &'static str)
    ensures
        endpoint@ == "query"@,
{
    "query"
}

pub open spec fn endpoint_of_table(table: DatabaseId, endpoint: Seq<char>) -> Option<Seq<char>> {
    if table != DatabaseId::Enhance {
        None
    } else if endpoint == "params"@ {
        Some("params"@)
    } else if endpoint == "public-params"@ {
        Some("public_params"@)
    } else if endpoint == "query"@ {
        Some("query"@)
    } else {
        None
    }
}

/// Label of an endpoint below a table's name.
pub fn table_endpoint(table: DatabaseId, endpoint: &str) -> (label: Option<&'static str>)
    ensures
        match label {
            Some(label) => endpoint_of_table(table, endpoint@) == Some(label@),
            None => endpoint_of_table(table, endpoint@) is None,
        },
{
    match table {
        DatabaseId::Enhance => {
            if same_text(endpoint, "params") {
                Some("params")
            } else if same_text(endpoint, "public-params") {
                Some("public_params")
            } else if same_text(endpoint, "query") {
                Some("query")
            } else {
                None
            }
        },
        _ => None,
    }
}

/// Label of a request: only the client routes have one.
pub open spec fn endpoint_label(method: RequestMethod, path: Seq<char>) -> Option<Seq<char>> {
    match method {
        RequestMethod::Get => if path == "/v1/health"@ {
            Some("health"@)
        } else if path == "/v1/enhance/generation"@ {
            Some("generation"@)
        } else if path == "/v1/enhance/params"@ {
            Some("params"@)
        } else if path == "/v1/enhance/public-params"@ {
            Some("public_params"@)
        } else {
            None
        },
        RequestMethod::Post => if path == "/v1/enhance/query"@ {
            Some("query"@)
        } else {
            None
        },
        RequestMethod::Other => None,
    }
}

/// How the paths below a table's name come apart.
proof fn lemma_enhance_paths(path: Seq<char>, endpoint: Seq<char>)
    requires
        endpoint == "params"@ || endpoint == "public-params"@ || endpoint == "query"@,
    ensures
        begins_with(path, "/v1/"@) && split_first(path.skip(4), '/') == Some(
            ("enhance"@, endpoint),
        ) <==> path == (if endpoint == "params"@ {
            "/v1/enhance/params"@
        } else if endpoint == "public-params"@ {
            "/v1/enhance/public-params"@
        } else {
            "/v1/enhance/query"@
        }),
        "/v1/"@.len() == 4,
{
    reveal_strlit("/v1/");
    reveal_strlit("enhance");
    reveal_strlit("params");
    reveal_strlit("public-params");
    reveal_strlit("query");
    reveal_strlit("/v1/enhance/params");
    reveal_strlit("/v1/enhance/public-params");
    reveal_strlit("/v1/enhance/query");
    let route = if endpoint == "params"@ {
        "/v1/enhance/params"@
    } else if endpoint == "public-params"@ {
        "/v1/enhance/public-params"@
    } else {
        "/v1/enhance/query"@
    };
    assert(route =~= "/v1/"@ + "enhance"@ + seq!['/'] + endpoint);
    if path == route {
        assert(path.take(4) =~= "/v1/"@);
        let rest = path.skip(4);
        lemma_first_at(rest, '/', 0, 7);
        assert(rest.take(7) =~= "enhance"@);
        assert(rest.skip(8) =~= endpoint);
    }
    if begins_with(path, "/v1/"@) && split_first(path.skip(4), '/') == Some(("enhance"@, endpoint)) {
        let rest = path.skip(4);
        let at = first_at(rest, '/', 0)->0;
        lemma_first_at_holds(rest, '/', 0);
        assert(rest.take(at).len() == at);
        assert(rest =~= rest.take(at) + seq!['/'] + rest.skip(at + 1));
        assert(path =~= path.take(4) + rest);
        assert(path =~= route);
    }
}

/// Label under which a request is counted; `None` for every request but those
/// of the client routes.
pub fn allowlisted_endpoint(method: RequestMethod, path: &str) -> (label: Option<&'static str>)
    ensures
        match label {
            Some(label) => endpoint_label(method, path@) == Some(label@),
            None => endpoint_label(method, path@) is None,
        },
{
    proof {
        lemma_enhance_paths(path@, "params"@);
        lemma_enhance_paths(path@, "public-params"@);
        lemma_enhance_paths(path@, "query"@);
        lemma_endpoints_differ();
    }
    if method == RequestMethod::Get && same_text(path, "/v1/health") {
        return Some("health");
    }
    if method == RequestMethod::Get && same_text(path, "/v1/enhance/generation") {
        return Some("generation");
    }
    let rest = match cut_prefix(path, "/v1/") {
        Some(rest) => rest,
        None => {
            return None;
        },
    };
    let (table, endpoint) = match split_once_at(rest.as_str(), '/') {
        Some(parts) => parts,
        None => {
            return None;
        },
    };
    let table = match DatabaseId::from_name(table.as_str()) {
        Ok(table) => table,
        Err(_) => {
            assert(DatabaseId::Enhance.wire_name() == "enhance"@);
            return None;
        },
    };
    let expected = if same_text(endpoint.as_str(), "query") {
        RequestMethod::Post
    } else {
        RequestMethod::Get
    };
    if method != expected {
        return None;
    }
    proof {
        assert(split_first(path@.skip(4), '/') == Some((table.wire_name(), endpoint@)));
        law_wire_names_round_trip(table, DatabaseId::Enhance);
    }
    table_endpoint(table, endpoint.as_str())
}

/// The endpoints and routes that the lookup tells apart are told apart.
proof fn lemma_endpoints_differ()
    ensures
        "params"@ != "query"@,
        "public-params"@ != "query"@,
        "params"@ != "public-params"@,
        "/v1/health"@ != "/v1/enhance/params"@,
        "/v1/health"@ != "/v1/enhance/public-params"@,
        "/v1/enhance/generation"@ != "/v1/enhance/params"@,
        "/v1/enhance/generation"@ != "/v1/enhance/public-params"@,
        "/v1/enhance/params"@ != "/v1/enhance/public-params"@,
        "/v1/enhance/params"@ != "/v1/enhance/query"@,
        "/v1/enhance/public-params"@ != "/v1/enhance/query"@,
{
    reveal_strlit("params");
    reveal_strlit("public-params");
    reveal_strlit("query");
    reveal_strlit("/v1/health");
    reveal_strlit("/v1/enhance/generation");
    reveal_strlit("/v1/enhance/params");
    reveal_strlit("/v1/enhance/public-params");
    reveal_strlit("/v1/enhance/query");
    assert("params"@.len() == 6 && "query"@.len() == 5 && "public-params"@.len() == 13);
    assert("/v1/health"@.len() == 10);
    assert("/v1/enhance/generation"@.len() == 22);
    assert("/v1/enhance/params"@.len() == 18);
    assert("/v1/enhance/public-params"@.len() == 25);
    assert("/v1/enhance/query"@.len() == 17);
}

/// The settings of all tables, of all workers and of all of a worker's shares are
/// those of each, one behind the other.
pub proof fn law_settings_of_all_are_those_of_each(
    tables: Seq<TableObservation>,
    workers: Seq<WorkerObservation>,
    worker: Seq<char>,
    shares: Seq<WorkerTableObservation>,
    protocol: Protocol,
)
    ensures
        all_table_settings(tables, protocol) == tables.map_values(
            |seen: TableObservation| table_settings(seen, protocol),
        ).flatten(),
        all_worker_settings(workers) == workers.map_values(
            |seen: WorkerObservation| worker_settings(seen),
        ).flatten(),
        all_share_settings(worker, shares) == shares.map_values(
            |share: WorkerTableObservation| share_settings(worker, share),
        ).flatten(),
{
    lemma_all_table_settings(tables, protocol);
    lemma_all_worker_settings(workers);
    lemma_all_share_settings(worker, shares);
}

proof fn lemma_all_table_settings(tables: Seq<TableObservation>, protocol: Protocol)
    ensures
        all_table_settings(tables, protocol) == tables.map_values(
            |seen: TableObservation| table_settings(seen, protocol),
        ).flatten(),
    decreases tables.len(),
{
    let each = |seen: TableObservation| table_settings(seen, protocol);
    let lists = tables.map_values(each);
    lists.lemma_flatten_and_flatten_alt_are_equivalent();
    if tables.len() > 0 {
        let head = tables.drop_last();
        lemma_all_table_settings(head, protocol);
        assert(lists.drop_last() =~= head.map_values(each));
        lists.drop_last().lemma_flatten_and_flatten_alt_are_equivalent();
    }
    assert(all_table_settings(tables, protocol) =~= lists.flatten());
}

proof fn lemma_all_worker_settings(workers: Seq<WorkerObservation>)
    ensures
        all_worker_settings(workers) == workers.map_values(
            |seen: WorkerObservation| worker_settings(seen),
        ).flatten(),
    decreases workers.len(),
{
    let each = |seen: WorkerObservation| worker_settings(seen);
    let lists = workers.map_values(each);
    lists.lemma_flatten_and_flatten_alt_are_equivalent();
    if workers.len() > 0 {
        let head = workers.drop_last();
        lemma_all_worker_settings(head);
        assert(lists.drop_last() =~= head.map_values(each));
        lists.drop_last().lemma_flatten_and_flatten_alt_are_equivalent();
    }
    assert(all_worker_settings(workers) =~= lists.flatten());
}

proof fn lemma_all_share_settings(worker: Seq<char>, shares: Seq<WorkerTableObservation>)
    ensures
        all_share_settings(worker, shares) == shares.map_values(
            |share: WorkerTableObservation| share_settings(worker, share),
        ).flatten(),
    decreases shares.len(),
{
    let each = |share: WorkerTableObservation| share_settings(worker, share);
    let lists = shares.map_values(each);
    lists.lemma_flatten_and_flatten_alt_are_equivalent();
    if shares.len() > 0 {
        let head = shares.drop_last();
        lemma_all_share_settings(worker, head);
        assert(lists.drop_last() =~= head.map_values(each));
        lists.drop_last().lemma_flatten_and_flatten_alt_are_equivalent();
    }
    assert(all_share_settings(worker, shares) =~= lists.flatten());
}

/// A gauge is set to the figure itself, or to the largest number that it can hold.
pub proof fn law_gauges_hold_the_figure(value: int)
    ensures
        clamped(value) <= value,
        clamped(value) <= 0x7fff_ffff_ffff_ffff,
        clamped(value) == value || clamped(value) == 0x7fff_ffff_ffff_ffff,
{
}

/// The endpoints that are counted are these five, each under its own label.
pub proof fn law_five_endpoints_are_counted(
    method: RequestMethod,
    path: Seq<char>,
    label: Seq<char>,
)
    ensures
        endpoint_label(method, path) == Some(label) <==> {
            ||| method is Get && path == "/v1/health"@ && label == "health"@
            ||| method is Get && path == "/v1/enhance/generation"@ && label == "generation"@
            ||| method is Get && path == "/v1/enhance/params"@ && label == "params"@
            ||| method is Get && path == "/v1/enhance/public-params"@ && label == "public_params"@
            ||| method is Post && path == "/v1/enhance/query"@ && label == "query"@
        },
{
    reveal_strlit("/v1/health");
    reveal_strlit("/v1/enhance/generation");
    reveal_strlit("/v1/enhance/params");
    reveal_strlit("/v1/enhance/public-params");
    assert("/v1/health"@.len() == 10);
    assert("/v1/enhance/generation"@.len() == 22);
    assert("/v1/enhance/params"@.len() == 18);
    assert("/v1/enhance/public-params"@.len() == 25);
}

} // verus!
