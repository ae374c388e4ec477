use pir_core::enhance::metrics::{
    allowlisted_endpoint, bucket_millis, clamp, record_observation, MetricFamily, RequestMethod,
};
use pir_core::enhance::observe::{
    ActiveShardsField, Observation, TableObservation, WorkerObservation, WorkerProbe,
    WorkerTableObservation,
};
use pir_core::enhance::status::CoordinatorPhase;
use pir_core::enhance::types::{enhance_layout, DatabaseId, Protocol};

fn protocol() -> Protocol {
    Protocol {
        revision: "revision".to_string(),
        network: "main".to_string(),
        pool: "ironwood".to_string(),
        enhance_setup_seed: 1,
        cold_setup_seed: 2,
        warm_setup_seed: 3,
        spend_row_bytes: 8_192,
        spend_shard_rows: 8_192,
        shards_per_worker: 6,
        confirmations: 10,
        activation_height: 3_428_143,
    }
}

#[test]
fn only_fixed_client_routes_are_labelled() {
    assert_eq!(
        allowlisted_endpoint(RequestMethod::Get, "/v1/health"),
        Some("health")
    );
    assert_eq!(
        allowlisted_endpoint(RequestMethod::Get, "/v1/enhance/generation"),
        Some("generation")
    );
    assert_eq!(
        allowlisted_endpoint(RequestMethod::Get, "/v1/enhance/public-params"),
        Some("public_params")
    );
    assert_eq!(
        allowlisted_endpoint(RequestMethod::Post, "/v1/enhance/query"),
        Some("query")
    );
    assert_eq!(
        allowlisted_endpoint(RequestMethod::Get, "/v1/enhance/query"),
        None
    );
    assert_eq!(
        allowlisted_endpoint(RequestMethod::Get, "/v1/generation"),
        None
    );
    assert_eq!(
        allowlisted_endpoint(RequestMethod::Get, "/v1/enhance/secret"),
        None
    );
    assert_eq!(
        allowlisted_endpoint(RequestMethod::Get, "/v1/enhance/../query"),
        None
    );
    assert_eq!(allowlisted_endpoint(RequestMethod::Get, "/metrics"), None);
    assert_eq!(allowlisted_endpoint(RequestMethod::Get, "/ready"), None);
}

fn empty(phase: CoordinatorPhase) -> Observation {
    Observation {
        phase: Some(phase),
        anchor_height: 0,
        generation: 0,
        ironwood_tree_size: 0,
        retained_generations: 0,
        tables: Vec::new(),
        worker_details: Vec::new(),
        worker_groups: Vec::new(),
    }
}

/// The value that a family is set to under some labels, by the last setting.
fn gauge(observation: &Observation, name: &str, labels: &[&str]) -> Option<i64> {
    record_observation(observation, &protocol())
        .iter()
        .rev()
        .find(|setting| setting.family.name() == name && setting.labels == labels)
        .map(|setting| setting.value)
}

#[test]
fn observation_populates_snapshot_gauges() {
    let syncing = empty(CoordinatorPhase::Syncing {
        current_height: 10,
        target_height: 20,
    });
    assert_eq!(gauge(&syncing, "enhance_snapshot_phase_code", &[]), Some(0));
    assert_eq!(
        gauge(&syncing, "enhance_snapshot_sync_current_height", &[]),
        Some(10)
    );
    assert_eq!(
        gauge(&syncing, "enhance_snapshot_sync_target_height", &[]),
        Some(20)
    );

    let enhance_layout = enhance_layout();
    let mut serving = empty(CoordinatorPhase::Serving);
    serving.anchor_height = 3_000_000;
    serving.generation = 3_000_000;
    serving.ironwood_tree_size = u64::MAX;
    serving.retained_generations = 2;
    serving.tables = vec![TableObservation {
        table: DatabaseId::Enhance,
        registered: true,
        pool_workers: 2,
        query_slots_available: 2,
        positions: 138_124,
        used_rows: 17_266,
        logical_rows: 32_768,
        shards: 3,
        sealed_shards: 2,
    }];
    serving.worker_details = vec![
        WorkerObservation {
            name: "worker-1".into(),
            index: 0,
            up: true,
            generation: 3_000_000,
            total_memory_bytes: 64 << 30,
            available_memory_bytes: 60 << 30,
            process_rss_bytes: 1 << 30,
            tables: vec![WorkerTableObservation {
                table: DatabaseId::Enhance,
                index: 0,
                assigned_shards: 2,
                populated_positions: 131_072,
                active_shards: 2,
            }],
        },
        WorkerObservation {
            name: "worker-2".into(),
            index: 1,
            up: false,
            generation: 0,
            total_memory_bytes: 0,
            available_memory_bytes: 0,
            process_rss_bytes: 0,
            tables: Vec::new(),
        },
    ];
    assert_eq!(gauge(&serving, "enhance_snapshot_phase_code", &[]), Some(2));
    assert_eq!(
        gauge(&serving, "enhance_snapshot_sync_current_height", &[]),
        Some(0)
    );
    assert_eq!(
        gauge(&serving, "enhance_snapshot_anchor_height", &[]),
        Some(3_000_000)
    );
    assert_eq!(
        gauge(&serving, "enhance_snapshot_ironwood_tree_size", &[]),
        Some(i64::MAX)
    );
    assert_eq!(
        gauge(&serving, "enhance_snapshot_retained_generations", &[]),
        Some(2)
    );
    let table = |name: &str| gauge(&serving, name, &["enhance"]);
    assert_eq!(table("enhance_table_registered"), Some(1));
    assert_eq!(table("enhance_table_shards"), Some(3));
    assert_eq!(table("enhance_table_sealed_shards"), Some(2));
    assert_eq!(
        table("enhance_table_shard_positions"),
        Some(enhance_layout.shard_positions() as i64)
    );
    assert_eq!(table("enhance_table_shards_per_worker"), Some(6));
    let worker = |name: &str, worker: &str| gauge(&serving, name, &[worker]);
    assert_eq!(worker("enhance_worker_up", "worker-1"), Some(1));
    assert_eq!(worker("enhance_worker_up", "worker-2"), Some(0));
    assert_eq!(worker("enhance_worker_index", "worker-2"), Some(1));
    assert_eq!(
        worker("enhance_worker_total_memory_bytes", "worker-1"),
        Some(64 << 30)
    );
    let share = |name: &str| {
        let family = MetricFamily::ALL
            .iter()
            .find(|family| family.name() == name)
            .unwrap();
        let values: Vec<&str> = family
            .scope()
            .labels()
            .iter()
            .map(|label| match *label {
                "table" => "enhance",
                "worker" => "worker-1",
                other => panic!("unexpected label {other}"),
            })
            .collect();
        gauge(&serving, name, &values)
    };
    assert_eq!(share("enhance_worker_table_assigned_shards"), Some(2));
    assert_eq!(share("enhance_worker_table_index"), Some(0));
    assert_eq!(gauge(&serving, "enhance_layout_confirmations", &[]), Some(10));
    for absent in ["enhance_layout_shard_positions", "enhance_snapshot_workers"] {
        assert!(MetricFamily::ALL.iter().all(|family| family.name() != absent));
    }
}

#[test]
fn every_setting_has_a_value_for_each_label() {
    let observation = empty(CoordinatorPhase::Serving);
    for setting in record_observation(&observation, &protocol()) {
        assert_eq!(setting.labels.len(), setting.family.scope().labels().len());
    }
}

#[test]
fn family_names_are_distinct_and_described() {
    for (i, family) in MetricFamily::ALL.iter().enumerate() {
        assert!(family.name().starts_with("enhance_"));
        assert!(!family.help().is_empty());
        for other in &MetricFamily::ALL[i + 1..] {
            assert_ne!(family.name(), other.name());
        }
    }
    let bounds = bucket_millis();
    assert!(bounds.windows(2).all(|pair| pair[0] < pair[1]));
}

#[test]
fn large_counts_are_clamped() {
    assert_eq!(clamp(7), 7);
    assert_eq!(clamp(u64::MAX), i64::MAX);
}

#[test]
fn a_probe_reads_the_newest_shard_counts() {
    let per_table = ActiveShardsField::PerTable(vec![("enhance".to_string(), 4)]);
    let probe = WorkerProbe::from_health(Some("ok"), Some(9), &per_table, Some(64), None, None);
    assert!(probe.up);
    assert_eq!(probe.generation, 9);
    assert_eq!(probe.active_shards.get(DatabaseId::Enhance), 4);
    assert_eq!(probe.total_memory_bytes, 64);
    assert_eq!(probe.available_memory_bytes, 0);
    let bare = ActiveShardsField::Bare(3);
    let probe = WorkerProbe::from_health(Some("ok"), None, &bare, None, None, None);
    assert_eq!(probe.active_shards.get(DatabaseId::Enhance), 3);
    assert_eq!(probe.active_shards.get(DatabaseId::TransparentSpendCold), 0);
    assert!(!WorkerProbe::down().up);
}
