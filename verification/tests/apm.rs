use pir_core::apm::arrange::arranged;
use pir_core::apm::config::{
    latency_number, listen_text, override_numbers, Config, ConfigError, Outside, Settings,
};
use pir_core::apm::dashboard::{
    error_cell, holders_of, latency_cell, render, table_capacity_meter, worker_ram_line, Budget,
    CapacityFigures, DashboardData, EndpointRow, Failures, Gauges, HostView, LatencyView,
    MemoryView, Percent, Reading, ScrapeTime, ShareView, TableView, Totals, WorkerShares,
    WorkerView,
};
use pir_core::apm::exposition::{
    endpoint_entry, find_label, parse_line, parse_prometheus, Family, ParsedSample, Scrape,
    Update, MAX_ENDPOINTS,
};
use pir_core::apm::html::{escape, humanize_gauge, meter, relative_time};
use pir_core::apm::metrics::{
    counts_from_zero, matching_bucket, pick_quantile, process_generation_changed, window_names,
    QuantilePick, RollingMetrics, Timed,
};
use pir_core::apm::number::ordered_before;
use pir_core::apm::schema::{Schema, DEFAULT_LATENCY_P99};
use pir_core::names::{NameMap, NameSet};
use std::cmp::Ordering;
use std::collections::BTreeMap;

#[derive(Clone, Debug, Default)]
struct HistogramCumulative {
    buckets: Vec<(f64, f64)>,
    sum: f64,
    count: f64,
}

#[derive(Clone, Debug, Default)]
struct EndpointCumulative {
    requests: f64,
    errors_5xx: f64,
    observed: HistogramCumulative,
    processing: HistogramCumulative,
    in_flight: f64,
    processing_in_flight: f64,
}

type Values = BTreeMap<String, f64>;

#[derive(Clone, Debug, Default)]
struct MetricsSnapshot {
    endpoints: BTreeMap<String, EndpointCumulative>,
    snapshot_gauges: Values,
    workers: BTreeMap<String, Values>,
    layout: Values,
    tables: BTreeMap<String, Values>,
    worker_tables: BTreeMap<String, BTreeMap<String, Values>>,
    worker_groups: BTreeMap<String, BTreeMap<String, Values>>,
    resident_memory_bytes: Option<f64>,
    process_start_time_seconds: Option<f64>,
}

/// The numbers of a scrape. The library has checked that each text is one.
fn snapshot_of(scrape: &Scrape) -> MetricsSnapshot {
    let mut snapshot = MetricsSnapshot {
        endpoints: scrape
            .endpoints
            .iter()
            .map(|name| (name.clone(), EndpointCumulative::default()))
            .collect(),
        ..Default::default()
    };
    for update in &scrape.updates {
        let value: f64 = update.value.parse().unwrap_or(f64::NAN);
        apply(&mut snapshot, update, value);
    }
    for endpoint in snapshot.endpoints.values_mut() {
        sort_buckets(&mut endpoint.observed.buckets);
        sort_buckets(&mut endpoint.processing.buckets);
    }
    snapshot
}

fn sort_buckets(buckets: &mut [(f64, f64)]) {
    buckets.sort_by(|(left, _), (right, _)| {
        if ordered_before(left.to_bits(), right.to_bits()) {
            Ordering::Less
        } else if ordered_before(right.to_bits(), left.to_bits()) {
            Ordering::Greater
        } else {
            Ordering::Equal
        }
    });
}

fn apply(snapshot: &mut MetricsSnapshot, update: &Update, value: f64) {
    let subject = update.subject.clone();
    let stem = update.stem.clone();
    if let Some(endpoint) = snapshot.endpoints.get_mut(&update.subject) {
        let bound = if update.stem == "+Inf" {
            f64::INFINITY
        } else {
            update.stem.parse().unwrap_or(f64::NAN)
        };
        match update.family {
            Family::Requests => {
                endpoint.requests += value;
                if update.server_error {
                    endpoint.errors_5xx += value;
                }
            }
            Family::ObservedBucket => endpoint.observed.buckets.push((bound, value)),
            Family::ObservedSum => endpoint.observed.sum = value,
            Family::ObservedCount => endpoint.observed.count = value,
            Family::ProcessingBucket => endpoint.processing.buckets.push((bound, value)),
            Family::ProcessingSum => endpoint.processing.sum = value,
            Family::ProcessingCount => endpoint.processing.count = value,
            Family::InFlight => endpoint.in_flight = value,
            Family::ProcessingInFlight => endpoint.processing_in_flight = value,
            _ => {}
        }
    }
    match update.family {
        Family::ResidentMemory => snapshot.resident_memory_bytes = Some(value),
        Family::StartTime => snapshot.process_start_time_seconds = Some(value),
        Family::SnapshotGauge => {
            snapshot.snapshot_gauges.insert(stem, value);
        }
        Family::WorkerGroup => {
            let groups = snapshot.worker_groups.entry(subject).or_default();
            let group = groups.entry(update.part.clone()).or_default();
            group.insert(stem, value);
        }
        Family::WorkerTable => {
            let tables = snapshot.worker_tables.entry(subject).or_default();
            let table = tables.entry(update.part.clone()).or_default();
            table.insert(stem, value);
        }
        Family::Table => {
            snapshot.tables.entry(subject).or_default().insert(stem, value);
        }
        Family::Worker => {
            snapshot.workers.entry(subject).or_default().insert(stem, value);
        }
        Family::Layout => {
            snapshot.layout.insert(stem, value);
        }
        _ => {}
    }
}

#[derive(Clone, Debug, Default)]
struct LatencyWindow {
    samples: f64,
    p50: Option<f64>,
    p95: Option<f64>,
    p99: Option<f64>,
}

#[derive(Clone, Debug, Default)]
struct EndpointWindow {
    qps: f64,
    requests: f64,
    errors_5xx: f64,
    error_ratio: f64,
    observed: LatencyWindow,
    processing: LatencyWindow,
    in_flight: f64,
    processing_in_flight: f64,
    processing_available: bool,
}

impl EndpointWindow {
    /// The distribution that the endpoint is paged on.
    fn alert_latency(&self, uses_processing: bool) -> &LatencyWindow {
        if uses_processing {
            &self.processing
        } else {
            &self.observed
        }
    }
}

fn windows(
    schema: &Schema,
    rolling: &RollingMetrics<MetricsSnapshot>,
) -> BTreeMap<String, EndpointWindow> {
    let (Some(newest), Some(oldest)) = (rolling.latest(), rolling.oldest_index()) else {
        return BTreeMap::new();
    };
    let nanos = newest.at_nanos.saturating_sub(rolling.snapshot(oldest).at_nanos);
    let elapsed = (nanos as f64 / 1e9).max(1.0);
    let seen: Vec<String> = newest.scrape.endpoints.keys().cloned().collect();
    window_names(schema, &seen)
        .into_iter()
        .map(|name| {
            let current = endpoint(newest, &name);
            let mut requests = 0.0;
            let mut errors = 0.0;
            for index in oldest + 1..rolling.len() {
                let (previous, next) = (rolling.snapshot(index - 1), rolling.snapshot(index));
                let reset = restarted(previous, next);
                let (before, after) = (endpoint(previous, &name), endpoint(next, &name));
                requests += counter_delta(after.requests, before.requests, reset);
                errors += counter_delta(after.errors_5xx, before.errors_5xx, reset);
            }
            let window = EndpointWindow {
                qps: requests / elapsed,
                requests,
                errors_5xx: errors,
                error_ratio: if requests > 0.0 { errors / requests } else { 0.0 },
                observed: latency_window(rolling, oldest, &name, |values| &values.observed),
                processing: latency_window(rolling, oldest, &name, |values| &values.processing),
                in_flight: current.in_flight,
                processing_in_flight: current.processing_in_flight,
                processing_available: current.processing.count > 0.0,
            };
            (name, window)
        })
        .collect()
}

fn endpoint(snapshot: &Timed<MetricsSnapshot>, name: &str) -> EndpointCumulative {
    snapshot.scrape.endpoints.get(name).cloned().unwrap_or_default()
}

fn restarted(previous: &Timed<MetricsSnapshot>, next: &Timed<MetricsSnapshot>) -> bool {
    process_generation_changed(
        previous.scrape.process_start_time_seconds.map(f64::to_bits),
        next.scrape.process_start_time_seconds.map(f64::to_bits),
    )
}

fn counter_delta(current: f64, previous: f64, reset: bool) -> f64 {
    if counts_from_zero(current.to_bits(), previous.to_bits(), reset) {
        current
    } else {
        current - previous
    }
}

fn bounds(buckets: &[(f64, f64)]) -> Vec<u64> {
    buckets.iter().map(|(upper, _)| upper.to_bits()).collect()
}

fn bucket_value(buckets: &[(f64, f64)], upper: f64) -> f64 {
    matching_bucket(&bounds(buckets), upper.to_bits()).map_or(0.0, |place| buckets[place].1)
}

fn histogram_delta(current: &[(f64, f64)], previous: &[(f64, f64)]) -> Vec<(f64, f64)> {
    current
        .iter()
        .map(|(upper, value)| {
            let old = bucket_value(previous, *upper);
            (*upper, counter_delta(*value, old, false))
        })
        .collect()
}

fn histogram_quantile(q: f64, buckets: &[(f64, f64)], count: f64) -> Option<f64> {
    if !(0.0..=1.0).contains(&q) || count <= 0.0 || buckets.is_empty() {
        return None;
    }
    let rank = q * count;
    let counts: Vec<u64> = buckets.iter().map(|(_, count)| count.to_bits()).collect();
    let bound = |place: Option<usize>| place.map_or(0.0, |place| buckets[place].0);
    Some(match pick_quantile(&bounds(buckets), &counts, rank.to_bits()) {
        QuantilePick::At(place) => bound(place),
        QuantilePick::Inside { bucket, lower } => {
            let below = if bucket == 0 { 0.0 } else { buckets[bucket - 1].1 };
            let lower = bound(lower);
            let (upper, reached) = buckets[bucket];
            lower + (upper - lower) * (rank - below) / (reached - below)
        }
    })
}

fn latency_window(
    rolling: &RollingMetrics<MetricsSnapshot>,
    oldest: usize,
    name: &str,
    histogram: fn(&EndpointCumulative) -> &HistogramCumulative,
) -> LatencyWindow {
    let current = rolling
        .latest()
        .map(|snapshot| endpoint(snapshot, name))
        .unwrap_or_default();
    let mut buckets: Vec<(f64, f64)> = histogram(&current)
        .buckets
        .iter()
        .map(|(upper, _)| (*upper, 0.0))
        .collect();
    let mut samples = 0.0;
    for index in oldest + 1..rolling.len() {
        let (previous, next) = (rolling.snapshot(index - 1), rolling.snapshot(index));
        let (before, after) = (endpoint(previous, name), endpoint(next, name));
        let (before, after) = (histogram(&before), histogram(&after));
        // A histogram starts over as one family, not bucket by bucket.
        let reset = counts_from_zero(
            after.count.to_bits(),
            before.count.to_bits(),
            restarted(previous, next),
        );
        samples += counter_delta(after.count, before.count, reset);
        let delta = if reset {
            after.buckets.clone()
        } else {
            histogram_delta(&after.buckets, &before.buckets)
        };
        for (upper, total) in &mut buckets {
            *total += bucket_value(&delta, *upper);
        }
    }
    LatencyWindow {
        samples,
        p50: histogram_quantile(0.50, &buckets, samples),
        p95: histogram_quantile(0.95, &buckets, samples),
        p99: histogram_quantile(0.99, &buckets, samples),
    }
}

/// Share of failed requests at which the error bar is full.
const HTTP_5XX_RATIO: f64 = 0.05;

fn format_number(value: f64) -> String {
    if value.fract() == 0.0 {
        format!("{value:.0}")
    } else {
        format!("{value:.3}")
    }
}

fn reading(value: f64) -> Reading {
    Reading {
        bits: value.to_bits(),
        text: format_number(value),
    }
}

fn gauges(values: &Values) -> Gauges {
    let mut gauges = Gauges::new();
    for (name, value) in values {
        gauges.insert(name.clone(), reading(*value));
    }
    gauges
}

fn latency(window: &LatencyWindow) -> LatencyView {
    let seconds = |value: Option<f64>| {
        value.map(|value| Reading {
            bits: value.to_bits(),
            text: format!("{value:.3}"),
        })
    };
    LatencyView {
        samples: format!("{:.0}", window.samples),
        p50: seconds(window.p50),
        p95: seconds(window.p95),
        p99: seconds(window.p99),
    }
}

fn failures(window: &EndpointWindow) -> Option<Failures> {
    let count = window.errors_5xx.round();
    if count <= 0.0 {
        return None;
    }
    let fill = ((window.error_ratio / HTTP_5XX_RATIO) * 100.0).clamp(4.0, 100.0);
    Some(Failures {
        count: format!("{count:.0}"),
        ratio_percent: format!("{:.2}", window.error_ratio * 100.0),
        fill_percent: format!("{fill:.0}"),
    })
}

fn rows(schema: &Schema, windows: &BTreeMap<String, EndpointWindow>) -> Vec<EndpointRow> {
    let seen: Vec<String> = windows.keys().cloned().collect();
    window_names(schema, &seen)
        .into_iter()
        .map(|name| {
            let window = windows.get(&name).cloned().unwrap_or_default();
            let threshold =
                f64::from_bits(schema.latency_budget(&name).unwrap_or(DEFAULT_LATENCY_P99));
            EndpointRow {
                qps: format!("{:.3}", window.qps),
                in_flight: format!("{:.0}", window.in_flight),
                requests: format!("{:.0}", window.requests),
                failures: failures(&window),
                observed: latency(&window.observed),
                processing: latency(&window.processing),
                processing_in_flight: format!("{:.0}", window.processing_in_flight),
                processing_available: window.processing_available,
                warn_level: (threshold * 0.6).to_bits(),
                threshold_text: format!("{threshold:.3}"),
                name,
            }
        })
        .collect()
}

fn totals(schema: &Schema, windows: &BTreeMap<String, EndpointWindow>) -> Totals {
    let seen: Vec<String> = windows.keys().cloned().collect();
    let names = window_names(schema, &seen);
    let ordered = names.iter().filter_map(|name| windows.get(name));
    let qps: f64 = ordered.clone().map(|window| window.qps).sum();
    let errors = ordered.map(|window| window.errors_5xx).sum::<f64>().round();
    Totals {
        qps: format!("{qps:.3}"),
        errors: format!("{errors:.0}"),
        has_errors: errors > 0.0,
    }
}

fn percent(ratio: f64) -> Percent {
    let percent = (ratio * 100.0).clamp(0.0, 100.0);
    Percent {
        whole: format!("{percent:.0}"),
        tenth: format!("{percent:.1}"),
    }
}

/// `shards a–b` for a position of a pool, or nothing where it is not known.
fn owned_shards(index: Option<f64>, per_worker: Option<f64>) -> String {
    match (index, per_worker) {
        (Some(index), Some(per_worker)) if per_worker >= 1.0 => {
            let first = index * per_worker;
            let last = first + per_worker - 1.0;
            if per_worker == 1.0 {
                format!("shard {}", format_number(first))
            } else {
                format!("shards {}&ndash;{}", format_number(first), format_number(last))
            }
        }
        _ => String::new(),
    }
}

fn capacity(table: &Values) -> Option<CapacityFigures> {
    let pool = table.get("pool_workers")?;
    let per_worker = table.get("shards_per_worker")?;
    let shard_positions = table.get("shard_positions")?;
    let positions = table.get("positions")?;
    let shard_capacity = pool * per_worker;
    let position_capacity = shard_capacity * shard_positions;
    let ratio = positions / position_capacity;
    let shown = percent(ratio);
    Some(CapacityFigures {
        positions: format_number(*positions),
        position_capacity: format_number(position_capacity),
        shards_used: format_number((positions / shard_positions).ceil()),
        shard_capacity: format_number(shard_capacity),
        ratio: ratio.to_bits(),
        whole_percent: shown.whole,
        percent: shown.tenth,
    })
}

fn memory(worker: &Values) -> Option<MemoryView> {
    let total = *worker.get("total_memory_bytes")?;
    let available = *worker.get("available_memory_bytes")?;
    Some(MemoryView {
        has_total: !(total <= 0.0),
        total_bytes: total as u64,
        has_available: !(available <= 0.0),
        available_bytes: available as u64,
        used_bytes: (total - available).max(0.0) as u64,
        rss_bytes: worker
            .get("process_rss_bytes")
            .filter(|value| **value > 0.0)
            .map(|value| *value as u64),
    })
}

fn shares(snapshot: &MetricsSnapshot, worker: &str) -> Vec<ShareView> {
    let Some(tables) = snapshot.worker_tables.get(worker) else {
        return Vec::new();
    };
    arranged(
        tables
            .iter()
            .map(|(table, share)| {
                let per_worker = snapshot
                    .tables
                    .get(table)
                    .and_then(|table| table.get("shards_per_worker").copied());
                let index = share.get("index").copied();
                ShareView {
                    table: table.clone(),
                    index: index.map(f64::to_bits),
                    owned: owned_shards(index, per_worker),
                    assigned: format_number(share.get("assigned_shards").copied().unwrap_or(0.0)),
                    positions: format_number(
                        share.get("populated_positions").copied().unwrap_or(0.0),
                    ),
                }
            })
            .collect(),
    )
}

/// Puts what a scrape tells on the page.
fn show_scrape(data: &mut DashboardData, snapshot: &MetricsSnapshot) {
    data.snapshot_gauges = gauges(&snapshot.snapshot_gauges);
    data.layout = gauges(&snapshot.layout);
    data.resident_memory_bytes = snapshot.resident_memory_bytes.map(|bytes| bytes as u64);
    data.workers = arranged(
        snapshot
            .workers
            .iter()
            .map(|(name, worker)| WorkerView {
                name: name.clone(),
                index: worker.get("index").copied().unwrap_or(f64::INFINITY).to_bits(),
                up: worker.get("up").copied().map(f64::to_bits),
                generation: worker.get("generation").copied().unwrap_or(0.0).to_bits(),
                shares: shares(snapshot, name),
                memory: memory(worker),
            })
            .collect(),
    );
    let pools: Vec<WorkerShares> = snapshot
        .worker_tables
        .keys()
        .map(|worker| WorkerShares {
            worker: worker.clone(),
            shares: shares(snapshot, worker),
        })
        .collect();
    data.tables = arranged(
        snapshot
            .tables
            .iter()
            .map(|(name, table)| TableView {
                name: name.clone(),
                gauges: gauges(table),
                capacity: capacity(table),
                holders: arranged(holders_of(&pools, name)),
            })
            .collect(),
    );
    let per_worker = data
        .tables
        .iter()
        .find_map(|table| snapshot.tables[&table.name].get("shards_per_worker"))
        .copied()
        .unwrap_or(0.0);
    data.last_shard = format_number(per_worker - 1.0);
}

/// State of the host, as it was measured.
#[derive(Clone, Debug, Default)]
struct HostHealth {
    load_one: f64,
    load_five: f64,
    load_fifteen: f64,
    total_memory_bytes: u64,
    available_memory_bytes: u64,
    disk_total_bytes: u64,
    disk_available_bytes: u64,
    disk_used_ratio: f64,
    data_dir: String,
}

fn host(health: &HostHealth) -> HostView {
    let memory_used = if health.total_memory_bytes > 0 {
        1.0 - health.available_memory_bytes as f64 / health.total_memory_bytes as f64
    } else {
        0.0
    };
    HostView {
        load_one: format!("{:.2}", health.load_one),
        load_five: format!("{:.2}", health.load_five),
        load_fifteen: format!("{:.2}", health.load_fifteen),
        total_memory_bytes: health.total_memory_bytes,
        available_memory_bytes: health.available_memory_bytes,
        memory_used: percent(memory_used),
        disk_total_bytes: health.disk_total_bytes,
        disk_available_bytes: health.disk_available_bytes,
        disk_used_ratio: health.disk_used_ratio.to_bits(),
        disk_used: percent(health.disk_used_ratio),
        data_dir: health.data_dir.clone(),
    }
}

fn bits(value: f64) -> Option<u64> {
    Some(value.to_bits())
}

#[test]
fn builds_family_names_from_the_prefix() {
    let schema = Schema::enhance_default();
    assert_eq!(schema.requests_total, "enhance_http_requests_total");
    assert_eq!(
        schema.processing_bucket,
        "enhance_http_request_processing_duration_seconds_bucket"
    );
    assert_eq!(schema.gauge_prefix, "enhance_snapshot_");
    assert_eq!(schema.worker_prefix, "enhance_worker_");
    assert_eq!(schema.layout_prefix, "enhance_layout_");
    assert_eq!(schema.latency_budget("query"), bits(5.0));
    assert_eq!(schema.latency_budget("metadata"), bits(1.0));
    assert_eq!(schema.latency_budget("witness_query"), bits(1.0));
    assert_eq!(schema.latency_budget("health"), None);
    assert!(schema.is_informational("health"));
    assert_eq!(schema.table_prefix, "enhance_table_");
    assert_eq!(schema.worker_table_prefix, "enhance_worker_table_");
    assert_eq!(schema.worker_group_prefix, "enhance_worker_group_");
    assert_eq!(
        schema.worker_replica_requests_total,
        "enhance_worker_replica_requests_total"
    );
    assert_eq!(
        schema.worker_replica_duration_bucket,
        "enhance_worker_replica_request_duration_seconds_bucket"
    );
    assert_eq!(
        schema.worker_replica_in_flight,
        "enhance_worker_replica_in_flight"
    );
    assert_eq!(schema.observed_budget("query"), None);
}

fn names(list: &[&str]) -> Vec<String> {
    list.iter().map(|name| name.to_string()).collect()
}

fn made(
    prefix: &str,
    endpoints: &[&str],
    processing: &[&str],
    overrides: &[(&str, f64)],
) -> Result<Schema, String> {
    let mut budgets = NameMap::new();
    for (name, seconds) in overrides {
        budgets.insert(name.to_string(), seconds.to_bits());
    }
    Schema::new(
        prefix,
        names(endpoints),
        NameSet::from_list(&names(processing)),
        NameSet::new(),
        1.0f64.to_bits(),
        budgets,
    )
}

#[test]
fn rejects_inconsistent_definitions() {
    assert!(made("Bad-Prefix", &["a"], &[], &[]).is_err());
    assert!(made("ok", &[], &[], &[]).is_err());
    assert!(made("ok", &["a"], &["Bad Name"], &[]).is_err());
    // An override for an endpoint that is not configured is fine (it may be
    // discovered later); a malformed name is not.
    assert!(made("ok", &["a"], &[], &[("b", 1.0)]).is_ok());
    assert!(made("ok", &["a"], &[], &[("Bad Name", 1.0)]).is_err());
    assert!(made("ok", &["a"], &[], &[("a", 0.0)]).is_err());
    assert!(made("ok", &["a", "a"], &[], &[]).is_err());
    assert!(made("ok", &["a"], &[], &[]).is_ok());
}

/// Reads settings, with the numbers and the address tried by the standard
/// library.
fn config(pairs: &[(&str, &str)]) -> Result<Config, ConfigError> {
    let mut vars = Settings::new();
    for (name, value) in pairs {
        vars.insert(name.to_string(), value.to_string());
    }
    let number = |text: &String| text.parse::<f64>().unwrap_or(f64::NAN).to_bits();
    let listen = listen_text(&vars);
    let outside = Outside {
        listen_valid: listen.starts_with("127.0.0.1:"),
        latency_bits: latency_number(&vars).map_or(0, |text| number(&text)),
        override_bits: override_numbers(&vars).iter().map(number).collect(),
        host_name: None,
    };
    Config::from_map(&vars, &outside)
}

#[test]
fn defaults_describe_the_enhance_coordinator() {
    let config = config(&[]).unwrap();
    assert_eq!(config.scrape_url, "http://127.0.0.1:8080");
    assert_eq!(config.health_path, "/v1/health");
    assert_eq!(config.ready_path, "/ready");
    assert_eq!(config.metrics_path, "/metrics");
    let default = Schema::enhance_default();
    assert_eq!(config.schema.prefix, default.prefix);
    assert_eq!(config.schema.endpoints, default.endpoints);
    assert_eq!(
        config.schema.default_latency_p99,
        default.default_latency_p99
    );
    for endpoint in ["health", "init", "query", "metadata"] {
        assert_eq!(
            config.schema.uses_processing(endpoint),
            default.uses_processing(endpoint)
        );
        assert_eq!(
            config.schema.is_informational(endpoint),
            default.is_informational(endpoint)
        );
        assert_eq!(
            config.schema.latency_budget(endpoint),
            default.latency_budget(endpoint)
        );
    }
    assert_eq!(config.title, "Enhance PIR APM");
    assert!(config.slack_webhook_url.is_none());
    assert_eq!(config.interval_seconds, 15);
}

#[test]
fn env_overrides_the_schema() {
    let config = config(&[
        ("PIR_APM_METRIC_PREFIX", "nf"),
        ("PIR_APM_ENDPOINTS", "tier0, params_tier1,tier1_query"),
        ("PIR_APM_PROCESSING_ENDPOINTS", "tier1_query"),
        ("PIR_APM_LATENCY_P99_SECONDS", "0.5"),
        ("PIR_APM_LATENCY_P99_OVERRIDES", "tier0=1.0, tier1_query=2"),
        ("PIR_APM_HEALTH_PATH", "/health"),
        ("PIR_APM_SCRAPE_URL", "http://127.0.0.1:3000/"),
        ("PIR_APM_SLACK_WEBHOOK_URL", "   "),
    ])
    .unwrap();
    assert_eq!(config.scrape_url, "http://127.0.0.1:3000");
    assert_eq!(config.schema.requests_total, "nf_http_requests_total");
    assert_eq!(
        config.schema.endpoints,
        ["tier0", "params_tier1", "tier1_query"]
    );
    assert_eq!(config.schema.latency_budget("params_tier1"), bits(0.5));
    assert_eq!(config.schema.latency_budget("tier1_query"), bits(2.0));
    assert!(config.schema.uses_processing("tier1_query"));
    assert!(config.schema.is_informational("health"));
    assert_eq!(config.health_path, "/health");
    assert!(config.slack_webhook_url.is_none());
}

#[test]
fn production_env_block_parses() {
    let config = config(&[
        ("PIR_APM_HEALTH_PATH", "/v1/health"),
        ("PIR_APM_ENDPOINTS", "health,init,query"),
        ("PIR_APM_INFORMATIONAL_ENDPOINTS", "health"),
        ("PIR_APM_PROCESSING_ENDPOINTS", "query"),
        ("PIR_APM_LATENCY_P99_SECONDS", "1.0"),
        ("PIR_APM_LATENCY_P99_OVERRIDES", "query=5.0,init=2.0"),
    ])
    .unwrap();
    assert_eq!(config.schema.latency_budget("init"), bits(2.0));
    assert!(config.schema.uses_processing("query"));
}

#[test]
fn rejects_bad_values() {
    assert!(config(&[("PIR_APM_INTERVAL_SECONDS", "0")]).is_err());
    assert!(config(&[("PIR_APM_LISTEN", "nope")]).is_err());
    assert!(config(&[("PIR_APM_READY_PATH", "ready")]).is_err());
    assert!(config(&[("PIR_APM_LATENCY_P99_OVERRIDES", "query")]).is_err());
    assert!(config(&[("PIR_APM_LATENCY_P99_OVERRIDES", "Bad=1")]).is_err());
    assert!(config(&[("PIR_APM_LATENCY_P99_OVERRIDES", "nope=1")]).is_ok());
    assert!(config(&[("PIR_APM_PROCESSING_ENDPOINTS", "no pe")]).is_err());
    assert!(config(&[("PIR_APM_INFORMATIONAL_ENDPOINTS", "Bad")]).is_err());
    assert!(config(&[("PIR_APM_ENDPOINTS", "Bad Name")]).is_err());
    assert_eq!(
        config(&[("PIR_APM_ENDPOINTS", "Bad Name")])
            .unwrap_err()
            .message(),
        "invalid PIR_APM metric schema"
    );
}

fn read(schema: &Schema, text: &str) -> MetricsSnapshot {
    snapshot_of(&parse_prometheus(schema, text).unwrap())
}

fn label(sample: &ParsedSample, key: &str) -> String {
    find_label(&sample.labels, key).unwrap()
}

fn timed(
    seconds: u64,
    endpoints: BTreeMap<String, EndpointCumulative>,
    process_start_time_seconds: Option<f64>,
) -> Timed<MetricsSnapshot> {
    Timed {
        at_nanos: seconds * 1_000_000_000,
        scrape: MetricsSnapshot {
            endpoints,
            process_start_time_seconds,
            ..Default::default()
        },
    }
}

fn sample_of(endpoint: String) -> ParsedSample {
    ParsedSample {
        name: "x".to_string(),
        labels: vec![("endpoint".to_string(), endpoint)],
        value: "1".to_string(),
    }
}

#[test]
fn parses_required_prometheus_families_and_labels() {
    let text = r#"
# HELP ignored comment
enhance_http_requests_total{endpoint="metadata",method="GET",status="200"} 90
enhance_http_requests_total{endpoint="metadata",method="GET",status="503"} 10
enhance_http_request_duration_seconds_bucket{endpoint="metadata",le="0.5"} 60
enhance_http_request_duration_seconds_bucket{endpoint="metadata",le="1"} 95
enhance_http_request_duration_seconds_bucket{endpoint="metadata",le="+Inf"} 100
enhance_http_request_duration_seconds_sum{endpoint="metadata"} 40
enhance_http_request_duration_seconds_count{endpoint="metadata"} 100
enhance_http_in_flight{endpoint="metadata"} 3
enhance_http_request_processing_duration_seconds_bucket{endpoint="query",le="0.5"} 9
enhance_http_request_processing_duration_seconds_bucket{endpoint="query",le="+Inf"} 10
enhance_http_request_processing_duration_seconds_sum{endpoint="query"} 2
enhance_http_request_processing_duration_seconds_count{endpoint="query"} 10
enhance_http_processing_in_flight{endpoint="query"} 2
enhance_snapshot_anchor_height 123
enhance_snapshot_generation 124
nf_snapshot_ignored 1
enhance_worker_up{worker="worker-1"} 1
enhance_worker_up{worker="worker-2"} 0
enhance_worker_assigned_shards{worker="worker-1"} 2
enhance_layout_confirmations 10
enhance_table_registered{table="action"} 1
enhance_table_shards{table="action"} 3
enhance_worker_table_index{table="action",worker="worker-1"} 0
enhance_worker_table_assigned_shards{table="action",worker="worker-1"} 2
enhance_worker_group_configured_replicas{table="action",group="group-1"} 2
enhance_worker_group_ready_replicas{table="action",group="group-1"} 1
enhance_http_requests_total{endpoint="witness_query",method="POST",status="200"} 5
enhance_http_request_processing_duration_seconds_count{endpoint="witness_query"} 5
enhance_http_requests_total{endpoint="Bad Label",method="GET",status="200"} 1
process_resident_memory_bytes 1048576
process_start_time_seconds 1787880000
"#;
    let parsed = read(&Schema::enhance_default(), text);
    let metadata = &parsed.endpoints["metadata"];
    assert_eq!(metadata.requests, 100.0);
    assert_eq!(metadata.errors_5xx, 10.0);
    assert_eq!(metadata.in_flight, 3.0);
    assert_eq!(metadata.observed.sum, 40.0);
    assert_eq!(metadata.observed.count, 100.0);
    assert_eq!(metadata.observed.buckets.len(), 3);
    let query = &parsed.endpoints["query"];
    assert_eq!(query.processing.sum, 2.0);
    assert_eq!(query.processing.count, 10.0);
    assert_eq!(query.processing_in_flight, 2.0);
    assert_eq!(
        parsed.snapshot_gauges["enhance_snapshot_anchor_height"],
        123.0
    );
    assert_eq!(parsed.snapshot_gauges.len(), 2);
    assert_eq!(parsed.workers["worker-1"]["up"], 1.0);
    assert_eq!(parsed.workers["worker-1"]["assigned_shards"], 2.0);
    assert_eq!(parsed.workers["worker-2"]["up"], 0.0);
    assert!(!parsed.snapshot_gauges.contains_key("enhance_worker_up"));
    assert_eq!(parsed.layout["confirmations"], 10.0);
    assert_eq!(parsed.tables["action"]["registered"], 1.0);
    assert_eq!(parsed.tables["action"]["shards"], 3.0);
    assert_eq!(
        parsed.worker_groups["action"]["group-1"]["configured_replicas"],
        2.0
    );
    assert_eq!(
        parsed.worker_groups["action"]["group-1"]["ready_replicas"],
        1.0
    );
    assert_eq!(parsed.worker_tables["worker-1"]["action"]["index"], 0.0);
    assert_eq!(
        parsed.worker_tables["worker-1"]["action"]["assigned_shards"],
        2.0
    );
    assert!(!parsed.workers["worker-1"].contains_key("table_index"));
    // Discovered endpoint: not configured, but labelled by the server.
    assert_eq!(parsed.endpoints["witness_query"].requests, 5.0);
    assert_eq!(parsed.endpoints["witness_query"].processing.count, 5.0);
    assert!(!parsed.endpoints.contains_key("Bad Label"));
    assert_eq!(parsed.resident_memory_bytes, Some(1_048_576.0));
    assert_eq!(parsed.process_start_time_seconds, Some(1_787_880_000.0));
}

#[test]
fn a_repeated_endpoint_is_configured_once() {
    let mut schema = Schema::enhance_default();
    let first = schema.endpoints[0].clone();
    schema.endpoints.push(first.clone());
    let scrape = parse_prometheus(&schema, "").unwrap();
    assert_eq!(scrape.endpoints.iter().filter(|name| **name == first).count(), 1);
    assert_eq!(scrape.endpoints.len(), schema.endpoints.len() - 1);
}

#[test]
fn parses_escaped_label_values() {
    let sample = parse_line(r#"metric{a="quote\"",b="slash\\",c="line\n"} 7"#).unwrap();
    assert_eq!(label(&sample, "a"), "quote\"");
    assert_eq!(label(&sample, "b"), "slash\\");
    assert_eq!(label(&sample, "c"), "line\n");
    assert!(parse_line(r#"metric{a="unterminated} 7"#).is_err());
}

#[test]
fn computes_histogram_deltas_and_interpolated_quantiles() {
    let old = vec![(0.5, 10.0), (1.0, 20.0), (f64::INFINITY, 20.0)];
    let new = vec![(0.5, 20.0), (1.0, 40.0), (f64::INFINITY, 40.0)];
    let delta = histogram_delta(&new, &old);
    assert_eq!(delta[0].1, 10.0);
    assert!((histogram_quantile(0.5, &delta, 20.0).unwrap() - 0.5).abs() < 1e-9);
    assert!((histogram_quantile(0.75, &delta, 20.0).unwrap() - 0.75).abs() < 1e-9);
    assert_eq!(
        histogram_quantile(0.99, &[(1.0, 5.0), (f64::INFINITY, 10.0)], 10.0),
        Some(1.0)
    );
}

#[test]
fn keeps_observed_and_processing_latency_separate() {
    let histogram = |count: f64, slow_upper: f64| HistogramCumulative {
        buckets: vec![
            (slow_upper / 2.0, 0.0),
            (slow_upper, count),
            (f64::INFINITY, count),
        ],
        sum: count * slow_upper,
        count,
    };
    let mut rolling = RollingMetrics::new();
    for (index, count) in [0.0, 20.0].into_iter().enumerate() {
        let mut endpoints = BTreeMap::new();
        endpoints.insert(
            "query".to_string(),
            EndpointCumulative {
                requests: count,
                observed: histogram(count, 10.0),
                processing: histogram(count, 0.5),
                processing_in_flight: index as f64,
                ..Default::default()
            },
        );
        rolling.push(timed(index as u64 * 15, endpoints, None));
    }

    let window = &windows(&Schema::enhance_default(), &rolling)["query"];
    assert_eq!(window.observed.samples, 20.0);
    assert_eq!(window.processing.samples, 20.0);
    assert!(window.observed.p99.unwrap() > 9.0);
    assert!(window.processing.p99.unwrap() < 0.5);
    assert_eq!(window.alert_latency(true).p99, window.processing.p99);
    assert_eq!(window.alert_latency(false).p99, window.observed.p99);
    assert_eq!(window.processing_in_flight, 1.0);
}

#[test]
fn histogram_reset_uses_only_the_new_process_distribution() {
    fn before_restart(upper: f64) -> HistogramCumulative {
        HistogramCumulative {
            buckets: vec![
                (upper, 15.0),
                (upper * 2.0, 18.0),
                (upper * 4.0, 20.0),
                (f64::INFINITY, 100.0),
            ],
            sum: 500.0,
            count: 100.0,
        }
    }

    fn after_restart(upper: f64) -> HistogramCumulative {
        HistogramCumulative {
            buckets: vec![
                (upper, 20.0),
                (upper * 2.0, 20.0),
                (upper * 4.0, 20.0),
                (f64::INFINITY, 20.0),
            ],
            sum: upper * 10.0,
            count: 20.0,
        }
    }

    let mut rolling = RollingMetrics::new();
    for index in 0..2 {
        let mut endpoints = BTreeMap::new();
        endpoints.insert(
            "query".to_string(),
            EndpointCumulative {
                requests: if index == 0 { 100.0 } else { 20.0 },
                observed: if index == 0 {
                    before_restart(10.0)
                } else {
                    after_restart(10.0)
                },
                processing: if index == 0 {
                    before_restart(0.5)
                } else {
                    after_restart(0.5)
                },
                ..Default::default()
            },
        );
        rolling.push(timed(index as u64 * 15, endpoints, None));
    }

    let window = &windows(&Schema::enhance_default(), &rolling)["query"];
    assert_eq!(window.requests, 20.0);
    assert_eq!(window.observed.samples, 20.0);
    assert_eq!(window.processing.samples, 20.0);
    assert!(window.observed.p99.unwrap() < 10.0);
    assert!(window.processing.p99.unwrap() < 0.5);
}

#[test]
fn process_start_time_detects_restart_when_counts_increase() {
    fn histogram(count: f64, fast: f64) -> HistogramCumulative {
        HistogramCumulative {
            buckets: vec![
                (0.5, fast),
                (2.0, fast),
                (5.0, count),
                (f64::INFINITY, count),
            ],
            sum: count * 3.0,
            count,
        }
    }

    let mut rolling = RollingMetrics::new();
    for (index, count) in [10.0, 25.0].into_iter().enumerate() {
        let mut endpoints = BTreeMap::new();
        endpoints.insert(
            "query".to_string(),
            EndpointCumulative {
                requests: count,
                errors_5xx: if index == 0 { 1.0 } else { 3.0 },
                processing: histogram(count, if index == 0 { count } else { 0.0 }),
                ..Default::default()
            },
        );
        rolling.push(timed(index as u64 * 15, endpoints, Some(100.0 + index as f64)));
    }

    let window = &windows(&Schema::enhance_default(), &rolling)["query"];
    assert_eq!(window.requests, 25.0);
    assert_eq!(window.errors_5xx, 3.0);
    assert_eq!(window.processing.samples, 25.0);
    assert!(window.processing.p99.unwrap() > 2.0);
}

#[test]
fn missing_processing_family_leaves_processing_unavailable() {
    let parsed = read(
        &Schema::enhance_default(),
        r#"
enhance_http_requests_total{endpoint="query",method="POST",status="200"} 20
enhance_http_request_duration_seconds_bucket{endpoint="query",le="10"} 20
enhance_http_request_duration_seconds_bucket{endpoint="query",le="+Inf"} 20
enhance_http_request_duration_seconds_sum{endpoint="query"} 180
enhance_http_request_duration_seconds_count{endpoint="query"} 20
"#,
    );

    let query = &parsed.endpoints["query"];
    assert_eq!(query.observed.count, 20.0);
    assert_eq!(query.processing.count, 0.0);
}

#[test]
fn a_different_prefix_and_endpoint_set_parses() {
    let schema = made("nf", &["tier0"], &[], &[]).unwrap();
    let parsed = read(
        &schema,
        r#"
nf_http_requests_total{endpoint="tier0",method="GET",status="200"} 4
nf_snapshot_served_height 9
enhance_http_requests_total{endpoint="metadata",method="GET",status="200"} 4
enhance_snapshot_generation 1
"#,
    );
    assert_eq!(parsed.endpoints["tier0"].requests, 4.0);
    assert!(!parsed.endpoints.contains_key("metadata"));
    assert_eq!(parsed.snapshot_gauges["nf_snapshot_served_height"], 9.0);
    assert_eq!(parsed.snapshot_gauges.len(), 1);
}

#[test]
fn discovered_endpoints_get_windows_after_configured_ones() {
    let schema = Schema::enhance_default();
    let mut rolling = RollingMetrics::new();
    let mut endpoints = BTreeMap::new();
    endpoints.insert(
        "witness_query".to_string(),
        EndpointCumulative {
            requests: 5.0,
            processing: HistogramCumulative {
                buckets: vec![(1.0, 5.0), (f64::INFINITY, 5.0)],
                sum: 2.0,
                count: 5.0,
            },
            ..Default::default()
        },
    );
    rolling.push(timed(0, endpoints, None));
    let windows = windows(&Schema::enhance_default(), &rolling);
    assert_eq!(windows.len(), schema.endpoints.len() + 1);
    assert!(windows["witness_query"].processing_available);
    assert!(!windows["query"].processing_available);
}

#[test]
fn endpoint_discovery_is_capped_and_validated() {
    let mut endpoints = Vec::new();
    for index in 0..MAX_ENDPOINTS {
        let sample = sample_of(format!("e{index}"));
        assert!(endpoint_entry(&mut endpoints, &sample).is_some());
    }
    let overflow = sample_of("one_more".to_string());
    assert!(endpoint_entry(&mut endpoints, &overflow).is_none());
    let known = sample_of("e0".to_string());
    assert!(endpoint_entry(&mut endpoints, &known).is_some());
}

#[test]
fn handles_counter_reset_and_caps_history() {
    let mut rolling = RollingMetrics::new();
    for index in 0..25 {
        let mut endpoints = BTreeMap::new();
        endpoints.insert(
            "metadata".to_string(),
            EndpointCumulative {
                requests: if index == 24 { 5.0 } else { index as f64 },
                ..Default::default()
            },
        );
        rolling.push(timed(index * 15, endpoints, None));
    }
    assert_eq!(rolling.len(), 21);
    assert_eq!(windows(&Schema::enhance_default(), &rolling)["metadata"].requests, 24.0);
}

/// What the page is made of, before it is put into words.
struct Sample {
    hostname: String,
    scrape_error: Option<String>,
    health_body: Option<String>,
    endpoints: BTreeMap<String, EndpointWindow>,
    scrape: MetricsSnapshot,
    host: HostHealth,
}

fn sample() -> Sample {
    let window = EndpointWindow {
        qps: 1.5,
        requests: 450.0,
        observed: LatencyWindow {
            samples: 450.0,
            p50: Some(0.01),
            p95: Some(0.05),
            p99: Some(0.09),
        },
        in_flight: 2.0,
        ..Default::default()
    };
    Sample {
        hostname: "pir-primary".to_string(),
        scrape_error: None,
        health_body: None,
        endpoints: BTreeMap::from([("metadata".to_string(), window)]),
        scrape: MetricsSnapshot::default(),
        host: HostHealth {
            load_one: 0.4,
            load_five: 0.5,
            load_fifteen: 0.6,
            total_memory_bytes: 16 * 1024 * 1024 * 1024,
            available_memory_bytes: 8 * 1024 * 1024 * 1024,
            disk_total_bytes: 200 * 1024 * 1024 * 1024,
            disk_available_bytes: 100 * 1024 * 1024 * 1024,
            disk_used_ratio: 0.5,
            data_dir: "/srv/zakura/enhance-data".to_string(),
        },
    }
}

fn page(sample: &Sample) -> String {
    let schema = Schema::enhance_default();
    let mut data = DashboardData::new(
        "Enhance PIR APM".to_string(),
        Schema::enhance_default(),
        "staging".to_string(),
        sample.hostname.clone(),
        host(&sample.host),
        rows(&schema, &sample.endpoints),
        totals(&schema, &sample.endpoints),
    );
    data.scrape_error = sample.scrape_error.clone();
    data.health_body = sample.health_body.clone();
    data.last_scrape = Some(ScrapeTime {
        elapsed_seconds: Some(0),
        epoch_seconds: 1_787_880_000,
    });
    data.health_status = Some(200);
    data.ready_status = Some(200);
    show_scrape(&mut data, &sample.scrape);
    render(&data)
}

fn budget_of(schema: &Schema, endpoint: &str) -> Option<Budget> {
    let limit = schema.observed_budget(endpoint)?;
    let warn = (f64::from_bits(limit) * 0.6).to_bits();
    Some(Budget { limit, warn })
}

fn cell(seconds: Option<f64>, budget: Option<Budget>) -> String {
    let window = LatencyWindow {
        p50: seconds,
        ..Default::default()
    };
    latency_cell(&latency(&window).p50, budget)
}

fn capacity_meter(table: &Values) -> String {
    table_capacity_meter(&gauges(table), &capacity(table))
}

#[test]
fn renders_a_complete_document() {
    let html = page(&sample());
    assert!(html.starts_with("<!doctype html>"));
    assert!(html.ends_with("</html>"));
    assert!(html.contains("id=\"app\""));
    assert!(html.contains("<title>Enhance PIR APM</title>"));
    assert!(html.contains("<h1>Enhance PIR APM</h1>"));
}

#[test]
fn every_allowlisted_endpoint_gets_a_row_even_without_data() {
    let html = page(&sample());
    for endpoint in &Schema::enhance_default().endpoints {
        assert!(
            html.contains(&format!("<th>{endpoint}</th>")),
            "missing row for {endpoint}"
        );
    }
}

#[test]
fn hostile_values_are_escaped() {
    let mut data = sample();
    data.hostname = "<script>alert(1)</script>".to_string();
    data.scrape_error = Some("bad \"quote\" & <tag>".to_string());
    let html = page(&data);
    assert!(!html.contains("<script>alert(1)</script>"));
    assert!(html.contains("&lt;script&gt;alert(1)&lt;/script&gt;"));
    assert!(html.contains("&quot;quote&quot;"));
}

#[test]
fn escaped_text_decodes_to_itself() {
    for text in ["", "a < b && c > \"d\"", "&amp;lt; it's", "<&>\"'", "caf\u{e9} &#39;"] {
        let written = escape(text);
        let decoded = written
            .replace("&lt;", "<")
            .replace("&gt;", ">")
            .replace("&quot;", "\"")
            .replace("&#39;", "'")
            .replace("&amp;", "&");
        assert_eq!(decoded, text);
        for (at, _) in written.match_indices('&') {
            let entities = ["&amp;", "&lt;", "&gt;", "&quot;", "&#39;"];
            assert!(entities.iter().any(|entity| written[at..].starts_with(entity)));
        }
    }
    assert_eq!(escape("<&>\"'"), "&lt;&amp;&gt;&quot;&#39;");
}

#[test]
fn latency_is_graded_against_the_alert_budget() {
    let budget = budget_of(&Schema::enhance_default(), "metadata");
    assert!(cell(Some(0.01), budget).contains("class=\"\""));
    assert!(cell(Some(0.7), budget).contains("warn"));
    assert!(cell(Some(1.5), budget).contains("bad"));
    assert!(cell(None, budget).contains("—"));
}

#[test]
fn latency_budgets_follow_endpoint_kind() {
    let schema = Schema::enhance_default();
    // Discovered endpoints get the default budget; informational and
    // processing endpoints get none in the observed table.
    assert_eq!(schema.observed_budget("nope"), bits(1.0));
    assert!(schema.observed_budget("health").is_none());
    assert!(schema.observed_budget("query").is_none());
    assert_eq!(schema.observed_budget("init"), bits(2.0));
    assert!(!cell(Some(99.0), None).contains("bad"));
}

#[test]
fn processing_split_keeps_body_receive_timing_off_the_public_dashboard() {
    let mut data = sample();
    data.endpoints.insert(
        "query".to_string(),
        EndpointWindow {
            observed: LatencyWindow {
                samples: 20.0,
                p99: Some(10.0),
                ..Default::default()
            },
            processing: LatencyWindow {
                samples: 20.0,
                p99: Some(6.0),
                ..Default::default()
            },
            in_flight: 3.0,
            processing_in_flight: 1.0,
            ..Default::default()
        },
    );
    let html = page(&data);
    assert!(html.contains("query latency split"));
    assert!(!html.contains("metadata latency split"));
    assert!(!html.contains("Body receive (upload proxy)"));
    assert!(html.contains("Server processing"));
    assert!(html.contains("only distribution evaluated against the 5.000s"));
    assert!(html.contains("Body-receive timing is not rendered here"));
    assert_eq!(html.matches("<td class=\"bad\">").count(), 1);
}

#[test]
fn a_count_that_displays_as_zero_is_not_flagged_as_an_error() {
    let window = EndpointWindow {
        errors_5xx: 0.2,
        error_ratio: 0.001,
        ..EndpointWindow::default()
    };
    let cell = error_cell(&failures(&window));
    assert!(
        cell.contains("muted"),
        "sub-half count should read as clean"
    );
    assert!(!cell.contains("bad"));

    let mut data = sample();
    data.endpoints.insert("metadata".to_string(), window);
    assert!(!page(&data).contains("figure bad"));
}

#[test]
fn long_health_bodies_and_paths_are_allowed_to_wrap() {
    let mut data = sample();
    data.health_body =
        Some("{\"phase\":{\"phase\":\"serving\"},\"anchor_height\":3470117}".to_string());
    data.host.data_dir = "/srv/zakura/enhance-data".to_string();
    let html = page(&data);
    assert!(html.contains(".note code{display:block"));
    assert!(html.contains("overflow-wrap:anywhere"));
    assert!(html.contains("<span class=\"v wrap-any\">/srv/zakura/enhance-data</span>"));
    assert!(html.contains("<code>{&quot;phase&quot;"));
}

fn fleet_sample() -> Sample {
    let mut data = sample();
    data.scrape.snapshot_gauges
        .insert("enhance_snapshot_phase_code".to_string(), 2.0);
    data.scrape.snapshot_gauges
        .insert("enhance_snapshot_generation".to_string(), 100.0);
    data.scrape.snapshot_gauges
        .insert("enhance_snapshot_anchor_height".to_string(), 100.0);
    data.scrape.snapshot_gauges
        .insert("enhance_snapshot_retained_generations".to_string(), 2.0);
    data.scrape.snapshot_gauges
        .insert("enhance_snapshot_ironwood_tree_size".to_string(), 150_124.0);
    data.scrape.layout.insert("confirmations".to_string(), 10.0);
    data.scrape.layout.insert("activation_height".to_string(), 3_428_143.0);
    let enhance = BTreeMap::from([
        ("registered".to_string(), 1.0),
        ("records_per_row".to_string(), 9.0),
        ("record_bytes".to_string(), 724.0),
        ("shard_rows".to_string(), 8_192.0),
        ("shard_positions".to_string(), 73_728.0),
        ("shards_per_worker".to_string(), 2.0),
        ("pool_workers".to_string(), 2.0),
        ("query_slots_available".to_string(), 2.0),
        ("positions".to_string(), 150_124.0),
        ("shards".to_string(), 3.0),
        ("sealed_shards".to_string(), 2.0),
    ]);
    let witness = BTreeMap::from([
        ("registered".to_string(), 0.0),
        ("records_per_row".to_string(), 256.0),
        ("record_bytes".to_string(), 32.0),
        ("shard_rows".to_string(), 8_192.0),
        ("shard_positions".to_string(), 2_097_152.0),
        ("shards_per_worker".to_string(), 2.0),
    ]);
    data.scrape.tables.insert("witness".to_string(), witness);
    data.scrape.tables.insert("enhance".to_string(), enhance);
    data.scrape.workers.insert(
        "worker-b".to_string(),
        BTreeMap::from([
            ("up".to_string(), 1.0),
            ("index".to_string(), 0.0),
            (
                "total_memory_bytes".to_string(),
                64.0 * 1024.0 * 1024.0 * 1024.0,
            ),
            (
                "available_memory_bytes".to_string(),
                60.0 * 1024.0 * 1024.0 * 1024.0,
            ),
            ("process_rss_bytes".to_string(), 1024.0 * 1024.0 * 1024.0),
        ]),
    );
    data.scrape.workers.insert(
        "worker-a".to_string(),
        BTreeMap::from([("up".to_string(), 1.0), ("index".to_string(), 1.0)]),
    );
    data.scrape.worker_tables.insert(
        "worker-b".to_string(),
        BTreeMap::from([(
            "enhance".to_string(),
            BTreeMap::from([
                ("index".to_string(), 0.0),
                ("assigned_shards".to_string(), 2.0),
                ("populated_positions".to_string(), 147_456.0),
            ]),
        )]),
    );
    data.scrape.worker_tables.insert(
        "worker-a".to_string(),
        BTreeMap::from([(
            "enhance".to_string(),
            BTreeMap::from([
                ("index".to_string(), 1.0),
                ("assigned_shards".to_string(), 1.0),
                ("populated_positions".to_string(), 2_668.0),
            ]),
        )]),
    );
    data
}

#[test]
fn fleet_card_draws_each_worker_with_its_health() {
    let mut data = fleet_sample();
    data.scrape.workers
        .insert("worker-c".to_string(), BTreeMap::from([("up".to_string(), 0.0)]));
    data.scrape.workers.insert(
        "worker-d".to_string(),
        BTreeMap::from([("up".to_string(), 1.0), ("generation".to_string(), 99.0)]),
    );
    let html = page(&data);
    assert!(html.contains("Fleet topology"));
    assert!(html.contains("serving &middot; anchor 100 &middot; generation 100"));
    assert!(html.contains("2 generations answerable"));
    assert!(html.contains("zakurad archive node"));
    assert!(html.contains("Ingests finalized outputs"));
    assert!(html.contains("Holds sealed iPIR artifacts"));
    assert_eq!(html.matches("class=\"node is-ok\"").count(), 3); // 2 workers + Enhance table
    assert_eq!(html.matches("class=\"node is-bad\"").count(), 1);
    assert_eq!(html.matches("class=\"node is-warn\"").count(), 1);
    assert!(html.contains("unreachable"));
    assert!(html.contains("generation lag"));
    assert!(page(&sample()).contains("none reported yet"));
}

#[test]
fn workers_are_ordered_by_index_and_list_per_table_shares() {
    let html = page(&fleet_sample());
    let b = html.find("<p class=\"id\">worker-b</p>").unwrap();
    let a = html.find("<p class=\"id\">worker-a</p>").unwrap();
    assert!(b < a, "index 0 must render before index 1");
    assert!(html.contains(
        "<b>enhance</b> shards 0&ndash;1 &middot; 2 assigned &middot; 147456 positions"
    ));
    assert!(html.contains(
        "<b>enhance</b> shards 2&ndash;3 &middot; 1 assigned &middot; 2668 positions"
    ));
}

#[test]
fn worker_ram_line_renders_when_memory_gauges_exist() {
    let html = page(&fleet_sample());
    assert!(html.contains("RAM 4.00 GiB used of 64.00 GiB &middot; rss 1.00 GiB"));
    // worker-a has no memory gauges: exactly one RAM line on the page.
    assert_eq!(html.matches("RAM ").count(), 1);

    let mut low = BTreeMap::new();
    low.insert(
        "total_memory_bytes".to_string(),
        8.0 * 1024.0 * 1024.0 * 1024.0,
    );
    low.insert(
        "available_memory_bytes".to_string(),
        100.0 * 1024.0 * 1024.0,
    );
    assert!(worker_ram_line(&memory(&low)).contains("meta bad"));

    let mut unknown = BTreeMap::new();
    unknown.insert(
        "total_memory_bytes".to_string(),
        8.0 * 1024.0 * 1024.0 * 1024.0,
    );
    unknown.insert("available_memory_bytes".to_string(), 0.0);
    assert!(worker_ram_line(&memory(&unknown)).contains("RAM 8.00 GiB total"));
}

#[test]
fn tables_render_in_fixed_order_with_planned_ones_dimmed() {
    let html = page(&fleet_sample());
    let enhance = html.find("<p class=\"id\">enhance</p>").unwrap();
    let witness = html.find("<p class=\"id\">witness</p>").unwrap();
    assert!(enhance < witness);
    assert!(html.contains("9 &times; 724 B per row &middot; 8192 rows per shard"));
    assert!(html.contains("<b>3</b> shards (2 sealed) &middot; <b>150124</b> positions"));
    assert!(html.contains("worker-b: shards 0&ndash;1 &middot; worker-a: shards 2&ndash;3"));
    assert_eq!(html.matches("class=\"node planned\"").count(), 1);
    assert!(html.contains("planned &middot; not registered"));
    assert!(html.contains("2097152</b> positions per shard"));
}

#[test]
fn table_capacity_meter_uses_pool_and_layout() {
    let data = fleet_sample();
    let html = page(&data);
    assert!(html.contains("150124 of 294912 positions &middot; 3 of 4 shards"));
    let mut enhance = data.scrape.tables["enhance"].clone();
    assert!(!capacity_meter(&enhance).contains("warn"));
    enhance.insert("positions".to_string(), 240_000.0);
    assert!(capacity_meter(&enhance).contains("warn"));
    enhance.insert("positions".to_string(), 285_000.0);
    assert!(capacity_meter(&enhance).contains("bad"));
    // A planned table has no pool: no meter.
    assert!(capacity_meter(&data.scrape.tables["witness"]).is_empty());
}

#[test]
fn explainer_lists_every_table_and_hides_without_them() {
    let html = page(&fleet_sample());
    assert!(html.contains("How this fleet works"));
    assert!(html.contains("<b>10</b> confirmations"));
    assert!(html.contains("height <b>3428143</b>"));
    assert!(html.contains("n&times;2+1"));
    assert!(html
        .contains("<tr><th>enhance</th><td>9 &times; 724 B</td><td>8192</td><td>73728</td>"));
    assert!(html.contains("<tr><th>witness</th><td>256 &times; 32 B</td>"));
    assert!(html.contains("eight newest generations stay answerable"));
    assert!(!page(&sample()).contains("How this fleet works"));
}

#[test]
fn discovered_endpoints_appear_after_configured_ones() {
    let mut data = sample();
    data.endpoints.insert(
        "witness_query".to_string(),
        EndpointWindow {
            qps: 0.5,
            requests: 10.0,
            processing: LatencyWindow {
                samples: 10.0,
                p99: Some(0.2),
                ..Default::default()
            },
            processing_available: true,
            ..Default::default()
        },
    );
    let html = page(&data);
    let query = html.find("<th>query</th>").unwrap();
    let witness = html.find("<th>witness_query</th>").unwrap();
    assert!(query < witness);
    assert!(html.contains("witness_query latency split"));
}

#[test]
fn gauge_names_become_readable_labels() {
    let prefix = "enhance_snapshot_";
    assert_eq!(
        humanize_gauge("enhance_snapshot_anchor_height", prefix),
        "Anchor height"
    );
    assert_eq!(
        humanize_gauge("enhance_snapshot_query_slots_available", prefix),
        "Query slots available"
    );
    assert_eq!(
        humanize_gauge("enhance_snapshot_age_seconds", prefix),
        "Age (seconds)"
    );
    assert_eq!(
        humanize_gauge("unprefixed_gauge", prefix),
        "Unprefixed gauge"
    );
    // A name that is nothing but a unit keeps its stem rather than
    // collapsing to a bare "()".
    assert_eq!(
        humanize_gauge("enhance_snapshot_seconds", prefix),
        "Seconds"
    );
}

#[test]
fn the_raw_gauge_name_survives_as_a_tooltip() {
    let mut data = sample();
    data.scrape.snapshot_gauges
        .insert("enhance_snapshot_generation".to_string(), 42.0);
    let html = page(&data);
    assert!(html.contains("title=\"enhance_snapshot_generation\""));
    assert!(html.contains(">Generation<"));
}

#[test]
fn relative_time_reads_naturally() {
    assert_eq!(relative_time(Some(0)), "just now");
    assert_eq!(relative_time(Some(30)), "30s ago");
    assert_eq!(relative_time(Some(600)), "10m ago");
    // A time that is not in the past.
    assert_eq!(relative_time(None), "just now");
    assert_eq!(relative_time(Some(7_200)), "2h ago");
    assert_eq!(relative_time(Some(172_800)), "2d ago");
}

#[test]
fn first_paint_before_any_scrape_is_renderable() {
    let schema = Schema::enhance_default();
    let none = BTreeMap::new();
    let data = DashboardData::new(
        "Enhance PIR APM".to_string(),
        Schema::enhance_default(),
        "unknown".to_string(),
        "host".to_string(),
        host(&HostHealth::default()),
        rows(&schema, &none),
        totals(&schema, &none),
    );
    let html = render(&data);
    assert!(html.contains("Awaiting first scrape"));
    assert!(html.contains("waiting for first scrape"));
}

#[test]
fn meters_stay_within_the_track() {
    let over = percent(1.8);
    assert!(meter("Disk", "x", &over.whole, &over.tenth, "bad").contains("width:100.0%"));
    let under = percent(-0.5);
    assert!(meter("Disk", "x", &under.whole, &under.tenth, "").contains("width:0.0%"));
}
