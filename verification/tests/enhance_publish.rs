use pir_core::engine::PACKING_KEYS_BYTES;
use pir_core::enhance::activate::TableShape;
use pir_core::enhance::answer::{answer_query, PendingAnswer, PreparedTable, TableEngine};
use pir_core::enhance::coordinator::{Anchor, CoordinatorState, RETAINED_GENERATIONS};
use pir_core::enhance::hints::{after_ensure, after_send, HintCache, PrepareStep};
use pir_core::enhance::publish::{PreparedHint, TableBuild};
use pir_core::enhance::query::{
    admit_query, first_attempt, frame_response, local_failure, next_attempt, remote_answer,
    slice_query, status_retryable, AttemptStep, WorkerEvaluationError,
};
use pir_core::enhance::setup::{check_setups, TableSetup, WorkerGroup, WorkerTarget};
use pir_core::enhance::source::{TableJournal, TableSource};
use pir_core::enhance::status::CoordinatorPhase;
use pir_core::enhance::store::RecordJournal;
use pir_core::enhance::types::{DatabaseId, PerTable, Protocol, TableManifest};
use pir_core::enhance::worker::{ActivateRequest, ActivateShard, Runtime, WorkerState};
use pir_core::layout::DatabaseLayout;
use pir_core::enhance::types::enhance_layout;

const HEIGHT: u64 = 3_428_143;

/// A table whose rows and shards are as small as the protocol says: eight
/// positions to a shard, so that a few records make several shards.
const TABLE: DatabaseId = DatabaseId::TransparentSpendCold;

const LAYOUT: DatabaseLayout = DatabaseLayout {
    record_bytes: 4,
    records_per_row: 1,
    shard_rows: 8,
};

fn protocol() -> Protocol {
    Protocol {
        revision: "revision".to_string(),
        network: "main".to_string(),
        pool: "ironwood".to_string(),
        enhance_setup_seed: 1,
        cold_setup_seed: 2,
        warm_setup_seed: 3,
        spend_row_bytes: 4,
        spend_shard_rows: 8,
        shards_per_worker: 6,
        confirmations: 10,
        activation_height: HEIGHT,
    }
}

fn record(position: u64) -> Vec<u8> {
    (position as u32 + 1).to_le_bytes().to_vec()
}

fn hash(height: u64) -> String {
    format!("{height:064x}")
}

fn store_with(count: u64) -> RecordJournal {
    filled(TABLE, LAYOUT, (0..count).map(record).collect())
}

/// A journal of the enhancement table, with records of its own size.
fn enhance_store(count: u64) -> RecordJournal {
    let layout = enhance_layout();
    let records = (0..count)
        .map(|position| vec![position as u8 + 1; layout.record_bytes])
        .collect();
    filled(DatabaseId::Enhance, layout, records)
}

fn filled(table: DatabaseId, layout: DatabaseLayout, records: Vec<Vec<u8>>) -> RecordJournal {
    let mut journal = RecordJournal::open(table, layout, None, Vec::new())
        .expect("open")
        .journal;
    journal
        .append_block(HEIGHT, hash(HEIGHT), &records)
        .expect("append");
    journal
}

/// A replica that can be reached, or not.
struct Replica {
    name: &'static str,
    state: WorkerState,
    online: bool,
}

fn replica(name: &'static str) -> Replica {
    Replica {
        name,
        state: WorkerState::new(),
        online: true,
    }
}

fn coordinator(groups: &[(&str, &[&str])]) -> CoordinatorState {
    coordinator_of(TABLE, groups)
}

fn coordinator_of(table: DatabaseId, groups: &[(&str, &[&str])]) -> CoordinatorState {
    CoordinatorState::new(
        vec![TableSetup {
            table,
            groups: groups
                .iter()
                .map(|(name, replicas)| WorkerGroup {
                    name: name.to_string(),
                    replicas: replicas
                        .iter()
                        .map(|replica| WorkerTarget::Embedded {
                            name: replica.to_string(),
                        })
                        .collect(),
                })
                .collect(),
        }],
        protocol(),
        0,
    )
    .expect("coordinator")
}

fn shape() -> TableShape {
    TableShape {
        degree: 2_048,
        plaintext_modulus: 16_384,
        db_rows: 16,
        db_cols: 4,
        query_bits: 14,
    }
}

/// Publishes a journal with replicas whose hints are the first bytes of their
/// rows.
fn publish(
    state: &mut CoordinatorState,
    replicas: &mut [Replica],
    journal: &RecordJournal,
    height: u64,
) -> Result<(), String> {
    publish_table(TABLE, state, replicas, journal, height)
}

fn publish_table(
    table: DatabaseId,
    state: &mut CoordinatorState,
    replicas: &mut [Replica],
    journal: &RecordJournal,
    height: u64,
) -> Result<(), String> {
    let params = height.to_le_bytes().to_vec();
    publish_shaped(table, shape(), params, state, replicas, journal, height)
}

fn publish_shaped(
    table: DatabaseId,
    shape: TableShape,
    params: Vec<u8>,
    state: &mut CoordinatorState,
    replicas: &mut [Replica],
    journal: &RecordJournal,
    height: u64,
) -> Result<(), String> {
    let protocol = protocol();
    let source = TableJournal::new(table, journal)?;
    state.begin_publish(&vec![table], height, height)?;
    let mut build = TableBuild::begin(state, &source, height, &protocol)?;
    while build.remaining() {
        let plan = build.plan_shard(&source)?;
        let mut prepared = Vec::new();
        for target in &plan.replicas {
            let replica = replicas
                .iter_mut()
                .find(|replica| replica.name == target.name())
                .expect("known replica");
            if !replica.online {
                continue;
            }
            let fresh = replica.state.prepare_local(
                table,
                plan.shard_id,
                plan.query_row_start,
                &plan.rows_sha256,
                &plan.rows,
            )?;
            if fresh {
                replica.state.insert_runtime(Runtime {
                    table,
                    shard_id: plan.shard_id,
                    rows_sha256: plan.rows_sha256.clone(),
                    query_row_start: plan.query_row_start,
                    prepared_at: height,
                });
            }
            prepared.push(PreparedHint {
                replica: replica.name.to_string(),
                hint: plan.rows[..8].iter().map(|byte| *byte as u64).collect(),
            });
        }
        assert_eq!(
            plan.populated,
            source.populated_positions_in_shard(plan.shard_id)
        );
        build = build.record_shard(&plan, &prepared)?;
    }
    let activations = build.activations();
    let outcomes: Vec<Vec<bool>> = activations
        .iter()
        .map(|activation| {
            activation
                .requests
                .iter()
                .map(|(target, request)| {
                    let replica = replicas
                        .iter_mut()
                        .find(|replica| replica.name == target.name())
                        .expect("known replica");
                    replica.online && replica.state.activate_local(request).is_ok()
                })
                .collect()
        })
        .collect();
    let finished = build.finish(
        &activations,
        &outcomes,
        shape,
        params,
        &protocol,
    )?;
    let positions = finished.manifest.positions;
    let mut built = PerTable::new();
    built.insert(table, finished);
    let size = state.anchored_tree_size((table == DatabaseId::Enhance).then_some(positions));
    state.complete_publish(
        Anchor {
            height,
            hash: hash(height),
        },
        size,
        built,
        height,
    );
    Ok(())
}

/// What was published of the table last.
fn table_manifest(state: &CoordinatorState) -> &TableManifest {
    state.manifest().unwrap().tables.get(TABLE).unwrap()
}

fn active(state: &WorkerState, generation: u64, shards: &[u64]) -> Result<Vec<String>, String> {
    state.evaluate_local(TABLE, generation, &shards.to_vec())
}

#[test]
fn evaluation_requires_an_active_generation() {
    let state = WorkerState::new();
    let error = active(&state, 7, &[0]).expect_err("nothing is active");
    assert!(error.contains("generation mismatch"), "{error}");
}

#[test]
fn activation_requires_prepared_shards() {
    let mut state = WorkerState::new();
    assert!(state
        .activate_local(&ActivateRequest {
            generation: 1,
            tables: PerTable::new(),
        })
        .is_err());
    let mut tables = PerTable::new();
    tables.insert(
        TABLE,
        vec![ActivateShard {
            shard_id: 3,
            rows_sha256: "00".repeat(32),
        }],
    );
    let error = state
        .activate_local(&ActivateRequest {
            generation: 1,
            tables,
        })
        .expect_err("shard 3 was never prepared");
    assert!(error.contains("transparent-spend-cold shard 3"), "{error}");
}

#[test]
fn two_shards_are_published_and_a_worker_takes_only_its_whole_assignment() {
    let store = store_with(11);
    let mut state = coordinator(&[("group-1", &["a"])]);
    let mut replicas = [replica("a")];
    publish(&mut state, &mut replicas, &store, HEIGHT).expect("publish");

    let manifest = table_manifest(&state);
    assert_eq!(manifest.shards.len(), 2);
    assert!(manifest.shards[0].sealed);
    assert!(!manifest.shards[1].sealed);
    assert_eq!(manifest.shards[1].populated_positions, 3);
    assert_eq!(manifest.positions, 11);
    assert_eq!(
        manifest.parameter_id,
        "revision-transparent-spend-cold-d2048-p16384-rows16-cols4"
    );

    let worker = &replicas[0].state;
    assert_eq!(active(worker, HEIGHT, &[0, 1]).unwrap().len(), 2);
    for shards in [&[0u64][..], &[0, 1, 2][..]] {
        let error = active(worker, HEIGHT, shards).expect_err("another assignment");
        assert!(error.contains("complete active shard assignment"), "{error}");
    }
    assert!(active(worker, HEIGHT + 1, &[0, 1]).is_err());
}

#[test]
fn replicas_hold_the_same_assignment() {
    let store = store_with(5);
    let mut state = coordinator(&[("group-1", &["replica-a", "replica-b"])]);
    let mut replicas = [replica("replica-a"), replica("replica-b")];
    publish(&mut state, &mut replicas, &store, HEIGHT).expect("publish with both replicas");
    assert_eq!(table_manifest(&state).shards[0].worker, "group-1");
    assert_eq!(replicas[0].state.cached_shard_count(), 1);
    assert_eq!(replicas[1].state.cached_shard_count(), 1);
    assert_eq!(
        active(&replicas[0].state, HEIGHT, &[0]).unwrap(),
        active(&replicas[1].state, HEIGHT, &[0]).unwrap()
    );
    let ready = &state
        .newest()
        .unwrap()
        .tables
        .get(TABLE)
        .unwrap()
        .ready_groups;
    assert_eq!(ready.len(), 1);
    let first: Vec<String> = ready[0]
        .replicas_for_request(0)
        .iter()
        .map(|target| target.name().to_string())
        .collect();
    let second: Vec<String> = ready[0]
        .replicas_for_request(1)
        .iter()
        .map(|target| target.name().to_string())
        .collect();
    assert_eq!(first, vec!["replica-a", "replica-b"]);
    assert_eq!(second, vec!["replica-b", "replica-a"]);
}

#[test]
fn one_replica_satisfies_its_group() {
    let store = store_with(5);
    let mut state = coordinator(&[("group-1", &["offline", "healthy"])]);
    let mut replicas = [replica("offline"), replica("healthy")];
    replicas[0].online = false;
    publish(&mut state, &mut replicas, &store, HEIGHT).expect("one replica is enough");
    assert_eq!(replicas[1].state.cached_shard_count(), 1);
    assert_eq!(replicas[0].state.cached_shard_count(), 0);

    replicas[1].online = false;
    let error = publish(&mut state, &mut replicas, &store, HEIGHT + 1).expect_err("none is left");
    assert!(error.contains("has no ready replica"), "{error}");
    assert!(state.generation(HEIGHT).is_some());
    assert!(state.generation(HEIGHT + 1).is_none());
}

#[test]
fn an_earlier_generation_is_answerable_until_eight_newer_ones_exist() {
    let mut store = store_with(3);
    let mut state = coordinator(&[("group-1", &["a"])]);
    let mut replicas = [replica("a")];
    publish(&mut state, &mut replicas, &store, HEIGHT).expect("first publish");
    let mut next = 3;
    for height in HEIGHT + 1..HEIGHT + RETAINED_GENERATIONS as u64 {
        store
            .append_block(height, hash(height), &[record(next)])
            .expect("append");
        next += 1;
        publish(&mut state, &mut replicas, &store, height).expect("publish");
        assert!(state.generation(HEIGHT).is_some(), "height {height}");
        assert!(active(&replicas[0].state, HEIGHT, &[0]).is_ok());
    }
    let evicting = HEIGHT + RETAINED_GENERATIONS as u64;
    store
        .append_block(evicting, hash(evicting), &[record(next)])
        .expect("append");
    publish(&mut state, &mut replicas, &store, evicting).expect("evicting publish");
    assert!(state.generation(HEIGHT).is_none());
    assert!(state.generation(HEIGHT + 1).is_some());
    assert_eq!(state.manifest().unwrap().generation, evicting);
    assert_eq!(state.retained_count(), RETAINED_GENERATIONS);
    assert!(active(&replicas[0].state, HEIGHT, &[0]).is_err());
}

#[test]
fn appending_a_group_moves_no_shard_of_the_first_one() {
    let mut store = store_with(19);
    let mut replicas = [replica("worker-1"), replica("worker-2")];
    let mut before = coordinator(&[("worker-1", &["worker-1"])]);
    publish(&mut before, &mut replicas, &store, HEIGHT).expect("publish with one group");
    store
        .append_block(HEIGHT + 1, hash(HEIGHT + 1), &[record(19)])
        .expect("append");
    let mut after = coordinator(&[("worker-1", &["worker-1"]), ("worker-2", &["worker-2"])]);
    publish(&mut after, &mut replicas, &store, HEIGHT + 1).expect("publish with two groups");
    let old = &table_manifest(&before).shards;
    let new = &table_manifest(&after).shards;
    assert_eq!(old.len(), 3);
    assert_eq!(new.len(), 3);
    for (old, new) in old.iter().zip(new) {
        assert_eq!(old.shard_id, new.shard_id);
        assert_eq!(new.worker, "worker-1");
        if old.sealed {
            assert!(new.sealed);
            assert_eq!(old.rows_sha256, new.rows_sha256);
        }
    }
    assert_eq!(replicas[1].state.cached_shard_count(), 0);
    let refused = active(&replicas[1].state, HEIGHT + 1, &[0, 1, 2]).unwrap_err();
    assert!(refused.contains("generation mismatch"), "{refused}");
}

#[test]
fn a_table_beyond_its_groups_is_not_published() {
    // Two groups own twelve shards of eight positions.
    let store = store_with(97);
    let mut state = coordinator(&[("a", &["a"]), ("b", &["b"])]);
    let mut replicas = [replica("a"), replica("b")];
    let error = publish(&mut state, &mut replicas, &store, HEIGHT).unwrap_err();
    assert_eq!(
        error,
        "transparent-spend-cold shard 12 exceeds the capacity of 2 worker groups"
    );
}

#[test]
fn a_replica_with_another_hint_is_left_out() {
    let store = store_with(3);
    let source = TableJournal::new(TABLE, &store).unwrap();
    let state = coordinator(&[("group-1", &["a", "b"])]);
    let build = TableBuild::begin(&state, &source, HEIGHT, &protocol()).unwrap();
    let plan = build.plan_shard(&source).unwrap();
    let prepared = vec![
        PreparedHint {
            replica: "b".to_string(),
            hint: vec![1, 2],
        },
        PreparedHint {
            replica: "a".to_string(),
            hint: vec![1, 3],
        },
    ];
    let build = build.record_shard(&plan, &prepared).unwrap();
    assert!(!build.remaining());
    let names: Vec<&str> = build.pool_groups()[0]
        .candidates
        .iter()
        .map(|candidate| candidate.target.name())
        .collect();
    assert_eq!(names, vec!["b"]);
}

#[test]
fn rows_that_do_not_match_their_digest_are_refused() {
    let state = WorkerState::new();
    let error = state
        .prepare_local(TABLE, 0, 0, &"00".repeat(32), &[1, 2, 3])
        .unwrap_err();
    assert_eq!(error, "row digest mismatch");
    // The digest of the three letters that every hash is tried on.
    let digest = "ba7816bf8f01cfea414140de5dae2223b00361a396177a9cb410ff61f20015ad";
    assert_eq!(RecordJournal::rows_digest(b"abc"), digest);
    assert!(state
        .prepare_local(TABLE, 0, 0, digest, b"abc")
        .unwrap());
}

#[test]
fn a_session_carries_the_parameters_in_base64() {
    let store = enhance_store(3);
    let mut state = coordinator_of(DatabaseId::Enhance, &[("group-1", &["a"])]);
    assert!(state.session().is_none());
    let mut replicas = [replica("a")];
    publish_table(DatabaseId::Enhance, &mut state, &mut replicas, &store, 1).expect("publish");
    let session = state.session().expect("session");
    assert_eq!(session.generation.ironwood_tree_size, 3);
    assert_eq!(session.generation.schema_version, 6);
    assert!(session.generation.parameter_id.contains("-enhance-"));
    assert_eq!(session.public_params_base64, "AQAAAAAAAAA=");
    assert_eq!(session.generation.public_params_sha256.len(), 64);
    assert_eq!(session.generation.public_params_epoch.len(), 16);
    assert!(session
        .generation
        .public_params_sha256
        .starts_with(&session.generation.public_params_epoch));
}

#[test]
fn queries_are_admitted_by_generation_and_length() {
    let store = store_with(11);
    let mut state = coordinator(&[("group-1", &["a"])]);
    let mut replicas = [replica("a")];
    publish(&mut state, &mut replicas, &store, HEIGHT).expect("publish");
    // Sixteen rows of fourteen bits are twenty-eight bytes.
    let packing = 5;
    let mut body = HEIGHT.to_le_bytes().to_vec();
    body.extend_from_slice(&[0; 5 + 28]);
    let admitted = admit_query(&state, TABLE, &body, packing).unwrap();
    assert_eq!(admitted.generation, HEIGHT);
    assert_eq!(admitted.index, 0);
    assert_eq!(admitted.switched_start, 13);
    assert_eq!(
        admit_query(&state, TABLE, &body[..7], packing).unwrap_err(),
        "query is truncated"
    );
    assert_eq!(
        admit_query(&state, TABLE, &body[..40], packing).unwrap_err(),
        "query has the wrong fixed length"
    );
    let mut stale = body.clone();
    stale[..8].copy_from_slice(&(HEIGHT + 1).to_le_bytes());
    assert_eq!(
        admit_query(&state, TABLE, &stale, packing).unwrap_err(),
        "query generation is not retained"
    );

    let shards = &table_manifest(&state).shards;
    let snapshot = state.snapshot_at(admitted.index);
    let ready = &snapshot.tables.get(TABLE).unwrap().ready_groups;
    let query: Vec<u64> = (0..16).collect();
    let sliced = slice_query(shards, ready, &query, 8).unwrap();
    assert_eq!(sliced.len(), 1);
    assert_eq!(sliced[0].shards.len(), 2);
    assert_eq!(sliced[0].shards[0].coefficients, vec![0, 1, 2, 3, 4, 5, 6, 7]);
    assert_eq!(sliced[0].shards[1].coefficients, vec![8, 9, 10, 11, 12, 13, 14, 15]);
    assert_eq!(
        slice_query(shards, ready, &query[..15], 8).unwrap_err(),
        "query does not cover a published shard"
    );
    assert_eq!(
        slice_query(shards, &Vec::new(), &query, 8).unwrap_err(),
        "snapshot references an unavailable worker group"
    );
}

#[test]
fn a_query_is_answered_at_the_generation_that_it_names() {
    let layout = DatabaseLayout {
        record_bytes: 3_584,
        ..LAYOUT
    };
    let engine = TableEngine::new(2_048, &layout).expect("params");
    let store = store_with(11);
    let mut state = coordinator(&[("group-1", &["a"])]);
    let mut replicas = [replica("a")];
    for height in [HEIGHT, HEIGHT + 1] {
        publish_shaped(
            TABLE,
            engine.table_shape(),
            Vec::new(),
            &mut state,
            &mut replicas,
            &store,
            height,
        )
        .expect("publish");
    }
    let mut body = HEIGHT.to_le_bytes().to_vec();
    body.resize(8 + PACKING_KEYS_BYTES + 2_048 * 40 / 8, 0);
    let admitted = admit_query(&state, TABLE, &body, PACKING_KEYS_BYTES).unwrap();
    assert_eq!(admitted.index, 1);
    let pending = PendingAnswer::open(&state, TABLE, &body, &admitted, &engine, 8).unwrap();
    assert_eq!(pending.generation(), HEIGHT);
    let asked: Vec<u64> = pending.shares()[0]
        .shards
        .iter()
        .map(|shard| shard.shard_id)
        .collect();
    assert_eq!(asked, vec![0, 1]);
    assert_eq!(pending.shares()[0].shards[0].coefficients, vec![0; 8]);

    let table = PreparedTable::prepare(&engine, &Vec::new()).expect("prepared");
    assert_eq!(
        answer_query(&pending, &table, &Vec::new()).unwrap_err(),
        "no worker evaluated the query"
    );
    assert_eq!(
        answer_query(&pending, &table, &vec![vec![0; 2_047]]).unwrap_err(),
        "partial results differ in length"
    );
    assert_eq!(
        answer_query(&pending, &table, &vec![vec![0; 2_048]]).unwrap_err(),
        "preprocessing/parameter mismatch: non-empty intermediate with no preprocessing blocks"
    );

    let past = PendingAnswer::open(&state, TABLE, &body, &admitted, &engine, 2_048);
    assert_eq!(past.err().unwrap(), "query does not cover a published shard");
    body[8..8 + 7].copy_from_slice(&[0xff; 7]);
    let refused = PendingAnswer::open(&state, TABLE, &body, &admitted, &engine, 8);
    assert_eq!(
        refused.err().unwrap(),
        "preprocessing/parameter mismatch: packing key K_g body contains coefficient \
         72057594037927935 which is not reduced modulo q=72057594037641217"
    );
}

#[test]
fn a_table_that_is_not_served_is_not_built() {
    let store = enhance_store(1);
    let source = TableJournal::new(DatabaseId::Enhance, &store).unwrap();
    let state = coordinator(&[("group-1", &["a"])]);
    assert_eq!(
        TableBuild::begin(&state, &source, HEIGHT, &protocol())
            .err()
            .unwrap(),
        "table enhance is not served"
    );
}

#[test]
fn a_peer_is_asked_only_after_a_failure_that_can_be_retried() {
    assert!(matches!(first_attempt(0), AttemptStep::Fail(_)));
    assert!(matches!(first_attempt(2), AttemptStep::Try(0)));
    let retryable = || WorkerEvaluationError {
        message: "offline".to_string(),
        retryable: true,
    };
    assert!(matches!(
        next_attempt(2, 0, Err(retryable())),
        AttemptStep::Try(1)
    ));
    match next_attempt(2, 1, Err(retryable())) {
        AttemptStep::Fail(message) => assert_eq!(message, "offline"),
        _ => panic!("no replica is left"),
    }
    let refused = WorkerEvaluationError {
        message: "bad request".to_string(),
        retryable: false,
    };
    assert!(matches!(
        next_attempt(2, 0, Err(refused)),
        AttemptStep::Fail(_)
    ));
    assert!(matches!(
        next_attempt(2, 0, Ok(vec![1])),
        AttemptStep::Answer(_)
    ));
    assert!(status_retryable(503));
    assert!(!status_retryable(400));
    assert!(remote_answer(7, 8, vec![1]).is_err());
    assert_eq!(remote_answer(7, 7, vec![1]).unwrap(), vec![1]);
    assert_eq!(local_failure("x".to_string()).message, "x");
}

#[test]
fn a_response_names_its_generation_and_epoch() {
    let response = frame_response(HEIGHT, &[1, 2, 3, 4, 5, 6, 7, 8], &[9, 9]);
    assert_eq!(&response[..8], &HEIGHT.to_le_bytes());
    assert_eq!(&response[8..16], &[1, 2, 3, 4, 5, 6, 7, 8]);
    assert_eq!(&response[16..], &[9, 9]);
}

#[test]
fn hints_are_kept_by_worker_place_and_digest() {
    let mut cache = HintCache::new();
    cache.store("a", 0, 0, "digest", vec![1, 2]);
    assert_eq!(cache.lookup("a", 0, 0, "digest"), Some(&vec![1, 2]));
    assert_eq!(cache.lookup("b", 0, 0, "digest"), None);
    assert_eq!(cache.lookup("a", 1, 0, "digest"), None);
    assert_eq!(cache.lookup("a", 0, 8_192, "digest"), None);
    assert_eq!(cache.lookup("a", 0, 0, "other"), None);
    cache.store("a", 0, 0, "digest", vec![3]);
    assert_eq!(cache.lookup("a", 0, 0, "digest"), Some(&vec![3]));
}

#[test]
fn a_coordinator_refuses_setups_that_name_no_worker() {
    assert!(check_setups(&Vec::new()).is_err());
    let empty = vec![TableSetup {
        table: TABLE,
        groups: Vec::new(),
    }];
    assert!(check_setups(&empty).is_err());
    let hollow = vec![TableSetup {
        table: TABLE,
        groups: vec![WorkerGroup {
            name: "group".to_string(),
            replicas: Vec::new(),
        }],
    }];
    assert!(check_setups(&hollow).is_err());
}

#[test]
fn health_counts_the_time_since_serving_stopped() {
    let store = store_with(3);
    let mut state = coordinator(&[("group-1", &["a"])]);
    let mut replicas = [replica("a")];
    assert_eq!(state.health(0).status, 200);
    assert_eq!(state.health(30_001).status, 503);
    publish(&mut state, &mut replicas, &store, HEIGHT).expect("publish");
    let report = state.health(HEIGHT + 1_000_000);
    assert_eq!(report.status, 200);
    assert_eq!(report.generation, Some(HEIGHT));
    assert_eq!(report.retained_generations, 1);
    assert_eq!(report.tables.get(TABLE).unwrap().shards, 1);
    assert_eq!(report.tables.get(TABLE).unwrap().workers, 1);
    assert!(matches!(state.phase(), CoordinatorPhase::Serving));
    state.set_phase(
        CoordinatorPhase::Failed {
            reason: "x".to_string(),
        },
        HEIGHT,
    );
    assert_eq!(state.health(HEIGHT).status, 503);
}

#[test]
fn a_replica_is_sent_a_shard_only_where_it_does_not_hold_it() {
    let mut cache = HintCache::new();
    assert!(matches!(
        cache.begin_prepare("a", 0, 0, "digest"),
        PrepareStep::Send
    ));
    assert!(matches!(after_send(Ok(())), PrepareStep::Fetch));
    match after_send(Err("offline".to_string())) {
        PrepareStep::Fail(message) => assert_eq!(message, "offline"),
        step => panic!("{step:?}"),
    }
    match cache.after_fetch("a", 0, 0, "digest", Ok(vec![1]), 2) {
        PrepareStep::Fail(message) => assert_eq!(message, "hint has the wrong length"),
        step => panic!("{step:?}"),
    }
    assert_eq!(cache.lookup("a", 0, 0, "digest"), None);
    match cache.after_fetch("a", 0, 0, "digest", Err("offline".to_string()), 2) {
        PrepareStep::Fail(message) => assert_eq!(message, "offline"),
        step => panic!("{step:?}"),
    }
    match cache.after_fetch("a", 0, 0, "digest", Ok(vec![1, 2]), 2) {
        PrepareStep::Done(hint) => assert_eq!(hint, vec![1, 2]),
        step => panic!("{step:?}"),
    }
    match cache.begin_prepare("a", 0, 0, "digest") {
        PrepareStep::Ensure(hint) => assert_eq!(hint, vec![1, 2]),
        step => panic!("{step:?}"),
    }
    match after_ensure(vec![1, 2], true) {
        PrepareStep::Done(hint) => assert_eq!(hint, vec![1, 2]),
        step => panic!("{step:?}"),
    }
    assert!(matches!(after_ensure(vec![1, 2], false), PrepareStep::Send));
}
