use pir_core::engine::{
    add_assign_mod, DEGREE, MODULUS, MODULUS_BITS, PACKING_KEYS_BYTES, PLAINTEXT_BITS,
    PUBLISHED_ROW_BYTES,
};
use pir_core::enhance::answer::{
    combine, combine_hints, evaluate_shards, flat_hint, open_query, shaped_hint, PreparedTable,
    ShardRuntime, TableEngine,
};
use pir_core::enhance::status::max_shard_bytes;
use pir_core::enhance::types::{DatabaseId, Protocol};
use pir_core::layout::DatabaseLayout;
use pir_core::pir_types::{PirEngine, YpirScenario, IPIR_SETUP_SEED};
use pir_core::witness::client::IpirClientState;
use pir_core::witness::server::{table_numbers, IpirError, IpirPirEngine, IpirTables};
use std::sync::Arc;

fn synthetic_bytes(seed: u64, len: usize) -> Vec<u8> {
    let mut state = seed;
    (0..len)
        .map(|_| {
            state ^= state << 13;
            state ^= state >> 7;
            state ^= state << 17;
            state as u8
        })
        .collect()
}

/// Two shards and one server over the same rows: the hints that everything
/// published is made from are the same, and so are the values that every
/// response is packed from.
fn shards_against_one_server(layout: &DatabaseLayout, target: usize) {
    let row_bytes = layout.row_bytes();
    let shard_rows = layout.shard_rows;
    let rows0 = synthetic_bytes(0x9e37_79b9, shard_rows * row_bytes);
    let rows1 = synthetic_bytes(0x7f4a_7c15, shard_rows * row_bytes);
    let whole = TableEngine::new(2 * shard_rows as u64, layout).expect("params");
    let part = TableEngine::new(shard_rows as u64, layout).expect("params");
    let shape = whole.table_shape();
    assert_eq!(shape.db_rows, 2 * shard_rows as u64);
    let columns = shape.db_cols as usize;

    // Each shard is prepared over its part of the public polynomials.
    let polys = whole.public_setup(&IPIR_SETUP_SEED);
    let half = polys.len() / 2;
    let shard0 =
        ShardRuntime::build(&part, row_bytes, &rows0, &polys[..half].to_vec()).expect("shard 0");
    let shard1 =
        ShardRuntime::build(&part, row_bytes, &rows1, &polys[half..].to_vec()).expect("shard 1");
    let mut all_rows = rows0;
    all_rows.extend_from_slice(&rows1);
    let monolithic = ShardRuntime::build(&whole, row_bytes, &all_rows, &polys).expect("whole");

    let hint = combine_hints(&vec![shard0.hint().clone(), shard1.hint().clone()]).expect("hints");
    assert_eq!(&hint, monolithic.hint(), "hints differ");

    let scenario = YpirScenario {
        num_items: 2 * shard_rows as u64,
        item_size_bits: layout.item_size_bits(),
    };
    let client = IpirClientState::new(&scenario).expect("client");
    let (framed, _) = client.generate_ipir_query(target).expect("query");
    let generation = 7u64;
    let mut body = generation.to_le_bytes().to_vec();
    body.extend_from_slice(&framed);
    let opened = open_query(&whole, &body).expect("opened");
    assert_eq!(opened.coefficients.len(), 2 * shard_rows);

    let alone = monolithic
        .evaluate(&whole, &opened.coefficients)
        .expect("whole");
    let queries = vec![
        opened.coefficients[..shard_rows].to_vec(),
        opened.coefficients[shard_rows..].to_vec(),
    ];
    let shards = vec![Arc::new(shard0), Arc::new(shard1)];
    let together = evaluate_shards(&part, &shards, &queries).expect("shards");
    assert_eq!(together, alone, "partial results differ");
    let first = evaluate_shards(&part, &shards[..1].to_vec(), &queries[..1].to_vec()).unwrap();
    let second = evaluate_shards(&part, &shards[1..].to_vec(), &queries[1..].to_vec()).unwrap();
    assert_eq!(
        combine(columns, &vec![second.clone(), first.clone()]).unwrap(),
        alone
    );
}

/// Rows of as few bits as the engine takes: one number for each coefficient.
fn small_layout() -> DatabaseLayout {
    DatabaseLayout {
        record_bytes: 896,
        records_per_row: 4,
        shard_rows: 2_048,
    }
}

#[test]
fn two_small_shards_equal_one_server() {
    shards_against_one_server(&small_layout(), 5);
}

#[test]
fn two_small_shards_answer_for_the_second_shard() {
    shards_against_one_server(&small_layout(), 2_048 + 77);
}

#[test]
fn the_numbers_of_the_ring_are_those_of_the_engine() {
    assert_eq!(DEGREE, ipir_sp::params::POLY_LEN);
    assert_eq!(MODULUS, ipir_sp::params::SINGLE_CRT_Q);
    assert_eq!(1u64 << PLAINTEXT_BITS, ipir_sp::params::PLAINTEXT_MODULUS);
    assert_eq!(64 - MODULUS.leading_zeros() as usize, MODULUS_BITS);
    let layout = small_layout();
    let engine = TableEngine::new(2_049, &layout).unwrap();
    let shape = engine.table_shape();
    assert_eq!(shape.degree, 2_048);
    assert_eq!(shape.plaintext_modulus, 1 << 14);
    assert_eq!((shape.db_rows, shape.db_cols), (4_096, 2_048));
    assert_eq!(engine.packing_len(), PACKING_KEYS_BYTES);
    assert!(TableEngine::new(0, &layout).is_err());
    assert_eq!(
        TableEngine::new(2_047, &layout).err().unwrap(),
        "invalid parameter set: SimplePIR requires at least one polynomial of rows and item bits"
    );
    for (rows, fault) in [
        (u64::MAX, "database row count overflows"),
        (u64::MAX - 4_096, "database dimension overflows"),
        (1 << 62, "database element count overflows"),
    ] {
        assert_eq!(
            TableEngine::new(rows, &layout).err().unwrap(),
            format!("invalid parameter set: {fault}")
        );
    }
    let narrow = DatabaseLayout {
        record_bytes: 895,
        ..layout
    };
    assert!(TableEngine::new(2_048, &narrow).is_err());
    assert_eq!(engine.public_setup(&[9; 32]).len(), 2);
    assert_ne!(
        engine.public_setup(&[9; 32]),
        engine.public_setup(&[8; 32])
    );
}

#[test]
fn every_table_has_shard_parameters_and_the_body_limit_covers_them() {
    let protocol = Protocol {
        revision: "revision".to_string(),
        network: "main".to_string(),
        pool: "ironwood".to_string(),
        enhance_setup_seed: 1,
        cold_setup_seed: 2,
        warm_setup_seed: 3,
        spend_row_bytes: 8_192,
        spend_shard_rows: 2_048,
        shards_per_worker: 6,
        confirmations: 10,
        activation_height: 3_428_143,
    };
    for table in DatabaseId::ALL {
        let layout = table.layout(&protocol);
        let engine = TableEngine::new(layout.shard_rows as u64, &layout).expect("params");
        let shape = engine.table_shape();
        assert_eq!(shape.degree, 2_048, "{}", table.as_str());
        assert_eq!(shape.db_rows, layout.shard_rows as u64);
        assert!(layout.shard_bytes() <= max_shard_bytes(&protocol));
    }
}

#[test]
fn sums_are_taken_modulo_the_modulus() {
    let mut sum = vec![MODULUS - 1, 3];
    add_assign_mod(&mut sum, &vec![2, 4]).unwrap();
    assert_eq!(sum, vec![1, 7]);
    assert_eq!(
        add_assign_mod(&mut sum, &vec![2]).unwrap_err(),
        "partial results differ in length"
    );
    assert_eq!(sum, vec![1, 7]);
    assert_eq!(
        combine(2, &Vec::new()).unwrap_err(),
        "no worker evaluated the query"
    );
    assert!(combine(2, &vec![vec![1]]).is_err());
    assert_eq!(
        combine(2, &vec![vec![1, 2], vec![MODULUS - 1, 5]]).unwrap(),
        vec![0, 7]
    );
    assert_eq!(
        combine_hints(&Vec::new()).unwrap_err(),
        "no CRS contributions"
    );
    assert_eq!(
        combine_hints(&vec![vec![vec![vec![1]]], vec![vec![vec![1, 2]]]]).unwrap_err(),
        "shard hints differ in shape"
    );
    assert_eq!(
        combine_hints(&vec![vec![vec![vec![1]]], vec![vec![vec![MODULUS - 1]]]]).unwrap(),
        vec![vec![vec![0]]]
    );
}

#[test]
fn a_part_of_a_query_that_does_not_fit_its_shard_is_refused() {
    let layout = small_layout();
    let engine = TableEngine::new(2_048, &layout).unwrap();
    let polys = engine.public_setup(&IPIR_SETUP_SEED);
    let shard = ShardRuntime::build(&engine, layout.row_bytes(), &[1, 2, 3], &polys).unwrap();
    assert_eq!(
        shard.evaluate(&engine, &[0; 2_047]).unwrap_err(),
        "shard query has the wrong length"
    );
    let mut query = vec![0u64; 2_048];
    assert!(shard
        .evaluate(&engine, &query)
        .unwrap()
        .iter()
        .all(|value| *value == 0));
    // One times the first row: its numbers, fourteen bits each.
    query[0] = 1;
    let values = shard.evaluate(&engine, &query).unwrap();
    assert_eq!(&values[..2], &[0x0201, 0x000c]);
    // Coefficients need not be below the modulus.
    for (coefficient, times) in [(MODULUS, 0), (MODULUS + 3, 3), (u64::MAX, u64::MAX % MODULUS)] {
        query[0] = coefficient;
        let values = shard.evaluate(&engine, &query).unwrap();
        let product = (u128::from(times) * 0x0201 % u128::from(MODULUS)) as u64;
        assert_eq!(values[0], product);
    }
}

#[test]
fn numbers_are_read_fourteen_bits_at_a_time() {
    // A row of three bytes: 0x01, 0x02, 0x03, then one of which a byte is there.
    let numbers = table_numbers(&[0x01, 0x02, 0x03, 0xff], 3, 2, 3);
    let first = 0x0003_0201u32;
    assert_eq!(numbers[0] as u32, first & 0x3fff);
    assert_eq!(numbers[1] as u32, (first >> 14) & 0x3fff);
    assert_eq!(numbers[2], 0);
    assert_eq!(&numbers[3..], &[0xff, 0, 0]);
}

#[test]
fn a_prepared_table_publishes_a_row_for_each_block() {
    let layout = small_layout();
    let engine = TableEngine::new(2_048, &layout).unwrap();
    let hint = vec![(0..2_048u64)
        .map(|row| (0..2_048u64).map(|column| row * column + 1).collect())
        .collect()];
    let table = PreparedTable::prepare(&engine, &hint).unwrap();
    let published = table.public_params();
    assert_eq!(published.len(), PUBLISHED_ROW_BYTES);
    assert!(published.iter().any(|byte| *byte != published[0]));
}

#[test]
fn a_query_asks_with_keys_and_a_rounded_coefficient_for_each_row() {
    let scenario = YpirScenario {
        num_items: 2_048,
        item_size_bits: 28_672,
    };
    let engine = TableEngine::new(2_048, &small_layout()).unwrap();
    let bits = engine.table_shape().query_bits as usize;
    assert!(bits < MODULUS_BITS);
    let client = IpirClientState::new(&scenario).expect("client");
    let (framed, _) = client.generate_ipir_query(7).expect("query");
    let (other, _) = client.generate_ipir_query(7).expect("query");
    assert_ne!(framed, other, "a query is drawn anew");
    assert_eq!(framed.len(), PACKING_KEYS_BYTES + 2_048 * bits / 8);
    let mut body = vec![0u8; 8];
    body.extend_from_slice(&framed);
    let opened = open_query(&engine, &body).expect("opened");
    assert_eq!(opened.coefficients.len(), 2_048);
    assert!(opened.coefficients.iter().all(|value| *value < MODULUS));
    assert_eq!(
        open_query(&engine, &body[..body.len() - 1]).err().unwrap(),
        "preprocessing/parameter mismatch: switched query must be 10240 bytes for 2048 \
         coefficients at 40 bits, got 10239"
    );

    let server = IpirPirEngine::new(scenario).expect("engine");
    assert_eq!(
        *server.offline_query_polys(),
        engine.public_setup(&IPIR_SETUP_SEED)
    );
    let refused = IpirPirEngine::new(YpirScenario {
        num_items: 0,
        item_size_bits: 28_672,
    });
    assert!(matches!(
        refused.err(),
        Some(IpirError::Setup(words)) if words.starts_with("invalid parameter set: SimplePIR")
    ));
}

#[test]
fn a_flat_hint_reads_back_as_the_hint() {
    let block: Vec<Vec<u64>> = (0..DEGREE)
        .map(|k| {
            (0..DEGREE)
                .map(|i| (k * DEGREE + i) as u64)
                .collect::<Vec<u64>>()
        })
        .collect();
    let hint = vec![block];
    let list = flat_hint(&hint);
    assert_eq!(list.len(), DEGREE * DEGREE);
    assert_eq!(list[DEGREE + 3], (DEGREE + 3) as u64);
    assert_eq!(shaped_hint(&list, 1), Some(hint));
    assert_eq!(shaped_hint(&list, 2), None);
}

#[test]
fn a_query_is_as_wide_as_its_rows_need() {
    let layout = small_layout();
    for (rows, bits) in [(2_048, 40), (4_096, 40), (4_097, 41), (16_384, 41), (112_640, 43)] {
        let engine = TableEngine::new(rows, &layout).expect("params");
        assert_eq!(engine.table_shape().query_bits, bits, "{rows} rows");
    }
}

#[test]
fn keys_with_a_number_at_the_modulus_are_refused() {
    let engine = TableEngine::new(2_048, &small_layout()).expect("params");
    let mut body = vec![0u8; 8 + PACKING_KEYS_BYTES + 2_048 * 40 / 8];
    let opened = open_query(&engine, &body).expect("opened");
    assert_eq!(opened.coefficients, vec![0; 2_048]);
    body[8 + 7..8 + 14].copy_from_slice(&MODULUS.to_le_bytes()[..7]);
    assert_eq!(
        open_query(&engine, &body).err().unwrap(),
        "preprocessing/parameter mismatch: packing key K_g body contains coefficient \
         72057594037641217 which is not reduced modulo q=72057594037641217"
    );
    body[8 + 7] -= 1;
    assert!(open_query(&engine, &body).is_ok());
    let second = 8 + PACKING_KEYS_BYTES / 2;
    body[second..second + 7].copy_from_slice(&MODULUS.to_le_bytes()[..7]);
    assert!(open_query(&engine, &body)
        .err()
        .unwrap()
        .contains("packing key K_h body contains coefficient"));
    body[second..second + 7].fill(0);
    let online = 8 + PACKING_KEYS_BYTES;
    body[online + 5] = 1;
    let opened = open_query(&engine, &body).expect("opened");
    assert_eq!(opened.coefficients[1], (MODULUS + (1 << 39)) >> 40);
    assert_eq!(opened.coefficients[0], 0);
}

#[test]
fn a_server_prepares_a_table_and_says_why_it_refuses_a_query() {
    let scenario = YpirScenario {
        num_items: 2_048,
        item_size_bits: 28_672,
    };
    let engine = IpirPirEngine::new(scenario).expect("engine");
    assert!(IpirTables::new(&engine, usize::MAX).is_none());
    let tables = IpirTables::new(&engine, 3_584).expect("tables");
    let state = tables.setup(&[1, 2, 3], &scenario).expect("setup");
    assert_eq!(tables.public_params(&state).len(), PUBLISHED_ROW_BYTES);
    let words = |query: &[u8]| match tables.answer_query(&state, query) {
        Err(IpirError::Query(words)) => words,
        _ => panic!("refused"),
    };
    assert_eq!(
        words(&[0; 5]),
        "query must include 86016 bytes of packing keys, got 5"
    );
    let mut query = vec![0u8; PACKING_KEYS_BYTES + 9];
    assert_eq!(
        words(&query),
        "preprocessing/parameter mismatch: switched query must be 10240 bytes for 2048 \
         coefficients at 40 bits, got 9"
    );
    query[..7].copy_from_slice(&[0xff; 7]);
    assert!(words(&query).contains("packing key K_g body contains coefficient"));
}
