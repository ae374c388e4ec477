use pir_core::pir_types::YpirScenario;
use pir_core::witness::bench::{
    decodes_well, matches_row, place_of, plan_reuse, public_sets, unused_slots, BenchInputs, Place,
    ReusePlan, ReusePolicy,
};
use pir_core::witness::client::{
    accept_reply, begin_connect, check_pool, chosen_position, frame_query, witness_report_text,
    BroadcastData, Reply, Route, ServerSummary, WitnessBatch, WitnessClientError, WitnessSummary,
};
use pir_core::witness::server::{split_query, tag_response, CoefficientPlace, IpirError, RowPtIter};

fn arrived<T>(status: u16, body: T) -> Reply<T> {
    Reply::Arrived {
        status,
        status_words: format!("status {status}"),
        body: Ok(body),
    }
}

#[test]
fn replies_are_judged_by_route() {
    assert_eq!(accept_reply(arrived(200, 5), Route::Query).unwrap(), 5);
    assert!(matches!(
        accept_reply(arrived(503, 5), Route::Query),
        Err(WitnessClientError::ServerUnavailable)
    ));
    assert!(matches!(
        accept_reply(arrived(503, 5), Route::Params),
        Err(WitnessClientError::Http(words)) if words == "status 503"
    ));
    assert!(matches!(
        accept_reply(arrived(400, 5), Route::Query),
        Err(WitnessClientError::QueryFailed(words)) if words == "status 400"
    ));
    assert!(matches!(
        accept_reply(arrived(404, 5), Route::Broadcast),
        Err(WitnessClientError::Http(_))
    ));
    let lost: Reply<u8> = Reply::Lost("refused".to_string());
    let error = accept_reply(lost, Route::Metadata).unwrap_err();
    assert_eq!(error.message(), "HTTP error: refused");
    let garbled: Reply<u8> = Reply::Arrived {
        status: 200,
        status_words: String::new(),
        body: Err("not JSON".to_string()),
    };
    assert!(matches!(
        accept_reply(garbled, Route::Query),
        Err(WitnessClientError::Http(words)) if words == "not JSON"
    ));
    assert_eq!(Route::Query.url("http://h"), "http://h/query");
    assert_eq!(Route::Params.url("http://h"), "http://h/params");
}

#[test]
fn a_server_of_another_pool_is_refused() {
    assert!(check_pool(Some("ironwood".to_string())).is_ok());
    let error = check_pool(None).unwrap_err();
    assert_eq!(
        error.message(),
        "server serves the orchard pool, but this client requires ironwood; point it at an \
Ironwood witness-server"
    );
}

#[test]
fn a_client_connects_in_four_steps() {
    let scenario = YpirScenario {
        num_items: 2_048,
        item_size_bits: 28_672,
    };
    let broadcast = BroadcastData {
        anchor_height: 9,
        window_start_shard: 4,
        window_shard_count: 2,
    };
    let awaiting = begin_connect("http://server//");
    let awaiting = awaiting.resume(arrived(200, scenario)).unwrap();
    let awaiting = awaiting
        .resume(arrived(200, Some("ironwood".to_string())))
        .unwrap();
    let mut client = awaiting
        .resume(arrived(200, broadcast))
        .unwrap()
        .resume()
        .unwrap();
    assert_eq!(client.base_url, "http://server");
    assert_eq!(client.anchor_height(), 9);
    assert!(client.locate(1, 4).is_ok());
    assert!(client.locate(1, 5).is_ok());
    let error = client.locate(70, 6).unwrap_err();
    assert_eq!(
        error.message(),
        "position 70 is outside the server's PIR window (shards 4..6)"
    );
    assert!(matches!(
        client.witness_query(70, 3, 0),
        Err(WitnessClientError::PositionOutsideWindow(70, 4, 6))
    ));
    assert!(client.witness_query(1, 4, 2_047).is_ok());

    assert!(client.refresh_broadcast(arrived(503, broadcast)).is_err());
    assert_eq!(client.broadcast(), &broadcast);
    let next = BroadcastData {
        anchor_height: 10,
        ..broadcast
    };
    client.refresh_broadcast(arrived(200, next)).unwrap();
    assert_eq!(client.anchor_height(), 10);

    let refused = begin_connect("x")
        .resume(arrived(200, scenario))
        .unwrap()
        .resume(arrived(200, None));
    assert!(matches!(
        refused.err(),
        Some(WitnessClientError::PoolMismatch { .. })
    ));
}

#[test]
fn framed_queries_come_apart() {
    let body = frame_query(&[1, 2, 3], &[4, 5]);
    let (keys, online) = split_query(&body, 3).unwrap();
    assert_eq!((keys, online), (&[1u8, 2, 3][..], &[4u8, 5][..]));
    let error = split_query(&body, 6).unwrap_err();
    assert_eq!(
        error.message(),
        "IPIR query failed: query must include 6 bytes of packing keys, got 5"
    );
    assert_eq!(
        tag_response(&[9; 8], &[1, 2]),
        vec![9, 9, 9, 9, 9, 9, 9, 9, 1, 2]
    );
    assert_eq!(
        IpirError::from_panic(None).message(),
        "IPIR query failed: unknown panic"
    );
    assert_eq!(
        IpirError::Setup("x".to_string()).message(),
        "IPIR setup failed: x"
    );
}

#[test]
fn coefficients_are_read_row_by_row() {
    // Five bytes in rows of four: the second row has one byte.
    let mut rows = RowPtIter::new(5, 4, 2, 3, 14);
    let mut places = Vec::new();
    while let Some(place) = rows.next() {
        places.push(place);
    }
    let place = |start: usize, end: usize, bit: usize| CoefficientPlace { start, end, bit };
    assert_eq!(
        places,
        vec![
            place(0, 4, 0),
            place(0, 4, 14),
            place(0, 4, 28),
            place(4, 5, 0),
            place(4, 5, 14),
            place(4, 5, 28),
        ]
    );
}

#[test]
fn reports_are_printed_line_by_line() {
    let server = ServerSummary {
        phase: "Serving".to_string(),
        anchor_height: 9,
        tree_size: 100,
        window_start_shard: 4,
        window_shard_count: 2,
        populated_shards: 6,
    };
    assert_eq!(
        server.report_text(),
        "phase: Serving\nanchor_height: 9\ntree_size: 100\nwindow_shards: 4..6\n\
populated_shards: 6"
    );
    let witness = WitnessSummary {
        position: 70,
        shard: 1,
        subshard: 2,
        leaf: 3,
        anchor_height: 9,
        anchor_root: vec![0xab, 0x01],
        siblings: 32,
    };
    assert_eq!(
        witness_report_text(&witness, &server),
        "witness verified\nposition: 70\nshard: 1\nsubshard: 2\nleaf: 3\nanchor_height: 9\n\
anchor_root: ab01\nsiblings: 32\nserver_window_shards: 4..6"
    );
    assert_eq!(chosen_position(Some(3), 10), 3);
    assert_eq!(chosen_position(None, 10), 9);
    assert_eq!(chosen_position(None, 0), 0);
    assert_eq!(
        WitnessClientError::VerificationFailed(7).message(),
        "witness verification failed for position 7: computed root does not match anchor"
    );
    assert_eq!(
        WitnessClientError::InvalidParams("x".to_string()).message(),
        "invalid params from server: x"
    );
    assert_eq!(
        WitnessClientError::ServerUnavailable.message(),
        "server unavailable (503)"
    );
}

#[test]
fn witnesses_come_in_the_order_of_their_positions() {
    let mut batch = WitnessBatch::new(vec![5, 3]);
    assert_eq!(batch.next(), Some(5));
    assert_eq!(batch.store("five"), (1, 2));
    assert_eq!(batch.next(), Some(3));
    assert_eq!(batch.store("three"), (2, 2));
    assert_eq!(batch.next(), None);
    assert_eq!(batch.results, vec!["five", "three"]);
}

fn inputs(row_bytes: u64, rows: u64, queries: Vec<u64>, iterations: u64) -> BenchInputs {
    BenchInputs {
        source_bytes: row_bytes * 4,
        row_bytes,
        rows,
        queries,
        iterations,
    }
}

#[test]
fn benchmarks_take_bounded_inputs() {
    assert!(inputs(3_584, 2_048, vec![0, 2_047], 1).is_bounded());
    assert!(!inputs(3_583, 2_048, vec![0], 1).is_bounded());
    assert!(!inputs(3_584, 2_047, vec![0], 1).is_bounded());
    assert!(!inputs(3_584, 2_048, vec![2_048], 1).is_bounded());
    assert!(!inputs(3_584, 2_048, vec![], 1).is_bounded());
    assert!(!inputs(3_584, 2_048, vec![0], 0).is_bounded());
    assert_eq!(inputs(3_584, 2_048, vec![4, 6], 9).row_of(3), 6);
    assert!(inputs(7_168, 4_096, vec![1, 2], 2).is_reusable());
    assert!(!inputs(7_168, 4_097, vec![1, 2], 2).is_reusable());
    assert!(!inputs(7_168, 4_096, vec![1, 2], 3).is_reusable());
    assert!(!inputs(7_169, 4_096, vec![1, 2], 2).is_reusable());
    assert!(!inputs(7_168, 4_096, vec![1, 2], 2).fills_table());
}

#[test]
fn decoded_rows_are_compared() {
    assert!(matches_row(&[1, 2], &[1, 2]));
    assert!(!matches_row(&[1, 3], &[1, 2]));
    assert!(!matches_row(&[1], &[1, 2]));
    assert!(decodes_well(9, 80, 2, &[1, 2], &[1, 2]));
    assert!(!decodes_well(10, 80, 2, &[1, 2], &[1, 2]));
    assert!(!decodes_well(9, 80, 3, &[1, 2], &[1, 2]));
}

#[test]
fn keys_are_reused_where_that_saves() {
    assert_eq!(ReusePolicy::from_name("auto"), Some(ReusePolicy::Auto));
    assert_eq!(ReusePolicy::from_name("never"), None);
    // Nine queries in batches of four: three uploads instead of nine.
    let plan = plan_reuse(ReusePolicy::Auto, 0, 9, 1_000, 3_584).unwrap();
    assert_eq!(
        plan,
        ReusePlan {
            key_saving: 6_000,
            extra_public_bytes: 3 * 3_584 * 4,
            reuse: false,
        }
    );
    let plan = plan_reuse(ReusePolicy::Auto, 0b1111, 9, 1_000, 3_584).unwrap();
    assert_eq!(plan.extra_public_bytes, 0);
    assert!(plan.reuse);
    assert!(plan_reuse(ReusePolicy::Reuse, 0, 1, 1, 3_584).unwrap().reuse);
    assert!(!plan_reuse(ReusePolicy::Fresh, 15, 9, 1_000, 3_584).unwrap().reuse);
    assert_eq!(plan_reuse(ReusePolicy::Auto, 16, 9, 1_000, 3_584), None);
    assert_eq!((public_sets(true), public_sets(false)), (4, 1));
    assert_eq!((unused_slots(9, true), unused_slots(9, false)), (3, 0));
    assert_eq!(
        place_of(5, true, true),
        Place {
            batch: 1,
            slot: 1,
            uploads_keys: false,
            attempts: 1
        }
    );
    assert_eq!(place_of(0, true, true).attempts, 2);
    assert_eq!(place_of(5, false, false).batch, 5);
}
