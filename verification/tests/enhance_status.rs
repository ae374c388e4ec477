use pir_core::enhance::status::{
    health_status, is_ready, max_shard_bytes, worker_hint_limit, BoundedBody, CoordinatorPhase, HEALTH_PHASE_GRACE_MILLIS,
    HTTP_OK, HTTP_UNAVAILABLE,
};
use pir_core::enhance::types::{group_index_for_shard, DatabaseId, Protocol, SHARDS_PER_GROUP};

fn protocol() -> Protocol {
    Protocol {
        revision: "revision".to_string(),
        network: "main".to_string(),
        pool: "ironwood".to_string(),
        enhance_setup_seed: 1,
        cold_setup_seed: 2,
        warm_setup_seed: 3,
        spend_row_bytes: 8_192,
        spend_shard_rows: 2_048,
        shards_per_worker: 6,
        confirmations: 10,
        activation_height: 3_428_143,
    }
}

#[test]
fn worker_hint_limit_covers_every_table() {
    let protocol = protocol();
    for table in DatabaseId::ALL {
        let shard_bytes = table.layout(&protocol).shard_bytes();
        assert!(
            worker_hint_limit(&protocol) >= shard_bytes * 2,
            "{}: hint limit too small for a {shard_bytes}-byte shard",
            table.as_str()
        );
    }
}

#[test]
fn readiness_follows_the_live_snapshot() {
    let building = CoordinatorPhase::Building { anchor_height: 1 };
    let syncing = CoordinatorPhase::Syncing {
        current_height: 0,
        target_height: 1,
    };
    let failed = CoordinatorPhase::Failed { reason: "x".into() };
    assert!(is_ready(&CoordinatorPhase::Serving, true));
    assert!(is_ready(&building, true));
    assert!(!is_ready(&CoordinatorPhase::Serving, false));
    assert!(!is_ready(&building, false));
    assert!(!is_ready(&syncing, true));
    assert!(!is_ready(&failed, true));
}

#[test]
fn health_graces_short_syncs_and_builds() {
    let syncing = CoordinatorPhase::Syncing {
        current_height: 0,
        target_height: 1,
    };
    let building = CoordinatorPhase::Building { anchor_height: 1 };
    let failed = CoordinatorPhase::Failed { reason: "x".into() };

    assert_eq!(health_status(&CoordinatorPhase::Serving, 0), HTTP_OK);
    assert_eq!(health_status(&syncing, 0), HTTP_OK);
    assert_eq!(health_status(&building, HEALTH_PHASE_GRACE_MILLIS), HTTP_OK);
    assert_eq!(
        health_status(&syncing, HEALTH_PHASE_GRACE_MILLIS + 1),
        HTTP_UNAVAILABLE
    );
    assert_eq!(health_status(&failed, 0), HTTP_UNAVAILABLE);
    assert_eq!((HTTP_OK, HTTP_UNAVAILABLE), (200, 503));
}

#[test]
fn the_body_limit_covers_every_table() {
    let protocol = protocol();
    let limit = max_shard_bytes(&protocol);
    for table in DatabaseId::ALL {
        let layout = table.layout(&protocol);
        assert!(layout.shard_bytes() > 0);
        assert!(layout.item_size_bits() > 0);
        assert!(limit >= layout.shard_bytes(), "{}", table.as_str());
    }
}

#[test]
fn a_bounded_body_refuses_what_is_announced_or_sent_beyond_its_limit() {
    assert!(BoundedBody::start(Some(9), 8).is_err());
    let mut body = BoundedBody::start(None, 8).unwrap();
    body.push_chunk(&[1; 5]).unwrap();
    body.push_chunk(&[2; 3]).unwrap();
    assert_eq!(
        body.push_chunk(&[3]).unwrap_err(),
        "worker response exceeds limit"
    );
    let mut body = BoundedBody::start(Some(2), 8).unwrap();
    body.push_chunk(&[1, 2]).unwrap();
    assert_eq!(body.into_bytes(), vec![1, 2]);
}

#[test]
fn placement_rule_for_the_migration_is_as_documented() {
    for shard in 0..10 {
        assert_eq!(group_index_for_shard(shard, 1), Some(0));
    }
    for shard in 0..SHARDS_PER_GROUP {
        assert_eq!(group_index_for_shard(shard, 2), Some(0));
    }
    for shard in SHARDS_PER_GROUP..2 * SHARDS_PER_GROUP {
        assert_eq!(group_index_for_shard(shard, 2), Some(1));
    }
    assert_eq!(group_index_for_shard(2 * SHARDS_PER_GROUP, 2), None);
    for shard in 0..2 * SHARDS_PER_GROUP {
        assert_eq!(
            group_index_for_shard(shard, 2),
            group_index_for_shard(shard, 3)
        );
    }
}
