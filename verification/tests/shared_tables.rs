use std::collections::BTreeMap;

use pir_core::proto::{PoolType, ShieldedProtocol};
use pir_core::tables::{
    action_layout, seed_from_domain, setup_seed_bytes, DatabaseId, MEMO_SETUP_SEED,
};

#[test]
fn layout_derivations_match_the_action_constants() {
    let layout = action_layout();
    assert_eq!(layout.row_bytes(), 6_592);
    assert_eq!(layout.shard_positions(), 65_536);
    assert_eq!(layout.item_size_bits(), 52_736);
    assert_eq!(layout.shard_bytes(), 54_001_664);
    assert_eq!(layout.used_rows_for(0), 0);
    assert_eq!(layout.used_rows_for(9), 2);
    assert_eq!(layout.logical_rows_for(0), 8_192);
    assert_eq!(layout.logical_rows_for(16_819), 32_768);
    assert_eq!(layout.row_for_position(65_537), (8_192, 1));
    for table in DatabaseId::ALL {
        assert_eq!(table.layout().shard_rows % 2_048, 0, "{}", table.as_str());
    }
}

#[test]
fn table_names_are_fixed_and_round_trip() {
    for id in DatabaseId::ALL {
        assert_eq!(id.as_str().parse::<DatabaseId>().unwrap(), id);
        assert_eq!(
            serde_json::to_string(id.as_str()).unwrap(),
            format!("{:?}", id.as_str())
        );
    }
    assert_eq!(DatabaseId::NfCold.as_str(), "nf-cold");
    assert!("memo".parse::<DatabaseId>().is_err());
    let mut tables = BTreeMap::new();
    tables.insert(DatabaseId::NfWarm.as_str(), 1u8);
    assert_eq!(serde_json::to_string(&tables).unwrap(), r#"{"nf-warm":1}"#);
}

#[test]
fn setup_seeds_are_domain_separated_and_action_is_pinned() {
    assert_eq!(
        seed_from_domain("zcash/ironwood-memo-pir/setup-seed/v1"),
        MEMO_SETUP_SEED
    );
    assert_eq!(DatabaseId::Action.setup_seed(), MEMO_SETUP_SEED);
    let mut seeds: Vec<u64> = DatabaseId::ALL.iter().map(|id| id.setup_seed()).collect();
    seeds.sort_unstable();
    seeds.dedup();
    assert_eq!(seeds.len(), DatabaseId::ALL.len());
    assert_eq!(
        &setup_seed_bytes(MEMO_SETUP_SEED)[..8],
        &MEMO_SETUP_SEED.to_le_bytes()
    );
    assert!(setup_seed_bytes(MEMO_SETUP_SEED)[8..]
        .iter()
        .all(|byte| *byte == 0));
}

#[test]
fn shielded_protocol_ironwood_is_two() {
    assert_eq!(ShieldedProtocol::Ironwood.number(), 2);
    assert_eq!(ShieldedProtocol::Orchard.number(), 1);
    assert_eq!(PoolType::Ironwood.number(), 4);
}
