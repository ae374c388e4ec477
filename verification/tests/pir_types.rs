use pir_core::pir_types::{
    min_sync_height, public_params_epoch, split_epoch, ServerPhase, YpirScenario, ZcashNetwork,
    NU6_3_MAINNET_ACTIVATION, NU6_3_TESTNET_ACTIVATION, PIR_EPOCH_BYTES,
};
use serde_json::Value;

fn phase_to_json(phase: &ServerPhase) -> String {
    let value = match phase {
        ServerPhase::Syncing {
            current_height,
            target_height,
        } => {
            let mut fields = serde_json::Map::new();
            fields.insert("current_height".into(), Value::from(*current_height));
            fields.insert("target_height".into(), Value::from(*target_height));
            let mut outer = serde_json::Map::new();
            outer.insert("Syncing".into(), Value::Object(fields));
            Value::Object(outer)
        }
        ServerPhase::Serving => Value::from("Serving"),
    };
    value.to_string()
}

fn phase_from_json(text: &str) -> ServerPhase {
    let value: Value = serde_json::from_str(text).unwrap();
    if value.as_str() == Some("Serving") {
        return ServerPhase::Serving;
    }
    let fields = &value["Syncing"];
    ServerPhase::Syncing {
        current_height: fields["current_height"].as_u64().unwrap(),
        target_height: fields["target_height"].as_u64().unwrap(),
    }
}

#[test]
fn public_params_epoch_changes_with_the_parameters() {
    let a = public_params_epoch(b"snapshot-one");
    assert_eq!(a, public_params_epoch(b"snapshot-one"), "must be stable");
    assert_ne!(a, public_params_epoch(b"snapshot-two"));
    assert_ne!(
        public_params_epoch(&[0u8; 64]),
        public_params_epoch(&{
            let mut bytes = [0u8; 64];
            bytes[63] = 1;
            bytes
        }),
    );
    assert_eq!(a.len(), PIR_EPOCH_BYTES);
}

#[test]
fn server_phase_serde_roundtrip() {
    let syncing = ServerPhase::Syncing {
        current_height: 100,
        target_height: 200,
    };
    assert_eq!(phase_from_json(&phase_to_json(&syncing)), syncing);

    let serving = ServerPhase::Serving;
    assert_eq!(phase_from_json(&phase_to_json(&serving)), serving);
}

#[test]
fn network_parses_lwd_names() {
    assert_eq!(
        ZcashNetwork::from_lwd_name("main"),
        Some(ZcashNetwork::Main)
    );
    assert_eq!(
        ZcashNetwork::from_lwd_name("test"),
        Some(ZcashNetwork::Test)
    );
    assert_eq!(ZcashNetwork::from_lwd_name("regtest"), None);
}

#[test]
fn min_sync_height_uses_activation_or_falls_back() {
    assert_eq!(
        min_sync_height(Some(ZcashNetwork::Main), 3_469_040),
        NU6_3_MAINNET_ACTIVATION
    );
    assert_eq!(min_sync_height(Some(ZcashNetwork::Main), 500), 1);
    assert_eq!(min_sync_height(None, 3_469_040), 1);
    assert_eq!(
        min_sync_height(Some(ZcashNetwork::Test), 4_200_000),
        NU6_3_TESTNET_ACTIVATION
    );
}

#[test]
fn ypir_scenario_serde_roundtrip() {
    let scenario = YpirScenario {
        num_items: 16_384,
        item_size_bits: 28_672,
    };
    let mut fields = serde_json::Map::new();
    fields.insert("num_items".into(), Value::from(scenario.num_items));
    fields.insert("item_size_bits".into(), Value::from(scenario.item_size_bits));
    let json = Value::Object(fields).to_string();
    let value: Value = serde_json::from_str(&json).unwrap();
    let decoded = YpirScenario {
        num_items: value["num_items"].as_u64().unwrap() as _,
        item_size_bits: value["item_size_bits"].as_u64().unwrap() as _,
    };
    assert_eq!(decoded.num_items, 16_384);
    assert_eq!(decoded.item_size_bits, 28_672);
}

#[test]
fn a_tagged_response_splits_into_tag_and_body() {
    let tag = public_params_epoch(b"params");
    let mut response = tag.to_vec();
    response.extend_from_slice(b"body");
    let (epoch, body) = split_epoch(&response).unwrap();
    assert_eq!(epoch, tag);
    assert_eq!(body, b"body");
    assert!(split_epoch(&[1, 2, 3]).is_none());
}

#[test]
fn the_epoch_is_the_sixty_four_bit_fnv_hash() {
    assert_eq!(
        public_params_epoch(b"a"),
        0xaf63_dc4c_8601_ec8c_u64.to_le_bytes()
    );
    assert_eq!(
        public_params_epoch(b""),
        0xcbf2_9ce4_8422_2325_u64.to_le_bytes()
    );
    assert_eq!(
        public_params_epoch(b"foobar"),
        0x8594_4171_f739_67e8_u64.to_le_bytes()
    );
}
