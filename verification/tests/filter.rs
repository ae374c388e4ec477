use pir_core::filter::extract::{
    assemble_elements, extract_elements, needed_outpoints, outpoint_label, settle_lookups,
    ExtractError, PreviousOutputs,
};
use pir_core::filter::ingest::{
    begin_reconcile, catch_up, resume_reconcile, CommitCounter, ReconcileStep,
};
use pir_core::filter::metrics::{gauge_values, phase_code, FilterMetric};
use pir_core::filter::prevout::{wanted_transactions, CachedOutputs, LookupStep, OutputCache};
use pir_core::filter::service::{
    chain_entries, range, readiness, service_info, ChainParams, FilterTerms, Inner, Phase, RangeParams,
    Readiness,
};
use pir_core::filter::store::{FilterStore, Meta, StoreError, StoredFiles, StoredMeta};
use pir_core::filter::types::{is_filter_element, BlockHash, OutPoint, TransparentTx, TxInput};
use pir_core::filter::zakura::{
    block, check_reply, optional_reply, parse_cookie, transaction as read, ZakuraError,
};
use sha2::{Digest, Sha256};
use std::collections::HashMap;
use zakura_chain::amount::Amount;
use zakura_chain::serialization::{ZcashDeserialize, ZcashSerialize};
use zakura_chain::transaction::{LockTime, Transaction};
use zakura_chain::transparent::{Input, Output, Script};

/// A resolver backed by a fixed map.
#[derive(Default)]
struct MapPreviousOutputs {
    scripts: HashMap<([u8; 32], u32), Vec<u8>>,
    lookups: usize,
    broken: bool,
}

impl PreviousOutputs for MapPreviousOutputs {
    fn lock_script(&mut self, outpoint: &OutPoint) -> Result<Option<Vec<u8>>, String> {
        self.lookups += 1;
        if self.broken {
            return Err("node is down".to_string());
        }
        Ok(self.scripts.get(&(outpoint.hash, outpoint.index)).cloned())
    }
}

fn p2pkh(tag: u8) -> Vec<u8> {
    let mut bytes = vec![0x76, 0xa9, 0x14];
    bytes.extend_from_slice(&[tag; 20]);
    bytes.extend_from_slice(&[0x88, 0xac]);
    bytes
}

fn output(bytes: Vec<u8>) -> Output {
    Output {
        value: Amount::try_from(1000).unwrap(),
        lock_script: Script::new(&bytes),
    }
}

fn raw(inputs: Vec<Input>, outputs: Vec<Output>) -> Transaction {
    Transaction::V1 {
        inputs,
        outputs,
        lock_time: LockTime::unlocked(),
    }
}

/// A transaction as it comes from the node: serialized, in hexadecimal.
fn transaction(inputs: Vec<Input>, outputs: Vec<Output>) -> TransparentTx {
    let bytes = raw(inputs, outputs).zcash_serialize_to_vec().unwrap();
    read("id", &hex::encode(bytes)).expect("transaction")
}

fn coinbase_input() -> Input {
    let mut bytes = Vec::new();
    bytes.extend_from_slice(&[0u8; 32]);
    bytes.extend_from_slice(&0xffff_ffffu32.to_le_bytes());
    // The height 3,428,143: opcode 0x03 and three bytes, then miner data.
    let data = [0x03u8, 0x2f, 0x4f, 0x34, 0xaa, 0xbb];
    bytes.push(data.len() as u8);
    bytes.extend_from_slice(&data);
    bytes.extend_from_slice(&0u32.to_le_bytes());
    let input = Input::zcash_deserialize(bytes.as_slice()).expect("coinbase input");
    assert!(matches!(input, Input::Coinbase { .. }));
    input
}

fn prevout_input(outpoint: OutPoint) -> Input {
    Input::PrevOut {
        outpoint: zakura_chain::transparent::OutPoint {
            hash: zakura_chain::transaction::Hash(outpoint.hash),
            index: outpoint.index,
        },
        unlock_script: Script::new(&[0x47, 0x30]),
        sequence: 0,
    }
}

fn elements_of(
    transactions: &[TransparentTx],
    previous: &mut MapPreviousOutputs,
) -> Vec<Vec<u8>> {
    extract_elements(transactions, previous).expect("extract")
}

fn contains(elements: &[Vec<u8>], script: &[u8]) -> bool {
    elements.iter().any(|element| element == script)
}

#[test]
fn an_empty_block_has_no_elements() {
    let mut previous = MapPreviousOutputs::default();
    assert!(elements_of(&[], &mut previous).is_empty());
}

#[test]
fn a_receive_only_block_yields_its_output_scripts() {
    let transactions = vec![transaction(
        vec![coinbase_input()],
        vec![output(p2pkh(1)), output(p2pkh(2))],
    )];
    let mut previous = MapPreviousOutputs::default();
    let elements = elements_of(&transactions, &mut previous);
    assert_eq!(elements.len(), 2);
    assert!(contains(&elements, &p2pkh(1)));
    // A coinbase receive is included like any other output.
    assert!(contains(&elements, &p2pkh(2)));
    assert_eq!(previous.lookups, 0, "coinbase input must not be looked up");
}

#[test]
fn a_spend_with_no_matching_new_output_still_yields_the_spent_script() {
    let spent = OutPoint {
        hash: [9; 32],
        index: 0,
    };
    let transactions = vec![transaction(
        vec![prevout_input(spent)],
        // Change goes to an unrelated script.
        vec![output(p2pkh(50))],
    )];
    let mut previous = MapPreviousOutputs::default();
    previous.scripts.insert(([9; 32], 0), p2pkh(7));
    let elements = elements_of(&transactions, &mut previous);
    assert!(contains(&elements, &p2pkh(7)), "spent script missing");
    assert!(contains(&elements, &p2pkh(50)));
    assert_eq!(previous.lookups, 1);
}

#[test]
fn a_same_block_spend_resolves_without_a_lookup() {
    let funding = transaction(vec![coinbase_input()], vec![output(p2pkh(11))]);
    let spending = transaction(
        vec![prevout_input(OutPoint {
            hash: funding.txid,
            index: 0,
        })],
        vec![output(p2pkh(12))],
    );
    let mut previous = MapPreviousOutputs::default();
    let elements = elements_of(&[funding, spending], &mut previous);
    assert_eq!(
        previous.lookups, 0,
        "same-block spend must not need a lookup"
    );
    assert!(contains(&elements, &p2pkh(11)));
    assert!(contains(&elements, &p2pkh(12)));
}

#[test]
fn op_return_outputs_are_excluded_but_a_later_0x6a_byte_is_not() {
    // A script whose payload happens to contain 0x6a is a normal script.
    let mut embedded = vec![0x76, 0xa9, 0x14];
    embedded.extend_from_slice(&[0x6a; 20]);
    embedded.extend_from_slice(&[0x88, 0xac]);

    let transactions = vec![transaction(
        vec![coinbase_input()],
        vec![
            output(vec![0x6a, 0x04, 0xde, 0xad, 0xbe, 0xef]),
            output(embedded.clone()),
            output(p2pkh(3)),
        ],
    )];
    let mut previous = MapPreviousOutputs::default();
    let elements = elements_of(&transactions, &mut previous);
    assert!(!elements
        .iter()
        .any(|element| element.first() == Some(&0x6a)));
    assert!(
        contains(&elements, &embedded),
        "embedded 0x6a wrongly excluded"
    );
    assert!(contains(&elements, &p2pkh(3)));
    assert_eq!(elements.len(), 2);
    assert!(!is_filter_element(&[0x6a]));
    assert!(!is_filter_element(&[]));
    assert!(is_filter_element(&[0x51, 0x6a]));
}

#[test]
fn empty_scripts_are_not_elements() {
    let spent = OutPoint {
        hash: [4; 32],
        index: 1,
    };
    let transactions = vec![transaction(
        vec![prevout_input(spent)],
        vec![output(vec![]), output(p2pkh(6))],
    )];
    let mut previous = MapPreviousOutputs::default();
    // An empty previous-output script is resolvable and simply not an element.
    previous.scripts.insert(([4; 32], 1), vec![]);
    let elements = elements_of(&transactions, &mut previous);
    assert_eq!(elements, vec![p2pkh(6)]);
}

#[test]
fn a_repeated_script_appears_once() {
    let transactions = vec![transaction(
        vec![coinbase_input()],
        vec![output(p2pkh(8)), output(p2pkh(8)), output(p2pkh(8))],
    )];
    let mut previous = MapPreviousOutputs::default();
    assert_eq!(elements_of(&transactions, &mut previous), vec![p2pkh(8)]);
}

#[test]
fn a_nonstandard_script_is_still_an_element() {
    // Not any recognised template, and not address-decodable.
    let odd = vec![0x51, 0x52, 0x53, 0xae, 0xff, 0x00, 0x01];
    let transactions = vec![transaction(
        vec![coinbase_input()],
        vec![output(odd.clone())],
    )];
    let mut previous = MapPreviousOutputs::default();
    assert_eq!(elements_of(&transactions, &mut previous), vec![odd]);
}

#[test]
fn a_missing_previous_output_blocks_publication() {
    let spent = OutPoint {
        hash: [5; 32],
        index: 2,
    };
    let transactions = vec![transaction(
        vec![prevout_input(spent)],
        vec![output(p2pkh(9))],
    )];
    let mut previous = MapPreviousOutputs::default();
    let error = extract_elements(&transactions, &mut previous).unwrap_err();
    assert!(
        matches!(error, ExtractError::MissingPreviousOutput(_)),
        "an unresolved previous output must abort the block, not be treated as empty"
    );
    assert_eq!(
        error.message(),
        format!(
            "previous output {}:2 is unavailable; refusing to build a partial filter",
            "05".repeat(32)
        )
    );
    previous.broken = true;
    let error = extract_elements(&transactions, &mut previous).unwrap_err();
    assert_eq!(
        error.message(),
        format!(
            "previous output lookup failed for {}:2: node is down",
            "05".repeat(32)
        )
    );
}

#[test]
fn the_element_set_is_order_independent() {
    let a = || transaction(vec![coinbase_input()], vec![output(p2pkh(1))]);
    let b = || transaction(vec![coinbase_input()], vec![output(p2pkh(2))]);
    let mut previous = MapPreviousOutputs::default();
    let forward = elements_of(&[a(), b()], &mut previous);
    let backward = elements_of(&[b(), a()], &mut previous);
    assert_eq!(forward, backward);
}

#[test]
fn elements_are_assembled_from_looked_up_scripts() {
    let spent = OutPoint {
        hash: [7; 32],
        index: 3,
    };
    let transactions = vec![transaction(
        vec![prevout_input(spent)],
        vec![output(vec![9]), output(vec![2, 1]), output(vec![2])],
    )];
    assert_eq!(needed_outpoints(&transactions), vec![spent]);
    // By bytes, a start before what it is a start of.
    assert_eq!(
        assemble_elements(&transactions, &vec![vec![3]]),
        vec![vec![2], vec![2, 1], vec![3], vec![9]]
    );
    let mut bytes = [0u8; 32];
    bytes[0] = 0xab;
    assert_eq!(
        outpoint_label(&OutPoint {
            hash: bytes,
            index: 7
        }),
        format!("{}ab:7", "00".repeat(31))
    );
}

#[test]
fn a_transaction_is_read_as_the_chain_library_reads_it() {
    let spent = OutPoint {
        hash: [3; 32],
        index: 4,
    };
    let made = raw(
        vec![coinbase_input(), prevout_input(spent)],
        vec![output(p2pkh(1)), output(vec![])],
    );
    let bytes = made.zcash_serialize_to_vec().unwrap();
    let transparent = read("id", &hex::encode(&bytes)).unwrap();
    assert_eq!(transparent.txid, made.hash().0);
    assert_eq!(
        transparent.inputs,
        vec![TxInput::Coinbase, TxInput::PrevOut(spent)]
    );
    assert_eq!(transparent.outputs, vec![p2pkh(1), vec![]]);

    match read("id", "zz") {
        Err(ZakuraError::Hex(reason)) => {
            assert_eq!(reason, "Invalid character 'z' at position 0")
        }
        other => panic!("{other:?}"),
    }
    match read("id", "abc") {
        Err(error @ ZakuraError::Hex(_)) => {
            assert_eq!(error.message(), "invalid hex: Odd number of digits")
        }
        other => panic!("{other:?}"),
    }
    let error = read("id", &hex::encode(&bytes[..20])).unwrap_err();
    assert!(matches!(&error, ZakuraError::Transaction(id, _) if id == "id"));
    assert!(error
        .message()
        .starts_with("could not parse transaction id: "));
}

#[test]
fn a_block_is_read_with_its_hash_and_transactions() {
    let mut bytes = 4u32.to_le_bytes().to_vec();
    bytes.extend_from_slice(&[1; 32]);
    bytes.extend_from_slice(&[2; 32]);
    bytes.extend_from_slice(&[3; 32]);
    bytes.extend_from_slice(&1_600_000_000u32.to_le_bytes());
    bytes.extend_from_slice(&0x1f07_ffffu32.to_le_bytes());
    bytes.extend_from_slice(&[4; 32]);
    // The length of the solution, then the solution.
    bytes.extend_from_slice(&[0xfd, 0x40, 0x05]);
    bytes.extend_from_slice(&[5; 1344]);
    let header = bytes.clone();
    let made = raw(vec![coinbase_input()], vec![output(p2pkh(1))]);
    bytes.push(1);
    bytes.extend_from_slice(&made.zcash_serialize_to_vec().unwrap());

    let block_read = block(&hex::encode(&bytes)).unwrap();
    let digest: [u8; 32] = Sha256::digest(Sha256::digest(&header)).into();
    assert_eq!(block_read.hash.internal_bytes(), &digest);
    assert_eq!(block_read.transactions.len(), 1);
    assert_eq!(block_read.transactions[0].txid, made.hash().0);
    assert_eq!(block_read.transactions[0].outputs, vec![p2pkh(1)]);

    assert!(matches!(block("0"), Err(ZakuraError::Hex(_))));
    let error = block(&hex::encode(&bytes[..100])).unwrap_err();
    assert!(matches!(error, ZakuraError::Block(_)));
    assert!(error.message().starts_with("could not parse block: "));
}

#[test]
fn replies_and_cookies_are_checked() {
    assert_eq!(
        parse_cookie(" user:pass:word\n"),
        Some(("user".to_string(), "pass:word".to_string()))
    );
    assert_eq!(parse_cookie("user"), None);
    assert_eq!(parse_cookie(":pass"), None);
    assert_eq!(parse_cookie("user:"), None);
    let failed = |code: i64| Some((code, "gone".to_string()));
    assert_eq!(check_reply(false, None, Some(7)), Ok(7));
    assert_eq!(
        check_reply(true, None, Some(7)),
        Err(ZakuraError::InvalidCookie)
    );
    assert_eq!(
        check_reply::<u64>(false, None, None),
        Err(ZakuraError::MissingResult)
    );
    let error = check_reply(false, failed(-8), Some(7)).unwrap_err();
    assert_eq!(error.message(), "RPC returned -8: gone");
    assert_eq!(
        optional_reply(check_reply(false, failed(-5), Some(7))),
        Ok(None)
    );
    assert!(optional_reply(check_reply(false, failed(-8), Some(7))).is_err());
    assert_eq!(optional_reply(Ok(7)), Ok(Some(7)));
    assert_eq!(
        ZakuraError::Rpc(i64::MIN, "x".to_string()).message(),
        "RPC returned -9223372036854775808: x"
    );
    assert_eq!(
        ZakuraError::Http("timed out".to_string()).message(),
        "HTTP error: timed out"
    );
    assert_eq!(
        ZakuraError::Cookie("missing".to_string()).message(),
        "cookie error: missing"
    );
    assert_eq!(ZakuraError::InvalidCookie.message(), "invalid RPC cookie");
    assert_eq!(
        ZakuraError::MissingResult.message(),
        "RPC response is missing a result"
    );
}

#[test]
fn an_empty_cache_answers_nothing() {
    let cache = OutputCache::new(4);
    assert!(cache.is_empty());
    assert!(cache
        .get(&OutPoint {
            hash: [1; 32],
            index: 0
        })
        .is_none());
}

fn tagged(tag: u8) -> TransparentTx {
    let made = Transaction::V1 {
        inputs: vec![],
        outputs: vec![Output {
            value: Amount::try_from(i64::from(tag) + 1).unwrap(),
            lock_script: Script::new(&[0x76, 0xa9, tag]),
        }],
        lock_time: LockTime::unlocked(),
    };
    let bytes = made.zcash_serialize_to_vec().unwrap();
    let transparent = read("id", &hex::encode(bytes)).unwrap();
    assert_eq!(transparent.txid, made.hash().0);
    transparent
}

#[test]
fn eviction_bounds_the_cache_without_losing_recent_entries() {
    let mut cache = OutputCache::new(2);
    let first = tagged(1);
    let second = tagged(2);
    let third = tagged(3);
    cache.insert_transaction(&first);
    cache.insert_transaction(&second);
    cache.insert_transaction(&third);

    // Capacity is in transactions, and the oldest was evicted.
    assert_eq!(cache.len(), 2);
    let gone = OutPoint {
        hash: first.txid,
        index: 0,
    };
    let kept = OutPoint {
        hash: third.txid,
        index: 0,
    };
    assert!(cache.get(&gone).is_none(), "oldest entry should be evicted");
    assert_eq!(cache.get(&kept), Some(&vec![0x76, 0xa9, 3]));
}

#[test]
fn a_transaction_that_is_recorded_again_is_kept() {
    let place = |transaction: &TransparentTx| OutPoint {
        hash: transaction.txid,
        index: 0,
    };
    let mut cache = OutputCache::new(1);
    let first = tagged(1);
    cache.insert_transaction(&first);
    cache.insert_transaction(&first);
    assert_eq!(cache.get(&place(&first)), Some(&vec![0x76, 0xa9, 1]));
    assert_eq!(cache.len(), 1);

    let mut cache = OutputCache::new(2);
    let second = tagged(2);
    let third = tagged(3);
    cache.insert_transaction(&first);
    cache.insert_transaction(&second);
    cache.insert_transaction(&first);
    cache.insert_transaction(&third);
    assert!(cache.get(&place(&second)).is_none());
    assert!(cache.get(&place(&first)).is_some());
    assert!(cache.get(&place(&third)).is_some());
}

#[test]
fn only_unknown_transactions_are_fetched_once() {
    let mut cache = OutputCache::new(4);
    let known = tagged(1);
    cache.insert_transaction(&known);
    let fetch = OutPoint {
        hash: [8; 32],
        index: 0,
    };
    let spending = transaction(
        vec![
            prevout_input(OutPoint {
                hash: known.txid,
                index: 0,
            }),
            prevout_input(fetch),
            prevout_input(OutPoint {
                hash: [8; 32],
                index: 1,
            }),
        ],
        vec![output(p2pkh(1))],
    );
    assert_eq!(
        wanted_transactions(&cache, &[spending]),
        vec!["08".repeat(32)]
    );

    let mut outputs = CachedOutputs::new(cache);
    let held = OutPoint {
        hash: known.txid,
        index: 0,
    };
    match outputs.begin_lookup(&held) {
        LookupStep::Found(script) => assert_eq!(script, vec![0x76, 0xa9, 1]),
        LookupStep::Fetch(_) => panic!("it is held"),
    }
    match outputs.begin_lookup(&fetch) {
        LookupStep::Fetch(id) => assert_eq!(id, "08".repeat(32)),
        LookupStep::Found(_) => panic!("it is not held"),
    }
    assert_eq!((outputs.cache_hits, outputs.rpc_lookups), (1, 1));
    assert_eq!(outputs.finish_lookup(&fetch, None), None);
    let mut fetched = tagged(2);
    fetched.txid = [8; 32];
    assert_eq!(
        outputs.finish_lookup(&fetch, Some(&fetched)),
        Some(vec![0x76, 0xa9, 2])
    );
    assert!(outputs.cache.get(&fetch).is_some());
}

const GENESIS: &str = "00040fe8ec8471911baa1db1266ea15dd06b4a8a5c453883c000b031973dce08";
const PROFILE: &str = "zcash-transparent-basic-v1";
const START: u64 = 100;

fn hash_at(height: u64) -> BlockHash {
    let mut bytes = [0u8; 32];
    bytes[..8].copy_from_slice(&height.to_le_bytes());
    BlockHash::from_internal_bytes(bytes)
}

/// Bytes that stand for the filter of a height.
fn filter_for(height: u64) -> Vec<u8> {
    vec![1, 0x76, 0xa9, height as u8]
}

fn digest(filter: &[u8]) -> [u8; 32] {
    Sha256::digest(filter).into()
}

/// A directory: what is on disk after the last checkpoint.
#[derive(Default)]
struct Disk {
    meta: Option<Meta>,
    filters: Vec<u8>,
    index: Vec<u8>,
    chain: Vec<u8>,
    checkpoint: Option<Vec<u8>>,
}

impl Disk {
    fn save(&mut self, store: &FilterStore, checkpoint: Option<Vec<u8>>) {
        self.meta = Some(Meta {
            version: store.meta().version,
            profile: store.meta().profile.clone(),
            genesis_hash: store.meta().genesis_hash.clone(),
            start_height: store.meta().start_height,
        });
        self.filters = store.filter_bytes().to_vec();
        self.index = store.index_bytes().to_vec();
        self.chain = store.chain_bytes().to_vec();
        if checkpoint.is_some() {
            self.checkpoint = checkpoint;
        }
    }

    fn open_as(self, profile: &str, genesis: &str) -> (FilterStore, Option<String>) {
        let stored = match self.meta {
            Some(meta) => StoredMeta::Found(meta),
            None => StoredMeta::Absent,
        };
        let files = StoredFiles {
            filters: self.filters,
            index: self.index,
            chain: self.chain,
            checkpoint: self.checkpoint,
        };
        let opened = FilterStore::open(profile, genesis, START, stored, files).expect("open");
        (opened.store, opened.superseded)
    }
}

fn open(disk: Disk) -> FilterStore {
    disk.open_as(PROFILE, GENESIS).0
}

fn put(store: &mut FilterStore, height: u64) -> Result<(), StoreError> {
    let filter = filter_for(height);
    store.append(height, hash_at(height), &filter, digest(&filter))
}

/// Fills a store and gives what is on disk then.
fn fill(store: &mut FilterStore, through: u64) -> Disk {
    for height in store.next_height()..=through {
        put(store, height).unwrap();
    }
    let mut disk = Disk::default();
    let checkpoint = store.commit();
    disk.save(store, Some(checkpoint));
    disk
}

#[test]
fn a_fresh_store_has_no_coverage() {
    let store = open(Disk::default());
    assert_eq!(store.covered_through(), None);
    assert_eq!(store.next_height(), START);
    assert_eq!(store.filters_stored(), 0);
}

#[test]
fn appends_survive_reopening() {
    let mut store = open(Disk::default());
    let disk = fill(&mut store, START + 4);
    drop(store);

    let store = open(disk);
    assert_eq!(store.covered_through(), Some(START + 4));
    assert_eq!(store.filters_stored(), 5);
    assert_eq!(store.block_hash_at(START + 2), Some(hash_at(START + 2)));
    assert_eq!(store.height_of(hash_at(START + 3)), Some(START + 3));
    let stored = store.filter_by_hash(hash_at(START + 1)).unwrap().unwrap();
    assert_eq!(stored.bytes, filter_for(START + 1));
    assert_eq!(stored.digest, digest(&stored.bytes));
}

#[test]
fn uncommitted_appends_are_discarded_on_reopen() {
    let mut store = open(Disk::default());
    let mut disk = fill(&mut store, START + 2);
    // Appended but never committed: a crash here must not leave coverage
    // claiming a filter the checkpoint does not cover.
    put(&mut store, START + 3).unwrap();
    disk.save(&store, None);
    drop(store);

    let store = open(disk);
    assert_eq!(store.covered_through(), Some(START + 2));
    assert_eq!(store.filters_stored(), 3);
    assert!(store.filter_by_hash(hash_at(START + 3)).unwrap().is_none());
}

#[test]
fn heights_must_be_contiguous() {
    let mut store = open(Disk::default());
    assert!(put(&mut store, START + 1).is_err());
    fill(&mut store, START);
    assert!(put(&mut store, START + 5).is_err());
}

#[test]
fn rollback_drops_coverage_but_keeps_filter_bytes() {
    let mut store = open(Disk::default());
    fill(&mut store, START + 5);
    store.rollback_to(Some(START + 2));

    assert_eq!(store.covered_through(), Some(START + 2));
    assert_eq!(store.next_height(), START + 3);
    // Coverage is gone: the orphaned height no longer resolves.
    assert_eq!(store.block_hash_at(START + 4), None);
    assert_eq!(store.height_of(hash_at(START + 4)), None);
    // The immutable bytes remain cached under their own block hash.
    assert!(store.filter_by_hash(hash_at(START + 4)).unwrap().is_some());
}

#[test]
fn a_replacement_branch_can_reuse_the_heights() {
    let mut store = open(Disk::default());
    fill(&mut store, START + 3);
    store.rollback_to(Some(START + 1));

    let replacement = BlockHash::from_internal_bytes([0xcc; 32]);
    let bytes = vec![0];
    store
        .append(START + 2, replacement, &bytes, digest(&bytes))
        .unwrap();
    store.commit();

    assert_eq!(store.block_hash_at(START + 2), Some(replacement));
    assert_eq!(store.covered_through(), Some(START + 2));
}

#[test]
fn a_block_returning_to_the_best_chain_reuses_its_stored_filter() {
    let mut store = open(Disk::default());
    fill(&mut store, START + 3);
    let before = store.filters_stored();
    store.rollback_to(Some(START + 1));
    // Re-accepting the same block must not store a second copy.
    put(&mut store, START + 2).unwrap();
    store.commit();
    assert_eq!(store.filters_stored(), before);
    assert_eq!(store.block_hash_at(START + 2), Some(hash_at(START + 2)));
}

#[test]
fn the_same_block_hash_may_not_get_different_filter_bytes() {
    let mut store = open(Disk::default());
    fill(&mut store, START);
    store.rollback_to(Some(START - 1));
    let different = vec![1, 0xff, 0xee];
    let error = store
        .append(START, hash_at(START), &different, digest(&different))
        .unwrap_err();
    assert!(matches!(error, StoreError::Invariant(_)));
    assert!(error.message().starts_with("store invariant violated: "));
}

#[test]
fn rolling_back_everything_empties_coverage() {
    let mut store = open(Disk::default());
    fill(&mut store, START + 3);
    store.rollback_to(None);
    assert_eq!(store.covered_through(), None);
    assert_eq!(store.next_height(), START);
}

#[test]
fn an_incompatible_store_is_set_aside_rather_than_refusing_to_start() {
    let mut store = open(Disk::default());
    let disk = fill(&mut store, START + 1);
    drop(store);

    // A different profile must not be read as if it were this one.
    let (store, superseded) = disk.open_as("some-other-profile-v9", GENESIS);
    assert_eq!(store.covered_through(), None);
    assert_eq!(
        superseded.as_deref(),
        Some("superseded-v1-zcash-transparent-basic-v1")
    );
}

#[test]
fn a_different_chain_identity_sets_the_store_aside() {
    let mut store = open(Disk::default());
    let disk = fill(&mut store, START);
    drop(store);

    let (store, superseded) = disk.open_as(PROFILE, &"00".repeat(32));
    assert_eq!(store.covered_through(), None);
    assert!(superseded.is_some());
}

#[test]
fn a_truncated_store_is_refused() {
    let mut store = open(Disk::default());
    let mut disk = fill(&mut store, START + 1);
    disk.chain.truncate(32);
    let files = StoredFiles {
        filters: disk.filters,
        index: disk.index,
        chain: disk.chain,
        checkpoint: disk.checkpoint,
    };
    let stored = StoredMeta::Found(disk.meta.unwrap());
    assert!(FilterStore::open(PROFILE, GENESIS, START, stored, files).is_err());
}

fn served(blocks: u64) -> Inner {
    let mut store = open(Disk::default());
    if blocks > 0 {
        fill(&mut store, START + blocks - 1);
    }
    Inner::new(store)
}

#[test]
fn info_reports_the_pinned_chain_identity_and_profile() {
    let terms = FilterTerms {
        envelope_version: 1,
        max_records_per_batch: 1_000,
        max_filter_bytes: 65_536,
    };
    let info = service_info(&served(4).store, terms);
    assert_eq!(info.genesis_hash, GENESIS);
    assert_eq!(info.profile, "zcash-transparent-basic-v1");
    assert_eq!(info.network, "main");
    assert_eq!(info.terms, terms);
    assert_eq!(info.start_height, START);
    assert_eq!(info.covered_through, Some(START + 3));
    assert_eq!(
        info.covered_block_hash,
        Some(hash_at(START + 3).to_display_hex())
    );
}

#[test]
fn a_range_holds_the_stored_filters_in_order() {
    let state = served(6);
    let params = RangeParams {
        start_height: START,
        stop_block_hash: hash_at(START + 5).to_display_hex(),
    };
    let batch = range(&state.store, &params, 1_000).expect("range");
    assert_eq!(batch.start_height, START);
    assert_eq!(batch.profile, PROFILE);
    assert_eq!(batch.stop_block_hash, hash_at(START + 5));
    assert_eq!(batch.records.len(), 6);
    for (record, height) in batch.records.iter().zip(START..) {
        assert_eq!(record.height, height);
        assert_eq!(record.block_hash, hash_at(height));
        assert_eq!(record.filter, filter_for(height));
    }
}

#[test]
fn an_uncovered_stop_hash_is_refused() {
    let state = served(3);
    let params = RangeParams {
        start_height: START,
        stop_block_hash: "ab".repeat(32),
    };
    let error = range(&state.store, &params, 1_000).unwrap_err();
    assert_eq!(error.status(), 400);
    assert!(error.message().contains("not a covered block"));
    let params = RangeParams {
        start_height: START,
        stop_block_hash: "ab".to_string(),
    };
    let error = range(&state.store, &params, 1_000).unwrap_err();
    assert_eq!(error.status(), 400);
    assert_eq!(error.message(), "invalid block hash");
}

#[test]
fn a_start_below_the_service_start_height_is_refused() {
    let state = served(3);
    let stop = hash_at(START + 1).to_display_hex();
    let params = RangeParams {
        start_height: START - 1,
        stop_block_hash: stop.clone(),
    };
    assert_eq!(range(&state.store, &params, 1_000).unwrap_err().status(), 400);
    let params = RangeParams {
        start_height: START + 2,
        stop_block_hash: stop,
    };
    let error = range(&state.store, &params, 1_000).unwrap_err();
    assert_eq!(
        error.message(),
        "start_height is above the stop block's height"
    );
}

#[test]
fn the_chain_endpoint_returns_the_covered_prefix_only() {
    let state = served(3);
    let params = |start_height: u64, count: u64| ChainParams {
        start_height,
        count,
    };
    let entries = chain_entries(&state.store, &params(START, 100)).unwrap();
    assert_eq!(entries.len(), 3);
    assert_eq!(entries[0].height, START);
    assert_eq!(entries[2].block_hash, hash_at(START + 2).to_display_hex());
    assert!(chain_entries(&state.store, &params(START, 0)).is_err());
    assert!(chain_entries(&state.store, &params(START, 10_001)).is_err());
    assert!(chain_entries(&state.store, &params(START - 1, 2))
        .unwrap()
        .is_empty());
}

#[test]
fn readiness_and_metrics_follow_coverage() {
    let mut state = served(2);
    assert_eq!(readiness(&state.phase, &state.store).status(), 200);
    state.tip_height = Some(START + 9);
    let gauges = gauge_values(&state);
    assert_eq!(gauges.covered_through, START + 1);
    assert_eq!(gauges.tip_height, START + 9);
    assert_eq!(gauges.filters_stored, 2);
    assert_eq!(phase_code(&state.phase), 0);
    assert_eq!(phase_code(&Phase::Serving), 1);
    assert_eq!(
        FilterMetric::CoveredThrough.name(),
        "transparent_filter_covered_through_height"
    );
    assert_eq!(
        FilterMetric::FiltersStored.name(),
        "transparent_filter_filters_stored"
    );
    let failed = Phase::Failed {
        reason: "node gone".to_string(),
    };
    assert!(matches!(
        readiness(&failed, &state.store),
        Readiness::Failed(reason) if reason == "node gone"
    ));
}

#[test]
fn a_service_with_no_coverage_is_not_ready() {
    let state = served(0);
    assert_eq!(readiness(&state.phase, &state.store).status(), 503);
}

#[test]
fn a_batch_is_capped() {
    let blocks = 1_200u64;
    let state = served(blocks);
    let params = RangeParams {
        start_height: START,
        stop_block_hash: hash_at(START + blocks - 1).to_display_hex(),
    };
    let batch = range(&state.store, &params, 1_000).expect("range");
    assert_eq!(batch.records.len(), 1_000, "the service must bound a batch");
    assert_eq!(batch.records[999].height, START + 999);
}

#[test]
fn coverage_off_the_best_chain_is_taken_back_block_by_block() {
    let mut store = open(Disk::default());
    fill(&mut store, START + 2);
    let step = begin_reconcile(&store, START + 2);
    assert!(matches!(step, ReconcileStep::AskHash(height) if height == START + 2));
    assert!(matches!(
        resume_reconcile(&store, hash_at(START + 2)),
        ReconcileStep::Settled
    ));
    match resume_reconcile(&store, hash_at(1)) {
        ReconcileStep::Rollback(target) => {
            assert_eq!(target, Some(START + 1));
            store.rollback_to(target);
            assert_eq!(store.covered_through(), Some(START + 1));
        }
        other => panic!("{other:?}"),
    }
    assert_eq!(catch_up(START + 2, START + 1).next, None);
    assert_eq!(catch_up(START + 2, START + 2).next, Some(START + 2));
    let mut counter = CommitCounter {
        since_commit: 0,
        commit_every: 2,
    };
    assert!(!counter.block_appended());
    assert!(counter.block_appended());
    assert_eq!(counter.since_commit, 0);
}

#[test]
fn hashes_are_shown_from_last_byte_to_first() {
    let hash = hash_at(START);
    assert_eq!(hash.to_display_hex(), format!("{:064x}", START));
    assert_eq!(
        BlockHash::from_display_hex(&format!("{:064X}", START)),
        Some(hash)
    );
    assert_eq!(BlockHash::from_display_hex("64"), None);
}

#[test]
fn the_first_lookup_without_a_script_decides() {
    let places = vec![
        OutPoint {
            hash: [1; 32],
            index: 0,
        },
        OutPoint {
            hash: [2; 32],
            index: 7,
        },
        OutPoint {
            hash: [3; 32],
            index: 9,
        },
    ];
    let script = |byte: u8| Ok(Some(vec![byte]));
    let scripts = settle_lookups(&places, vec![script(1), script(2), script(3)]).unwrap();
    assert_eq!(scripts, vec![vec![1], vec![2], vec![3]]);
    match settle_lookups(&places, vec![script(1), Ok(None), Err("offline".to_string())]) {
        Err(ExtractError::MissingPreviousOutput(label)) => {
            assert_eq!(label, outpoint_label(&places[1]))
        }
        other => panic!("{other:?}"),
    }
    match settle_lookups(&places, vec![script(1), script(2), Err("offline".to_string())]) {
        Err(ExtractError::Lookup { outpoint, source }) => {
            assert_eq!(outpoint, outpoint_label(&places[2]));
            assert_eq!(source, "offline");
        }
        other => panic!("{other:?}"),
    }
    assert!(settle_lookups(&Vec::new(), Vec::new()).unwrap().is_empty());
}

/// Knows no output, and counts how often it is asked.
struct Counting(usize);

impl PreviousOutputs for Counting {
    fn lock_script(&mut self, _: &OutPoint) -> Result<Option<Vec<u8>>, String> {
        self.0 += 1;
        Ok(None)
    }
}

#[test]
fn no_lookup_follows_one_that_fails() {
    let spending = transaction(
        vec![
            prevout_input(OutPoint {
                hash: [8; 32],
                index: 0,
            }),
            prevout_input(OutPoint {
                hash: [9; 32],
                index: 0,
            }),
        ],
        vec![output(p2pkh(1))],
    );
    let mut previous = Counting(0);
    assert!(extract_elements(&[spending], &mut previous).is_err());
    assert_eq!(previous.0, 1);
}
