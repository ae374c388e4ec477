use pir_core::enhance::buckets::{BucketShape, TablesOutcome, TransparentSpendTables};
use pir_core::enhance::ingest::{CanonicalBlock, EnhanceJournal};
use pir_core::enhance::source::{TableJournal, TableSource};
use pir_core::enhance::spend::{SpendError, SpendJournal, SpendPartition};
use pir_core::enhance::store::{default_table, BlockEntry, RecordJournal, StoreManifest};
use pir_core::enhance::types::{
    enhance_layout, DatabaseId, Protocol, RECORDS_PER_ROW, RECORD_BYTES, SHARD_ROWS,
};

fn protocol() -> Protocol {
    Protocol {
        revision: "revision".to_string(),
        network: "main".to_string(),
        pool: "ironwood".to_string(),
        enhance_setup_seed: 1,
        cold_setup_seed: 2,
        warm_setup_seed: 3,
        spend_row_bytes: 8_192,
        spend_shard_rows: 8_192,
        shards_per_worker: 6,
        confirmations: 10,
        activation_height: 3_428_143,
    }
}

fn record(byte: u8) -> Vec<u8> {
    vec![byte; RECORD_BYTES]
}

fn open(stored: Option<StoreManifest>, log: Vec<u8>) -> (RecordJournal, Option<String>) {
    let opened =
        RecordJournal::open(DatabaseId::Enhance, enhance_layout(), stored, log).expect("open");
    (opened.journal, opened.superseded)
}

/// What a journal leaves on disk.
fn stored(journal: &RecordJournal) -> (StoreManifest, Vec<u8>) {
    let manifest = journal.manifest();
    (
        StoreManifest {
            version: manifest.version,
            table: manifest.table.clone(),
            tree_size: manifest.tree_size,
            blocks: manifest
                .blocks
                .iter()
                .map(|block| BlockEntry {
                    height: block.height,
                    hash: block.hash.clone(),
                    first_position: block.first_position,
                    action_count: block.action_count,
                })
                .collect(),
        },
        journal.log().to_vec(),
    )
}

#[test]
fn append_restart_and_padding_are_deterministic() {
    let (mut store, _) = open(None, Vec::new());
    store
        .append_block(10, "aa".to_string(), &[record(1), record(2)])
        .expect("append");
    let (manifest, log) = stored(&store);
    drop(store);

    let (store, superseded) = open(Some(manifest), log);
    assert_eq!(superseded, None);
    assert_eq!(store.tree_size(), 2);
    assert_eq!(store.shard_ids(), 0..=0);
    let shard = store.read_shard_rows(0).expect("shard");
    assert_eq!(shard.len(), enhance_layout().shard_bytes());
    assert_eq!(&shard[..RECORD_BYTES], &[1; RECORD_BYTES]);
    assert_eq!(&shard[RECORD_BYTES..2 * RECORD_BYTES], &[2; RECORD_BYTES]);
    assert!(shard[2 * RECORD_BYTES..].iter().all(|byte| *byte == 0));
}

#[test]
fn records_must_match_the_layout() {
    let (mut store, _) = open(None, Vec::new());
    let short = vec![0u8; RECORD_BYTES - 1];
    assert!(store.append_block(10, "aa".to_string(), &[short]).is_err());
    assert_eq!(store.tree_size(), 0);
}

#[test]
fn older_or_foreign_journals_are_set_aside_and_restarted_empty() {
    let old = StoreManifest {
        version: 1,
        table: default_table(),
        tree_size: 2,
        blocks: vec![BlockEntry {
            height: 5,
            hash: "aa".to_string(),
            first_position: 0,
            action_count: 2,
        }],
    };
    let (store, superseded) = open(Some(old), vec![7u8; 2 * 612]);
    assert_eq!(store.tree_size(), 0);
    assert!(store.last_block().is_none());
    assert_eq!(superseded.as_deref(), Some("superseded-v1-action"));
    assert_eq!(store.log().len(), 0);
    assert_eq!(store.manifest().version, 5);
    assert_eq!(store.manifest().table, "enhance");
}

#[test]
fn unnamed_action_journals_are_preserved_and_restarted() {
    let old = StoreManifest {
        version: 3,
        table: default_table(),
        tree_size: 1,
        blocks: vec![BlockEntry {
            height: 5,
            hash: "aa".to_string(),
            first_position: 0,
            action_count: 1,
        }],
    };
    let (store, superseded) = open(Some(old), vec![9u8; RECORD_BYTES]);
    assert_eq!(store.tree_size(), 0);
    assert_eq!(superseded.as_deref(), Some("superseded-v3-action"));
}

#[test]
fn a_log_shorter_than_its_manifest_is_refused() {
    let (mut store, _) = open(None, Vec::new());
    store
        .append_block(10, "aa".to_string(), &[record(1), record(2)])
        .expect("append");
    let (manifest, mut log) = stored(&store);
    log.pop();
    assert!(
        RecordJournal::open(DatabaseId::Enhance, enhance_layout(), Some(manifest), log).is_err()
    );
}

#[test]
fn an_uncommitted_tail_is_dropped_on_reopening() {
    let (mut store, _) = open(None, Vec::new());
    store
        .append_block(10, "aa".to_string(), &[record(1)])
        .expect("append");
    let (manifest, mut log) = stored(&store);
    log.extend_from_slice(&[9; 100]);
    let (store, _) = open(Some(manifest), log);
    assert_eq!(store.tree_size(), 1);
    assert_eq!(store.log().len(), RECORD_BYTES);
}

#[test]
fn blocks_follow_each_other_and_add_up_to_the_tree_size() {
    let (mut store, _) = open(None, Vec::new());
    for (height, count) in [(10u64, 2u8), (11, 0), (12, 3)] {
        let records: Vec<Vec<u8>> = (0..count).map(record).collect();
        store
            .append_block(height, format!("{height:02x}"), &records)
            .expect("append");
    }
    let (manifest, _) = stored(&store);
    let mut next = 0;
    for (i, block) in manifest.blocks.iter().enumerate() {
        assert_eq!(block.height, 10 + i as u64);
        assert_eq!(block.first_position, next);
        next += u64::from(block.action_count);
    }
    assert_eq!(next, store.tree_size());
    store.rewind_to_height(Some(11)).expect("rewind");
    assert_eq!(store.tree_size(), 2);
}

#[test]
fn a_rewind_undoes_an_append() {
    let (mut store, _) = open(None, Vec::new());
    store
        .append_block(10, "aa".to_string(), &[record(1)])
        .expect("append");
    let before = store.log().to_vec();
    store
        .append_block(11, "bb".to_string(), &[record(2), record(3)])
        .expect("append");
    store.rewind_to_height(Some(10)).expect("rewind");
    assert_eq!(store.log(), &before[..]);
    assert_eq!(store.tree_size(), 1);
    assert_eq!(store.last_block().unwrap().height, 10);
    assert!(store
        .append_block(12, "cc".to_string(), &[record(4)])
        .is_err());
    store.rewind_to_height(None).expect("rewind");
    assert_eq!(store.tree_size(), 0);
    assert!(store.last_block().is_none());
}

fn sample(seed: u8) -> Vec<u8> {
    let mut bytes = vec![seed.wrapping_add(1); 32];
    bytes.extend(vec![seed.wrapping_add(2); 580]);
    bytes.extend(vec![seed.wrapping_add(3); 32]);
    bytes.extend(vec![seed.wrapping_add(4); 80]);
    bytes.resize(RECORD_BYTES, seed.wrapping_add(5));
    bytes
}

#[test]
fn records_survive_the_journal_and_padded_shard_read() {
    let row_bytes = enhance_layout().row_bytes();
    let (mut store, _) = open(None, Vec::new());
    let records: Vec<Vec<u8>> = (0..(RECORDS_PER_ROW as u8 + 3)).map(sample).collect();
    store
        .append_block(3_428_143, "hash".to_string(), &records)
        .expect("append");
    let (manifest, log) = stored(&store);
    drop(store);

    let (store, _) = open(Some(manifest), log);
    let shard = store.read_shard_rows(0).expect("shard");
    assert_eq!(shard.len(), SHARD_ROWS * row_bytes);
    for (position, expected) in records.iter().enumerate() {
        let row = position / RECORDS_PER_ROW;
        let slot = position % RECORDS_PER_ROW;
        let start = row * row_bytes + slot * RECORD_BYTES;
        assert_eq!(&shard[start..start + RECORD_BYTES], &expected[..]);
    }
    let padding_start = records.len() * RECORD_BYTES;
    assert!(shard[padding_start..].iter().all(|byte| *byte == 0));
    assert_eq!(store.populated_positions_in_shard(0), records.len() as u64);
    assert_eq!(store.populated_positions_in_shard(1), 0);
    assert!(store.read_shard_rows(1).is_err());
}

#[test]
fn appends_only_the_active_enhancement_journal() {
    let (mut journal, superseded) = EnhanceJournal::open(None, Vec::new()).unwrap();
    assert_eq!(superseded, None);
    let block = CanonicalBlock {
        height: 3_428_143,
        hash: "01".repeat(32),
        records: vec![vec![7; RECORD_BYTES]],
        tree_size: 1,
    };
    journal.append_block(&block).unwrap();
    assert_eq!(journal.records.tree_size(), 1);
    assert_eq!(journal.committed_height(), Some(3_428_143));
    assert_eq!(journal.records.name(), "enhance");
}

#[test]
fn a_block_that_does_not_reach_its_tree_size_is_refused() {
    let (mut journal, _) = EnhanceJournal::open(None, Vec::new()).unwrap();
    let block = CanonicalBlock {
        height: 3_428_143,
        hash: "01".repeat(32),
        records: vec![vec![7; RECORD_BYTES]],
        tree_size: 3,
    };
    assert!(journal.append_block(&block).is_err());
}

#[test]
fn a_table_reads_only_its_own_journal() {
    let (store, _) = open(None, Vec::new());
    assert!(TableJournal::new(DatabaseId::Enhance, &store).is_ok());
    assert!(TableJournal::new(DatabaseId::TransparentSpendCold, &store).is_err());
    let view = TableJournal::new(DatabaseId::Enhance, &store).unwrap();
    assert_eq!(view.positions(), 0);
    assert!(view.shard_ids().is_empty());
}

const ENTRY_BYTES: usize = 76;

/// An entry of the spend log: outpoint, spending transaction and place.
fn entry(height: u32) -> Vec<u8> {
    let mut bytes = vec![height as u8; 32];
    bytes.extend_from_slice(&height.to_le_bytes());
    bytes.extend_from_slice(&[9; 32]);
    bytes.extend_from_slice(&height.to_le_bytes());
    bytes.extend_from_slice(&1u32.to_le_bytes());
    bytes
}

#[test]
fn partitions_at_the_trailing_100000_blocks_and_rewinds() {
    let protocol = protocol();
    let shape = BucketShape {
        entry_bytes: ENTRY_BYTES,
        capacity: 100,
    };
    let mut log = SpendJournal::open(ENTRY_BYTES, Vec::new(), b"TSPBLK01".to_vec(), 0).unwrap();
    log.append_block(1, "aa".repeat(32), &[entry(1)]).unwrap();
    log.append_block(2, "bb".repeat(32), &[entry(2)]).unwrap();
    let parts = SpendPartition::at_tip(&log, 100_001);
    assert_eq!(parts.cold, vec![entry(1)]);
    assert_eq!(parts.warm, vec![entry(2)]);
    let outcome =
        TransparentSpendTables::build(&protocol, shape, &parts, 8_192, &[17], 8_192, &[23])
            .unwrap();
    let tables = match outcome {
        TablesOutcome::Built(tables) => tables,
        TablesOutcome::Grow { .. } => panic!("one entry fits a bucket"),
    };
    assert_eq!(tables.cold_end_height, 1);
    assert_eq!(tables.cold.buckets(), 8_192);
    assert_eq!(tables.warm.buckets(), 8_192);
    log.rewind_to_height(Some(1));
    assert_eq!(log.committed_height(), Some(1));
    assert_eq!(log.read_entries(0, 1).unwrap(), vec![entry(1)]);
}

#[test]
fn restart_discards_an_uncheckpointed_tail() {
    let mut log = SpendJournal::open(ENTRY_BYTES, Vec::new(), b"TSPBLK01".to_vec(), 0).unwrap();
    log.append_block(1, "aa".repeat(32), &[entry(1)]).unwrap();
    let checkpoint = log.sync();
    log.append_block(2, "bb".repeat(32), &[entry(2)]).unwrap();
    let entries = log.entries_image().to_vec();
    let index = log.index_file().to_vec();
    drop(log);

    let mut bytes = [0u8; 8];
    bytes.copy_from_slice(&checkpoint);
    let log =
        SpendJournal::open(ENTRY_BYTES, entries, index, u64::from_le_bytes(bytes)).unwrap();
    assert_eq!(log.committed_height(), Some(1));
    assert_eq!(log.read_entries(0, 1).unwrap(), vec![entry(1)]);
}

#[test]
fn a_damaged_spend_index_is_refused() {
    let mut log = SpendJournal::open(ENTRY_BYTES, Vec::new(), b"TSPBLK01".to_vec(), 0).unwrap();
    log.append_block(1, "aa".repeat(32), &[entry(1)]).unwrap();
    let entries = log.entries_image().to_vec();
    let index = log.index_file().to_vec();

    let mut foreign = index.clone();
    foreign[0] ^= 1;
    assert!(matches!(
        SpendJournal::open(ENTRY_BYTES, entries.clone(), foreign, 1),
        Err(SpendError::InvalidIndex)
    ));
    assert!(matches!(
        SpendJournal::open(ENTRY_BYTES, entries.clone(), index.clone(), 2),
        Err(SpendError::CheckpointExceedsIndex)
    ));
    assert!(SpendJournal::open(ENTRY_BYTES, entries, index, 1).is_ok());
    assert!(matches!(
        log.append_block(3, "cc".repeat(32), &[]),
        Err(SpendError::NonContiguousBlock)
    ));
    assert!(matches!(
        log.append_block(2, "c".repeat(63), &[]),
        Err(SpendError::InvalidHash)
    ));
    assert!(matches!(log.read_entries(0, 2), Err(SpendError::OutsideLog)));
    assert!(log.read_entries(5, 0).unwrap().is_empty());
}

#[test]
fn an_overfull_bucket_asks_for_twice_as_many() {
    let protocol = protocol();
    let shape = BucketShape {
        entry_bytes: ENTRY_BYTES,
        capacity: 1,
    };
    let parts = SpendPartition {
        cold_end_height: 0,
        cold: Vec::new(),
        warm: vec![entry(1), entry(2)],
    };
    match TransparentSpendTables::build(&protocol, shape, &parts, 8_192, &[], 8_192, &[4, 4])
        .unwrap()
    {
        TablesOutcome::Grow {
            cold_buckets,
            warm_buckets,
        } => {
            assert_eq!(cold_buckets, 8_192);
            assert_eq!(warm_buckets, 16_384);
        }
        TablesOutcome::Built(_) => panic!("two entries do not fit one slot"),
    }
    match TransparentSpendTables::build(&protocol, shape, &parts, 8_192, &[], 8_192, &[4, 5])
        .unwrap()
    {
        TablesOutcome::Built(tables) => {
            let shard = tables.warm.read_shard_rows(0).unwrap();
            assert_eq!(shard.len(), 8_192 * 8_192);
            let at = 4 * 8_192;
            assert_eq!(&shard[at..at + ENTRY_BYTES], &entry(1)[..]);
        }
        TablesOutcome::Grow { .. } => panic!("each entry has a bucket of its own"),
    }
}

#[test]
fn an_empty_journal_has_no_shard() {
    let (mut journal, _) = open(None, Vec::new());
    assert!(journal.shard_ids().is_empty());
    assert_eq!(journal.populated_positions_in_shard(0), 0);
    journal
        .append_block(1, "aa".to_string(), &[record(1)])
        .expect("append");
    assert_eq!(journal.shard_ids(), 0..=0);
    assert_eq!(journal.populated_positions_in_shard(0), 1);
    assert_eq!(journal.populated_positions_in_shard(1), 0);
}
