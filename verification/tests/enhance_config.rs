use pir_core::enhance::config::{
    groups_of_urls, remote_worker_setups, validate_name, WorkerConfig, WorkerGroupConfig,
};
use pir_core::enhance::sync::{
    begin_reconcile, next_height, resume_reconcile, still_best, syncing_phase, ReconcileStep,
};
use pir_core::enhance::coordinator::Anchor;
use pir_core::enhance::store::RecordJournal;
use pir_core::enhance::types::DatabaseId;
use pir_core::layout::DatabaseLayout;

fn group(name: &str, replicas: &[(&str, &str)]) -> WorkerGroupConfig {
    WorkerGroupConfig {
        name: name.to_string(),
        replicas: replicas
            .iter()
            .map(|(name, url)| WorkerConfig {
                name: name.to_string(),
                url: url.to_string(),
            })
            .collect(),
    }
}

#[test]
fn a_config_without_a_spend_pool_is_accepted() {
    let groups = vec![group(
        "group-a",
        &[
            ("worker-a", "http://10.0.0.2:8091"),
            ("worker-b", "http://10.0.0.3:8091/"),
        ],
    )];
    let setups = remote_worker_setups(&groups).unwrap();
    assert_eq!(setups.len(), 1);
    assert_eq!(setups[0].table, DatabaseId::Enhance);
    assert_eq!(setups[0].groups[0].replicas[1].name(), "worker-b");
}

#[test]
fn worker_groups_are_checked() {
    let refused = |groups: Vec<WorkerGroupConfig>| remote_worker_setups(&groups).unwrap_err();
    refused(vec![]);
    refused(vec![group("group-a", &[])]);
    refused(vec![group("", &[("a", "http://10.0.0.2:8091")])]);
    refused(vec![group(
        "group-a",
        &[("a", "http://10.0.0.2:8091"), ("a", "http://10.0.0.3:8091")],
    )]);
    refused(vec![
        group("group-a", &[("a", "http://10.0.0.2:8091")]),
        group("group-a", &[("b", "http://10.0.0.3:8091")]),
    ]);
    refused(vec![group("group-a", &[("a", "not a url")])]);
    refused(vec![group("group-a", &[("a", "ftp://10.0.0.2:8091")])]);
    refused(vec![group("group-a", &[("a", "http://user@10.0.0.2:8091")])]);
    refused(vec![group("group-a", &[("a", "http://10.0.0.2:8091/?q=1")])]);
    refused(vec![group("group-a", &[("a", "http://10.0.0.2:8091/#f")])]);
    assert!(remote_worker_setups(&vec![group("group-a", &[("a", "https://worker.example")])])
        .is_ok());
}

#[test]
fn urls_alone_make_one_group_each() {
    let groups = groups_of_urls(&vec![
        "http://10.0.0.2:8091".to_string(),
        "http://10.0.0.3:8091".to_string(),
    ]);
    assert_eq!(groups.len(), 2);
    assert_eq!(groups[0].replicas.len(), 1);
    assert_eq!(groups[1].replicas[0].url, "http://10.0.0.3:8091");
    assert!(remote_worker_setups(&groups).is_ok());
}

#[test]
fn names_are_short_and_plain() {
    assert!(validate_name("worker", "worker-01").is_ok());
    assert!(validate_name("worker", "").is_err());
    assert!(validate_name("worker", "a b").is_err());
}

fn journal(blocks: &[(u64, &str)]) -> RecordJournal {
    let layout = DatabaseLayout {
        record_bytes: 4,
        records_per_row: 2,
        shard_rows: 4,
    };
    let mut journal = RecordJournal::open(DatabaseId::Enhance, layout, None, Vec::new())
        .unwrap()
        .journal;
    for (height, hash) in blocks {
        journal
            .append_block(*height, hash.to_string(), &[vec![1; 4]])
            .unwrap();
    }
    journal
}

#[test]
fn a_journal_off_the_best_chain_is_rewound_block_by_block() {
    let mut journal = journal(&[(10, "aa"), (11, "bb"), (12, "cc")]);
    assert!(matches!(
        begin_reconcile(&journal, 12),
        ReconcileStep::AskHash(12)
    ));
    assert!(matches!(
        resume_reconcile(&journal, "cc"),
        ReconcileStep::Settled
    ));
    assert!(matches!(
        begin_reconcile(&journal, 11),
        ReconcileStep::Rewind(Some(11))
    ));
    match resume_reconcile(&journal, "other") {
        ReconcileStep::Rewind(height) => journal.rewind_to_height(height).unwrap(),
        _ => panic!("the last block is elsewhere"),
    }
    assert_eq!(journal.last_block().unwrap().height, 11);
    journal.rewind_to_height(Some(10)).unwrap();
    assert!(matches!(
        resume_reconcile(&journal, "other"),
        ReconcileStep::Rewind(None)
    ));
    journal.rewind_to_height(None).unwrap();
    assert!(matches!(
        begin_reconcile(&journal, 5),
        ReconcileStep::Settled
    ));
}

#[test]
fn ingest_starts_at_activation_and_goes_on_behind_the_journal() {
    assert_eq!(next_height(None, 3_428_143), 3_428_143);
    assert_eq!(next_height(Some(7), 3_428_143), 8);
    assert!(syncing_phase(5, 9).is_some());
    assert!(syncing_phase(10, 9).is_none());
    let anchor = Anchor {
        height: 9,
        hash: "aa".to_string(),
    };
    assert!(still_best(&anchor, 9, "aa"));
    assert!(!still_best(&anchor, 8, "aa"));
    assert!(!still_best(&anchor, 9, "bb"));
}
