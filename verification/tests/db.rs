use rocky::config::{DbConfig, RocksDbConfig};
use rocky::conversion::{current_ms, IntoBytes};
use rocky::db::{
    compaction_filter, compaction_filter_at, is_expired, is_expired_at, CompactionDecision, Data,
    DbManager,
};
use rocky::errors::DbError;

const ONE_DAY_MS: u128 = 1000 * 60 * 60 * 24;

fn manager() -> DbManager {
    DbManager::new(DbConfig(RocksDbConfig::default())).unwrap()
}

#[test]
fn should_remove_expired() {
    let bytes = Data::new(1, b"data".to_vec()).as_bytes().unwrap();

    match compaction_filter(0, &[0], &bytes) {
        CompactionDecision::Remove => {}
        _ => panic!("Should have removed expired record"),
    }
}

#[test]
fn should_keep_not_expired() {
    let bytes = Data::new(current_ms().unwrap() + ONE_DAY_MS, b"data".to_vec())
        .as_bytes()
        .unwrap();

    match compaction_filter(0, &[0], &bytes) {
        CompactionDecision::Keep => {}
        _ => panic!("Should have kept non expired record"),
    }
}

#[test]
fn should_discard_undecodable_blob_in_compaction() {
    assert_eq!(
        CompactionDecision::Remove,
        compaction_filter(0, &[0], b"not a record")
    );
    assert_eq!(
        CompactionDecision::Remove,
        compaction_filter_at(0, &[0], b"not a record", 0)
    );
}

#[test]
fn should_keep_record_at_its_own_stamp() {
    let bytes = Data::new(5, b"data".to_vec()).as_bytes().unwrap();
    assert_eq!(
        CompactionDecision::Keep,
        compaction_filter_at(0, &[0], &bytes, 5)
    );
    assert_eq!(
        CompactionDecision::Remove,
        compaction_filter_at(0, &[0], &bytes, 6)
    );
}

#[test]
fn should_open_and_close_db() {
    let mut m = manager();
    assert!(m.open("test_db".to_string()).is_ok());
    assert!(m.close("test_db".to_string()).is_ok());
    assert!(!m.contains("test_db"));
}

#[test]
fn should_add_and_delete_record() {
    let mut m = manager();
    assert!(m.open("test_db".to_string()).is_ok());
    assert!(m
        .store("test_db", "record_1", b"Tis but a payload".to_vec(), 0)
        .is_ok());
    let res = m.read("test_db", "record_1").unwrap();
    assert_eq!(Some(b"Tis but a payload".to_vec()), res);
    assert!(m.close("test_db".to_string()).is_ok());
}

#[test]
fn should_expire_record() {
    let mut m = manager();
    assert!(m.open("test_db".to_string()).is_ok());
    let ttl = current_ms().unwrap() + 1;
    assert!(m
        .store("test_db", "record_1", b"Will expire after 1 ms".to_vec(), ttl)
        .is_ok());
    while current_ms().unwrap() <= ttl {}
    let res = m.read("test_db", "record_1").unwrap();
    assert_eq!(None, res);
}

#[test]
fn should_remove_record() {
    let mut m = manager();
    assert!(m.open("test_db".to_string()).is_ok());
    assert!(m.store("test_db", "k", b"v".to_vec(), 0).is_ok());
    assert!(m.remove("test_db", "k").is_ok());
    assert_eq!(None, m.read("test_db", "k").unwrap());
}

#[test]
fn should_reject_double_open() {
    let mut m = manager();
    assert!(m.open("test_db".to_string()).is_ok());
    assert!(matches!(
        m.open("test_db".to_string()),
        Err(DbError::Validation(_))
    ));
}

#[test]
fn should_reject_close_without_open() {
    let mut m = manager();
    assert!(matches!(
        m.close("test_db".to_string()),
        Err(DbError::Validation(_))
    ));
}

#[test]
fn should_reject_read_of_unknown_db() {
    let mut m = manager();
    assert!(matches!(
        m.read("never_opened", "k"),
        Err(DbError::Validation(_))
    ));
}

#[test]
fn should_reject_store_and_remove_on_unknown_db() {
    let mut m = manager();
    assert!(matches!(
        m.store("nope", "k", b"v".to_vec(), 0),
        Err(DbError::Validation(_))
    ));
    assert!(matches!(m.remove("nope", "k"), Err(DbError::Validation(_))));
}

#[test]
fn should_reject_reserved_and_empty_names() {
    let mut m = manager();
    assert!(matches!(
        m.open("root".to_string()),
        Err(DbError::Validation(_))
    ));
    assert!(matches!(m.open("".to_string()), Err(DbError::Validation(_))));
}

#[test]
fn should_store_empty_payload() {
    let mut m = manager();
    assert!(m.open("test_db".to_string()).is_ok());
    assert!(m.store("test_db", "k", Vec::new(), 0).is_ok());
    assert_eq!(Some(Vec::new()), m.read("test_db", "k").unwrap());
}

#[test]
fn should_expire_strictly_after_stamp() {
    let mut m = manager();
    assert!(m.open("test_db".to_string()).is_ok());
    assert!(m.store("test_db", "k", b"v".to_vec(), 5).is_ok());
    assert_eq!(Some(b"v".to_vec()), m.read_at("test_db", "k", 5).unwrap());
    assert_eq!(None, m.read_at("test_db", "k", 6).unwrap());
}

#[test]
fn should_reclaim_expired_record() {
    let mut m = manager();
    assert!(m.open("test_db".to_string()).is_ok());
    assert!(m.store("test_db", "k", b"v".to_vec(), 5).is_ok());
    assert_eq!(None, m.read_at("test_db", "k", 9).unwrap());
    m.run_pending_jobs();
    assert_eq!(None, m.read_at("test_db", "k", 0).unwrap());
}

#[test]
fn should_run_destroy_jobs_after_close() {
    let mut m = manager();
    assert!(m.open("a".to_string()).is_ok());
    assert!(m.open("b".to_string()).is_ok());
    assert!(m.store("b", "k", b"v".to_vec(), 0).is_ok());
    assert!(m.close("a".to_string()).is_ok());
    m.run_pending_jobs();
    assert!(!m.contains("a"));
    assert!(m.contains("b"));
    assert_eq!(Some(b"v".to_vec()), m.read("b", "k").unwrap());
}

#[test]
fn should_reopen_name_after_close() {
    let mut m = manager();
    assert!(m.open("test_db".to_string()).is_ok());
    assert!(m.store("test_db", "k", b"v".to_vec(), 0).is_ok());
    assert!(m.close("test_db".to_string()).is_ok());
    assert!(m.open("test_db".to_string()).is_ok());
    assert_eq!(None, m.read("test_db", "k").unwrap());
}

#[test]
fn should_survive_restart() {
    let mut m1 = manager();
    assert!(m1.open("a".to_string()).is_ok());
    assert!(m1.open("b".to_string()).is_ok());
    assert!(m1.store("a", "k", b"v".to_vec(), 0).is_ok());
    let mut entries = m1.meta_entries();
    entries.sort();
    assert_eq!(
        vec![
            ("a".to_string(), "./db/a".to_string()),
            ("b".to_string(), "./db/b".to_string()),
        ],
        entries
    );
    let snapshot = m1.export_records();
    drop(m1);
    let mut m2 = DbManager::from_meta(DbConfig(RocksDbConfig::default()), entries).unwrap();
    for (name, records) in snapshot {
        assert!(m2.restore_records(&name, records).is_ok());
    }
    assert!(m2.contains("a"));
    assert!(m2.contains("b"));
    assert!(!m2.contains("c"));
    assert_eq!(Some(b"v".to_vec()), m2.read("a", "k").unwrap());
    assert_eq!(None, m2.read("b", "k").unwrap());
}

#[test]
fn should_reject_restore_into_unknown_db() {
    let mut m = manager();
    assert!(matches!(
        m.restore_records("nope", vec![("k".to_string(), b"v".to_vec())]),
        Err(DbError::Validation(_))
    ));
}

#[test]
fn should_restore_raw_blobs_verbatim() {
    let mut m1 = manager();
    assert!(m1.open("test_db".to_string()).is_ok());
    assert!(m1.store("test_db", "k", b"payload".to_vec(), 7).is_ok());
    let snapshot = m1.export_records();
    drop(m1);
    let mut m2 = manager();
    assert!(m2.open("test_db".to_string()).is_ok());
    for (name, records) in snapshot {
        assert!(m2.restore_records(&name, records).is_ok());
    }
    assert_eq!(
        Some(b"payload".to_vec()),
        m2.read_at("test_db", "k", 7).unwrap()
    );
    assert_eq!(None, m2.read_at("test_db", "k", 8).unwrap());
}

#[test]
fn should_reject_meta_entry_outside_root() {
    let entries = vec![("a".to_string(), "/elsewhere/a".to_string())];
    let r = DbManager::from_meta(DbConfig(RocksDbConfig::default()), entries);
    assert!(matches!(r, Err(DbError::Validation(_))));
}

#[test]
fn should_reconcile_nothing_from_empty_meta() {
    let m = DbManager::from_meta(DbConfig(RocksDbConfig::default()), Vec::new()).unwrap();
    assert!(!m.contains("a"));
}

#[test]
fn should_decide_expiry_against_the_clock() {
    assert!(!is_expired(0).unwrap());
    assert!(is_expired(1).unwrap());
    assert!(!is_expired(current_ms().unwrap() + ONE_DAY_MS).unwrap());
    assert!(!is_expired_at(0, u128::MAX));
    assert!(!is_expired_at(7, 7));
    assert!(is_expired_at(7, 8));
}
