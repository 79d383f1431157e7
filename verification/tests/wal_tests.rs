use dbfs::backend::{InMemoryWalBackend, VfsFileWalBackend, WalBackend};
use dbfs::wal::{TxId, Wal, WalRecord, WalRecordType};

#[test]
fn test_wal_record_serialize() {
    let tx_id = TxId::new(1);
    let record = WalRecord::new(tx_id, WalRecordType::TxBegin, Vec::new());

    let bytes = record.serialize();
    let deserialized = WalRecord::deserialize(&bytes).unwrap();

    assert_eq!(deserialized.tx_id, tx_id);
    assert_eq!(deserialized.record_type, WalRecordType::TxBegin);
}

#[test]
fn test_wal_begin_commit() {
    let mut wal = Wal::new("/test/wal".to_string()).unwrap();

    let tx_id = wal.begin_tx();
    wal.commit_tx(tx_id).unwrap();

    assert_eq!(wal.next_tx_id(), 2);
}

#[test]
fn test_wal_recovery() {
    let mut wal = Wal::new("/test/wal".to_string()).unwrap();

    let tx1 = wal.begin_tx();
    wal.commit_tx(tx1).unwrap();

    let tx2 = wal.begin_tx();
    wal.commit_tx(tx2).unwrap();

    let result = wal.recover().unwrap();
    assert_eq!(result.committed.len(), 2);
    assert_eq!(result.uncommitted.len(), 0);
}

#[test]
fn test_in_memory_backend() {
    let mut backend = InMemoryWalBackend::new();

    let record = WalRecord::new(TxId::new(1), WalRecordType::TxBegin, Vec::new());
    backend.append(&record).unwrap();

    assert_eq!(backend.durable_lsn(), 0);

    backend.flush().unwrap();
    assert_eq!(backend.durable_lsn(), 1);

    assert!(!backend.is_persistent());
}

#[test]
fn test_vfs_file_backend() {
    let mut backend = VfsFileWalBackend::new("/test/.wal".to_string());

    let record = WalRecord::new(TxId::new(1), WalRecordType::TxBegin, Vec::new());
    backend.append(&record).unwrap();

    backend.flush().unwrap();

    assert!(!backend.is_persistent());
}

#[test]
fn record_checksum_covers_payload() {
    let mut record = WalRecord::new(TxId::new(7), WalRecordType::FileWrite, vec![1, 2, 3]);
    assert!(record.verify());
    record.data[0] = 9;
    assert!(!record.verify());
}

#[test]
fn record_deserialize_rejects_bad_kind() {
    let record = WalRecord::new(TxId::new(1), WalRecordType::TxBegin, Vec::new());
    let mut bytes = record.serialize();
    bytes[16] = 0;
    assert!(WalRecord::deserialize(&bytes).is_err());
}

#[test]
fn recover_twice_same_result() {
    let mut wal = Wal::new(":memory:".to_string()).unwrap();
    let tx1 = wal.begin_tx();
    wal.write_file(tx1, "/a", 0, b"x");
    wal.commit_tx(tx1).unwrap();
    let tx2 = wal.begin_tx();
    wal.write_file(tx2, "/b", 0, b"y");
    wal.rollback_tx(tx2);
    let tx3 = wal.begin_tx();
    wal.create_file(tx3, "/c");

    let first = wal.recover().unwrap();
    let second = wal.recover().unwrap();
    assert_eq!(first.committed, second.committed);
    assert_eq!(first.uncommitted, second.uncommitted);
    assert_eq!(first.committed, vec![tx1]);
    assert_eq!(first.uncommitted, vec![tx3]);
}

#[test]
fn rolled_back_transaction_in_neither_set() {
    let mut wal = Wal::new(":memory:".to_string()).unwrap();
    let tx = wal.begin_tx();
    wal.write_file(tx, "/tmp", 0, b"z");
    wal.rollback_tx(tx);
    let result = wal.recover().unwrap();
    assert!(result.committed.is_empty());
    assert!(result.uncommitted.is_empty());
}

#[test]
fn truncate_drops_low_lsns() {
    let mut wal = Wal::new(":memory:".to_string()).unwrap();
    for _ in 0..10 {
        let tx = wal.begin_tx();
        wal.write_file(tx, "/f", 0, b"d");
        wal.commit_tx(tx).unwrap();
    }
    wal.truncate(5);
    let tx1_records = wal.get_tx_records(TxId::new(1));
    assert!(tx1_records.is_empty());
    let tx10_records = wal.get_tx_records(TxId::new(10));
    assert_eq!(tx10_records.len(), 3);
    for rec in tx10_records {
        assert!(rec.lsn >= 5);
    }
}

#[test]
fn truncate_then_recover_keeps_tail_transactions() {
    let mut wal = Wal::new(":memory:".to_string()).unwrap();
    for _ in 0..10 {
        let tx = wal.begin_tx();
        wal.write_file(tx, "/f", 0, b"d");
        wal.commit_tx(tx).unwrap();
    }
    // Transaction j occupies LSNs 3j-2 .. 3j; the bound lands inside the
    // fifth transaction's block, whose commit marker survives.
    wal.truncate(15);
    let result = wal.recover().unwrap();
    let ids: Vec<u64> = result.committed.iter().map(|t| t.value()).collect();
    assert_eq!(ids, vec![5, 6, 7, 8, 9, 10]);
    assert!(result.uncommitted.is_empty());
}

#[test]
fn backend_replay_returns_appended_records() {
    let mut backend = InMemoryWalBackend::new();
    backend
        .append(&WalRecord::new(TxId::new(1), WalRecordType::TxBegin, Vec::new()))
        .unwrap();
    backend
        .append(&WalRecord::new(TxId::new(1), WalRecordType::TxCommit, Vec::new()))
        .unwrap();
    let replayed = backend.replay().unwrap();
    assert_eq!(replayed.len(), 2);
    assert_eq!(replayed[0].lsn, 1);
    assert_eq!(replayed[1].lsn, 2);
    backend.truncate(2).unwrap();
    let replayed = backend.replay().unwrap();
    assert_eq!(replayed.len(), 1);
    assert_eq!(replayed[0].record_type, WalRecordType::TxCommit);
}

#[test]
fn deserialize_detects_corrupt_payload() {
    let record = WalRecord::new(TxId::new(1), WalRecordType::FileWrite, b"payload".to_vec());
    let mut bytes = record.serialize();
    // Flip a payload byte: the stored checksum no longer matches.
    bytes[21] ^= 0xff;
    assert!(WalRecord::deserialize(&bytes).is_err());
}

#[test]
fn recover_is_idempotent_helper_agrees() {
    let mut wal = Wal::new(":memory:".to_string()).unwrap();
    let tx = wal.begin_tx();
    wal.commit_tx(tx).unwrap();
    let (first, second) = dbfs::wal::recover_is_idempotent(&wal);
    assert_eq!(first.committed, second.committed);
    assert_eq!(first.uncommitted, second.uncommitted);
}
