use dbfs::history::{ElleHistory, ElleOp};
use dbfs::oplog::LogEntry;
use dbfs::romulus::Romulus;

#[test]
fn test_basic_read_update() {
    let mut r = Romulus::new(0);
    assert_eq!(*r.read(), 0);

    r.update(|_val| 42);

    assert_eq!(*r.read(), 42);
}

#[test]
fn romulus_update_sees_current_value() {
    let mut r = Romulus::new(vec![1]);
    r.update(|v| {
        let mut v2 = v.clone();
        v2.push(2);
        v2
    });
    assert_eq!(*r.read(), vec![1, 2]);
    r.update(|v| {
        let mut v2 = v.clone();
        v2.push(3);
        v2
    });
    assert_eq!(*r.read(), vec![1, 2, 3]);
}

#[test]
fn log_entry_write_round_trip() {
    let entry = LogEntry::Write { offset: 512, data: b"abc".to_vec() };
    let bytes = entry.serialize();
    match LogEntry::deserialize(&bytes) {
        LogEntry::Write { offset, data } => {
            assert_eq!(offset, 512);
            assert_eq!(data, b"abc");
        },
        LogEntry::Flush { .. } => panic!("expected a write entry"),
    }
}

#[test]
fn log_entry_flush_round_trip() {
    let entry = LogEntry::Flush { timestamp: 123456789 };
    let bytes = entry.serialize();
    assert_eq!(bytes.len(), 8);
    match LogEntry::deserialize(&bytes) {
        LogEntry::Flush { timestamp } => assert_eq!(timestamp, 123456789),
        LogEntry::Write { .. } => panic!("expected a flush entry"),
    }
}

#[test]
fn history_records_operations_in_order() {
    let mut history = ElleHistory::new();
    assert_eq!(history.len(), 0);
    history.record(ElleOp {
        tx_id: 1,
        op_type: "begin".to_string(),
        path: None,
        lsn: None,
        timestamp: 100,
    });
    history.record(ElleOp {
        tx_id: 1,
        op_type: "write".to_string(),
        path: Some("/a".to_string()),
        lsn: Some(2),
        timestamp: 101,
    });
    assert_eq!(history.len(), 2);
}
