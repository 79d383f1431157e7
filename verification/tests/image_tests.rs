use dbfs::image::{encode_header, recover_from_image, WalHeader, WAL_HEADER_SIZE};
use dbfs::wal::Wal;

#[test]
fn empty_image_recovers_to_empty_sets() {
    let rec = recover_from_image(&[]).unwrap();
    assert!(rec.committed.is_empty());
    assert!(rec.uncommitted.is_empty());
}

#[test]
fn header_only_image_recovers_to_empty_sets() {
    let image = encode_header(1, 0);
    assert_eq!(image.len(), WAL_HEADER_SIZE);
    let rec = recover_from_image(&image).unwrap();
    assert!(rec.committed.is_empty());
    assert!(rec.uncommitted.is_empty());
}

#[test]
fn bad_magic_is_corrupt() {
    let mut image = encode_header(1, 0);
    image[0] = b'X';
    assert!(recover_from_image(&image).is_err());
}

#[test]
fn bad_version_is_corrupt() {
    let mut image = encode_header(1, 0);
    image[11] = 9;
    assert!(recover_from_image(&image).is_err());
}

#[test]
fn corrupt_record_stops_recovery_there() {
    let mut wal = Wal::new(":memory:".to_string()).unwrap();
    let tx1 = wal.begin_tx();
    wal.commit_tx(tx1).unwrap();
    let tx2 = wal.begin_tx();
    wal.create_file(tx2, "/x");
    wal.flush().unwrap();
    let mut image = wal.durable_image().clone();

    // Records are 25 bytes each here up to the third; flip a checksum byte
    // of the third record (transaction two's begin marker).
    let third = WAL_HEADER_SIZE + 25 + 25;
    image[third + 21] ^= 0xff;

    let rec = recover_from_image(&image).unwrap();
    let committed: Vec<u64> = rec.committed.iter().map(|t| t.value()).collect();
    assert_eq!(committed, vec![1]);
    // Everything at and after the corrupt record is discarded: transaction
    // two never appears.
    assert!(rec.uncommitted.is_empty());
}

#[test]
fn truncated_tail_is_discarded() {
    let mut wal = Wal::new(":memory:".to_string()).unwrap();
    let tx1 = wal.begin_tx();
    wal.commit_tx(tx1).unwrap();
    let tx2 = wal.begin_tx();
    wal.commit_tx(tx2).unwrap();
    wal.flush().unwrap();
    let image = wal.durable_image().clone();

    // Cut into the middle of the last record: the torn write disappears.
    let cut = image.len() - 10;
    let rec = recover_from_image(&image[..cut]).unwrap();
    let committed: Vec<u64> = rec.committed.iter().map(|t| t.value()).collect();
    assert_eq!(committed, vec![1]);
    let uncommitted: Vec<u64> = rec.uncommitted.iter().map(|t| t.value()).collect();
    assert_eq!(uncommitted, vec![2]);
}

#[test]
fn reopened_engine_resumes_counters() {
    let mut wal = Wal::new(":memory:".to_string()).unwrap();
    let tx1 = wal.begin_tx();
    wal.write_file(tx1, "/f", 0, b"data");
    wal.commit_tx(tx1).unwrap();
    let image = wal.durable_image().clone();

    let reopened = Wal::open_from_image(":memory:".to_string(), &image).unwrap();
    assert_eq!(reopened.next_tx_id(), 2);
    assert_eq!(reopened.flushed_lsn(), 3);
    let rec = reopened.recover().unwrap();
    let committed: Vec<u64> = rec.committed.iter().map(|t| t.value()).collect();
    assert_eq!(committed, vec![1]);
}

#[test]
fn short_image_opens_fresh() {
    let reopened = Wal::open_from_image(":memory:".to_string(), &[1, 2, 3]).unwrap();
    assert_eq!(reopened.next_tx_id(), 1);
    assert_eq!(reopened.flushed_lsn(), 0);
}

#[test]
fn default_header_is_valid() {
    let h = WalHeader::default();
    assert_eq!(&h.magic, b"DBFSWAL\0");
    assert_eq!(h.version, 1);
    assert_eq!(h.last_tx_id, 0);
    assert_eq!(h.checkpoint_lsn, 0);
}
