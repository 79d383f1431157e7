use dbfs::fs::Dbfs;
use dbfs::handler::ElleRequestHandlerReal;
use dbfs::image::recover_from_image;
use dbfs::protocol::{DbfsOpType, DbfsRequest, DbfsResponse};

fn req(tx_id: u64, op_type: DbfsOpType, path: &str, offset: u64, data: &[u8]) -> DbfsRequest {
    DbfsRequest {
        tx_id,
        op_type,
        path: path.to_string(),
        offset,
        data: data.to_vec(),
    }
}

fn fresh() -> (ElleRequestHandlerReal, Dbfs) {
    (ElleRequestHandlerReal::new(), Dbfs::new(":memory:".to_string()).unwrap())
}

#[test]
fn basic_commit_scenario() {
    let (mut h, mut fs) = fresh();

    let r = h.handle_request(&mut fs, &req(0, DbfsOpType::BeginTx, "", 0, b""));
    assert_eq!(r.status, 0);
    assert_eq!(r.lsn, 1);

    let r = h.handle_request(&mut fs, &req(1, DbfsOpType::CreateFile, "/a", 0, b""));
    assert_eq!(r.status, 0);

    let r = h.handle_request(&mut fs, &req(1, DbfsOpType::WriteFile, "/a", 0, b"hello"));
    assert_eq!(r.status, 0);

    let r = h.handle_request(&mut fs, &req(1, DbfsOpType::CommitTx, "", 0, b""));
    assert_eq!(r.status, 0);
    assert!(r.lsn >= 4);

    let rec = fs.recover().unwrap();
    let committed: Vec<u64> = rec.committed.iter().map(|t| t.value()).collect();
    assert_eq!(committed, vec![1]);
    assert!(rec.uncommitted.is_empty());

    assert_eq!(fs.read_at(fs.resolve(b"/a").unwrap(), 0, 5).unwrap(), b"hello");
}

#[test]
fn rollback_scenario() {
    let (mut h, mut fs) = fresh();

    let r = h.handle_request(&mut fs, &req(0, DbfsOpType::BeginTx, "", 0, b""));
    assert_eq!(r.lsn, 1);

    let r = h.handle_request(&mut fs, &req(1, DbfsOpType::CreateFile, "/b", 0, b""));
    assert_eq!(r.status, 0);

    let r = h.handle_request(&mut fs, &req(1, DbfsOpType::RollbackTx, "", 0, b""));
    assert_eq!(r.status, 0);

    // A rolled-back transaction appears in neither recovery set.
    let rec = fs.recover().unwrap();
    assert!(rec.committed.is_empty());
    assert!(rec.uncommitted.is_empty());
}

#[test]
fn uncommitted_on_crash_scenario() {
    let (mut h, mut fs) = fresh();

    let r = h.handle_request(&mut fs, &req(0, DbfsOpType::BeginTx, "", 0, b""));
    assert_eq!(r.lsn, 1);
    let r = h.handle_request(&mut fs, &req(1, DbfsOpType::WriteFile, "/c", 0, b"x"));
    assert_eq!(r.status, 0);

    // The backend goes away abruptly: only what was flushed survives.
    fs.sync_fs().unwrap();
    let image = fs.durable_image().clone();
    drop(fs);

    let rec = recover_from_image(&image).unwrap();
    assert!(rec.committed.is_empty());
    let uncommitted: Vec<u64> = rec.uncommitted.iter().map(|t| t.value()).collect();
    assert_eq!(uncommitted, vec![1]);
}

#[test]
fn large_write_scenario() {
    let (mut h, mut fs) = fresh();

    let r = h.handle_request(&mut fs, &req(0, DbfsOpType::BeginTx, "", 0, b""));
    assert_eq!(r.status, 0);
    let zeros = vec![0u8; 10_240];
    let r = h.handle_request(&mut fs, &req(1, DbfsOpType::WriteFile, "/big", 0, &zeros));
    assert_eq!(r.status, 0);
    let r = h.handle_request(&mut fs, &req(1, DbfsOpType::CommitTx, "", 0, b""));
    assert_eq!(r.status, 0);

    let ino = fs.resolve(b"/big").unwrap();
    let bytes = fs.read_at(ino, 0, 10_240).unwrap();
    assert_eq!(bytes.len(), 10_240);
    assert!(bytes.iter().all(|b| *b == 0));
}

#[test]
fn concurrent_lost_update_scenario() {
    // Two connections, each its own session, sharing one filesystem.
    let mut h1 = ElleRequestHandlerReal::new();
    let mut h2 = ElleRequestHandlerReal::new();
    let mut fs = Dbfs::new(":memory:".to_string()).unwrap();

    let r = h1.handle_request(&mut fs, &req(0, DbfsOpType::BeginTx, "", 0, b""));
    let tx1 = r.lsn;
    let r = h2.handle_request(&mut fs, &req(0, DbfsOpType::BeginTx, "", 0, b""));
    let tx2 = r.lsn;
    assert_eq!((tx1, tx2), (1, 2));

    let r = h1.handle_request(&mut fs, &req(tx1, DbfsOpType::WriteFile, "/shared", 0, b"1"));
    assert_eq!(r.status, 0);
    let r = h2.handle_request(&mut fs, &req(tx2, DbfsOpType::WriteFile, "/shared", 0, b"2"));
    assert_eq!(r.status, 0);
    let r = h1.handle_request(&mut fs, &req(tx1, DbfsOpType::CommitTx, "", 0, b""));
    assert_eq!(r.status, 0);
    let r = h2.handle_request(&mut fs, &req(tx2, DbfsOpType::CommitTx, "", 0, b""));
    assert_eq!(r.status, 0);

    // Last writer wins in the in-memory state; both commits are recovered.
    let ino = fs.resolve(b"/shared").unwrap();
    assert_eq!(fs.read_at(ino, 0, 1).unwrap(), b"2");
    let rec = fs.recover().unwrap();
    let committed: Vec<u64> = rec.committed.iter().map(|t| t.value()).collect();
    assert_eq!(committed, vec![1, 2]);
}

#[test]
fn mutating_without_transaction_is_rejected() {
    let (mut h, mut fs) = fresh();
    let r = h.handle_request(&mut fs, &req(0, DbfsOpType::CreateFile, "/a", 0, b""));
    assert_eq!(r.status, dbfs::handler::error_status(dbfs::errors::DbfsError::NoTx));
    assert!(r.status < 0);
    let r = h.handle_request(&mut fs, &req(0, DbfsOpType::WriteFile, "/a", 0, b"x"));
    assert!(r.status < 0);
    let r = h.handle_request(&mut fs, &req(5, DbfsOpType::CommitTx, "", 0, b""));
    assert!(r.status < 0);
}

#[test]
fn commit_of_foreign_transaction_is_rejected() {
    let (mut h, mut fs) = fresh();
    let r = h.handle_request(&mut fs, &req(0, DbfsOpType::BeginTx, "", 0, b""));
    assert_eq!(r.lsn, 1);
    let r = h.handle_request(&mut fs, &req(99, DbfsOpType::CommitTx, "", 0, b""));
    assert!(r.status < 0);
    // The session's own transaction still commits.
    let r = h.handle_request(&mut fs, &req(1, DbfsOpType::CommitTx, "", 0, b""));
    assert_eq!(r.status, 0);
}

#[test]
fn readdir_lists_names_as_json() {
    let (mut h, mut fs) = fresh();
    let r = h.handle_request(&mut fs, &req(0, DbfsOpType::BeginTx, "", 0, b""));
    assert_eq!(r.status, 0);
    let r = h.handle_request(&mut fs, &req(1, DbfsOpType::Readdir, "/", 0, b""));
    assert_eq!(r.status, 0);
    assert_eq!(r.data, b"[]");
    h.handle_request(&mut fs, &req(1, DbfsOpType::CreateFile, "/a", 0, b""));
    h.handle_request(&mut fs, &req(1, DbfsOpType::Mkdir, "/sub", 0, b""));
    let r = h.handle_request(&mut fs, &req(1, DbfsOpType::Readdir, "/", 0, b""));
    assert_eq!(r.data, b"[\"a\",\"sub\"]");
}

#[test]
fn delete_file_removes_entry() {
    let (mut h, mut fs) = fresh();
    h.handle_request(&mut fs, &req(0, DbfsOpType::BeginTx, "", 0, b""));
    h.handle_request(&mut fs, &req(1, DbfsOpType::CreateFile, "/a", 0, b""));
    let r = h.handle_request(&mut fs, &req(1, DbfsOpType::DeleteFile, "/a", 0, b""));
    assert_eq!(r.status, 0);
    assert!(fs.resolve(b"/a").is_err());
    let r = h.handle_request(&mut fs, &req(1, DbfsOpType::DeleteFile, "/a", 0, b""));
    assert!(r.status < 0);
}

#[test]
fn handle_frame_round_trip() {
    let (mut h, mut fs) = fresh();
    let body = req(0, DbfsOpType::BeginTx, "", 0, b"").serialize();
    let frame = h.handle_frame(&mut fs, &body).unwrap();
    let len = u32::from_be_bytes([frame[0], frame[1], frame[2], frame[3]]) as usize;
    assert_eq!(len, frame.len() - 4);
    let resp = DbfsResponse::deserialize(&frame[4..]).unwrap();
    assert_eq!(resp.status, 0);
    assert_eq!(resp.lsn, 1);
}

#[test]
fn handle_frame_rejects_garbage() {
    let (mut h, mut fs) = fresh();
    assert!(h.handle_frame(&mut fs, &[1, 2, 3]).is_err());
}
