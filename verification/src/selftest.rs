//! Built-in transactional scenarios over the WAL engine.  Each returns
//! `true`, and the contract says so: the checks the scenarios make are
//! proved to pass.

use vstd::prelude::*;
use vstd::string::StringSliceAdditionalSpecFns;
use vstd::utf8::is_ascii_chars;

use crate::wal::{
    committed_ids, ids_with_state, lemma_ids_push, lemma_record_bytes_parse,
    lemma_table_push, lemma_table_set_fresh, lemma_table_set_last, spec_record_bytes,
    tx_table_spec, txids_of, uncommitted_ids, RecModel, TxId, TxState, Wal, WalRecord,
    WalRecordType,
};

verus! {

/// An ASCII string's UTF-8 bytes are its characters, one byte each.
proof fn lemma_ascii_path_len(s: &str)
    requires
        is_ascii_chars(s@),
    ensures
        s.spec_bytes().len() == s@.len(),
{
    vstd::utf8::is_ascii_chars_encode_utf8(s@);
}

/// A fresh engine; the scenarios below all start from one.
fn fresh_wal() -> (w: Wal)
    ensures
        w@.records == Seq::<RecModel>::empty(),
        w@.next_lsn == 1,
        w@.next_tx_id == 1,
        w@.flushed_lsn == 0,
        w@.checkpoint_lsn == 0,
        w@.wf(),
{
    match Wal::new("/test/wal".to_owned()) {
        Ok(w) => w,
        Err(_) => {
            proof {
                assert(false);
            }
            vstd::pervasive::unreached()
        },
    }
}

/// Serialization round trip: a record survives `serialize` then
/// `deserialize` with its transaction and kind intact.
pub fn test_wal_serialize() -> (r: bool)
    ensures
        r,
{
    let tx_id = TxId::new(1);
    let mut data: Vec<u8> = Vec::new();
    data.push(0x74);
    data.push(0x65);
    data.push(0x73);
    data.push(0x74);
    let record = WalRecord::new(tx_id, WalRecordType::TxBegin, data);
    let bytes: Vec<u8> = record.serialize();
    proof {
        lemma_record_bytes_parse(record@, Seq::<u8>::empty());
        assert(spec_record_bytes(record@) + Seq::<u8>::empty() =~= bytes@);
    }
    match WalRecord::deserialize(bytes.as_slice()) {
        Ok(deserialized) => {
            deserialized.tx_id.value() == tx_id.value() && matches!(
                deserialized.record_type,
                WalRecordType::TxBegin,
            )
        },
        Err(_) => {
            proof {
                assert(false);
            }
            false
        },
    }
}

/// A transaction begins and commits.
pub fn test_transaction_begin_commit() -> (r: bool)
    ensures
        r,
{
    let mut wal = fresh_wal();
    let tx_id: TxId = wal.begin_tx();
    match wal.commit_tx(tx_id) {
        Ok(_) => true,
        Err(_) => {
            proof {
                assert(false);
            }
            false
        },
    }
}

/// All four operation kinds are recorded and the transaction commits.
pub fn test_file_operations() -> (r: bool)
    ensures
        r,
{
    let mut wal = fresh_wal();
    let tx_id: TxId = wal.begin_tx();
    proof {
        reveal_strlit("/test.txt");
        assert(is_ascii_chars(("/test.txt")@));
        lemma_ascii_path_len("/test.txt");
        reveal_strlit("/newfile.txt");
        assert(is_ascii_chars(("/newfile.txt")@));
        lemma_ascii_path_len("/newfile.txt");
        reveal_strlit("/oldfile.txt");
        assert(is_ascii_chars(("/oldfile.txt")@));
        lemma_ascii_path_len("/oldfile.txt");
        reveal_strlit("/newdir");
        assert(is_ascii_chars(("/newdir")@));
        lemma_ascii_path_len("/newdir");
    }
    let mut hello: Vec<u8> = Vec::new();
    hello.push(0x48);
    hello.push(0x69);
    wal.write_file(tx_id, "/test.txt", 0, hello.as_slice());
    wal.create_file(tx_id, "/newfile.txt");
    wal.delete_file(tx_id, "/oldfile.txt");
    wal.mkdir(tx_id, "/newdir");
    match wal.commit_tx(tx_id) {
        Ok(_) => true,
        Err(_) => {
            proof {
                assert(false);
            }
            false
        },
    }
}

/// One committed and one uncommitted transaction: recovery reports exactly
/// one of each.
pub fn test_crash_recovery() -> (r: bool)
    ensures
        r,
{
    let mut wal = fresh_wal();
    proof {
        reveal_strlit("/file1.txt");
        assert(is_ascii_chars(("/file1.txt")@));
        lemma_ascii_path_len("/file1.txt");
        reveal_strlit("/file2.txt");
        assert(is_ascii_chars(("/file2.txt")@));
        lemma_ascii_path_len("/file2.txt");
    }
    let mut d1: Vec<u8> = Vec::new();
    d1.push(0x31);
    let tx1: TxId = wal.begin_tx();
    wal.write_file(tx1, "/file1.txt", 0, d1.as_slice());
    match wal.commit_tx(tx1) {
        Ok(_) => {},
        Err(_) => {
            proof {
                assert(false);
            }
            return false;
        },
    }
    let tx2: TxId = wal.begin_tx();
    let mut d2: Vec<u8> = Vec::new();
    d2.push(0x32);
    wal.write_file(tx2, "/file2.txt", 0, d2.as_slice());
    proof {
        assert(wal@.records.len() == 5);
        assert(wal@.records[0].kind == WalRecordType::TxBegin && wal@.records[0].tx == 1);
        assert(wal@.records[1].kind == WalRecordType::FileWrite && wal@.records[1].tx == 1);
        assert(wal@.records[2].kind == WalRecordType::TxCommit && wal@.records[2].tx == 1);
        assert(wal@.records[3].kind == WalRecordType::TxBegin && wal@.records[3].tx == 2);
        assert(wal@.records[4].kind == WalRecordType::FileWrite && wal@.records[4].tx == 2);
        lemma_scan_one_committed_one_open(wal@.records);
    }
    match wal.recover() {
        Ok(recovery) => {
            proof {
                assert(txids_of(recovery.committed@).len() == 1);
                assert(recovery.committed@.len() == 1);
                assert(txids_of(recovery.uncommitted@).len() == 1);
                assert(recovery.uncommitted@.len() == 1);
            }
            recovery.committed.len() == 1 && recovery.uncommitted.len() == 1
        },
        Err(_) => {
            proof {
                assert(false);
            }
            false
        },
    }
}

/// The record shape `test_crash_recovery` leaves: transaction one begun,
/// written and committed, transaction two begun and written.
pub(crate) proof fn lemma_scan_one_committed_one_open(rs: Seq<RecModel>)
    requires
        rs.len() == 5,
        rs[0].kind == WalRecordType::TxBegin && rs[0].tx == 1,
        rs[1].kind == WalRecordType::FileWrite && rs[1].tx == 1,
        rs[2].kind == WalRecordType::TxCommit && rs[2].tx == 1,
        rs[3].kind == WalRecordType::TxBegin && rs[3].tx == 2,
        rs[4].kind == WalRecordType::FileWrite && rs[4].tx == 2,
    ensures
        committed_ids(rs) == seq![1u64],
        uncommitted_ids(rs) == seq![2u64],
{
    let r0 = rs.subrange(0, 0);
    let r1 = rs.subrange(0, 1);
    let r2 = rs.subrange(0, 2);
    let r3 = rs.subrange(0, 3);
    let r4 = rs.subrange(0, 4);
    assert(r0 =~= Seq::<RecModel>::empty());
    assert(r1 =~= r0.push(rs[0]));
    assert(r2 =~= r1.push(rs[1]));
    assert(r3 =~= r2.push(rs[2]));
    assert(r4 =~= r3.push(rs[3]));
    assert(rs =~= r4.push(rs[4]));
    lemma_table_push(r0, rs[0]);
    lemma_table_set_fresh(tx_table_spec(r0), 1, TxState::Open);
    assert(tx_table_spec(r1) =~= seq![(1u64, TxState::Open)]);
    lemma_table_push(r1, rs[1]);
    assert(tx_table_spec(r2) =~= seq![(1u64, TxState::Open)]);
    lemma_table_push(r2, rs[2]);
    lemma_table_set_last(tx_table_spec(r2), 1, TxState::Committed);
    assert(tx_table_spec(r3) =~= seq![(1u64, TxState::Committed)]);
    lemma_table_push(r3, rs[3]);
    lemma_table_set_fresh(tx_table_spec(r3), 2, TxState::Open);
    assert(tx_table_spec(r4) =~= seq![(1u64, TxState::Committed), (2u64, TxState::Open)]);
    lemma_table_push(r4, rs[4]);
    let t = tx_table_spec(rs);
    assert(t =~= seq![(1u64, TxState::Committed), (2u64, TxState::Open)]);
    lemma_ids_push(seq![(1u64, TxState::Committed)], (2u64, TxState::Open), TxState::Committed);
    lemma_ids_push(
        Seq::<(u64, TxState)>::empty(),
        (1u64, TxState::Committed),
        TxState::Committed,
    );
    assert(seq![(1u64, TxState::Committed)].drop_last() =~= Seq::<(u64, TxState)>::empty());
    assert(seq![(1u64, TxState::Committed)] =~= Seq::<(u64, TxState)>::empty().push(
        (1u64, TxState::Committed),
    ));
    assert(ids_with_state(Seq::<(u64, TxState)>::empty(), TxState::Committed)
        == Seq::<u64>::empty());
    assert(committed_ids(rs) =~= seq![1u64]);
    lemma_ids_push(seq![(1u64, TxState::Committed)], (2u64, TxState::Open), TxState::Open);
    lemma_ids_push(Seq::<(u64, TxState)>::empty(), (1u64, TxState::Committed), TxState::Open);
    assert(uncommitted_ids(rs) =~= seq![2u64]);
}

/// A rolled-back transaction appears in neither recovery set.
pub fn test_transaction_rollback() -> (r: bool)
    ensures
        r,
{
    let mut wal = fresh_wal();
    proof {
        reveal_strlit("/temp.txt");
        assert(is_ascii_chars(("/temp.txt")@));
        lemma_ascii_path_len("/temp.txt");
    }
    let mut d: Vec<u8> = Vec::new();
    d.push(0x78);
    let tx_id: TxId = wal.begin_tx();
    wal.write_file(tx_id, "/temp.txt", 0, d.as_slice());
    wal.rollback_tx(tx_id);
    proof {
        let rs = wal@.records;
        let r0 = rs.subrange(0, 0);
        let r1 = rs.subrange(0, 1);
        let r2 = rs.subrange(0, 2);
        assert(r0 =~= Seq::<RecModel>::empty());
        assert(r1 =~= r0.push(rs[0]));
        assert(r2 =~= r1.push(rs[1]));
        assert(rs =~= r2.push(rs[2]));
        lemma_table_push(r0, rs[0]);
        lemma_table_set_fresh(tx_table_spec(r0), 1, TxState::Open);
        assert(tx_table_spec(r1) =~= seq![(1u64, TxState::Open)]);
        lemma_table_push(r1, rs[1]);
        assert(tx_table_spec(r2) =~= seq![(1u64, TxState::Open)]);
        lemma_table_push(r2, rs[2]);
        lemma_table_set_last(tx_table_spec(r2), 1, TxState::Rolled);
        assert(tx_table_spec(rs) =~= seq![(1u64, TxState::Rolled)]);
        lemma_ids_push(Seq::<(u64, TxState)>::empty(), (1u64, TxState::Rolled),
            TxState::Committed);
        lemma_ids_push(Seq::<(u64, TxState)>::empty(), (1u64, TxState::Rolled), TxState::Open);
        assert(seq![(1u64, TxState::Rolled)] =~= Seq::<(u64, TxState)>::empty().push(
            (1u64, TxState::Rolled),
        ));
        assert(committed_ids(rs) =~= Seq::<u64>::empty());
        assert(uncommitted_ids(rs) =~= Seq::<u64>::empty());
    }
    match wal.recover() {
        Ok(recovery) => {
            proof {
                assert(recovery.committed@.len() == 0);
                assert(recovery.uncommitted@.len() == 0);
            }
            recovery.committed.len() == 0 && recovery.uncommitted.len() == 0
        },
        Err(_) => {
            proof {
                assert(false);
            }
            false
        },
    }
}

/// LSNs strictly increase across transactions: the last record of the
/// first transaction sits below the first record of the second.
pub fn test_lsn_sequencing() -> (r: bool)
    ensures
        r,
{
    let mut wal = fresh_wal();
    proof {
        reveal_strlit("/file1.txt");
        assert(is_ascii_chars(("/file1.txt")@));
        lemma_ascii_path_len("/file1.txt");
        reveal_strlit("/file2.txt");
        assert(is_ascii_chars(("/file2.txt")@));
        lemma_ascii_path_len("/file2.txt");
    }
    let mut d: Vec<u8> = Vec::new();
    d.push(0x78);
    let tx1: TxId = wal.begin_tx();
    wal.write_file(tx1, "/file1.txt", 0, d.as_slice());
    let tx2: TxId = wal.begin_tx();
    wal.write_file(tx2, "/file2.txt", 0, d.as_slice());
    proof {
        let rs = wal@.records;
        let r0 = rs.subrange(0, 0);
        let r1 = rs.subrange(0, 1);
        let r2 = rs.subrange(0, 2);
        let r3 = rs.subrange(0, 3);
        assert(r0 =~= Seq::<RecModel>::empty());
        assert(r1 =~= r0.push(rs[0]));
        assert(r2 =~= r1.push(rs[1]));
        assert(r3 =~= r2.push(rs[2]));
        assert(rs =~= r3.push(rs[3]));
        crate::wal::lemma_tx_records_push(r0, rs[0], 1);
        crate::wal::lemma_tx_records_push(r1, rs[1], 1);
        crate::wal::lemma_tx_records_push(r2, rs[2], 1);
        crate::wal::lemma_tx_records_push(r3, rs[3], 1);
        assert(crate::wal::tx_records_of(rs, 1) =~= seq![rs[0], rs[1]]);
        crate::wal::lemma_tx_records_push(r0, rs[0], 2);
        crate::wal::lemma_tx_records_push(r1, rs[1], 2);
        crate::wal::lemma_tx_records_push(r2, rs[2], 2);
        crate::wal::lemma_tx_records_push(r3, rs[3], 2);
        assert(crate::wal::tx_records_of(rs, 2) =~= seq![rs[2], rs[3]]);
    }
    let records1: Vec<WalRecord> = wal.get_tx_records(tx1);
    let records2: Vec<WalRecord> = wal.get_tx_records(tx2);
    if records1.len() > 0 && records2.len() > 0 {
        proof {
            assert(crate::wal::views_of(records1@)[records1@.len() - 1].lsn == 2);
            assert(crate::wal::views_of(records2@)[0].lsn == 3);
        }
        let last_lsn_tx1: u64 = records1[records1.len() - 1].lsn;
        let first_lsn_tx2: u64 = records2[0].lsn;
        last_lsn_tx1 < first_lsn_tx2
    } else {
        proof {
            assert(false);
        }
        false
    }
}

/// Recovery of an empty log reports two empty sets.
pub fn test_empty_wal_recovery() -> (r: bool)
    ensures
        r,
{
    let wal = fresh_wal();
    match wal.recover() {
        Ok(recovery) => {
            proof {
                assert(tx_table_spec(wal@.records) =~= Seq::<(u64, TxState)>::empty());
                assert(ids_with_state(Seq::<(u64, TxState)>::empty(), TxState::Committed)
                    == Seq::<u64>::empty());
                assert(ids_with_state(Seq::<(u64, TxState)>::empty(), TxState::Open)
                    == Seq::<u64>::empty());
                assert(txids_of(recovery.committed@).len() == 0);
                assert(txids_of(recovery.uncommitted@).len() == 0);
                assert(recovery.committed@.len() == 0);
                assert(recovery.uncommitted@.len() == 0);
            }
            recovery.committed.len() == 0 && recovery.uncommitted.len() == 0
        },
        Err(_) => {
            proof {
                assert(false);
            }
            false
        },
    }
}

/// A ten-kilobyte write is recorded and committed.
pub fn test_large_file_write() -> (r: bool)
    ensures
        r,
{
    let mut wal = fresh_wal();
    proof {
        reveal_strlit("/large.bin");
        assert(is_ascii_chars(("/large.bin")@));
        lemma_ascii_path_len("/large.bin");
    }
    let large_data: Vec<u8> = vec![0u8; 10 * 1024];
    let tx_id: TxId = wal.begin_tx();
    wal.write_file(tx_id, "/large.bin", 0, large_data.as_slice());
    match wal.commit_tx(tx_id) {
        Ok(_) => {},
        Err(_) => {
            proof {
                assert(false);
            }
            return false;
        },
    }
    proof {
        let rs = wal@.records;
        let r0 = rs.subrange(0, 0);
        let r1 = rs.subrange(0, 1);
        let r2 = rs.subrange(0, 2);
        assert(r0 =~= Seq::<RecModel>::empty());
        assert(r1 =~= r0.push(rs[0]));
        assert(r2 =~= r1.push(rs[1]));
        assert(rs =~= r2.push(rs[2]));
        crate::wal::lemma_tx_records_push(r0, rs[0], 1);
        crate::wal::lemma_tx_records_push(r1, rs[1], 1);
        crate::wal::lemma_tx_records_push(r2, rs[2], 1);
        assert(crate::wal::tx_records_of(rs, 1) =~= seq![rs[0], rs[1], rs[2]]);
    }
    let records: Vec<WalRecord> = wal.get_tx_records(tx_id);
    records.len() > 0
}

/// A ten-level directory path is recorded and committed.
pub fn test_deep_nested_directories() -> (r: bool)
    ensures
        r,
{
    let mut wal = fresh_wal();
    proof {
        reveal_strlit("/a/b/c/d/e/f/g/h/i/j");
        assert(is_ascii_chars(("/a/b/c/d/e/f/g/h/i/j")@));
        lemma_ascii_path_len("/a/b/c/d/e/f/g/h/i/j");
    }
    let tx_id: TxId = wal.begin_tx();
    wal.mkdir(tx_id, "/a/b/c/d/e/f/g/h/i/j");
    match wal.commit_tx(tx_id) {
        Ok(_) => true,
        Err(_) => {
            proof {
                assert(false);
            }
            false
        },
    }
}

/// A mixed sequence of creates, writes and a directory commits as one
/// transaction.
pub fn test_mixed_operations() -> (r: bool)
    ensures
        r,
{
    let mut wal = fresh_wal();
    proof {
        reveal_strlit("/file1.txt");
        assert(is_ascii_chars(("/file1.txt")@));
        lemma_ascii_path_len("/file1.txt");
        reveal_strlit("/dir1");
        assert(is_ascii_chars(("/dir1")@));
        lemma_ascii_path_len("/dir1");
        reveal_strlit("/dir1/file2.txt");
        assert(is_ascii_chars(("/dir1/file2.txt")@));
        lemma_ascii_path_len("/dir1/file2.txt");
    }
    let mut d: Vec<u8> = Vec::new();
    d.push(0x78);
    let tx_id: TxId = wal.begin_tx();
    wal.create_file(tx_id, "/file1.txt");
    wal.write_file(tx_id, "/file1.txt", 0, d.as_slice());
    wal.mkdir(tx_id, "/dir1");
    wal.write_file(tx_id, "/file1.txt", 100, d.as_slice());
    wal.create_file(tx_id, "/dir1/file2.txt");
    match wal.commit_tx(tx_id) {
        Ok(_) => true,
        Err(_) => {
            proof {
                assert(false);
            }
            false
        },
    }
}

/// Three transactions in sequence leave the counter at four.
pub fn test_multiple_transactions() -> (r: bool)
    ensures
        r,
{
    let mut wal = fresh_wal();
    proof {
        reveal_strlit("/file.txt");
        assert(is_ascii_chars(("/file.txt")@));
        lemma_ascii_path_len("/file.txt");
    }
    let mut d: Vec<u8> = Vec::new();
    d.push(0x78);
    let mut i: u64 = 0;
    while i < 3
        invariant
            i <= 3,
            wal@.wf(),
            wal@.next_tx_id == 1 + i,
            wal@.next_lsn == 1 + 3 * i,
            ("/file.txt")@.len() == 9,
            is_ascii_chars(("/file.txt")@),
            d@.len() == 1,
        decreases 3 - i,
    {
        proof {
            lemma_ascii_path_len("/file.txt");
        }
        let tx_id: TxId = wal.begin_tx();
        wal.write_file(tx_id, "/file.txt", 0, d.as_slice());
        match wal.commit_tx(tx_id) {
            Ok(_) => {},
            Err(_) => {
                proof {
                    assert(false);
                }
                return false;
            },
        }
        i = i + 1;
    }
    wal.next_tx_id() == 4
}

/// Ten committed transactions, then truncation at LSN five: the records
/// of transaction one are gone.
pub fn test_checkpoint_truncate() -> (r: bool)
    ensures
        r,
{
    let mut wal = fresh_wal();
    proof {
        reveal_strlit("/file.txt");
        assert(is_ascii_chars(("/file.txt")@));
        lemma_ascii_path_len("/file.txt");
    }
    let mut d: Vec<u8> = Vec::new();
    d.push(0x78);
    let mut i: u64 = 0;
    while i < 10
        invariant
            i <= 10,
            wal@.wf(),
            wal@.next_tx_id == 1 + i,
            wal@.next_lsn == 1 + 3 * i,
            ("/file.txt")@.len() == 9,
            is_ascii_chars(("/file.txt")@),
            d@.len() == 1,
            forall|k: int|
                0 <= k < wal@.records.len() ==> ((#[trigger] wal@.records[k]).tx == 1
                    ==> wal@.records[k].lsn <= 3),
        decreases 10 - i,
    {
        proof {
            lemma_ascii_path_len("/file.txt");
        }
        let tx_id: TxId = wal.begin_tx();
        wal.write_file(tx_id, "/file.txt", 0, d.as_slice());
        match wal.commit_tx(tx_id) {
            Ok(_) => {},
            Err(_) => {
                proof {
                    assert(false);
                }
                return false;
            },
        }
        i = i + 1;
    }
    let ghost pre = wal@.records;
    wal.truncate(5);
    proof {
        crate::wal::lemma_retained_records_sub(pre, 5);
        assert forall|k: int| 0 <= k < wal@.records.len() implies (
        #[trigger] wal@.records[k]).tx != 1 by {
            let j = choose|j: int| 0 <= j < pre.len() && wal@.records[k] == #[trigger] pre[j];
            if wal@.records[k].tx == 1 {
                assert(pre[j].lsn <= 3);
                assert(wal@.records[k].lsn >= 5);
            }
        }
        crate::wal::lemma_tx_records_empty(wal@.records, 1);
    }
    let records: Vec<WalRecord> = wal.get_tx_records(TxId::new(1));
    records.len() == 0
}

/// The transaction table after `i` commit-and-roll-back rounds: odd
/// transactions committed, even ones rolled back.
pub open spec fn cycles_table(i: int) -> Seq<(u64, TxState)> {
    Seq::new(
        (2 * i) as nat,
        |j: int|
            (
                (j + 1) as u64,
                if j % 2 == 0 {
                    TxState::Committed
                } else {
                    TxState::Rolled
                },
            ),
    )
}

/// After `i` rounds the committed transactions are the odd ones and
/// nothing is open.
proof fn lemma_cycles_ids(i: int)
    requires
        0 <= i,
    ensures
        ids_with_state(cycles_table(i), TxState::Committed) == Seq::new(
            i as nat,
            |j: int| (2 * j + 1) as u64,
        ),
        ids_with_state(cycles_table(i), TxState::Open) == Seq::<u64>::empty(),
    decreases i,
{
    if i == 0 {
        assert(cycles_table(0) =~= Seq::<(u64, TxState)>::empty());
        assert(Seq::new(0nat, |j: int| (2 * j + 1) as u64) =~= Seq::<u64>::empty());
    } else {
        lemma_cycles_ids(i - 1);
        let t = cycles_table(i - 1);
        let c: (u64, TxState) = ((2 * i - 1) as u64, TxState::Committed);
        let rl: (u64, TxState) = ((2 * i) as u64, TxState::Rolled);
        let tc = t.push(c);
        assert(cycles_table(i) =~= tc.push(rl));
        lemma_ids_push(t, c, TxState::Committed);
        lemma_ids_push(tc, rl, TxState::Committed);
        lemma_ids_push(t, c, TxState::Open);
        lemma_ids_push(tc, rl, TxState::Open);
        assert(ids_with_state(tc, TxState::Committed) =~= ids_with_state(t, TxState::Committed)
            + seq![c.0]);
        assert(ids_with_state(cycles_table(i), TxState::Committed) =~= Seq::new(
            i as nat,
            |j: int| (2 * j + 1) as u64,
        ));
        assert(ids_with_state(cycles_table(i), TxState::Open) =~= Seq::<u64>::empty());
    }
}

/// Alternating commit and rollback rounds: after three of each, recovery
/// reports three committed transactions and none open.
pub fn test_rollback_commit_cycles() -> (r: bool)
    ensures
        r,
{
    let mut wal = fresh_wal();
    proof {
        reveal_strlit("/commit.txt");
        assert(is_ascii_chars(("/commit.txt")@));
        lemma_ascii_path_len("/commit.txt");
        reveal_strlit("/rollback.txt");
        assert(is_ascii_chars(("/rollback.txt")@));
        lemma_ascii_path_len("/rollback.txt");
        assert(tx_table_spec(wal@.records) =~= cycles_table(0));
    }
    let mut d: Vec<u8> = Vec::new();
    d.push(0x78);
    let mut i: u64 = 0;
    while i < 3
        invariant
            i <= 3,
            wal@.wf(),
            wal@.next_tx_id == 1 + 2 * i,
            wal@.next_lsn == 1 + 6 * i,
            tx_table_spec(wal@.records) == cycles_table(i as int),
            ("/commit.txt")@.len() == 11,
            is_ascii_chars(("/commit.txt")@),
            ("/rollback.txt")@.len() == 13,
            is_ascii_chars(("/rollback.txt")@),
            d@.len() == 1,
        decreases 3 - i,
    {
        proof {
            lemma_ascii_path_len("/commit.txt");
            lemma_ascii_path_len("/rollback.txt");
        }
        let ghost t0 = tx_table_spec(wal@.records);
        let ghost rs0 = wal@.records;
        let tx_commit: TxId = wal.begin_tx();
        proof {
            lemma_table_push(rs0, wal@.records.last());
            assert(forall|k: int|
                0 <= k < t0.len() ==> (#[trigger] t0[k]).0 != (2 * i + 1) as u64);
            lemma_table_set_fresh(t0, (2 * i + 1) as u64, TxState::Open);
        }
        let ghost rs1 = wal@.records;
        wal.write_file(tx_commit, "/commit.txt", 0, d.as_slice());
        proof {
            lemma_table_push(rs1, wal@.records.last());
        }
        let ghost rs2 = wal@.records;
        let ghost t2 = tx_table_spec(rs2);
        match wal.commit_tx(tx_commit) {
            Ok(_) => {},
            Err(_) => {
                proof {
                    assert(false);
                }
                return false;
            },
        }
        proof {
            lemma_table_push(rs2, wal@.records.last());
            assert(t2 == t0.push(((2 * i + 1) as u64, TxState::Open)));
            assert(forall|k: int|
                0 <= k < t0.len() ==> (#[trigger] t0[k]).0 != (2 * i + 1) as u64);
            lemma_table_set_last(t2, (2 * i + 1) as u64, TxState::Committed);
            assert(t2.drop_last() =~= t0);
        }
        let ghost rs3 = wal@.records;
        let ghost t3 = tx_table_spec(rs3);
        let tx_rollback: TxId = wal.begin_tx();
        proof {
            lemma_table_push(rs3, wal@.records.last());
            assert(t3 == t0.push(((2 * i + 1) as u64, TxState::Committed)));
            assert(forall|k: int|
                0 <= k < t3.len() ==> (#[trigger] t3[k]).0 != (2 * i + 2) as u64);
            lemma_table_set_fresh(t3, (2 * i + 2) as u64, TxState::Open);
        }
        let ghost rs4 = wal@.records;
        wal.write_file(tx_rollback, "/rollback.txt", 0, d.as_slice());
        proof {
            lemma_table_push(rs4, wal@.records.last());
        }
        let ghost rs5 = wal@.records;
        let ghost t5 = tx_table_spec(rs5);
        wal.rollback_tx(tx_rollback);
        proof {
            lemma_table_push(rs5, wal@.records.last());
            assert(t5 == t3.push(((2 * i + 2) as u64, TxState::Open)));
            assert(forall|k: int|
                0 <= k < t3.len() ==> (#[trigger] t3[k]).0 != (2 * i + 2) as u64);
            lemma_table_set_last(t5, (2 * i + 2) as u64, TxState::Rolled);
            assert(t5.drop_last() =~= t3);
            assert(tx_table_spec(wal@.records) =~= cycles_table(i + 1));
        }
        i = i + 1;
    }
    proof {
        lemma_cycles_ids(3);
        assert(committed_ids(wal@.records).len() == 3);
        assert(uncommitted_ids(wal@.records).len() == 0);
    }
    match wal.recover() {
        Ok(recovery) => {
            proof {
                assert(recovery.committed@.len() == 3);
                assert(recovery.uncommitted@.len() == 0);
            }
            recovery.committed.len() == 3 && recovery.uncommitted.len() == 0
        },
        Err(_) => {
            proof {
                assert(false);
            }
            false
        },
    }
}

/// Runs the five basic scenarios; all of them pass.
pub fn run_basic_tests() -> (r: (usize, usize))
    ensures
        r.0 == 5 && r.1 == 5,
{
    let mut passed: usize = 0;
    let mut total: usize = 0;
    total = total + 1;
    if test_wal_serialize() {
        passed = passed + 1;
    }
    total = total + 1;
    if test_transaction_begin_commit() {
        passed = passed + 1;
    }
    total = total + 1;
    if test_file_operations() {
        passed = passed + 1;
    }
    total = total + 1;
    if test_crash_recovery() {
        passed = passed + 1;
    }
    total = total + 1;
    if test_multiple_transactions() {
        passed = passed + 1;
    }
    (passed, total)
}

/// Runs all thirteen scenarios; all of them pass.
pub fn run_all_tests() -> (r: (usize, usize))
    ensures
        r.0 == 13 && r.1 == 13,
{
    let mut passed: usize = 0;
    let mut total: usize = 0;
    total = total + 1;
    if test_wal_serialize() {
        passed = passed + 1;
    }
    total = total + 1;
    if test_transaction_begin_commit() {
        passed = passed + 1;
    }
    total = total + 1;
    if test_file_operations() {
        passed = passed + 1;
    }
    total = total + 1;
    if test_crash_recovery() {
        passed = passed + 1;
    }
    total = total + 1;
    if test_multiple_transactions() {
        passed = passed + 1;
    }
    total = total + 1;
    if test_checkpoint_truncate() {
        passed = passed + 1;
    }
    total = total + 1;
    if test_transaction_rollback() {
        passed = passed + 1;
    }
    total = total + 1;
    if test_lsn_sequencing() {
        passed = passed + 1;
    }
    total = total + 1;
    if test_empty_wal_recovery() {
        passed = passed + 1;
    }
    total = total + 1;
    if test_large_file_write() {
        passed = passed + 1;
    }
    total = total + 1;
    if test_deep_nested_directories() {
        passed = passed + 1;
    }
    total = total + 1;
    if test_mixed_operations() {
        passed = passed + 1;
    }
    total = total + 1;
    if test_rollback_commit_cycles() {
        passed = passed + 1;
    }
    (passed, total)
}

/// Runs every built-in suite: the basic scenarios, the full scenario set,
/// and the consistency scenarios; everything passes.
pub fn run_dbfs_tests() -> (r: (usize, usize))
    ensures
        r.0 == 28 && r.1 == 28,
{
    let mut passed: usize = 0;
    let mut total: usize = 0;
    let (p1, t1): (usize, usize) = run_basic_tests();
    passed = passed + p1;
    total = total + t1;
    let (p2, t2): (usize, usize) = run_all_tests();
    passed = passed + p2;
    total = total + t2;
    let (p3, t3): (usize, usize) = crate::consistency::run_elle_jepsen_tests();
    passed = passed + p3;
    total = total + t3;
    (passed, total)
}

} // verus!
