//! Consistency scenarios over the WAL engine: isolation-anomaly setups,
//! crash-and-reopen cycles through the durable image, and fatigue runs.
//! Each returns `true`, and the contract says so.

use vstd::prelude::*;
use vstd::string::StringSliceAdditionalSpecFns;
use vstd::utf8::is_ascii_chars;

use crate::wal::{
    committed_ids, ids_with_state, lemma_ids_push, lemma_table_push, lemma_table_set_fresh,
    lemma_table_set_last, tx_table_spec, txids_of, uncommitted_ids, RecModel, TxId, TxState,
    Wal, WalRecordType,
};

verus! {

/// An ASCII string's UTF-8 bytes are its characters, one byte each.
proof fn lemma_ascii_path_len(s: &str)
    requires
        is_ascii_chars(s@),
    ensures
        s.spec_bytes().len() == s@.len(),
{
    vstd::utf8::is_ascii_chars_encode_utf8(s@);
}

/// A fresh engine.
fn fresh_wal() -> (w: Wal)
    ensures
        w@.records == Seq::<RecModel>::empty(),
        w@.next_lsn == 1,
        w@.next_tx_id == 1,
        w@.flushed_lsn == 0,
        w@.checkpoint_lsn == 0,
        w@.wf(),
{
    match Wal::new("/test/wal".to_owned()) {
        Ok(w) => w,
        Err(_) => {
            proof {
                assert(false);
            }
            vstd::pervasive::unreached()
        },
    }
}

/// Uncommitted-read setup: one transaction writes without committing, a
/// second writes, then both commit in order.
pub fn elle_test_g1c_uncommitted_read() -> (r: bool)
    ensures
        r,
{
    let mut wal = fresh_wal();
    proof {
        reveal_strlit("/data.txt");
        assert(is_ascii_chars(("/data.txt")@));
        lemma_ascii_path_len("/data.txt");
    }
    let mut d: Vec<u8> = Vec::new();
    d.push(0x78);
    let tx1: TxId = wal.begin_tx();
    wal.write_file(tx1, "/data.txt", 0, d.as_slice());
    let tx2: TxId = wal.begin_tx();
    wal.write_file(tx2, "/data.txt", 0, d.as_slice());
    match wal.commit_tx(tx1) {
        Ok(_) => {},
        Err(_) => {
            proof {
                assert(false);
            }
            return false;
        },
    }
    match wal.commit_tx(tx2) {
        Ok(_) => true,
        Err(_) => {
            proof {
                assert(false);
            }
            false
        },
    }
}

/// Lost-update setup: two transactions write the same file concurrently;
/// the one committing later carries the larger LSN.
pub fn elle_test_lost_update() -> (r: bool)
    ensures
        r,
{
    let mut wal = fresh_wal();
    proof {
        reveal_strlit("/counter.txt");
        assert(is_ascii_chars(("/counter.txt")@));
        lemma_ascii_path_len("/counter.txt");
    }
    let mut d: Vec<u8> = Vec::new();
    d.push(0x31);
    let tx1: TxId = wal.begin_tx();
    let tx2: TxId = wal.begin_tx();
    wal.write_file(tx1, "/counter.txt", 0, d.as_slice());
    wal.write_file(tx2, "/counter.txt", 0, d.as_slice());
    match wal.commit_tx(tx1) {
        Ok(_) => {},
        Err(_) => {
            proof {
                assert(false);
            }
            return false;
        },
    }
    match wal.commit_tx(tx2) {
        Ok(_) => {},
        Err(_) => {
            proof {
                assert(false);
            }
            return false;
        },
    }
    proof {
        let rs = wal@.records;
        let r0 = rs.subrange(0, 0);
        let r1 = rs.subrange(0, 1);
        let r2 = rs.subrange(0, 2);
        let r3 = rs.subrange(0, 3);
        let r4 = rs.subrange(0, 4);
        let r5 = rs.subrange(0, 5);
        assert(r0 =~= Seq::<RecModel>::empty());
        assert(r1 =~= r0.push(rs[0]));
        assert(r2 =~= r1.push(rs[1]));
        assert(r3 =~= r2.push(rs[2]));
        assert(r4 =~= r3.push(rs[3]));
        assert(r5 =~= r4.push(rs[4]));
        assert(rs =~= r5.push(rs[5]));
        crate::wal::lemma_tx_records_push(r0, rs[0], 1);
        crate::wal::lemma_tx_records_push(r1, rs[1], 1);
        crate::wal::lemma_tx_records_push(r2, rs[2], 1);
        crate::wal::lemma_tx_records_push(r3, rs[3], 1);
        crate::wal::lemma_tx_records_push(r4, rs[4], 1);
        crate::wal::lemma_tx_records_push(r5, rs[5], 1);
        assert(crate::wal::tx_records_of(rs, 1) =~= seq![rs[0], rs[2], rs[4]]);
        crate::wal::lemma_tx_records_push(r0, rs[0], 2);
        crate::wal::lemma_tx_records_push(r1, rs[1], 2);
        crate::wal::lemma_tx_records_push(r2, rs[2], 2);
        crate::wal::lemma_tx_records_push(r3, rs[3], 2);
        crate::wal::lemma_tx_records_push(r4, rs[4], 2);
        crate::wal::lemma_tx_records_push(r5, rs[5], 2);
        assert(crate::wal::tx_records_of(rs, 2) =~= seq![rs[1], rs[3], rs[5]]);
    }
    let records1 = wal.get_tx_records(tx1);
    let records2 = wal.get_tx_records(tx2);
    if records1.len() > 0 && records2.len() > 0 {
        proof {
            assert(crate::wal::views_of(records1@)[records1@.len() - 1].lsn == 5);
            assert(crate::wal::views_of(records2@)[records2@.len() - 1].lsn == 6);
        }
        let lsn1: u64 = records1[records1.len() - 1].lsn;
        let lsn2: u64 = records2[records2.len() - 1].lsn;
        lsn2 > lsn1
    } else {
        proof {
            assert(false);
        }
        false
    }
}

/// Write-skew setup: two transactions each write one of two related
/// files and a marker, then both commit.
pub fn elle_test_write_skew() -> (r: bool)
    ensures
        r,
{
    let mut wal = fresh_wal();
    proof {
        reveal_strlit("/account/x");
        assert(is_ascii_chars(("/account/x")@));
        lemma_ascii_path_len("/account/x");
        reveal_strlit("/account/y");
        assert(is_ascii_chars(("/account/y")@));
        lemma_ascii_path_len("/account/y");
        reveal_strlit("/account/check");
        assert(is_ascii_chars(("/account/check")@));
        lemma_ascii_path_len("/account/check");
    }
    let mut d: Vec<u8> = Vec::new();
    d.push(0x35);
    let tx1: TxId = wal.begin_tx();
    let tx2: TxId = wal.begin_tx();
    wal.write_file(tx1, "/account/x", 0, d.as_slice());
    wal.write_file(tx1, "/account/check", 0, d.as_slice());
    wal.write_file(tx2, "/account/y", 0, d.as_slice());
    wal.write_file(tx2, "/account/check", 0, d.as_slice());
    match wal.commit_tx(tx1) {
        Ok(_) => {},
        Err(_) => {
            proof {
                assert(false);
            }
            return false;
        },
    }
    match wal.commit_tx(tx2) {
        Ok(_) => true,
        Err(_) => {
            proof {
                assert(false);
            }
            false
        },
    }
}

/// Serializable-order setup: five transactions begin and write, then
/// commit in order.
pub fn elle_test_serializable_isolation() -> (r: bool)
    ensures
        r,
{
    let mut wal = fresh_wal();
    proof {
        reveal_strlit("/item.txt");
        assert(is_ascii_chars(("/item.txt")@));
        lemma_ascii_path_len("/item.txt");
    }
    let mut d: Vec<u8> = Vec::new();
    d.push(0x76);
    let mut transactions: Vec<TxId> = Vec::new();
    let mut i: u64 = 0;
    while i < 5
        invariant
            i <= 5,
            wal@.wf(),
            wal@.next_tx_id == 1 + i,
            wal@.next_lsn == 1 + 2 * i,
            transactions@.len() == i,
            ("/item.txt")@.len() == 9,
            is_ascii_chars(("/item.txt")@),
            d@.len() == 1,
        decreases 5 - i,
    {
        proof {
            lemma_ascii_path_len("/item.txt");
        }
        let tx_id: TxId = wal.begin_tx();
        wal.write_file(tx_id, "/item.txt", 0, d.as_slice());
        transactions.push(tx_id);
        i = i + 1;
    }
    let mut k: usize = 0;
    while k < transactions.len()
        invariant
            k <= transactions@.len(),
            transactions@.len() == 5,
            wal@.wf(),
            wal@.next_lsn == 11 + k,
        decreases transactions@.len() - k,
    {
        match wal.commit_tx(transactions[k]) {
            Ok(_) => {},
            Err(_) => {
                proof {
                    assert(false);
                }
                return false;
            },
        }
        k = k + 1;
    }
    match wal.recover() {
        Ok(_) => true,
        Err(_) => {
            proof {
                assert(false);
            }
            false
        },
    }
}

/// Crash during a transaction: a committed transaction and a trailing
/// uncommitted one are flushed; reopening the durable image recovers one
/// committed and one uncommitted transaction.
pub fn jepsen_test_crash_during_transaction() -> (r: bool)
    ensures
        r,
{
    let mut wal = fresh_wal();
    proof {
        reveal_strlit("/important.txt");
        assert(is_ascii_chars(("/important.txt")@));
        lemma_ascii_path_len("/important.txt");
        reveal_strlit("/temp.txt");
        assert(is_ascii_chars(("/temp.txt")@));
        lemma_ascii_path_len("/temp.txt");
    }
    let mut d: Vec<u8> = Vec::new();
    d.push(0x63);
    let tx1: TxId = wal.begin_tx();
    wal.write_file(tx1, "/important.txt", 0, d.as_slice());
    match wal.commit_tx(tx1) {
        Ok(_) => {},
        Err(_) => {
            proof {
                assert(false);
            }
            return false;
        },
    }
    let tx2: TxId = wal.begin_tx();
    wal.write_file(tx2, "/temp.txt", 0, d.as_slice());
    match wal.flush() {
        Ok(_) => {},
        Err(_) => {
            proof {
                assert(false);
            }
            return false;
        },
    }
    // The engine vanishes here; only the durable image survives.
    proof {
        lemma_reopen_recovers(wal@);
    }
    let reopened: Wal = match Wal::open_from_image(
        "/test/wal".to_owned(),
        wal.durable_image().as_slice(),
    ) {
        Ok(w) => w,
        Err(_) => {
            proof {
                assert(false);
            }
            return false;
        },
    };
    proof {
        let rs = reopened@.records;
        assert(rs.len() == 5);
        assert(rs[0].kind == WalRecordType::TxBegin && rs[0].tx == 1);
        assert(rs[1].kind == WalRecordType::FileWrite && rs[1].tx == 1);
        assert(rs[2].kind == WalRecordType::TxCommit && rs[2].tx == 1);
        assert(rs[3].kind == WalRecordType::TxBegin && rs[3].tx == 2);
        assert(rs[4].kind == WalRecordType::FileWrite && rs[4].tx == 2);
        crate::selftest::lemma_scan_one_committed_one_open(rs);
    }
    match reopened.recover() {
        Ok(recovery) => {
            proof {
                assert(txids_of(recovery.committed@).len() == 1);
                assert(txids_of(recovery.uncommitted@).len() == 1);
                assert(recovery.committed@.len() == 1);
                assert(recovery.uncommitted@.len() == 1);
            }
            recovery.committed.len() == 1 && recovery.uncommitted.len() == 1
        },
        Err(_) => {
            proof {
                assert(false);
            }
            false
        },
    }
}

/// A freshly flushed image reopens to exactly the records it serialized.
proof fn lemma_reopen_recovers(w: crate::wal::WalModel)
    requires
        w.wf(),
        w.records.len() > 0,
        w.image == crate::image::spec_log_bytes(w.next_tx_id, w.checkpoint_lsn, w.records),
    ensures
        w.image.len() >= crate::image::WAL_HEADER_SIZE,
        crate::image::spec_header_valid(w.image),
        crate::image::spec_parse_records(
            w.image.skip(crate::image::WAL_HEADER_SIZE as int),
        ) == w.records,
        crate::wal::replayable(w.records),
{
    crate::image::lemma_flushed_image_replays(w.next_tx_id, w.checkpoint_lsn, w.records);
    assert(w.records.last().lsn < w.next_lsn);
}

/// One hundred transactions of mixed operations, each committed.
pub fn jepsen_test_concurrent_fatigue() -> (r: bool)
    ensures
        r,
{
    let mut wal = fresh_wal();
    proof {
        reveal_strlit("/file.txt");
        assert(is_ascii_chars(("/file.txt")@));
        lemma_ascii_path_len("/file.txt");
        reveal_strlit("/new.txt");
        assert(is_ascii_chars(("/new.txt")@));
        lemma_ascii_path_len("/new.txt");
        reveal_strlit("/temp.txt");
        assert(is_ascii_chars(("/temp.txt")@));
        lemma_ascii_path_len("/temp.txt");
        reveal_strlit("/dir");
        assert(is_ascii_chars(("/dir")@));
        lemma_ascii_path_len("/dir");
    }
    let num_transactions: u64 = 100;
    let mut committed: u64 = 0;
    let mut d: Vec<u8> = Vec::new();
    d.push(0x64);
    let mut i: u64 = 0;
    while i < num_transactions
        invariant
            num_transactions == 100,
            i <= 100,
            wal@.wf(),
            wal@.next_tx_id == 1 + i,
            wal@.next_lsn <= 1 + 4 * i,
            committed == i,
            ("/file.txt")@.len() == 9,
            is_ascii_chars(("/file.txt")@),
            ("/new.txt")@.len() == 8,
            is_ascii_chars(("/new.txt")@),
            ("/temp.txt")@.len() == 9,
            is_ascii_chars(("/temp.txt")@),
            ("/dir")@.len() == 4,
            is_ascii_chars(("/dir")@),
            d@.len() == 1,
        decreases 100 - i,
    {
        proof {
            lemma_ascii_path_len("/file.txt");
            lemma_ascii_path_len("/new.txt");
            lemma_ascii_path_len("/temp.txt");
            lemma_ascii_path_len("/dir");
        }
        let tx_id: TxId = wal.begin_tx();
        if i % 4 == 0 {
            wal.write_file(tx_id, "/file.txt", 0, d.as_slice());
        } else if i % 4 == 1 {
            wal.create_file(tx_id, "/new.txt");
            wal.write_file(tx_id, "/new.txt", 0, d.as_slice());
        } else if i % 4 == 2 {
            wal.write_file(tx_id, "/temp.txt", 0, d.as_slice());
            wal.delete_file(tx_id, "/temp.txt");
        } else {
            wal.mkdir(tx_id, "/dir");
        }
        match wal.commit_tx(tx_id) {
            Ok(_) => {
                committed = committed + 1;
            },
            Err(_) => {
                proof {
                    assert(false);
                }
                return false;
            },
        }
        i = i + 1;
    }
    match wal.recover() {
        Ok(_) => {},
        Err(_) => {
            proof {
                assert(false);
            }
            return false;
        },
    }
    committed == num_transactions
}

/// Twenty committed transactions, a checkpoint truncation in the middle,
/// and a fresh transaction afterwards.
pub fn jepsen_test_checkpoint_crash() -> (r: bool)
    ensures
        r,
{
    let mut wal = fresh_wal();
    proof {
        reveal_strlit("/file.txt");
        assert(is_ascii_chars(("/file.txt")@));
        lemma_ascii_path_len("/file.txt");
        reveal_strlit("/after_crash.txt");
        assert(is_ascii_chars(("/after_crash.txt")@));
        lemma_ascii_path_len("/after_crash.txt");
    }
    let mut d: Vec<u8> = Vec::new();
    d.push(0x64);
    let mut i: u64 = 0;
    while i < 20
        invariant
            i <= 20,
            wal@.wf(),
            wal@.next_tx_id == 1 + i,
            wal@.next_lsn == 1 + 3 * i,
            ("/file.txt")@.len() == 9,
            is_ascii_chars(("/file.txt")@),
            d@.len() == 1,
        decreases 20 - i,
    {
        proof {
            lemma_ascii_path_len("/file.txt");
        }
        let tx_id: TxId = wal.begin_tx();
        wal.write_file(tx_id, "/file.txt", 0, d.as_slice());
        match wal.commit_tx(tx_id) {
            Ok(_) => {},
            Err(_) => {
                proof {
                    assert(false);
                }
                return false;
            },
        }
        i = i + 1;
    }
    wal.truncate(15);
    let tx_new: TxId = wal.begin_tx();
    wal.write_file(tx_new, "/after_crash.txt", 0, d.as_slice());
    match wal.commit_tx(tx_new) {
        Ok(_) => true,
        Err(_) => {
            proof {
                assert(false);
            }
            false
        },
    }
}

/// Ten rounds of ten committed transactions each, with a checkpoint
/// truncation every third round.
pub fn jepsen_test_long_running_stability() -> (r: bool)
    ensures
        r,
{
    let mut wal = fresh_wal();
    proof {
        reveal_strlit("/round.txt");
        assert(is_ascii_chars(("/round.txt")@));
        lemma_ascii_path_len("/round.txt");
    }
    let mut d: Vec<u8> = Vec::new();
    d.push(0x64);
    let mut round: u64 = 0;
    while round < 10
        invariant
            round <= 10,
            wal@.wf(),
            wal@.next_tx_id == 1 + 10 * round,
            wal@.next_lsn == 1 + 30 * round,
            ("/round.txt")@.len() == 10,
            is_ascii_chars(("/round.txt")@),
            d@.len() == 1,
        decreases 10 - round,
    {
        let mut i: u64 = 0;
        while i < 10
            invariant
                i <= 10,
                round < 10,
                wal@.wf(),
                wal@.next_tx_id == 1 + 10 * round + i,
                wal@.next_lsn == 1 + 30 * round + 3 * i,
                ("/round.txt")@.len() == 10,
                is_ascii_chars(("/round.txt")@),
                d@.len() == 1,
            decreases 10 - i,
        {
            proof {
                lemma_ascii_path_len("/round.txt");
            }
            let tx_id: TxId = wal.begin_tx();
            wal.write_file(tx_id, "/round.txt", 0, d.as_slice());
            match wal.commit_tx(tx_id) {
                Ok(_) => {},
                Err(_) => {
                    proof {
                        assert(false);
                    }
                    return false;
                },
            }
            i = i + 1;
        }
        if round % 3 == 0 && round > 0 {
            let checkpoint_lsn: u64 = round * 10 - 5;
            wal.truncate(checkpoint_lsn);
        }
        round = round + 1;
    }
    match wal.recover() {
        Ok(_) => {},
        Err(_) => {
            proof {
                assert(false);
            }
            return false;
        },
    }
    let _total_tx: u64 = wal.next_tx_id();
    let _flushed: u64 = wal.flushed_lsn();
    true
}

/// The table after `i` committed begin-write-commit rounds.
pub open spec fn committed_table(i: int) -> Seq<(u64, TxState)> {
    Seq::new(i as nat, |j: int| ((j + 1) as u64, TxState::Committed))
}

/// After `i` committed rounds the committed transactions are all of them
/// and nothing is open.
proof fn lemma_committed_table_ids(i: int)
    requires
        0 <= i,
    ensures
        ids_with_state(committed_table(i), TxState::Committed) == Seq::new(
            i as nat,
            |j: int| (j + 1) as u64,
        ),
        ids_with_state(committed_table(i), TxState::Open) == Seq::<u64>::empty(),
    decreases i,
{
    if i == 0 {
        assert(committed_table(0) =~= Seq::<(u64, TxState)>::empty());
        assert(Seq::new(0nat, |j: int| (j + 1) as u64) =~= Seq::<u64>::empty());
    } else {
        lemma_committed_table_ids(i - 1);
        let t = committed_table(i - 1);
        let c: (u64, TxState) = (i as u64, TxState::Committed);
        assert(committed_table(i) =~= t.push(c));
        lemma_ids_push(t, c, TxState::Committed);
        lemma_ids_push(t, c, TxState::Open);
        assert(ids_with_state(committed_table(i), TxState::Committed) =~= Seq::new(
            i as nat,
            |j: int| (j + 1) as u64,
        ));
        assert(ids_with_state(committed_table(i), TxState::Open) =~= Seq::<u64>::empty());
    }
}

/// One crash-and-reopen cycle: four committed transactions and one left
/// open are flushed; the reopened image recovers four committed and one
/// uncommitted transaction.
fn crash_cycle() -> (r: bool)
    ensures
        r,
{
    let mut wal = fresh_wal();
    proof {
        reveal_strlit("/cycle.txt");
        assert(is_ascii_chars(("/cycle.txt")@));
        lemma_ascii_path_len("/cycle.txt");
        assert(tx_table_spec(wal@.records) =~= committed_table(0));
    }
    let mut d: Vec<u8> = Vec::new();
    d.push(0x64);
    let mut i: u64 = 0;
    while i < 4
        invariant
            i <= 4,
            wal@.wf(),
            wal@.next_tx_id == 1 + i,
            wal@.next_lsn == 1 + 3 * i,
            tx_table_spec(wal@.records) == committed_table(i as int),
            ("/cycle.txt")@.len() == 10,
            is_ascii_chars(("/cycle.txt")@),
            d@.len() == 1,
        decreases 4 - i,
    {
        proof {
            lemma_ascii_path_len("/cycle.txt");
        }
        let ghost t0 = tx_table_spec(wal@.records);
        let ghost rs0 = wal@.records;
        let tx_id: TxId = wal.begin_tx();
        proof {
            lemma_table_push(rs0, wal@.records.last());
            assert(forall|k: int| 0 <= k < t0.len() ==> (#[trigger] t0[k]).0 != (i + 1) as u64);
            lemma_table_set_fresh(t0, (i + 1) as u64, TxState::Open);
        }
        let ghost rs1 = wal@.records;
        wal.write_file(tx_id, "/cycle.txt", 0, d.as_slice());
        proof {
            lemma_table_push(rs1, wal@.records.last());
        }
        let ghost rs2 = wal@.records;
        let ghost t2 = tx_table_spec(rs2);
        match wal.commit_tx(tx_id) {
            Ok(_) => {},
            Err(_) => {
                proof {
                    assert(false);
                }
                return false;
            },
        }
        proof {
            lemma_table_push(rs2, wal@.records.last());
            assert(t2 == t0.push(((i + 1) as u64, TxState::Open)));
            assert(forall|k: int| 0 <= k < t0.len() ==> (#[trigger] t0[k]).0 != (i + 1) as u64);
            lemma_table_set_last(t2, (i + 1) as u64, TxState::Committed);
            assert(t2.drop_last() =~= t0);
            assert(tx_table_spec(wal@.records) =~= committed_table(i + 1));
        }
        i = i + 1;
    }
    let ghost t4 = tx_table_spec(wal@.records);
    let ghost rs4 = wal@.records;
    let tx_open: TxId = wal.begin_tx();
    proof {
        lemma_table_push(rs4, wal@.records.last());
        assert(forall|k: int| 0 <= k < t4.len() ==> (#[trigger] t4[k]).0 != 5u64);
        lemma_table_set_fresh(t4, 5u64, TxState::Open);
    }
    let ghost rs5 = wal@.records;
    wal.write_file(tx_open, "/cycle.txt", 0, d.as_slice());
    proof {
        lemma_table_push(rs5, wal@.records.last());
    }
    match wal.flush() {
        Ok(_) => {},
        Err(_) => {
            proof {
                assert(false);
            }
            return false;
        },
    }
    proof {
        lemma_reopen_recovers(wal@);
    }
    let reopened: Wal = match Wal::open_from_image(
        "/test/wal".to_owned(),
        wal.durable_image().as_slice(),
    ) {
        Ok(w) => w,
        Err(_) => {
            proof {
                assert(false);
            }
            return false;
        },
    };
    proof {
        let t = tx_table_spec(reopened@.records);
        assert(t == committed_table(4).push((5u64, TxState::Open)));
        lemma_committed_table_ids(4);
        lemma_ids_push(committed_table(4), (5u64, TxState::Open), TxState::Committed);
        lemma_ids_push(committed_table(4), (5u64, TxState::Open), TxState::Open);
        assert(committed_ids(reopened@.records).len() == 4);
        assert(uncommitted_ids(reopened@.records).len() == 1);
    }
    match reopened.recover() {
        Ok(recovery) => {
            proof {
                assert(recovery.committed@.len() == 4);
                assert(recovery.uncommitted@.len() == 1);
            }
            recovery.committed.len() == 4 && recovery.uncommitted.len() == 1
        },
        Err(_) => {
            proof {
                assert(false);
            }
            false
        },
    }
}

/// Five crash-and-reopen cycles in a row; every cycle recovers four
/// committed transactions and one uncommitted.
pub fn jepsen_test_crash_recovery_loop() -> (r: bool)
    ensures
        r,
{
    let mut cycle: u64 = 0;
    while cycle < 5
        invariant
            cycle <= 5,
        decreases 5 - cycle,
    {
        if !crash_cycle() {
            proof {
                assert(false);
            }
            return false;
        }
        cycle = cycle + 1;
    }
    true
}

/// Three writers begin concurrently, then each writes again and commits;
/// recovery lists all three as committed.
pub fn elle_jepsen_combined_test() -> (r: bool)
    ensures
        r,
{
    let mut wal = fresh_wal();
    proof {
        reveal_strlit("/shared.txt");
        assert(is_ascii_chars(("/shared.txt")@));
        lemma_ascii_path_len("/shared.txt");
    }
    let mut d: Vec<u8> = Vec::new();
    d.push(0x77);
    let tx1: TxId = wal.begin_tx();
    wal.write_file(tx1, "/shared.txt", 0, d.as_slice());
    let tx2: TxId = wal.begin_tx();
    wal.write_file(tx2, "/shared.txt", 0, d.as_slice());
    let tx3: TxId = wal.begin_tx();
    wal.write_file(tx3, "/shared.txt", 0, d.as_slice());
    proof {
        lemma_combined_phase(wal@.records);
        assert(wal@.records.subrange(0, 6) =~= wal@.records);
    }
    match wal.recover() {
        Ok(_) => {},
        Err(_) => {
            proof {
                assert(false);
            }
            return false;
        },
    }
    let ghost t6 = tx_table_spec(wal@.records);
    let ghost rs6 = wal@.records;
    wal.write_file(tx1, "/shared.txt", 0, d.as_slice());
    proof {
        lemma_table_push(rs6, wal@.records.last());
        assert(tx_table_spec(wal@.records) == t6);
    }
    let ghost rs7 = wal@.records;
    match wal.commit_tx(tx1) {
        Ok(_) => {},
        Err(_) => {
            proof {
                assert(false);
            }
            return false;
        },
    }
    proof {
        lemma_table_push(rs7, wal@.records.last());
        assert(crate::wal::table_has(t6, 1)) by {
            assert(t6[0].0 == 1);
        }
        assert(tx_table_spec(wal@.records) =~= seq![
            (1u64, TxState::Committed),
            (2u64, TxState::Open),
            (3u64, TxState::Open),
        ]);
    }
    let ghost t8 = tx_table_spec(wal@.records);
    let ghost rs8 = wal@.records;
    wal.write_file(tx2, "/shared.txt", 0, d.as_slice());
    proof {
        lemma_table_push(rs8, wal@.records.last());
    }
    let ghost rs9 = wal@.records;
    match wal.commit_tx(tx2) {
        Ok(_) => {},
        Err(_) => {
            proof {
                assert(false);
            }
            return false;
        },
    }
    proof {
        lemma_table_push(rs9, wal@.records.last());
        assert(crate::wal::table_has(t8, 2)) by {
            assert(t8[1].0 == 2);
        }
        assert(tx_table_spec(wal@.records) =~= seq![
            (1u64, TxState::Committed),
            (2u64, TxState::Committed),
            (3u64, TxState::Open),
        ]);
    }
    let ghost t10 = tx_table_spec(wal@.records);
    let ghost rs10 = wal@.records;
    wal.write_file(tx3, "/shared.txt", 0, d.as_slice());
    proof {
        lemma_table_push(rs10, wal@.records.last());
    }
    let ghost rs11 = wal@.records;
    match wal.commit_tx(tx3) {
        Ok(_) => {},
        Err(_) => {
            proof {
                assert(false);
            }
            return false;
        },
    }
    proof {
        lemma_table_push(rs11, wal@.records.last());
        assert(crate::wal::table_has(t10, 3)) by {
            assert(t10[2].0 == 3);
        }
        let tfin = tx_table_spec(wal@.records);
        assert(tfin =~= seq![
            (1u64, TxState::Committed),
            (2u64, TxState::Committed),
            (3u64, TxState::Committed),
        ]);
        let e0 = Seq::<(u64, TxState)>::empty();
        let t1s = e0.push((1u64, TxState::Committed));
        let t2s = t1s.push((2u64, TxState::Committed));
        let t3s = t2s.push((3u64, TxState::Committed));
        assert(tfin =~= t3s);
        lemma_ids_push(e0, (1u64, TxState::Committed), TxState::Committed);
        lemma_ids_push(t1s, (2u64, TxState::Committed), TxState::Committed);
        lemma_ids_push(t2s, (3u64, TxState::Committed), TxState::Committed);
        assert(ids_with_state(t3s, TxState::Committed).len() == 3);
    }
    match wal.recover() {
        Ok(final_recovery) => {
            proof {
                assert(final_recovery.committed@.len() == 3);
            }
            final_recovery.committed.len() == 3
        },
        Err(_) => {
            proof {
                assert(false);
            }
            false
        },
    }
}

/// The six-record opening of the combined scenario: three begun writers.
proof fn lemma_combined_phase(rs: Seq<RecModel>)
    requires
        rs.len() >= 6,
        rs[0].kind == WalRecordType::TxBegin && rs[0].tx == 1,
        rs[1].kind == WalRecordType::FileWrite && rs[1].tx == 1,
        rs[2].kind == WalRecordType::TxBegin && rs[2].tx == 2,
        rs[3].kind == WalRecordType::FileWrite && rs[3].tx == 2,
        rs[4].kind == WalRecordType::TxBegin && rs[4].tx == 3,
        rs[5].kind == WalRecordType::FileWrite && rs[5].tx == 3,
    ensures
        tx_table_spec(rs.subrange(0, 6)) == seq![
            (1u64, TxState::Open),
            (2u64, TxState::Open),
            (3u64, TxState::Open),
        ],
{
    let r0 = rs.subrange(0, 0);
    let r1 = rs.subrange(0, 1);
    let r2 = rs.subrange(0, 2);
    let r3 = rs.subrange(0, 3);
    let r4 = rs.subrange(0, 4);
    let r5 = rs.subrange(0, 5);
    let r6 = rs.subrange(0, 6);
    assert(r0 =~= Seq::<RecModel>::empty());
    assert(r1 =~= r0.push(rs[0]));
    assert(r2 =~= r1.push(rs[1]));
    assert(r3 =~= r2.push(rs[2]));
    assert(r4 =~= r3.push(rs[3]));
    assert(r5 =~= r4.push(rs[4]));
    assert(r6 =~= r5.push(rs[5]));
    lemma_table_push(r0, rs[0]);
    lemma_table_set_fresh(tx_table_spec(r0), 1, TxState::Open);
    assert(tx_table_spec(r1) =~= seq![(1u64, TxState::Open)]);
    lemma_table_push(r1, rs[1]);
    lemma_table_push(r2, rs[2]);
    lemma_table_set_fresh(tx_table_spec(r2), 2, TxState::Open);
    assert(tx_table_spec(r3) =~= seq![(1u64, TxState::Open), (2u64, TxState::Open)]);
    lemma_table_push(r3, rs[3]);
    lemma_table_push(r4, rs[4]);
    lemma_table_set_fresh(tx_table_spec(r4), 3, TxState::Open);
    assert(tx_table_spec(r5) =~= seq![
        (1u64, TxState::Open),
        (2u64, TxState::Open),
        (3u64, TxState::Open),
    ]);
    lemma_table_push(r5, rs[5]);
    assert(tx_table_spec(r6) =~= seq![
        (1u64, TxState::Open),
        (2u64, TxState::Open),
        (3u64, TxState::Open),
    ]);
}

/// Runs the ten consistency scenarios; all of them pass.
pub fn run_elle_jepsen_tests() -> (r: (usize, usize))
    ensures
        r.0 == 10 && r.1 == 10,
{
    let mut passed: usize = 0;
    let mut total: usize = 0;
    total = total + 1;
    if elle_test_g1c_uncommitted_read() {
        passed = passed + 1;
    }
    total = total + 1;
    if elle_test_lost_update() {
        passed = passed + 1;
    }
    total = total + 1;
    if elle_test_write_skew() {
        passed = passed + 1;
    }
    total = total + 1;
    if elle_test_serializable_isolation() {
        passed = passed + 1;
    }
    total = total + 1;
    if jepsen_test_crash_during_transaction() {
        passed = passed + 1;
    }
    total = total + 1;
    if jepsen_test_concurrent_fatigue() {
        passed = passed + 1;
    }
    total = total + 1;
    if jepsen_test_checkpoint_crash() {
        passed = passed + 1;
    }
    total = total + 1;
    if jepsen_test_long_running_stability() {
        passed = passed + 1;
    }
    total = total + 1;
    if jepsen_test_crash_recovery_loop() {
        passed = passed + 1;
    }
    total = total + 1;
    if elle_jepsen_combined_test() {
        passed = passed + 1;
    }
    (passed, total)
}

} // verus!
