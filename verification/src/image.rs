//! The serialized, durable form of the log: a 512-byte header followed by
//! the concatenated records, and the replay that reads it back, stopping at
//! the first torn or corrupt record.

use vstd::prelude::*;

use crate::bytes::{push_u32_be, push_u64_be, spec_be_to_u32, spec_be_to_u64, spec_u32_be,
    spec_u64_be};
use crate::crc::crc32_of;
use crate::errors::DbfsError;
use crate::wal::{spec_parse_record, spec_record_bytes, spec_valid_kind_u8, RecModel, WalRecord};

verus! {

/// The size of the serialized header in bytes.
pub const WAL_HEADER_SIZE: usize = 512;

/// The current format version.
pub const WAL_VERSION: u32 = 1;

/// The eight magic bytes `"DBFSWAL\0"` that open every log image.
pub open spec fn spec_wal_magic() -> Seq<u8> {
    seq![0x44u8, 0x42u8, 0x46u8, 0x53u8, 0x57u8, 0x41u8, 0x4cu8, 0x00u8]
}

/// A zero-filled byte sequence of length `n`.
pub open spec fn spec_zeros(n: nat) -> Seq<u8> {
    Seq::new(n, |i: int| 0u8)
}

/// The WAL header: magic, version, the last transaction identifier handed
/// out, and the checkpoint LSN.  Serialized it occupies exactly 512 bytes;
/// the tail after the four fields is zero-filled.
#[derive(Debug, Clone, Copy)]
pub struct WalHeader {
    /// Magic bytes, `"DBFSWAL\0"` in a valid image.
    pub magic: [u8; 8],
    /// Format version.
    pub version: u32,
    /// The engine's next transaction identifier as of the flush.
    pub last_tx_id: u64,
    /// The checkpoint LSN as of the flush.
    pub checkpoint_lsn: u64,
}

impl Default for WalHeader {
    /// A fresh header: valid magic, current version, counters zero.
    fn default() -> (r: Self)
        ensures
            r.magic@ == spec_wal_magic(),
            r.version == WAL_VERSION,
            r.last_tx_id == 0,
            r.checkpoint_lsn == 0,
    {
        let magic: [u8; 8] = [0x44, 0x42, 0x46, 0x53, 0x57, 0x41, 0x4c, 0x00];
        proof {
            assert(magic@ =~= spec_wal_magic());
        }
        WalHeader { magic, version: WAL_VERSION, last_tx_id: 0, checkpoint_lsn: 0 }
    }
}

/// The 512 serialized header bytes for the given counters:
/// `magic(8) | version u32 | last_tx_id u64 | checkpoint_lsn u64 | zeros`.
pub open spec fn spec_header_bytes(last_tx_id: u64, checkpoint_lsn: u64) -> Seq<u8> {
    spec_wal_magic() + spec_u32_be(WAL_VERSION) + spec_u64_be(last_tx_id) + spec_u64_be(
        checkpoint_lsn,
    ) + spec_zeros((WAL_HEADER_SIZE - 28) as nat)
}

/// The concatenated serialized records.
pub open spec fn spec_records_bytes(rs: Seq<RecModel>) -> Seq<u8>
    decreases rs.len(),
{
    if rs.len() == 0 {
        Seq::empty()
    } else {
        spec_record_bytes(rs.first()) + spec_records_bytes(rs.drop_first())
    }
}

/// Appending one record to the sequence appends its bytes to the image.
pub proof fn lemma_records_bytes_push(rs: Seq<RecModel>, r: RecModel)
    ensures
        spec_records_bytes(rs.push(r)) == spec_records_bytes(rs) + spec_record_bytes(r),
    decreases rs.len(),
{
    if rs.len() == 0 {
        assert(rs.push(r).first() == r);
        assert(rs.push(r).drop_first() =~= Seq::<RecModel>::empty());
        assert(spec_records_bytes(rs.push(r)) == spec_record_bytes(r) + spec_records_bytes(
            Seq::<RecModel>::empty(),
        ));
        assert(spec_record_bytes(r) + Seq::<u8>::empty() =~= spec_record_bytes(r));
        assert(Seq::<u8>::empty() + spec_record_bytes(r) =~= spec_record_bytes(r));
    } else {
        assert(rs.push(r).first() == rs.first());
        assert(rs.push(r).drop_first() =~= rs.drop_first().push(r));
        lemma_records_bytes_push(rs.drop_first(), r);
        assert(spec_records_bytes(rs.push(r)) =~= spec_records_bytes(rs) + spec_record_bytes(r));
    }
}

/// The whole serialized log: header then records.
pub open spec fn spec_log_bytes(last_tx_id: u64, checkpoint_lsn: u64, rs: Seq<RecModel>) -> Seq<
    u8,
> {
    spec_header_bytes(last_tx_id, checkpoint_lsn) + spec_records_bytes(rs)
}

/// Serializes a header with the given counters.
pub fn encode_header(last_tx_id: u64, checkpoint_lsn: u64) -> (out: Vec<u8>)
    ensures
        out@ == spec_header_bytes(last_tx_id, checkpoint_lsn),
        out@.len() == WAL_HEADER_SIZE,
{
    let mut out: Vec<u8> = Vec::new();
    out.push(0x44);
    out.push(0x42);
    out.push(0x46);
    out.push(0x53);
    out.push(0x57);
    out.push(0x41);
    out.push(0x4c);
    out.push(0x00);
    push_u32_be(&mut out, WAL_VERSION);
    push_u64_be(&mut out, last_tx_id);
    push_u64_be(&mut out, checkpoint_lsn);
    let mut i: usize = 0;
    while i < WAL_HEADER_SIZE - 28
        invariant
            i <= WAL_HEADER_SIZE - 28,
            out@ == spec_wal_magic() + spec_u32_be(WAL_VERSION) + spec_u64_be(last_tx_id)
                + spec_u64_be(checkpoint_lsn) + spec_zeros(i as nat),
        decreases WAL_HEADER_SIZE - 28 - i,
    {
        out.push(0);
        proof {
            assert(spec_zeros((i + 1) as nat) =~= spec_zeros(i as nat).push(0u8));
            assert(out@ =~= spec_wal_magic() + spec_u32_be(WAL_VERSION) + spec_u64_be(last_tx_id)
                + spec_u64_be(checkpoint_lsn) + spec_zeros((i + 1) as nat));
        }
        i = i + 1;
    }
    proof {
        assert(out@ =~= spec_header_bytes(last_tx_id, checkpoint_lsn));
    }
    out
}

// ---------------------------------------------------------------------------
// Replay of an image
// ---------------------------------------------------------------------------

/// The records read back from an image body by a greedy scan from the
/// front.  The scan stops at the first record that is torn (too short),
/// carries an unknown kind tag, or fails its checksum: everything from that
/// point on is treated as a torn tail and discarded.
#[verifier::opaque]
pub open spec fn spec_parse_records(bytes: Seq<u8>) -> Seq<RecModel>
    decreases bytes.len(),
{
    if bytes.len() < 25 {
        Seq::empty()
    } else if !spec_valid_kind_u8(bytes[16]) {
        Seq::empty()
    } else {
        let dlen = spec_be_to_u32(bytes.subrange(17, 21)) as int;
        if bytes.len() < 25 + dlen {
            Seq::empty()
        } else {
            let r = RecModel {
                lsn: spec_be_to_u64(bytes.subrange(0, 8)),
                tx: spec_be_to_u64(bytes.subrange(8, 16)),
                kind: crate::wal::spec_kind_from_u8(bytes[16]),
                data: bytes.subrange(21, 21 + dlen),
                checksum: spec_be_to_u32(bytes.subrange(21 + dlen, 25 + dlen)),
            };
            if r.checksum != crc32_of(r.data) {
                Seq::empty()
            } else {
                seq![r] + spec_parse_records(bytes.skip(25 + dlen))
            }
        }
    }
}

/// The greedy scan agrees with the single-record parser: a parse failure
/// stops the scan, a success contributes the record and continues after it.
pub proof fn lemma_parse_records_step(bytes: Seq<u8>)
    ensures
        spec_parse_record(bytes) is Err ==> spec_parse_records(bytes) == Seq::<RecModel>::empty(),
        spec_parse_record(bytes) matches Ok(r) ==> spec_parse_records(bytes) == seq![r]
            + spec_parse_records(bytes.skip(25 + r.data.len() as int)),
{
    reveal_with_fuel(spec_parse_records, 1);
    reveal(spec_parse_record);
    if bytes.len() >= 25 && spec_valid_kind_u8(bytes[16]) {
        let dlen = spec_be_to_u32(bytes.subrange(17, 21)) as int;
        if bytes.len() >= 25 + dlen {
            let r = spec_parse_record(bytes);
            if r is Ok {
                assert(r->Ok_0.data.len() == dlen);
            }
        }
    }
}

/// Replay of a well-formed record followed by anything else reads that
/// record and goes on behind it.
#[verifier::rlimit(100)]
#[verifier::spinoff_prover]
pub proof fn lemma_parse_after_record(r: RecModel, rest: Seq<u8>)
    requires
        crate::wal::rec_wf(r),
    ensures
        spec_parse_records(spec_record_bytes(r) + rest) == seq![r] + spec_parse_records(rest),
{
    let bytes = spec_record_bytes(r) + rest;
    crate::wal::lemma_record_bytes_parse(r, rest);
    lemma_parse_records_step(bytes);
    lemma_skip_of_concat(spec_record_bytes(r), rest);
    assert(spec_record_bytes(r).len() == 25 + r.data.len());
}

/// Checks the magic bytes and the version of an image header.
pub fn check_header(bytes: &[u8]) -> (r: bool)
    requires
        bytes@.len() >= WAL_HEADER_SIZE,
    ensures
        r == spec_header_valid(bytes@),
{
    let magic_ok: bool = bytes[0] == 0x44 && bytes[1] == 0x42 && bytes[2] == 0x46 && bytes[3]
        == 0x53 && bytes[4] == 0x57 && bytes[5] == 0x41 && bytes[6] == 0x4c && bytes[7] == 0x00;
    proof {
        if magic_ok {
            assert(bytes@.subrange(0, 8) =~= spec_wal_magic());
        } else {
            if bytes@.subrange(0, 8) == spec_wal_magic() {
                assert(forall|i: int|
                    0 <= i < 8 ==> bytes@.subrange(0, 8)[i] == spec_wal_magic()[i]);
                assert(bytes@[0] == 0x44 && bytes@[1] == 0x42 && bytes@[2] == 0x46 && bytes@[3]
                    == 0x53 && bytes@[4] == 0x57 && bytes@[5] == 0x41 && bytes@[6] == 0x4c
                    && bytes@[7] == 0x00);
            }
        }
    }
    let version: u32 = crate::bytes::read_u32_be(bytes, 8);
    magic_ok && version == WAL_VERSION
}

/// Replays a serialized log image, per spec: an image shorter than the
/// header yields an empty recovery result; a wrong magic or version is
/// `Corrupt`; otherwise the records are scanned greedily (stopping at the
/// first torn or corrupt one) and replayed.
pub fn recover_from_image(bytes: &[u8]) -> (r: Result<crate::wal::RecoveryResult, DbfsError>)
    ensures
        bytes@.len() < WAL_HEADER_SIZE ==> (r matches Ok(res) && res.committed@.len() == 0
            && res.uncommitted@.len() == 0),
        bytes@.len() >= WAL_HEADER_SIZE && !spec_header_valid(bytes@) ==> r == Err::<
            crate::wal::RecoveryResult,
            DbfsError,
        >(DbfsError::Corrupt),
        bytes@.len() >= WAL_HEADER_SIZE && spec_header_valid(bytes@) ==> (r matches Ok(res)
            && crate::wal::txids_of(res.committed@) == crate::wal::committed_ids(
            spec_parse_records(bytes@.skip(WAL_HEADER_SIZE as int)),
        ) && crate::wal::txids_of(res.uncommitted@) == crate::wal::uncommitted_ids(
            spec_parse_records(bytes@.skip(WAL_HEADER_SIZE as int)),
        )),
{
    if bytes.len() < WAL_HEADER_SIZE {
        return Ok(crate::wal::RecoveryResult { committed: Vec::new(), uncommitted: Vec::new() });
    }
    if !check_header(bytes) {
        return Err(DbfsError::Corrupt);
    }
    let records: Vec<WalRecord> = parse_image_records(bytes, WAL_HEADER_SIZE);
    Ok(crate::wal::replay_records(&records))
}

/// Commit durability: the image a flush writes replays to exactly the
/// records the engine held, so a subsequent recovery from that image
/// reports the same committed and uncommitted transactions as in-memory
/// replay.
pub proof fn lemma_flushed_image_replays(
    last_tx_id: u64,
    checkpoint_lsn: u64,
    rs: Seq<RecModel>,
)
    requires
        crate::wal::records_crc_valid(rs),
    ensures
        spec_log_bytes(last_tx_id, checkpoint_lsn, rs).len() >= WAL_HEADER_SIZE,
        spec_header_valid(spec_log_bytes(last_tx_id, checkpoint_lsn, rs)),
        spec_parse_records(
            spec_log_bytes(last_tx_id, checkpoint_lsn, rs).skip(WAL_HEADER_SIZE as int),
        ) == rs,
{
    let image = spec_log_bytes(last_tx_id, checkpoint_lsn, rs);
    let header = spec_header_bytes(last_tx_id, checkpoint_lsn);
    assert(header.len() == WAL_HEADER_SIZE);
    assert(image.subrange(0, 8) =~= spec_wal_magic());
    assert(image.subrange(8, 12) =~= crate::bytes::spec_u32_be(WAL_VERSION));
    crate::bytes::lemma_u32_be_round_trip(WAL_VERSION);
    assert(image.skip(WAL_HEADER_SIZE as int) =~= spec_records_bytes(rs));
    lemma_records_bytes_parse(rs);
}

/// Skipping the first part of a concatenation leaves the second.
pub proof fn lemma_skip_of_concat(a: Seq<u8>, b: Seq<u8>)
    ensures
        (a + b).skip(a.len() as int) == b,
{
    assert((a + b).skip(a.len() as int) =~= b);
}

/// Every record the greedy scan reads back is well formed: it passed its
/// checksum test and its payload fits the length field.
pub proof fn lemma_parse_records_wf(bytes: Seq<u8>)
    ensures
        crate::wal::records_crc_valid(spec_parse_records(bytes)),
    decreases bytes.len(),
{
    reveal_with_fuel(spec_parse_records, 1);
    let rs = spec_parse_records(bytes);
    if bytes.len() >= 25 && spec_valid_kind_u8(bytes[16]) {
        let dlen = spec_be_to_u32(bytes.subrange(17, 21)) as int;
        if bytes.len() >= 25 + dlen {
            let r = RecModel {
                lsn: spec_be_to_u64(bytes.subrange(0, 8)),
                tx: spec_be_to_u64(bytes.subrange(8, 16)),
                kind: crate::wal::spec_kind_from_u8(bytes[16]),
                data: bytes.subrange(21, 21 + dlen),
                checksum: spec_be_to_u32(bytes.subrange(21 + dlen, 25 + dlen)),
            };
            if r.checksum == crc32_of(r.data) {
                lemma_parse_records_wf(bytes.skip(25 + dlen));
                let tail = spec_parse_records(bytes.skip(25 + dlen));
                assert(rs == seq![r] + tail);
                assert forall|i: int| 0 <= i < rs.len() implies crate::wal::rec_wf(
                    #[trigger] rs[i],
                ) by {
                    if i == 0 {
                        assert(rs[0] == r);
                    } else {
                        assert(rs[i] == tail[i - 1]);
                        assert(crate::wal::rec_wf(tail[i - 1]));
                    }
                }
            }
        }
    }
}

/// Whether an image opens with the magic bytes and the current version.
pub open spec fn spec_header_valid(bytes: Seq<u8>) -> bool
    recommends
        bytes.len() >= WAL_HEADER_SIZE,
{
    &&& bytes.subrange(0, 8) == spec_wal_magic()
    &&& spec_be_to_u32(bytes.subrange(8, 12)) == WAL_VERSION
}

/// Reads the records of an image body, starting at `start`, greedily from
/// the front; the scan stops at the first torn or corrupt record.
pub fn parse_image_records(bytes: &[u8], start: usize) -> (out: Vec<WalRecord>)
    requires
        start <= bytes@.len(),
    ensures
        crate::wal::views_of(out@) == spec_parse_records(bytes@.skip(start as int)),
{
    let mut out: Vec<WalRecord> = Vec::new();
    let mut pos: usize = start;
    proof {
        assert(crate::wal::views_of(out@) + spec_parse_records(bytes@.skip(start as int))
            =~= spec_parse_records(bytes@.skip(start as int)));
    }
    loop
        invariant
            start <= pos <= bytes@.len(),
            crate::wal::views_of(out@) + spec_parse_records(bytes@.skip(pos as int))
                == spec_parse_records(bytes@.skip(start as int)),
        decreases bytes@.len() - pos,
    {
        let rest: &[u8] = vstd::slice::slice_subrange(bytes, pos, bytes.len());
        proof {
            assert(rest@ =~= bytes@.skip(pos as int));
        }
        match crate::wal::WalRecord::deserialize(rest) {
            Ok(rec) => {
                proof {
                    reveal(crate::wal::spec_parse_record);
                    lemma_parse_records_step(rest@);
                }
                let dlen: usize = rec.data.len();
                let ghost oldout = out@;
                out.push(rec);
                proof {
                    assert(crate::wal::views_of(out@) =~= crate::wal::views_of(oldout).push(
                        rec@,
                    ));
                    assert(bytes@.skip(pos as int).skip(25 + dlen as int) =~= bytes@.skip(
                        pos + 25 + dlen,
                    ));
                    assert(crate::wal::views_of(out@) + spec_parse_records(bytes@.skip(
                        pos + 25 + dlen,
                    )) =~= spec_parse_records(bytes@.skip(start as int)));
                }
                pos = pos + 25 + dlen;
            },
            Err(_) => {
                proof {
                    lemma_parse_records_step(rest@);
                    assert(spec_parse_records(bytes@.skip(pos as int))
                        =~= Seq::<RecModel>::empty());
                    assert(crate::wal::views_of(out@) + Seq::<RecModel>::empty()
                        =~= crate::wal::views_of(out@));
                }
                return out;
            },
        }
    }
}

/// Replaying the image of a sequence of well-formed records yields exactly
/// that sequence.
pub proof fn lemma_records_bytes_parse(rs: Seq<RecModel>)
    requires
        crate::wal::records_crc_valid(rs),
    ensures
        spec_parse_records(spec_records_bytes(rs)) == rs,
    decreases rs.len(),
{
    if rs.len() == 0 {
        reveal_with_fuel(spec_parse_records, 1);
        assert(spec_parse_records(spec_records_bytes(rs)) =~= rs);
    } else {
        let r = rs.first();
        let dl = rs.drop_first();
        let rest = spec_records_bytes(dl);
        assert(crate::wal::rec_wf(rs[0]));
        lemma_parse_after_record(r, rest);
        assert forall|i: int| 0 <= i < dl.len() implies crate::wal::rec_wf(#[trigger] dl[i]) by {
            assert(dl[i] == rs[i + 1]);
            assert(crate::wal::rec_wf(rs[i + 1]));
        }
        lemma_records_bytes_parse(dl);
        assert(spec_records_bytes(rs) == spec_record_bytes(r) + rest);
        assert(seq![r] + dl =~= rs);
    }
}

} // verus!
