//! The write-ahead log engine: a monotonic, checksummed, append-only log of
//! transactional operations with commit and rollback markers, truncation,
//! and replay-based recovery.

use vstd::prelude::*;
use vstd::string::StringSliceAdditionalSpecFns;

use crate::bytes::{
    push_bytes, push_u16_be, push_u32_be, push_u64_be, read_u32_be, read_u64_be, spec_be_to_u32,
    spec_be_to_u64, spec_u16_be, spec_u32_be, spec_u64_be,
};
use crate::bytes::copy_range;
use crate::crc::{crc32, crc32_of};
use crate::errors::DbfsError;

verus! {

/// Log sequence number: a monotonic, globally unique identifier allocated
/// when a record is appended.
pub type Lsn = u64;

/// Transaction identifier, allocated at `begin_tx` time.
#[derive(Debug, Clone, Copy, PartialEq, Eq, Hash, Structural)]
pub struct TxId(pub u64);

impl TxId {
    pub fn new(id: u64) -> (r: Self)
        ensures
            r.0 == id,
    {
        TxId(id)
    }

    pub fn value(&self) -> (r: u64)
        ensures
            r == self.0,
    {
        self.0
    }
}

/// The kind of a WAL record.
#[derive(Debug, Clone, Copy, PartialEq, Eq, Structural)]
pub enum WalRecordType {
    /// Transaction begin marker.
    TxBegin,
    /// Transaction commit marker.
    TxCommit,
    /// Transaction rollback marker.
    TxRollback,
    /// File write operation.
    FileWrite,
    /// File create operation.
    FileCreate,
    /// File delete operation.
    FileDelete,
    /// Directory create operation.
    Mkdir,
    /// Checkpoint marker.
    Checkpoint,
}

/// The on-wire tag of a record kind.
pub open spec fn spec_kind_u8(k: WalRecordType) -> u8 {
    match k {
        WalRecordType::TxBegin => 1,
        WalRecordType::TxCommit => 2,
        WalRecordType::TxRollback => 3,
        WalRecordType::FileWrite => 4,
        WalRecordType::FileCreate => 5,
        WalRecordType::FileDelete => 6,
        WalRecordType::Mkdir => 7,
        WalRecordType::Checkpoint => 8,
    }
}

/// Whether a byte is the tag of some record kind.
pub open spec fn spec_valid_kind_u8(b: u8) -> bool {
    1 <= b <= 8
}

/// The record kind a tag byte stands for.
pub open spec fn spec_kind_from_u8(b: u8) -> WalRecordType
    recommends
        spec_valid_kind_u8(b),
{
    if b == 1 {
        WalRecordType::TxBegin
    } else if b == 2 {
        WalRecordType::TxCommit
    } else if b == 3 {
        WalRecordType::TxRollback
    } else if b == 4 {
        WalRecordType::FileWrite
    } else if b == 5 {
        WalRecordType::FileCreate
    } else if b == 6 {
        WalRecordType::FileDelete
    } else if b == 7 {
        WalRecordType::Mkdir
    } else {
        WalRecordType::Checkpoint
    }
}

impl WalRecordType {
    /// The on-wire tag of this kind.
    pub fn to_u8(self) -> (r: u8)
        ensures
            r == spec_kind_u8(self),
    {
        match self {
            WalRecordType::TxBegin => 1,
            WalRecordType::TxCommit => 2,
            WalRecordType::TxRollback => 3,
            WalRecordType::FileWrite => 4,
            WalRecordType::FileCreate => 5,
            WalRecordType::FileDelete => 6,
            WalRecordType::Mkdir => 7,
            WalRecordType::Checkpoint => 8,
        }
    }

    /// The kind a tag byte stands for, or `None` for an unknown tag.
    pub fn from_u8(b: u8) -> (r: Option<WalRecordType>)
        ensures
            r is Some <==> spec_valid_kind_u8(b),
            r is Some ==> r->0 == spec_kind_from_u8(b),
    {
        match b {
            1 => Some(WalRecordType::TxBegin),
            2 => Some(WalRecordType::TxCommit),
            3 => Some(WalRecordType::TxRollback),
            4 => Some(WalRecordType::FileWrite),
            5 => Some(WalRecordType::FileCreate),
            6 => Some(WalRecordType::FileDelete),
            7 => Some(WalRecordType::Mkdir),
            8 => Some(WalRecordType::Checkpoint),
            _ => None,
        }
    }
}

/// Tag encoding and decoding invert each other.
pub broadcast proof fn lemma_kind_u8_round_trip(k: WalRecordType)
    ensures
        #[trigger] spec_kind_from_u8(spec_kind_u8(k)) == k,
        spec_valid_kind_u8(spec_kind_u8(k)),
{
}

/// The mathematical model of a WAL record.
#[verifier::ext_equal]
pub struct RecModel {
    pub lsn: u64,
    pub tx: u64,
    pub kind: WalRecordType,
    pub data: Seq<u8>,
    pub checksum: u32,
}

/// A record is well formed when its checksum matches its payload and the
/// payload length fits the on-wire `u32` length field.
pub open spec fn rec_wf(r: RecModel) -> bool {
    &&& r.checksum == crc32_of(r.data)
    &&& r.data.len() <= u32::MAX
}

/// A WAL record: `(lsn, tx_id, kind, payload, checksum)`.  The checksum is
/// the CRC-32 of the payload only.
#[derive(Debug, Clone)]
pub struct WalRecord {
    /// Log sequence number, assigned when the record is appended.
    pub lsn: Lsn,
    /// The transaction the record belongs to.
    pub tx_id: TxId,
    /// Record kind.
    pub record_type: WalRecordType,
    /// Record payload: path bytes, write frames, or empty for markers.
    pub data: Vec<u8>,
    /// CRC-32 of the payload.
    pub checksum: u32,
}

impl View for WalRecord {
    type V = RecModel;

    open spec fn view(&self) -> RecModel {
        RecModel {
            lsn: self.lsn,
            tx: self.tx_id.0,
            kind: self.record_type,
            data: self.data@,
            checksum: self.checksum,
        }
    }
}

/// The serialized form of a record:
/// `lsn u64 | tx u64 | kind u8 | data_len u32 | data | checksum u32`,
/// big-endian throughout.
pub open spec fn spec_record_bytes(r: RecModel) -> Seq<u8>
    recommends
        r.data.len() <= u32::MAX,
{
    spec_u64_be(r.lsn) + spec_u64_be(r.tx) + seq![spec_kind_u8(r.kind)] + spec_u32_be(
        r.data.len() as u32,
    ) + r.data + spec_u32_be(r.checksum)
}

/// The outcome of reading one record from the front of `bytes`; trailing
/// bytes are ignored.  A frame too short to hold its fields or an unknown
/// kind tag is `InvalidArgument`; a checksum mismatch is `Io`.
#[verifier::opaque]
pub open spec fn spec_parse_record(bytes: Seq<u8>) -> Result<RecModel, DbfsError> {
    if bytes.len() < 25 {
        Err(DbfsError::InvalidArgument)
    } else if !spec_valid_kind_u8(bytes[16]) {
        Err(DbfsError::InvalidArgument)
    } else {
        let dlen = spec_be_to_u32(bytes.subrange(17, 21)) as int;
        if bytes.len() < 25 + dlen {
            Err(DbfsError::InvalidArgument)
        } else {
            let r = RecModel {
                lsn: spec_be_to_u64(bytes.subrange(0, 8)),
                tx: spec_be_to_u64(bytes.subrange(8, 16)),
                kind: spec_kind_from_u8(bytes[16]),
                data: bytes.subrange(21, 21 + dlen),
                checksum: spec_be_to_u32(bytes.subrange(21 + dlen, 25 + dlen)),
            };
            if r.checksum != crc32_of(r.data) {
                Err(DbfsError::Io)
            } else {
                Ok(r)
            }
        }
    }
}

impl WalRecord {
    /// Creates a record with a freshly computed checksum; the LSN is zero
    /// until the record is appended to the log.
    pub fn new(tx_id: TxId, record_type: WalRecordType, data: Vec<u8>) -> (r: Self)
        requires
            data@.len() <= u32::MAX,
        ensures
            r@ == (RecModel {
                lsn: 0,
                tx: tx_id.0,
                kind: record_type,
                data: data@,
                checksum: crc32_of(data@),
            }),
    {
        let checksum: u32 = crc32(data.as_slice());
        WalRecord { lsn: 0, tx_id, record_type, data, checksum }
    }

    /// Whether the stored checksum matches the payload.
    pub fn verify(&self) -> (r: bool)
        ensures
            r == (self@.checksum == crc32_of(self@.data)),
    {
        crc32(self.data.as_slice()) == self.checksum
    }

    /// Serializes the record to its on-wire form.
    pub fn serialize(&self) -> (out: Vec<u8>)
        requires
            self@.data.len() <= u32::MAX,
        ensures
            out@ == spec_record_bytes(self@),
    {
        let mut out: Vec<u8> = Vec::new();
        push_u64_be(&mut out, self.lsn);
        push_u64_be(&mut out, self.tx_id.value());
        out.push(self.record_type.to_u8());
        push_u32_be(&mut out, self.data.len() as u32);
        push_bytes(&mut out, self.data.as_slice());
        push_u32_be(&mut out, self.checksum);
        assert(out@ =~= spec_record_bytes(self@));
        out
    }

    /// Reads one record from the front of `bytes`, ignoring trailing bytes.
    pub fn deserialize(bytes: &[u8]) -> (r: Result<Self, DbfsError>)
        ensures
            (match r {
                Ok(rec) => spec_parse_record(bytes@) == Ok::<RecModel, DbfsError>(rec@),
                Err(e) => spec_parse_record(bytes@) == Err::<RecModel, DbfsError>(e),
            }),
    {
        proof {
            reveal(spec_parse_record);
        }
        if bytes.len() < 25 {
            return Err(DbfsError::InvalidArgument);
        }
        let lsn: u64 = read_u64_be(bytes, 0);
        let tx: u64 = read_u64_be(bytes, 8);
        let record_type: WalRecordType = match WalRecordType::from_u8(bytes[16]) {
            Some(k) => k,
            None => {
                return Err(DbfsError::InvalidArgument);
            },
        };
        let data_len: u32 = read_u32_be(bytes, 17);
        let data_len_us: usize = data_len as usize;
        if bytes.len() < 25 || data_len_us > bytes.len() - 25 {
            return Err(DbfsError::InvalidArgument);
        }
        let data: Vec<u8> = copy_range(bytes, 21, data_len_us);
        let checksum: u32 = read_u32_be(bytes, 21 + data_len_us);
        let rec = WalRecord { lsn, tx_id: TxId(tx), record_type, data, checksum };
        if !rec.verify() {
            return Err(DbfsError::Io);
        }
        Ok(rec)
    }
}

/// Parsing the serialized form of a well-formed record, with anything after
/// it, yields the record back.
pub proof fn lemma_record_bytes_parse(r: RecModel, rest: Seq<u8>)
    requires
        rec_wf(r),
    ensures
        spec_parse_record(spec_record_bytes(r) + rest) == Ok::<RecModel, DbfsError>(r),
        (spec_record_bytes(r) + rest).len() >= 25 + r.data.len(),
        spec_be_to_u32((spec_record_bytes(r) + rest).subrange(17, 21)) == r.data.len(),
{
    reveal(spec_parse_record);
    let bytes = spec_record_bytes(r) + rest;
    let dlen = r.data.len() as int;
    assert(bytes.subrange(0, 8) =~= spec_u64_be(r.lsn));
    assert(bytes.subrange(8, 16) =~= spec_u64_be(r.tx));
    assert(bytes[16] == spec_kind_u8(r.kind));
    assert(bytes.subrange(17, 21) =~= spec_u32_be(r.data.len() as u32));
    assert(bytes.subrange(21, 21 + dlen) =~= r.data);
    assert(bytes.subrange(21 + dlen, 25 + dlen) =~= spec_u32_be(r.checksum));
    crate::bytes::lemma_u64_be_round_trip(r.lsn);
    crate::bytes::lemma_u64_be_round_trip(r.tx);
    crate::bytes::lemma_u32_be_round_trip(r.data.len() as u32);
    crate::bytes::lemma_u32_be_round_trip(r.checksum);
    lemma_kind_u8_round_trip(r.kind);
}

// ---------------------------------------------------------------------------
// Recovery: a deterministic single pass over the record sequence
// ---------------------------------------------------------------------------

/// The state recovery tracks for each transaction it has seen.
#[derive(Debug, Clone, Copy, PartialEq, Eq, Structural)]
pub enum TxState {
    /// A `TxBegin` was seen and no terminal marker yet.
    Open,
    /// A `TxCommit` was seen.
    Committed,
    /// A `TxRollback` was seen.
    Rolled,
}

/// The views of a sequence of records.
pub open spec fn views_of(s: Seq<WalRecord>) -> Seq<RecModel> {
    Seq::new(s.len(), |i: int| s[i]@)
}

/// Whether the association table holds an entry for transaction `x`.
pub open spec fn table_has(t: Seq<(u64, TxState)>, x: u64) -> bool {
    exists|i: int| 0 <= i < t.len() && t[i].0 == x
}

/// The table with transaction `x` bound to `st`: every entry keyed `x` is
/// replaced, and a fresh entry is appended when none was present.
pub open spec fn table_set(t: Seq<(u64, TxState)>, x: u64, st: TxState) -> Seq<(u64, TxState)> {
    if table_has(t, x) {
        Seq::new(t.len(), |i: int| if t[i].0 == x { (x, st) } else { t[i] })
    } else {
        t.push((x, st))
    }
}

/// How one record advances the table: `TxBegin` opens, `TxCommit` commits,
/// `TxRollback` rolls; operation records are ignored for state tracking.
pub open spec fn table_step(t: Seq<(u64, TxState)>, r: RecModel) -> Seq<(u64, TxState)> {
    match r.kind {
        WalRecordType::TxBegin => table_set(t, r.tx, TxState::Open),
        WalRecordType::TxCommit => table_set(t, r.tx, TxState::Committed),
        WalRecordType::TxRollback => table_set(t, r.tx, TxState::Rolled),
        _ => t,
    }
}

/// The transaction table after scanning `rs` from the front.
pub open spec fn tx_table_spec(rs: Seq<RecModel>) -> Seq<(u64, TxState)>
    decreases rs.len(),
{
    if rs.len() == 0 {
        Seq::empty()
    } else {
        table_step(tx_table_spec(rs.drop_last()), rs.last())
    }
}

/// The transactions a table reports with the given state, in table order.
pub open spec fn ids_with_state(t: Seq<(u64, TxState)>, st: TxState) -> Seq<u64>
    decreases t.len(),
{
    if t.len() == 0 {
        Seq::empty()
    } else {
        ids_with_state(t.drop_last(), st) + if t.last().1 == st {
            seq![t.last().0]
        } else {
            Seq::empty()
        }
    }
}

/// The committed transactions of a record sequence.
pub open spec fn committed_ids(rs: Seq<RecModel>) -> Seq<u64> {
    ids_with_state(tx_table_spec(rs), TxState::Committed)
}

/// The uncommitted (begun, never terminated) transactions of a record
/// sequence.  Rolled-back transactions appear in neither set.
pub open spec fn uncommitted_ids(rs: Seq<RecModel>) -> Seq<u64> {
    ids_with_state(tx_table_spec(rs), TxState::Open)
}

/// The plain values of a sequence of transaction identifiers.
pub open spec fn txids_of(s: Seq<TxId>) -> Seq<u64> {
    Seq::new(s.len(), |i: int| s[i].0)
}

/// What `recover` reports: the committed and the uncommitted transactions.
pub struct RecoveryResult {
    /// Transactions with a `TxCommit` marker.
    pub committed: Vec<TxId>,
    /// Transactions begun but never committed nor rolled back.
    pub uncommitted: Vec<TxId>,
}

/// Binds transaction `x` to `st` in the association table.
fn table_set_exec(table: &Vec<(u64, TxState)>, x: u64, st: TxState) -> (out: Vec<(u64, TxState)>)
    ensures
        out@ == table_set(table@, x, st),
{
    let mut out: Vec<(u64, TxState)> = Vec::new();
    let mut found: bool = false;
    let mut i: usize = 0;
    while i < table.len()
        invariant
            i <= table@.len(),
            found == table_has(table@.take(i as int), x),
            out@.len() == i,
            forall|j: int|
                0 <= j < i ==> out@[j] == (if table@[j].0 == x {
                    (x, st)
                } else {
                    table@[j]
                }),
        decreases table@.len() - i,
    {
        let entry: (u64, TxState) = table[i];
        if entry.0 == x {
            out.push((x, st));
            found = true;
        } else {
            out.push(entry);
        }
        proof {
            assert(table@.take(i + 1).drop_last() =~= table@.take(i as int));
            assert(table@.take(i + 1).last() == table@[i as int]);
            if table_has(table@.take(i + 1), x) && table@[i as int].0 != x {
                let w = choose|w: int|
                    0 <= w < table@.take(i + 1).len() && (#[trigger] table@.take(i + 1)[w]).0
                        == x;
                assert(0 <= w < i && table@.take(i as int)[w].0 == x);
            }
        }
        i = i + 1;
    }
    proof {
        assert(table@.take(table@.len() as int) =~= table@);
    }
    if !found {
        out.push((x, st));
    }
    proof {
        if table_has(table@, x) {
            assert(out@ =~= table_set(table@, x, st));
        } else {
            assert(out@ =~= table_set(table@, x, st));
        }
    }
    out
}

// ---------------------------------------------------------------------------
// The engine
// ---------------------------------------------------------------------------

/// The mathematical model of the engine: the record sequence and the three
/// counters, together with the serialized image the last flush produced.
#[verifier::ext_equal]
pub struct WalModel {
    /// All records, buffered and durable, in append order.
    pub records: Seq<RecModel>,
    /// The next LSN to allocate; strictly above every allocated LSN.
    pub next_lsn: u64,
    /// The highest LSN covered by the durable image.
    pub flushed_lsn: u64,
    /// The next transaction identifier to allocate.
    pub next_tx_id: u64,
    /// The checkpoint LSN the header records; set by `truncate`.
    pub checkpoint_lsn: u64,
    /// The serialized header and records as of the last flush.
    pub image: Seq<u8>,
}

/// Every record's checksum matches its payload.
pub open spec fn records_crc_valid(rs: Seq<RecModel>) -> bool {
    forall|i: int| 0 <= i < rs.len() ==> rec_wf(#[trigger] rs[i])
}

/// LSNs are strictly increasing in append order.
pub open spec fn records_lsn_ordered(rs: Seq<RecModel>) -> bool {
    forall|i: int, j: int| 0 <= i < j < rs.len() ==> rs[i].lsn < rs[j].lsn
}

/// Every LSN is at least one and below `bound`.
pub open spec fn records_lsn_below(rs: Seq<RecModel>, bound: u64) -> bool {
    forall|i: int| 0 <= i < rs.len() ==> 1 <= #[trigger] rs[i].lsn < bound
}

impl WalModel {
    /// The engine invariant: records are CRC-valid and LSN-ordered, and the
    /// counters sit above everything allocated so far.
    pub open spec fn wf(self) -> bool {
        &&& records_crc_valid(self.records)
        &&& records_lsn_ordered(self.records)
        &&& records_lsn_below(self.records, self.next_lsn)
        &&& 1 <= self.next_lsn
        &&& 1 <= self.next_tx_id
        &&& self.flushed_lsn < self.next_lsn
    }
}

/// The write-ahead log engine.  Appends buffer records in memory; `flush`
/// serializes the header and every record into the durable image and raises
/// `flushed_lsn`; `recover` replays the records.
pub struct Wal {
    /// Where the durable image belongs; `":memory:"` selects no file.
    path: String,
    /// Buffered records, in append order.
    buffer: Vec<WalRecord>,
    /// Next LSN to assign.
    next_lsn: Lsn,
    /// Highest LSN covered by the durable image.
    flushed_lsn: Lsn,
    /// Next transaction identifier to assign.
    next_tx_id: u64,
    /// Checkpoint LSN, updated by `truncate`.
    checkpoint_lsn: Lsn,
    /// The serialized header and records as of the last flush.
    image: Vec<u8>,
}

impl View for Wal {
    type V = WalModel;

    closed spec fn view(&self) -> WalModel {
        WalModel {
            records: views_of(self.buffer@),
            next_lsn: self.next_lsn,
            flushed_lsn: self.flushed_lsn,
            next_tx_id: self.next_tx_id,
            checkpoint_lsn: self.checkpoint_lsn,
            image: self.image@,
        }
    }
}

/// The record an append with the given fields produces.
pub open spec fn rec_of(lsn: u64, tx: u64, kind: WalRecordType, data: Seq<u8>) -> RecModel {
    RecModel { lsn, tx, kind, data, checksum: crc32_of(data) }
}

/// The payload of a `FileWrite` record:
/// `u16 path_len | path bytes | u64 offset | u32 data_len | data bytes`.
pub open spec fn spec_write_payload(path: Seq<u8>, offset: u64, data: Seq<u8>) -> Seq<u8>
    recommends
        path.len() <= u16::MAX,
        data.len() <= u32::MAX,
{
    spec_u16_be(path.len() as u16) + path + spec_u64_be(offset) + spec_u32_be(data.len() as u32)
        + data
}

/// The model after appending one record with payload `data` for `tx`.
pub open spec fn wal_appended(w: WalModel, tx: u64, kind: WalRecordType, data: Seq<u8>) -> WalModel
    recommends
        w.next_lsn < u64::MAX,
{
    WalModel {
        records: w.records.push(rec_of(w.next_lsn, tx, kind, data)),
        next_lsn: (w.next_lsn + 1) as u64,
        ..w
    }
}

impl Wal {
    /// Creates an empty engine.  LSNs and transaction identifiers start
    /// at one; nothing is durable yet.
    pub fn new(path: String) -> (r: Result<Self, DbfsError>)
        ensures
            r is Ok,
            r matches Ok(w) ==> w@ == (WalModel {
                records: Seq::<RecModel>::empty(),
                next_lsn: 1u64,
                flushed_lsn: 0u64,
                next_tx_id: 1u64,
                checkpoint_lsn: 0u64,
                image: Seq::<u8>::empty(),
            }),
            r matches Ok(w) ==> w@.wf(),
    {
        let w = Wal {
            path,
            buffer: Vec::new(),
            next_lsn: 1,
            flushed_lsn: 0,
            next_tx_id: 1,
            checkpoint_lsn: 0,
            image: Vec::new(),
        };
        proof {
            assert(views_of(w.buffer@) =~= Seq::<RecModel>::empty());
        }
        Ok(w)
    }

    /// Appends `record` under the next LSN.
    fn append_record(&mut self, record: WalRecord)
        requires
            old(self)@.next_lsn < u64::MAX,
            record@.checksum == crc32_of(record@.data),
            record@.data.len() <= u32::MAX,
        ensures
            final(self)@ == wal_appended(
                old(self)@,
                record@.tx,
                record@.kind,
                record@.data,
            ),
            old(self)@.wf() ==> final(self)@.wf(),
    {
        let mut record = record;
        record.lsn = self.next_lsn;
        self.next_lsn = self.next_lsn + 1;
        self.buffer.push(record);
        proof {
            assert(views_of(self.buffer@) =~= views_of(old(self).buffer@).push(record@));
        }
    }

    /// Begins a new transaction: allocates a fresh identifier and appends a
    /// `TxBegin` marker.
    pub fn begin_tx(&mut self) -> (tx: TxId)
        requires
            old(self)@.next_lsn < u64::MAX,
            old(self)@.next_tx_id < u64::MAX,
        ensures
            tx.0 == old(self)@.next_tx_id,
            final(self)@ == (WalModel {
                next_tx_id: (old(self)@.next_tx_id + 1) as u64,
                ..wal_appended(
                    old(self)@,
                    old(self)@.next_tx_id,
                    WalRecordType::TxBegin,
                    Seq::<u8>::empty(),
                )
            }),
            old(self)@.wf() ==> final(self)@.wf(),
    {
        let tx = TxId::new(self.next_tx_id);
        self.next_tx_id = self.next_tx_id + 1;
        let record = WalRecord::new(tx, WalRecordType::TxBegin, Vec::new());
        self.append_record(record);
        tx
    }

    /// Commits `tx_id`: appends a `TxCommit` marker, then forces a flush,
    /// so the commit is durable when the call returns.
    pub fn commit_tx(&mut self, tx_id: TxId) -> (r: Result<(), DbfsError>)
        requires
            old(self)@.wf(),
            old(self)@.next_lsn < u64::MAX,
        ensures
            r is Ok,
            final(self)@ == flushed(
                wal_appended(
                    old(self)@,
                    tx_id.0,
                    WalRecordType::TxCommit,
                    Seq::<u8>::empty(),
                ),
            ),
            final(self)@.wf(),
    {
        let record = WalRecord::new(tx_id, WalRecordType::TxCommit, Vec::new());
        self.append_record(record);
        self.flush()
    }

    /// Rolls back `tx_id`: appends a `TxRollback` marker; no flush is
    /// forced.
    pub fn rollback_tx(&mut self, tx_id: TxId)
        requires
            old(self)@.next_lsn < u64::MAX,
        ensures
            final(self)@ == wal_appended(
                old(self)@,
                tx_id.0,
                WalRecordType::TxRollback,
                Seq::<u8>::empty(),
            ),
            old(self)@.wf() ==> final(self)@.wf(),
    {
        let record = WalRecord::new(tx_id, WalRecordType::TxRollback, Vec::new());
        self.append_record(record);
    }

    /// Appends one operation record with the given payload bytes.
    pub fn append_payload(&mut self, tx_id: TxId, record_type: WalRecordType, payload: Vec<u8>)
        requires
            old(self)@.next_lsn < u64::MAX,
            payload@.len() <= u32::MAX,
        ensures
            final(self)@ == wal_appended(old(self)@, tx_id.0, record_type, payload@),
            old(self)@.wf() ==> final(self)@.wf(),
    {
        let record = WalRecord::new(tx_id, record_type, payload);
        self.append_record(record);
    }

    /// Records a file write: the payload frames the path, the offset and
    /// the written bytes.
    pub fn write_file(&mut self, tx_id: TxId, path: &str, offset: u64, data: &[u8])
        requires
            old(self)@.next_lsn < u64::MAX,
            path.spec_bytes().len() <= u16::MAX,
            14 + path.spec_bytes().len() + data@.len() <= u32::MAX,
        ensures
            final(self)@ == wal_appended(
                old(self)@,
                tx_id.0,
                WalRecordType::FileWrite,
                spec_write_payload(path.spec_bytes(), offset, data@),
            ),
            old(self)@.wf() ==> final(self)@.wf(),
    {
        let mut payload: Vec<u8> = Vec::new();
        let path_bytes: &[u8] = path.as_bytes();
        push_u16_be(&mut payload, path_bytes.len() as u16);
        push_bytes(&mut payload, path_bytes);
        push_u64_be(&mut payload, offset);
        push_u32_be(&mut payload, data.len() as u32);
        push_bytes(&mut payload, data);
        proof {
            assert(payload@ =~= spec_write_payload(path.spec_bytes(), offset, data@));
        }
        let record = WalRecord::new(tx_id, WalRecordType::FileWrite, payload);
        self.append_record(record);
    }

    /// Records a file creation; the payload is the absolute path.
    pub fn create_file(&mut self, tx_id: TxId, path: &str)
        requires
            old(self)@.next_lsn < u64::MAX,
            path.spec_bytes().len() <= u32::MAX,
        ensures
            final(self)@ == wal_appended(
                old(self)@,
                tx_id.0,
                WalRecordType::FileCreate,
                path.spec_bytes(),
            ),
            old(self)@.wf() ==> final(self)@.wf(),
    {
        let payload: Vec<u8> = slice_to_vec_u8(path.as_bytes());
        let record = WalRecord::new(tx_id, WalRecordType::FileCreate, payload);
        self.append_record(record);
    }

    /// Records a file deletion; the payload is the absolute path.
    pub fn delete_file(&mut self, tx_id: TxId, path: &str)
        requires
            old(self)@.next_lsn < u64::MAX,
            path.spec_bytes().len() <= u32::MAX,
        ensures
            final(self)@ == wal_appended(
                old(self)@,
                tx_id.0,
                WalRecordType::FileDelete,
                path.spec_bytes(),
            ),
            old(self)@.wf() ==> final(self)@.wf(),
    {
        let payload: Vec<u8> = slice_to_vec_u8(path.as_bytes());
        let record = WalRecord::new(tx_id, WalRecordType::FileDelete, payload);
        self.append_record(record);
    }

    /// Records a directory creation; the payload is the absolute path.
    pub fn mkdir(&mut self, tx_id: TxId, path: &str)
        requires
            old(self)@.next_lsn < u64::MAX,
            path.spec_bytes().len() <= u32::MAX,
        ensures
            final(self)@ == wal_appended(
                old(self)@,
                tx_id.0,
                WalRecordType::Mkdir,
                path.spec_bytes(),
            ),
            old(self)@.wf() ==> final(self)@.wf(),
    {
        let payload: Vec<u8> = slice_to_vec_u8(path.as_bytes());
        let record = WalRecord::new(tx_id, WalRecordType::Mkdir, payload);
        self.append_record(record);
    }

    /// Flushes the buffered records: serializes the header (with the
    /// current counters) and every record into the durable image and
    /// raises `flushed_lsn` to the last buffered LSN.  The in-memory
    /// backing store cannot fail, so the result is always `Ok`.
    pub fn flush(&mut self) -> (r: Result<(), DbfsError>)
        requires
            old(self)@.wf(),
        ensures
            r is Ok,
            final(self)@ == flushed(old(self)@),
            final(self)@.wf(),
    {
        if self.buffer.len() > 0 {
            let mut img: Vec<u8> = crate::image::encode_header(self.next_tx_id,
                self.checkpoint_lsn);
            let ghost header = img@;
            let mut i: usize = 0;
            while i < self.buffer.len()
                invariant
                    i <= self.buffer@.len(),
                    self@.wf(),
                    img@ == header + crate::image::spec_records_bytes(
                        views_of(self.buffer@).take(i as int),
                    ),
                decreases self.buffer@.len() - i,
            {
                proof {
                    let views = views_of(self.buffer@);
                    assert(rec_wf(views[i as int]));
                    assert(views[i as int] == self.buffer@[i as int]@);
                }
                let rec_bytes: Vec<u8> = self.buffer[i].serialize();
                push_bytes(&mut img, rec_bytes.as_slice());
                proof {
                    let views = views_of(self.buffer@);
                    assert(views.take(i + 1) =~= views.take(i as int).push(views[i as int]));
                    crate::image::lemma_records_bytes_push(views.take(i as int), views[i as int]);
                }
                i = i + 1;
            }
            proof {
                assert(views_of(self.buffer@).take(self.buffer@.len() as int) =~= views_of(
                    self.buffer@,
                ));
            }
            self.flushed_lsn = self.buffer[self.buffer.len() - 1].lsn;
            self.image = img;
            assert(self@.records.last() == self.buffer@.last()@);
        }
        Ok(())
    }

    /// Replays the buffered records and reports which transactions
    /// committed and which began without a terminal marker.  Rolled-back
    /// transactions appear in neither set; the two sets are disjoint
    /// (`lemma_recovered_sets_disjoint`) and every committed transaction
    /// has a commit marker in the log
    /// (`lemma_committed_has_commit_record`).  The result is a function of
    /// the record sequence alone, and recovery does not change the log, so
    /// replaying twice yields the same two sets (`recover_is_idempotent`).
    pub fn recover(&self) -> (r: Result<RecoveryResult, DbfsError>)
        ensures
            r is Ok,
            r matches Ok(res) ==> txids_of(res.committed@) == committed_ids(self@.records)
                && txids_of(res.uncommitted@) == uncommitted_ids(self@.records),
    {
        Ok(replay_records(&self.buffer))
    }

    /// All buffered records that belong to `tx_id`, in append order.
    pub fn get_tx_records(&self, tx_id: TxId) -> (r: Vec<WalRecord>)
        ensures
            views_of(r@) == tx_records_of(self@.records, tx_id.0),
    {
        let mut out: Vec<WalRecord> = Vec::new();
        let mut i: usize = 0;
        proof {
            assert(views_of(self.buffer@).take(0) =~= Seq::<RecModel>::empty());
            assert(views_of(out@) =~= tx_records_of(Seq::<RecModel>::empty(), tx_id.0));
        }
        while i < self.buffer.len()
            invariant
                i <= self.buffer@.len(),
                views_of(out@) == tx_records_of(views_of(self.buffer@).take(i as int), tx_id.0),
        decreases self.buffer@.len() - i,
        {
            if self.buffer[i].tx_id.value() == tx_id.value() {
                let rec: WalRecord = clone_record(&self.buffer[i]);
                out.push(rec);
            }
            proof {
                let views = views_of(self.buffer@);
                assert(views.take(i + 1).drop_last() =~= views.take(i as int));
                assert(views.take(i + 1).last() == views[i as int]);
                assert(views_of(out@) =~= tx_records_of(views.take(i + 1), tx_id.0));
            }
            i = i + 1;
        }
        proof {
            assert(views_of(self.buffer@).take(self.buffer@.len() as int) =~= views_of(
                self.buffer@,
            ));
        }
        out
    }

    /// Drops every record with `lsn < lsn` and moves the checkpoint to just
    /// below the bound.  Records at or above the bound are kept.
    pub fn truncate(&mut self, lsn: Lsn)
        requires
            old(self)@.wf(),
        ensures
            final(self)@.records == retained_records(old(self)@.records, lsn),
            forall|i: int|
                0 <= i < final(self)@.records.len()
                    ==> (#[trigger] final(self)@.records[i].lsn) >= lsn,
            final(self)@.next_lsn == old(self)@.next_lsn,
            final(self)@.flushed_lsn == old(self)@.flushed_lsn,
            final(self)@.next_tx_id == old(self)@.next_tx_id,
            final(self)@.image == old(self)@.image,
            final(self)@.checkpoint_lsn == (if lsn > 0 {
                (lsn - 1) as u64
            } else {
                0u64
            }),
            final(self)@.wf(),
    {
        let mut kept: Vec<WalRecord> = Vec::new();
        let mut i: usize = 0;
        proof {
            assert(views_of(self.buffer@).take(0) =~= Seq::<RecModel>::empty());
            assert(views_of(kept@) =~= retained_records(Seq::<RecModel>::empty(), lsn));
        }
        while i < self.buffer.len()
            invariant
                i <= self.buffer@.len(),
                views_of(kept@) == retained_records(views_of(self.buffer@).take(i as int), lsn),
            decreases self.buffer@.len() - i,
        {
            if self.buffer[i].lsn >= lsn {
                let rec: WalRecord = clone_record(&self.buffer[i]);
                kept.push(rec);
            }
            proof {
                let views = views_of(self.buffer@);
                assert(views.take(i + 1).drop_last() =~= views.take(i as int));
                assert(views.take(i + 1).last() == views[i as int]);
                assert(views_of(kept@) =~= retained_records(views.take(i + 1), lsn));
            }
            i = i + 1;
        }
        proof {
            assert(views_of(self.buffer@).take(self.buffer@.len() as int) =~= views_of(
                self.buffer@,
            ));
        }
        self.buffer = kept;
        self.checkpoint_lsn = if lsn > 0 {
            lsn - 1
        } else {
            0
        };
        proof {
            lemma_retained_records_sub(old(self)@.records, lsn);
        }
    }

    /// The serialized bytes the last flush made durable.
    pub fn durable_image(&self) -> (r: &Vec<u8>)
        ensures
            r@ == self@.image,
    {
        &self.image
    }

    /// Reopens an engine from a durable image, as after a crash.  An image
    /// shorter than the header yields a fresh empty engine; a wrong magic
    /// or version, or a record stream whose LSNs do not increase from at
    /// least one, is `Corrupt`.  The records the greedy scan reads back
    /// become the buffer, the counters resume above them, and the image is
    /// re-serialized, so everything read back counts as durable.
    pub fn open_from_image(path: String, bytes: &[u8]) -> (r: Result<Self, DbfsError>)
        ensures
            bytes@.len() < crate::image::WAL_HEADER_SIZE ==> (r matches Ok(w) && w@ == (WalModel {
                records: Seq::<RecModel>::empty(),
                next_lsn: 1u64,
                flushed_lsn: 0u64,
                next_tx_id: 1u64,
                checkpoint_lsn: 0u64,
                image: Seq::<u8>::empty(),
            })),
            bytes@.len() >= crate::image::WAL_HEADER_SIZE && !crate::image::spec_header_valid(
                bytes@,
            ) ==> r == Err::<Wal, DbfsError>(DbfsError::Corrupt),
            bytes@.len() >= crate::image::WAL_HEADER_SIZE && crate::image::spec_header_valid(
                bytes@,
            ) && !replayable(
                crate::image::spec_parse_records(
                    bytes@.skip(crate::image::WAL_HEADER_SIZE as int),
                ),
            ) ==> r == Err::<Wal, DbfsError>(DbfsError::Corrupt),
            bytes@.len() >= crate::image::WAL_HEADER_SIZE && crate::image::spec_header_valid(
                bytes@,
            ) && replayable(
                crate::image::spec_parse_records(
                    bytes@.skip(crate::image::WAL_HEADER_SIZE as int),
                ),
            ) ==> (r matches Ok(w) && w@ == flushed(reopened_model(bytes@)) && w@.wf()),
    {
        if bytes.len() < crate::image::WAL_HEADER_SIZE {
            return Wal::new(path);
        }
        if !crate::image::check_header(bytes) {
            proof {
                assert(bytes@.len() >= crate::image::WAL_HEADER_SIZE);
                assert(!crate::image::spec_header_valid(bytes@));
            }
            return Err(DbfsError::Corrupt);
        }
        let header_tx: u64 = read_u64_be(bytes, 12);
        let header_ckpt: u64 = read_u64_be(bytes, 20);
        let records: Vec<WalRecord> = crate::image::parse_image_records(
            bytes,
            crate::image::WAL_HEADER_SIZE,
        );
        let ghost prs = views_of(records@);
        let mut prev: u64 = 0;
        let mut i: usize = 0;
        while i < records.len()
            invariant
                i <= records@.len(),
                prs == views_of(records@),
                bytes@.len() >= crate::image::WAL_HEADER_SIZE,
                crate::image::spec_header_valid(bytes@),
                prs == crate::image::spec_parse_records(
                    bytes@.skip(crate::image::WAL_HEADER_SIZE as int),
                ),
                prev == (if i == 0 {
                    0u64
                } else {
                    prs[i - 1].lsn
                }),
                records_lsn_ordered(prs.take(i as int)),
                forall|j: int| 0 <= j < i ==> (#[trigger] prs[j].lsn) <= prev,
                forall|j: int| 0 <= j < i ==> 1 <= (#[trigger] prs[j].lsn),
            decreases records@.len() - i,
        {
            let lsn: u64 = records[i].lsn;
            if lsn <= prev {
                proof {
                    if i == 0 {
                        assert(prs[0].lsn < 1);
                    } else {
                        assert(prs[i - 1].lsn >= prs[i as int].lsn);
                        assert(!records_lsn_ordered(prs));
                    }
                }
                return Err(DbfsError::Corrupt);
            }
            proof {
                assert(forall|j: int|
                    0 <= j < i ==> (#[trigger] prs[j].lsn) <= prev < prs[i as int].lsn);
            }
            prev = lsn;
            i = i + 1;
        }
        if records.len() > 0 && prev == u64::MAX {
            proof {
                assert(prs.last().lsn == u64::MAX);
            }
            return Err(DbfsError::Corrupt);
        }
        proof {
            assert(prs.take(prs.len() as int) =~= prs);
            assert(replayable(prs));
            crate::image::lemma_parse_records_wf(
                bytes@.skip(crate::image::WAL_HEADER_SIZE as int),
            );
        }
        let next_tx: u64 = if header_tx > 0 {
            header_tx
        } else {
            1
        };
        let mut w = Wal {
            path,
            buffer: records,
            next_lsn: prev + 1,
            flushed_lsn: 0,
            next_tx_id: next_tx,
            checkpoint_lsn: header_ckpt,
            image: Vec::new(),
        };
        proof {
            assert(w@ == reopened_model(bytes@));
        }
        let flush_result: Result<(), DbfsError> = w.flush();
        proof {
            assert(flush_result is Ok);
        }
        Ok(w)
    }

    /// The next LSN to be allocated.
    pub fn next_lsn(&self) -> (r: Lsn)
        ensures
            r == self@.next_lsn,
    {
        self.next_lsn
    }

    /// The next transaction identifier to be allocated.
    pub fn next_tx_id(&self) -> (r: u64)
        ensures
            r == self@.next_tx_id,
    {
        self.next_tx_id
    }

    /// The highest LSN covered by the durable image.
    pub fn flushed_lsn(&self) -> (r: Lsn)
        ensures
            r == self@.flushed_lsn,
    {
        self.flushed_lsn
    }
}

/// Copies a byte slice into a fresh vector.
fn slice_to_vec_u8(src: &[u8]) -> (r: Vec<u8>)
    ensures
        r@ == src@,
{
    let mut out: Vec<u8> = Vec::new();
    push_bytes(&mut out, src);
    out
}

/// Copies a record field by field.
pub fn clone_record(r: &WalRecord) -> (c: WalRecord)
    ensures
        c@ == r@,
{
    WalRecord {
        lsn: r.lsn,
        tx_id: r.tx_id,
        record_type: r.record_type,
        data: slice_to_vec_u8(r.data.as_slice()),
        checksum: r.checksum,
    }
}

/// The model after a flush: the image holds the serialized header and
/// records, and `flushed_lsn` covers the last record.  Flushing an empty
/// log changes nothing.
pub open spec fn flushed(w: WalModel) -> WalModel {
    if w.records.len() == 0 {
        w
    } else {
        WalModel {
            flushed_lsn: w.records.last().lsn,
            image: crate::image::spec_log_bytes(w.next_tx_id, w.checkpoint_lsn, w.records),
            ..w
        }
    }
}

/// Whether a read-back record stream can seed a fresh engine: the LSNs
/// strictly increase from at least one and leave room to allocate more.
pub open spec fn replayable(rs: Seq<RecModel>) -> bool {
    &&& records_lsn_ordered(rs)
    &&& forall|i: int| 0 <= i < rs.len() ==> 1 <= (#[trigger] rs[i].lsn)
    &&& rs.len() > 0 ==> rs.last().lsn < u64::MAX
}

/// The engine state read back from a valid image, before its re-flush: the
/// scanned records, counters resuming above them, and the header's
/// transaction and checkpoint counters.
pub open spec fn reopened_model(bytes: Seq<u8>) -> WalModel {
    let prs = crate::image::spec_parse_records(bytes.skip(crate::image::WAL_HEADER_SIZE as int));
    let header_tx = spec_be_to_u64(bytes.subrange(12, 20));
    WalModel {
        records: prs,
        next_lsn: if prs.len() == 0 {
            1u64
        } else {
            (prs.last().lsn + 1) as u64
        },
        flushed_lsn: 0u64,
        next_tx_id: if header_tx > 0 {
            header_tx
        } else {
            1u64
        },
        checkpoint_lsn: spec_be_to_u64(bytes.subrange(20, 28)),
        image: Seq::<u8>::empty(),
    }
}

/// The records of `rs` that belong to transaction `tx`, in order.
pub open spec fn tx_records_of(rs: Seq<RecModel>, tx: u64) -> Seq<RecModel>
    decreases rs.len(),
{
    if rs.len() == 0 {
        Seq::empty()
    } else {
        tx_records_of(rs.drop_last(), tx) + if rs.last().tx == tx {
            seq![rs.last()]
        } else {
            Seq::empty()
        }
    }
}

/// The records of `rs` whose LSN is at least `bound`, in order.
pub open spec fn retained_records(rs: Seq<RecModel>, bound: u64) -> Seq<RecModel>
    decreases rs.len(),
{
    if rs.len() == 0 {
        Seq::empty()
    } else {
        retained_records(rs.drop_last(), bound) + if rs.last().lsn >= bound {
            seq![rs.last()]
        } else {
            Seq::empty()
        }
    }
}

/// Truncation keeps a subsequence: every retained record sits at or above
/// the bound, comes from the original sequence, and the original order,
/// checksums and LSN bounds carry over.
pub proof fn lemma_retained_records_sub(rs: Seq<RecModel>, bound: u64)
    ensures
        forall|i: int|
            0 <= i < retained_records(rs, bound).len() ==> #[trigger] retained_records(
                rs,
                bound,
            )[i].lsn >= bound,
        forall|i: int|
            0 <= i < retained_records(rs, bound).len() ==> exists|j: int|
                0 <= j < rs.len() && (#[trigger] retained_records(rs, bound)[i]) == #[trigger] rs[j],
        records_crc_valid(rs) ==> records_crc_valid(retained_records(rs, bound)),
        records_lsn_ordered(rs) ==> records_lsn_ordered(retained_records(rs, bound)),
        forall|n: u64|
            records_lsn_below(rs, n) ==> #[trigger] records_lsn_below(
                retained_records(rs, bound),
                n,
            ),
    decreases rs.len(),
{
    let ret = retained_records(rs, bound);
    if rs.len() > 0 {
        let dl = rs.drop_last();
        lemma_retained_records_sub(dl, bound);
        let rdl = retained_records(dl, bound);
        assert(forall|j: int| 0 <= j < dl.len() ==> dl[j] == rs[j]);
        assert forall|i: int| 0 <= i < ret.len() implies exists|j: int|
            0 <= j < rs.len() && (#[trigger] ret[i]) == #[trigger] rs[j] by {
            if i < rdl.len() {
                assert(exists|j: int| 0 <= j < dl.len() && (#[trigger] rdl[i]) == #[trigger] dl[j]);
                let j = choose|j: int| 0 <= j < dl.len() && (#[trigger] rdl[i]) == #[trigger] dl[j];
                assert(ret[i] == rs[j]);
            } else {
                assert(ret[i] == rs[rs.len() - 1]);
            }
        }
        if records_lsn_ordered(rs) {
            assert forall|i1: int, i2: int| 0 <= i1 < i2 < ret.len() implies (#[trigger] ret[i1]).lsn
                < (#[trigger] ret[i2]).lsn by {
                if i2 < rdl.len() {
                } else {
                    let j = choose|j: int| 0 <= j < dl.len() && (#[trigger] rdl[i1]) == #[trigger] dl[j];
                    assert(ret[i1].lsn == rs[j].lsn);
                    assert(ret[i2] == rs[rs.len() - 1]);
                }
            }
        }
    }
}

/// No two table entries share a key.
pub open spec fn table_keys_unique(t: Seq<(u64, TxState)>) -> bool {
    forall|i: int, j: int| 0 <= i < j < t.len() ==> (#[trigger] t[i]).0 != (#[trigger] t[j]).0
}

/// Binding a transaction keeps the keys unique.
pub proof fn lemma_table_set_keys_unique(t: Seq<(u64, TxState)>, x: u64, st: TxState)
    requires
        table_keys_unique(t),
    ensures
        table_keys_unique(table_set(t, x, st)),
        forall|i: int|
            0 <= i < table_set(t, x, st).len() ==> (#[trigger] table_set(t, x, st)[i]).0 == x
                || (i < t.len() && table_set(t, x, st)[i] == t[i]),
{
    if !table_has(t, x) {
        assert forall|i: int, j: int| 0 <= i < j < t.push((x, st)).len() implies (
        #[trigger] t.push((x, st))[i]).0 != (#[trigger] t.push((x, st))[j]).0 by {
            if j == t.len() {
                assert(t.push((x, st))[j].0 == x);
                assert(t[i].0 != x);
            }
        }
    }
}

/// The transaction table of any record sequence has unique keys.
pub proof fn lemma_tx_table_keys_unique(rs: Seq<RecModel>)
    ensures
        table_keys_unique(tx_table_spec(rs)),
    decreases rs.len(),
{
    if rs.len() > 0 {
        lemma_tx_table_keys_unique(rs.drop_last());
        let t = tx_table_spec(rs.drop_last());
        let last = rs.last();
        match last.kind {
            WalRecordType::TxBegin => lemma_table_set_keys_unique(t, last.tx, TxState::Open),
            WalRecordType::TxCommit => lemma_table_set_keys_unique(
                t,
                last.tx,
                TxState::Committed,
            ),
            WalRecordType::TxRollback => lemma_table_set_keys_unique(t, last.tx, TxState::Rolled),
            _ => {},
        }
    }
}

/// A transaction is listed for a state exactly when the table holds an
/// entry binding it to that state.
pub proof fn lemma_ids_with_state_contains(t: Seq<(u64, TxState)>, st: TxState, x: u64)
    ensures
        ids_with_state(t, st).contains(x) <==> exists|i: int|
            0 <= i < t.len() && #[trigger] t[i] == (x, st),
    decreases t.len(),
{
    if t.len() > 0 {
        let dl = t.drop_last();
        lemma_ids_with_state_contains(dl, st, x);
        let ids = ids_with_state(t, st);
        let idsdl = ids_with_state(dl, st);
        if idsdl.contains(x) {
            let i = choose|i: int| 0 <= i < idsdl.len() && idsdl[i] == x;
            assert(ids[i] == x);
            let w = choose|w: int| 0 <= w < dl.len() && #[trigger] dl[w] == (x, st);
            assert(t[w] == (x, st));
        }
        if t.last() == (x, st) {
            assert(ids.last() == x);
            assert(ids.contains(x));
            assert(t[t.len() - 1] == (x, st));
        }
        if ids.contains(x) {
            let i = choose|i: int| 0 <= i < ids.len() && ids[i] == x;
            if i < idsdl.len() {
                assert(idsdl[i] == x);
                assert(idsdl.contains(x));
            } else {
                assert(t.last().1 == st && t.last().0 == x);
                assert(t[t.len() - 1] == (x, st));
            }
        }
        if exists|i: int| 0 <= i < t.len() && #[trigger] t[i] == (x, st) {
            let i = choose|i: int| 0 <= i < t.len() && #[trigger] t[i] == (x, st);
            if i < t.len() - 1 {
                assert(dl[i] == (x, st));
                assert(idsdl.contains(x));
                let w = choose|w: int| 0 <= w < idsdl.len() && idsdl[w] == x;
                assert(ids[w] == x);
                assert(ids.contains(x));
            }
        }
    }
}

/// Recovery never lists one transaction as both committed and uncommitted:
/// `committed` and `uncommitted` are disjoint for every log.
pub proof fn lemma_recovered_sets_disjoint(rs: Seq<RecModel>)
    ensures
        forall|x: u64|
            !(#[trigger] committed_ids(rs).contains(x) && uncommitted_ids(rs).contains(x)),
{
    let t = tx_table_spec(rs);
    lemma_tx_table_keys_unique(rs);
    assert forall|x: u64|
        !(#[trigger] committed_ids(rs).contains(x) && uncommitted_ids(rs).contains(x)) by {
        lemma_ids_with_state_contains(t, TxState::Committed, x);
        lemma_ids_with_state_contains(t, TxState::Open, x);
        if committed_ids(rs).contains(x) && uncommitted_ids(rs).contains(x) {
            let i = choose|i: int| 0 <= i < t.len() && #[trigger] t[i] == (x, TxState::Committed);
            let j = choose|j: int| 0 <= j < t.len() && #[trigger] t[j] == (x, TxState::Open);
            assert(i != j);
            assert(t[i].0 == t[j].0);
        }
    }
}

/// Whether some record of `rs` is a `TxCommit` marker of transaction `x`.
pub open spec fn has_commit_record(rs: Seq<RecModel>, x: u64) -> bool {
    exists|i: int|
        0 <= i < rs.len() && (#[trigger] rs[i]).kind == WalRecordType::TxCommit && rs[i].tx == x
}

/// A table entry in the committed state only ever arises from a `TxCommit`
/// record of that transaction.
pub proof fn lemma_committed_entry_has_commit_record(rs: Seq<RecModel>, x: u64)
    requires
        exists|i: int|
            0 <= i < tx_table_spec(rs).len() && #[trigger] tx_table_spec(rs)[i] == (
                x,
                TxState::Committed,
            ),
    ensures
        has_commit_record(rs, x),
    decreases rs.len(),
{
    let t = tx_table_spec(rs);
    let dl = rs.drop_last();
    let tdl = tx_table_spec(dl);
    let i = choose|i: int| 0 <= i < t.len() && #[trigger] t[i] == (x, TxState::Committed);
    let last = rs.last();
    if last.kind == WalRecordType::TxCommit && last.tx == x {
        assert(rs[rs.len() - 1].kind == WalRecordType::TxCommit && rs[rs.len() - 1].tx == x);
    } else {
        assert(exists|j: int| 0 <= j < tdl.len() && #[trigger] tdl[j] == (x, TxState::Committed))
            by {
            match last.kind {
                WalRecordType::TxBegin | WalRecordType::TxCommit | WalRecordType::TxRollback => {
                    if table_has(tdl, last.tx) {
                        assert(t[i] == (if tdl[i].0 == last.tx {
                            (last.tx, state_of_marker(last.kind))
                        } else {
                            tdl[i]
                        }));
                        assert(tdl[i] == (x, TxState::Committed));
                    } else {
                        if i < tdl.len() {
                            assert(tdl[i] == (x, TxState::Committed));
                        } else {
                            assert(t[i] == (last.tx, state_of_marker(last.kind)));
                        }
                    }
                },
                _ => {
                    assert(t == tdl);
                    assert(tdl[i] == (x, TxState::Committed));
                },
            }
        }
        lemma_committed_entry_has_commit_record(dl, x);
        let j = choose|j: int|
            0 <= j < dl.len() && (#[trigger] dl[j]).kind == WalRecordType::TxCommit && dl[j].tx
                == x;
        assert(rs[j].kind == WalRecordType::TxCommit && rs[j].tx == x);
    }
}

/// The state a terminal or begin marker binds its transaction to.
pub open spec fn state_of_marker(k: WalRecordType) -> TxState
    recommends
        k == WalRecordType::TxBegin || k == WalRecordType::TxCommit || k
            == WalRecordType::TxRollback,
{
    if k == WalRecordType::TxBegin {
        TxState::Open
    } else if k == WalRecordType::TxCommit {
        TxState::Committed
    } else {
        TxState::Rolled
    }
}

/// Every transaction that recovery reports as committed has a `TxCommit`
/// record in the log.
pub proof fn lemma_committed_has_commit_record(rs: Seq<RecModel>)
    ensures
        forall|x: u64| #[trigger] committed_ids(rs).contains(x) ==> has_commit_record(rs, x),
{
    assert forall|x: u64| #[trigger] committed_ids(rs).contains(x) implies has_commit_record(
        rs,
        x,
    ) by {
        lemma_ids_with_state_contains(tx_table_spec(rs), TxState::Committed, x);
        lemma_committed_entry_has_commit_record(rs, x);
    }
}

/// Replays a record sequence: scans it once, tracking each transaction's
/// state, and reports the committed and the uncommitted transactions.
pub fn replay_records(records: &Vec<WalRecord>) -> (res: RecoveryResult)
    ensures
        txids_of(res.committed@) == committed_ids(views_of(records@)),
        txids_of(res.uncommitted@) == uncommitted_ids(views_of(records@)),
{
    let mut table: Vec<(u64, TxState)> = Vec::new();
    let mut i: usize = 0;
    proof {
        assert(views_of(records@).take(0) =~= Seq::<RecModel>::empty());
    }
    while i < records.len()
        invariant
            i <= records@.len(),
            table@ == tx_table_spec(views_of(records@).take(i as int)),
        decreases records@.len() - i,
    {
        let tx: u64 = records[i].tx_id.value();
        match records[i].record_type {
            WalRecordType::TxBegin => {
                table = table_set_exec(&table, tx, TxState::Open);
            },
            WalRecordType::TxCommit => {
                table = table_set_exec(&table, tx, TxState::Committed);
            },
            WalRecordType::TxRollback => {
                table = table_set_exec(&table, tx, TxState::Rolled);
            },
            _ => {},
        }
        proof {
            let views = views_of(records@);
            assert(views.take(i + 1).drop_last() =~= views.take(i as int));
            assert(views.take(i + 1).last() == views[i as int]);
        }
        i = i + 1;
    }
    proof {
        assert(views_of(records@).take(records@.len() as int) =~= views_of(records@));
    }
    let committed: Vec<TxId> = ids_with_state_exec(&table, TxState::Committed);
    let uncommitted: Vec<TxId> = ids_with_state_exec(&table, TxState::Open);
    RecoveryResult { committed, uncommitted }
}

/// Every append sequence leaves the log CRC-valid and LSN-ordered: the
/// engine invariant carries both, and every mutator ensures it.
pub proof fn lemma_wal_records_crc_valid_and_lsn_ordered(w: WalModel)
    requires
        w.wf(),
    ensures
        records_crc_valid(w.records),
        records_lsn_ordered(w.records),
{
}

/// Replay is idempotent: recovering twice from the same log yields the
/// same committed and the same uncommitted transactions.  Recovery takes
/// the log by shared reference and its result is a function of the record
/// sequence alone.
pub fn recover_is_idempotent(wal: &Wal) -> (r: (RecoveryResult, RecoveryResult))
    ensures
        txids_of(r.0.committed@) == txids_of(r.1.committed@),
        txids_of(r.0.uncommitted@) == txids_of(r.1.uncommitted@),
{
    let first = match wal.recover() {
        Ok(res) => res,
        Err(_) => {
            proof {
                assert(false);
            }
            vstd::pervasive::unreached()
        },
    };
    let second = match wal.recover() {
        Ok(res) => res,
        Err(_) => {
            proof {
                assert(false);
            }
            vstd::pervasive::unreached()
        },
    };
    (first, second)
}

/// Appending a record advances the table by one step.
pub proof fn lemma_table_push(rs: Seq<RecModel>, r: RecModel)
    ensures
        tx_table_spec(rs.push(r)) == table_step(tx_table_spec(rs), r),
{
    assert(rs.push(r).drop_last() =~= rs);
    assert(rs.push(r).last() == r);
}

/// Binding a transaction the table has never seen appends its entry.
pub proof fn lemma_table_set_fresh(t: Seq<(u64, TxState)>, x: u64, st: TxState)
    requires
        forall|i: int| 0 <= i < t.len() ==> (#[trigger] t[i]).0 != x,
    ensures
        table_set(t, x, st) == t.push((x, st)),
{
    assert(!table_has(t, x));
}

/// Rebinding the transaction that the last entry holds, when no earlier
/// entry shares its key, replaces just that entry.
pub proof fn lemma_table_set_last(t: Seq<(u64, TxState)>, x: u64, st: TxState)
    requires
        t.len() > 0,
        t.last().0 == x,
        forall|i: int| 0 <= i < t.len() - 1 ==> (#[trigger] t[i]).0 != x,
    ensures
        table_set(t, x, st) == t.drop_last().push((x, st)),
{
    assert(table_has(t, x)) by {
        assert(t[t.len() - 1].0 == x);
    }
    assert(table_set(t, x, st) =~= t.drop_last().push((x, st)));
}

/// Appending a table entry appends its key to the listing of its state
/// and leaves the other listings unchanged.
pub proof fn lemma_ids_push(t: Seq<(u64, TxState)>, e: (u64, TxState), st: TxState)
    ensures
        ids_with_state(t.push(e), st) == ids_with_state(t, st) + (if e.1 == st {
            seq![e.0]
        } else {
            Seq::<u64>::empty()
        }),
{
    assert(t.push(e).drop_last() =~= t);
    assert(t.push(e).last() == e);
    if e.1 == st {
    } else {
        assert(ids_with_state(t, st) + Seq::<u64>::empty() =~= ids_with_state(t, st));
    }
}

/// A transaction that appears in no record has no records listed.
pub proof fn lemma_tx_records_empty(rs: Seq<RecModel>, tx: u64)
    requires
        forall|i: int| 0 <= i < rs.len() ==> (#[trigger] rs[i]).tx != tx,
    ensures
        tx_records_of(rs, tx) == Seq::<RecModel>::empty(),
    decreases rs.len(),
{
    if rs.len() > 0 {
        assert(forall|i: int| 0 <= i < rs.drop_last().len() ==> rs.drop_last()[i] == rs[i]);
        lemma_tx_records_empty(rs.drop_last(), tx);
        assert(rs.last().tx != tx);
        assert(tx_records_of(rs, tx) =~= Seq::<RecModel>::empty());
    }
}

/// A transaction's listing is a subsequence of the log.
pub proof fn lemma_tx_records_sub(rs: Seq<RecModel>, tx: u64)
    ensures
        forall|i: int|
            0 <= i < tx_records_of(rs, tx).len() ==> exists|j: int|
                0 <= j < rs.len() && (#[trigger] tx_records_of(rs, tx)[i]) == #[trigger] rs[j],
    decreases rs.len(),
{
    if rs.len() > 0 {
        let dl = rs.drop_last();
        lemma_tx_records_sub(dl, tx);
        let ret = tx_records_of(rs, tx);
        let rdl = tx_records_of(dl, tx);
        assert(forall|j: int| 0 <= j < dl.len() ==> dl[j] == rs[j]);
        assert forall|i: int| 0 <= i < ret.len() implies exists|j: int|
            0 <= j < rs.len() && (#[trigger] ret[i]) == #[trigger] rs[j] by {
            if i < rdl.len() {
                let j = choose|j: int| 0 <= j < dl.len() && (#[trigger] rdl[i]) == #[trigger] dl[j];
                assert(ret[i] == rs[j]);
            } else {
                assert(ret[i] == rs[rs.len() - 1]);
            }
        }
    }
}

/// After truncation at `bound`, no record below `bound` is returned by
/// replay: whatever transaction is asked for, every listed record sits at
/// or above the bound.
pub proof fn lemma_truncated_replay_bounded(rs: Seq<RecModel>, bound: u64, tx: u64)
    ensures
        forall|i: int|
            0 <= i < tx_records_of(retained_records(rs, bound), tx).len() ==> (
            #[trigger] tx_records_of(retained_records(rs, bound), tx)[i]).lsn >= bound,
{
    let kept = retained_records(rs, bound);
    lemma_retained_records_sub(rs, bound);
    lemma_tx_records_sub(kept, tx);
    assert forall|i: int| 0 <= i < tx_records_of(kept, tx).len() implies (
    #[trigger] tx_records_of(kept, tx)[i]).lsn >= bound by {
        let j = choose|j: int|
            0 <= j < kept.len() && (#[trigger] tx_records_of(kept, tx)[i]) == #[trigger] kept[j];
        assert(kept[j].lsn >= bound);
    }
}

/// Appending a record appends it to its transaction's listing and leaves
/// the other listings unchanged.
pub proof fn lemma_tx_records_push(rs: Seq<RecModel>, r: RecModel, tx: u64)
    ensures
        tx_records_of(rs.push(r), tx) == tx_records_of(rs, tx) + (if r.tx == tx {
            seq![r]
        } else {
            Seq::<RecModel>::empty()
        }),
{
    assert(rs.push(r).drop_last() =~= rs);
    assert(rs.push(r).last() == r);
    if r.tx != tx {
        assert(tx_records_of(rs, tx) + Seq::<RecModel>::empty() =~= tx_records_of(rs, tx));
    }
}

/// Builds the list of transactions the table holds in state `st`.
fn ids_with_state_exec(table: &Vec<(u64, TxState)>, st: TxState) -> (out: Vec<TxId>)
    ensures
        txids_of(out@) == ids_with_state(table@, st),
{
    let mut out: Vec<TxId> = Vec::new();
    let mut i: usize = 0;
    proof {
        assert(table@.take(0) =~= Seq::<(u64, TxState)>::empty());
        assert(txids_of(out@) =~= ids_with_state(Seq::<(u64, TxState)>::empty(), st));
    }
    while i < table.len()
        invariant
            i <= table@.len(),
            txids_of(out@) == ids_with_state(table@.take(i as int), st),
        decreases table@.len() - i,
    {
        let entry: (u64, TxState) = table[i];
        if entry.1 == st {
            out.push(TxId(entry.0));
        }
        proof {
            assert(table@.take(i + 1).drop_last() =~= table@.take(i as int));
            assert(table@.take(i + 1).last() == table@[i as int]);
            assert(txids_of(out@) =~= ids_with_state(table@.take(i + 1), st));
        }
        i = i + 1;
    }
    proof {
        assert(table@.take(table@.len() as int) =~= table@);
    }
    out
}

} // verus!
