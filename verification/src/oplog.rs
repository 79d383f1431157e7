//! A little log-entry format that predates the WAL: a write carries an
//! offset and its data, a flush carries a timestamp, both little-endian.

use vstd::prelude::*;

verus! {

/// The little-endian bytes of a `u64`.
pub open spec fn spec_u64_le(x: u64) -> Seq<u8> {
    seq![
        (x & 0xff) as u8,
        ((x >> 8) & 0xff) as u8,
        ((x >> 16) & 0xff) as u8,
        ((x >> 24) & 0xff) as u8,
        ((x >> 32) & 0xff) as u8,
        ((x >> 40) & 0xff) as u8,
        ((x >> 48) & 0xff) as u8,
        ((x >> 56) & 0xff) as u8,
    ]
}

/// The value read back from eight little-endian bytes.
pub open spec fn spec_le_to_u64(s: Seq<u8>) -> u64
    recommends
        s.len() == 8,
{
    (s[0] as u64) | ((s[1] as u64) << 8) | ((s[2] as u64) << 16) | ((s[3] as u64) << 24) | ((
    s[4] as u64) << 32) | ((s[5] as u64) << 40) | ((s[6] as u64) << 48) | ((s[7] as u64) << 56)
}

/// Decoding the little-endian bytes of a `u64` gives the value back.
pub proof fn lemma_u64_le_round_trip(x: u64)
    ensures
        spec_le_to_u64(spec_u64_le(x)) == x,
{
    assert((((x & 0xff) as u8) as u64) | (((((x >> 8) & 0xff) as u8) as u64) << 8) | (((((x
        >> 16) & 0xff) as u8) as u64) << 16) | (((((x >> 24) & 0xff) as u8) as u64) << 24) | ((((
    (x >> 32) & 0xff) as u8) as u64) << 32) | (((((x >> 40) & 0xff) as u8) as u64) << 40) | ((((
    (x >> 48) & 0xff) as u8) as u64) << 48) | (((((x >> 56) & 0xff) as u8) as u64) << 56) == x)
        by (bit_vector);
}

/// A log entry: a write of bytes at an offset, or a flush mark.
#[derive(Debug)]
pub enum LogEntry {
    Write { offset: u64, data: Vec<u8> },
    Flush { timestamp: u64 },
}

/// The mathematical model of a log entry.
#[verifier::ext_equal]
pub enum LogEntryModel {
    Write { offset: u64, data: Seq<u8> },
    Flush { timestamp: u64 },
}

impl View for LogEntry {
    type V = LogEntryModel;

    open spec fn view(&self) -> LogEntryModel {
        match self {
            LogEntry::Write { offset, data } => LogEntryModel::Write {
                offset: *offset,
                data: data@,
            },
            LogEntry::Flush { timestamp } => LogEntryModel::Flush { timestamp: *timestamp },
        }
    }
}

/// The serialized form: a write is its offset then its data; a flush is
/// its timestamp.  A write of no data is indistinguishable from a flush.
pub open spec fn spec_log_entry_bytes(e: LogEntryModel) -> Seq<u8> {
    match e {
        LogEntryModel::Write { offset, data } => spec_u64_le(offset) + data,
        LogEntryModel::Flush { timestamp } => spec_u64_le(timestamp),
    }
}

impl LogEntry {
    /// Serializes the entry.
    pub fn serialize(&self) -> (out: Vec<u8>)
        ensures
            out@ == spec_log_entry_bytes(self@),
    {
        match self {
            LogEntry::Write { offset, data } => {
                let mut out: Vec<u8> = push_u64_le_vec(*offset);
                crate::bytes::push_bytes(&mut out, data.as_slice());
                out
            },
            LogEntry::Flush { timestamp } => push_u64_le_vec(*timestamp),
        }
    }

    /// Reads an entry back: more than eight bytes is a write, exactly
    /// eight a flush.  Anything shorter does not decode.
    pub fn deserialize(bytes: &[u8]) -> (r: LogEntry)
        requires
            bytes@.len() >= 8,
        ensures
            bytes@.len() > 8 ==> r@ == (LogEntryModel::Write {
                offset: spec_le_to_u64(bytes@.subrange(0, 8)),
                data: bytes@.skip(8),
            }),
            bytes@.len() == 8 ==> r@ == (LogEntryModel::Flush {
                timestamp: spec_le_to_u64(bytes@.subrange(0, 8)),
            }),
    {
        let word: u64 = read_u64_le(bytes, 0);
        if bytes.len() > 8 {
            let n: usize = bytes.len();
            let data: Vec<u8> = crate::bytes::copy_range(bytes, 8, n - 8);
            proof {
                assert(bytes@.subrange(8, bytes@.len() as int) =~= bytes@.skip(8));
            }
            LogEntry::Write { offset: word, data }
        } else {
            LogEntry::Flush { timestamp: word }
        }
    }
}

/// The little-endian bytes of `x` as a fresh vector.
fn push_u64_le_vec(x: u64) -> (out: Vec<u8>)
    ensures
        out@ == spec_u64_le(x),
{
    let mut out: Vec<u8> = Vec::new();
    out.push((x & 0xff) as u8);
    out.push(((x >> 8) & 0xff) as u8);
    out.push(((x >> 16) & 0xff) as u8);
    out.push(((x >> 24) & 0xff) as u8);
    out.push(((x >> 32) & 0xff) as u8);
    out.push(((x >> 40) & 0xff) as u8);
    out.push(((x >> 48) & 0xff) as u8);
    out.push(((x >> 56) & 0xff) as u8);
    proof {
        assert(out@ =~= spec_u64_le(x));
    }
    out
}

/// Reads a little-endian `u64` from `bytes` at offset `at`.
fn read_u64_le(bytes: &[u8], at: usize) -> (r: u64)
    requires
        at + 8 <= bytes@.len(),
    ensures
        r == spec_le_to_u64(bytes@.subrange(at as int, at + 8)),
{
    let b0: u8 = bytes[at];
    let b1: u8 = bytes[at + 1];
    let b2: u8 = bytes[at + 2];
    let b3: u8 = bytes[at + 3];
    let b4: u8 = bytes[at + 4];
    let b5: u8 = bytes[at + 5];
    let b6: u8 = bytes[at + 6];
    let b7: u8 = bytes[at + 7];
    let ghost s = bytes@.subrange(at as int, at + 8);
    assert(s[0] == b0 && s[1] == b1 && s[2] == b2 && s[3] == b3 && s[4] == b4 && s[5] == b5
        && s[6] == b6 && s[7] == b7);
    (b0 as u64) | ((b1 as u64) << 8) | ((b2 as u64) << 16) | ((b3 as u64) << 24) | ((b4 as u64)
        << 32) | ((b5 as u64) << 40) | ((b6 as u64) << 48) | ((b7 as u64) << 56)
}

} // verus!
