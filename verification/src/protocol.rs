//! The wire codec of the request server: length-prefixed frames carrying
//! big-endian request and response bodies, and the round-trip laws that
//! decoding inverts encoding.

use vstd::prelude::*;
use vstd::string::StringSliceAdditionalSpecFns;
use vstd::utf8::{decode_utf8, encode_utf8, valid_utf8};

use crate::bytes::{
    push_bytes, push_u16_be, push_u32_be, push_u64_be, read_u16_be, read_u32_be, read_u64_be,
    spec_be_to_u16, spec_be_to_u32, spec_be_to_u64, spec_u16_be, spec_u32_be, spec_u64_be,
};
use crate::bytes::copy_range;

verus! {

/// The operation a request asks for; on the wire a numeric tag `1..=8`.
#[derive(Debug, Clone, Copy, PartialEq, Eq, Structural)]
pub enum DbfsOpType {
    BeginTx,
    WriteFile,
    CreateFile,
    DeleteFile,
    Mkdir,
    Readdir,
    CommitTx,
    RollbackTx,
}

/// The wire tag of an operation.
pub open spec fn spec_op_u8(op: DbfsOpType) -> u8 {
    match op {
        DbfsOpType::BeginTx => 1,
        DbfsOpType::WriteFile => 2,
        DbfsOpType::CreateFile => 3,
        DbfsOpType::DeleteFile => 4,
        DbfsOpType::Mkdir => 5,
        DbfsOpType::Readdir => 6,
        DbfsOpType::CommitTx => 7,
        DbfsOpType::RollbackTx => 8,
    }
}

/// Whether a byte is the tag of some operation.
pub open spec fn spec_valid_op_u8(b: u8) -> bool {
    1 <= b <= 8
}

/// The operation a tag byte stands for.
pub open spec fn spec_op_from_u8(b: u8) -> DbfsOpType
    recommends
        spec_valid_op_u8(b),
{
    if b == 1 {
        DbfsOpType::BeginTx
    } else if b == 2 {
        DbfsOpType::WriteFile
    } else if b == 3 {
        DbfsOpType::CreateFile
    } else if b == 4 {
        DbfsOpType::DeleteFile
    } else if b == 5 {
        DbfsOpType::Mkdir
    } else if b == 6 {
        DbfsOpType::Readdir
    } else if b == 7 {
        DbfsOpType::CommitTx
    } else {
        DbfsOpType::RollbackTx
    }
}

impl DbfsOpType {
    /// The operation a tag byte stands for, or `None` for an unknown tag.
    pub fn from_u8(val: u8) -> (r: Option<DbfsOpType>)
        ensures
            r is Some <==> spec_valid_op_u8(val),
            r is Some ==> r->0 == spec_op_from_u8(val),
    {
        match val {
            1 => Some(DbfsOpType::BeginTx),
            2 => Some(DbfsOpType::WriteFile),
            3 => Some(DbfsOpType::CreateFile),
            4 => Some(DbfsOpType::DeleteFile),
            5 => Some(DbfsOpType::Mkdir),
            6 => Some(DbfsOpType::Readdir),
            7 => Some(DbfsOpType::CommitTx),
            8 => Some(DbfsOpType::RollbackTx),
            _ => None,
        }
    }

    /// The wire tag of this operation.
    pub fn to_u8(self) -> (r: u8)
        ensures
            r == spec_op_u8(self),
    {
        match self {
            DbfsOpType::BeginTx => 1,
            DbfsOpType::WriteFile => 2,
            DbfsOpType::CreateFile => 3,
            DbfsOpType::DeleteFile => 4,
            DbfsOpType::Mkdir => 5,
            DbfsOpType::Readdir => 6,
            DbfsOpType::CommitTx => 7,
            DbfsOpType::RollbackTx => 8,
        }
    }
}

/// Tag encoding and decoding invert each other.
pub proof fn lemma_op_u8_round_trip(op: DbfsOpType)
    ensures
        spec_op_from_u8(spec_op_u8(op)) == op,
        spec_valid_op_u8(spec_op_u8(op)),
{
}

/// Protocol-level decode errors.  A decode error closes the connection.
#[derive(Debug, Clone, Copy, PartialEq, Eq, Structural)]
pub enum ProtocolError {
    /// The body is shorter than its fields claim.
    InvalidLength,
    /// An unknown operation tag.
    InvalidOpType,
    /// Path bytes that are not UTF-8.
    InvalidUtf8,
}

/// Frame-level errors: a frame must be non-empty and at most the maximum.
#[derive(Debug, Clone, Copy, PartialEq, Eq, Structural)]
pub enum FrameError {
    /// A frame of length zero.
    ShortFrame,
    /// A frame longer than the maximum.
    FrameTooLarge,
}

/// The largest frame body the server accepts: 10 MiB.
pub const MAX_FRAME_BYTES: u32 = 10 * 1024 * 1024;

/// Validates a frame length read from the four-byte prefix: zero is
/// `ShortFrame`, anything above 10 MiB is `FrameTooLarge`.
pub fn check_frame_len(len: u32) -> (r: Result<usize, FrameError>)
    ensures
        len == 0 ==> r == Err::<usize, FrameError>(FrameError::ShortFrame),
        len > MAX_FRAME_BYTES ==> r == Err::<usize, FrameError>(FrameError::FrameTooLarge),
        0 < len <= MAX_FRAME_BYTES ==> r == Ok::<usize, FrameError>(len as usize),
{
    if len == 0 {
        Err(FrameError::ShortFrame)
    } else if len > MAX_FRAME_BYTES {
        Err(FrameError::FrameTooLarge)
    } else {
        Ok(len as usize)
    }
}

/// A request: a transaction identifier, an operation, and the operation's
/// path, offset and data (zero and empty where the operation takes none).
#[derive(Debug)]
pub struct DbfsRequest {
    pub tx_id: u64,
    pub op_type: DbfsOpType,
    pub path: String,
    pub offset: u64,
    pub data: Vec<u8>,
}

/// The mathematical model of a request.
#[verifier::ext_equal]
pub struct ReqModel {
    pub tx_id: u64,
    pub op_type: DbfsOpType,
    pub path: Seq<char>,
    pub offset: u64,
    pub data: Seq<u8>,
}

impl View for DbfsRequest {
    type V = ReqModel;

    open spec fn view(&self) -> ReqModel {
        ReqModel {
            tx_id: self.tx_id,
            op_type: self.op_type,
            path: self.path@,
            offset: self.offset,
            data: self.data@,
        }
    }
}

/// Whether a request fits the wire format's length fields.
pub open spec fn req_wf(m: ReqModel) -> bool {
    &&& encode_utf8(m.path).len() <= u16::MAX
    &&& m.data.len() <= u32::MAX
}

/// The serialized request body:
/// `tx_id u64 | op u8 | path_len u16 | path | offset u64 | data_len u32 | data`.
pub open spec fn spec_request_bytes(m: ReqModel) -> Seq<u8>
    recommends
        req_wf(m),
{
    spec_u64_be(m.tx_id) + seq![spec_op_u8(m.op_type)] + spec_u16_be(
        encode_utf8(m.path).len() as u16,
    ) + encode_utf8(m.path) + spec_u64_be(m.offset) + spec_u32_be(m.data.len() as u32) + m.data
}

/// The outcome of decoding a request body.  Checks run in wire order:
/// overall length, operation tag, path length, path UTF-8 validity,
/// offset, data length, data; trailing bytes are ignored.
#[verifier::opaque]
pub open spec fn spec_parse_request(bytes: Seq<u8>) -> Result<ReqModel, ProtocolError> {
    if bytes.len() < 19 {
        Err(ProtocolError::InvalidLength)
    } else if !spec_valid_op_u8(bytes[8]) {
        Err(ProtocolError::InvalidOpType)
    } else {
        let plen = spec_be_to_u16(bytes.subrange(9, 11)) as int;
        if bytes.len() < 11 + plen {
            Err(ProtocolError::InvalidLength)
        } else {
            let pbytes = bytes.subrange(11, 11 + plen);
            if !valid_utf8(pbytes) {
                Err(ProtocolError::InvalidUtf8)
            } else if bytes.len() < 19 + plen {
                Err(ProtocolError::InvalidLength)
            } else if bytes.len() < 23 + plen {
                Err(ProtocolError::InvalidLength)
            } else {
                let dlen = spec_be_to_u32(bytes.subrange(19 + plen, 23 + plen)) as int;
                if bytes.len() < 23 + plen + dlen {
                    Err(ProtocolError::InvalidLength)
                } else {
                    Ok(ReqModel {
                        tx_id: spec_be_to_u64(bytes.subrange(0, 8)),
                        op_type: spec_op_from_u8(bytes[8]),
                        path: decode_utf8(pbytes),
                        offset: spec_be_to_u64(bytes.subrange(11 + plen, 19 + plen)),
                        data: bytes.subrange(23 + plen, 23 + plen + dlen),
                    })
                }
            }
        }
    }
}

/// Relies on `String::from_utf8`: it succeeds exactly on valid UTF-8, and
/// the returned string's bytes are the input bytes unchanged.
#[verifier::external_body]
fn bytes_to_string(bytes: Vec<u8>) -> (r: Option<String>)
    ensures
        r is Some <==> valid_utf8(bytes@),
        r matches Some(s) ==> encode_utf8(s@) == bytes@,
{
    match String::from_utf8(bytes) {
        Ok(s) => Some(s),
        Err(_) => None,
    }
}

impl DbfsRequest {
    /// Serializes the request to its wire body.
    pub fn serialize(&self) -> (out: Vec<u8>)
        requires
            req_wf(self@),
        ensures
            out@ == spec_request_bytes(self@),
    {
        let mut out: Vec<u8> = Vec::new();
        push_u64_be(&mut out, self.tx_id);
        out.push(self.op_type.to_u8());
        let path_bytes: &[u8] = self.path.as_str().as_bytes();
        push_u16_be(&mut out, path_bytes.len() as u16);
        push_bytes(&mut out, path_bytes);
        push_u64_be(&mut out, self.offset);
        push_u32_be(&mut out, self.data.len() as u32);
        push_bytes(&mut out, self.data.as_slice());
        proof {
            assert(out@ =~= spec_request_bytes(self@));
        }
        out
    }

    /// Decodes a request from a frame body, ignoring trailing bytes.
    pub fn deserialize(bytes: &[u8]) -> (r: Result<Self, ProtocolError>)
        ensures
            (match r {
                Ok(q) => spec_parse_request(bytes@) == Ok::<ReqModel, ProtocolError>(q@),
                Err(e) => spec_parse_request(bytes@) == Err::<ReqModel, ProtocolError>(e),
            }),
    {
        proof {
            reveal(spec_parse_request);
        }
        if bytes.len() < 19 {
            return Err(ProtocolError::InvalidLength);
        }
        let tx_id: u64 = read_u64_be(bytes, 0);
        let op_type: DbfsOpType = match DbfsOpType::from_u8(bytes[8]) {
            Some(op) => op,
            None => {
                return Err(ProtocolError::InvalidOpType);
            },
        };
        let path_len: usize = read_u16_be(bytes, 9) as usize;
        if path_len > bytes.len() - 11 {
            return Err(ProtocolError::InvalidLength);
        }
        let path_vec: Vec<u8> = copy_range(bytes, 11, path_len);
        let path: String = match bytes_to_string(path_vec) {
            Some(s) => s,
            None => {
                return Err(ProtocolError::InvalidUtf8);
            },
        };
        if bytes.len() - 11 - path_len < 8 {
            return Err(ProtocolError::InvalidLength);
        }
        let offset: u64 = read_u64_be(bytes, 11 + path_len);
        if bytes.len() - 19 - path_len < 4 {
            return Err(ProtocolError::InvalidLength);
        }
        let data_len: usize = read_u32_be(bytes, 19 + path_len) as usize;
        if data_len > bytes.len() - 23 - path_len {
            return Err(ProtocolError::InvalidLength);
        }
        let data: Vec<u8> = copy_range(bytes, 23 + path_len, data_len);
        proof {
            vstd::utf8::encode_utf8_decode_utf8(path@);
        }
        Ok(DbfsRequest { tx_id, op_type, path, offset, data })
    }
}

/// Decoding the serialized form of a well-formed request, with anything
/// after it, yields the request back: `decode(encode(q)) == Ok(q)`.
#[verifier::rlimit(60)]
pub proof fn lemma_request_round_trip(m: ReqModel, rest: Seq<u8>)
    requires
        req_wf(m),
    ensures
        spec_parse_request(spec_request_bytes(m) + rest) == Ok::<ReqModel, ProtocolError>(m),
{
    reveal(spec_parse_request);
    let bytes = spec_request_bytes(m) + rest;
    let pb = encode_utf8(m.path);
    let plen = pb.len() as int;
    assert(bytes.subrange(0, 8) =~= spec_u64_be(m.tx_id));
    assert(bytes[8] == spec_op_u8(m.op_type));
    assert(bytes.subrange(9, 11) =~= spec_u16_be(pb.len() as u16));
    assert(bytes.subrange(11, 11 + plen) =~= pb);
    assert(bytes.subrange(11 + plen, 19 + plen) =~= spec_u64_be(m.offset));
    assert(bytes.subrange(19 + plen, 23 + plen) =~= spec_u32_be(m.data.len() as u32));
    assert(bytes.subrange(23 + plen, 23 + plen + m.data.len() as int) =~= m.data);
    crate::bytes::lemma_u64_be_round_trip(m.tx_id);
    crate::bytes::lemma_u16_be_round_trip(pb.len() as u16);
    crate::bytes::lemma_u64_be_round_trip(m.offset);
    crate::bytes::lemma_u32_be_round_trip(m.data.len() as u32);
    lemma_op_u8_round_trip(m.op_type);
    vstd::utf8::encode_utf8_valid_utf8(m.path);
    vstd::utf8::encode_utf8_decode_utf8(m.path);
}

/// A response: the request's transaction identifier, a status (zero on
/// success, negative on error), an LSN, and the returned data.
#[derive(Debug)]
pub struct DbfsResponse {
    pub tx_id: u64,
    pub status: i32,
    pub lsn: u64,
    pub data: Vec<u8>,
}

/// The mathematical model of a response.
#[verifier::ext_equal]
pub struct RespModel {
    pub tx_id: u64,
    pub status: i32,
    pub lsn: u64,
    pub data: Seq<u8>,
}

impl View for DbfsResponse {
    type V = RespModel;

    open spec fn view(&self) -> RespModel {
        RespModel { tx_id: self.tx_id, status: self.status, lsn: self.lsn, data: self.data@ }
    }
}

/// Whether a response fits the wire format's length field.
pub open spec fn resp_wf(m: RespModel) -> bool {
    m.data.len() <= u32::MAX
}

/// The serialized response body:
/// `tx_id u64 | status i32 | lsn u64 | data_len u32 | data`.
pub open spec fn spec_response_bytes(m: RespModel) -> Seq<u8>
    recommends
        resp_wf(m),
{
    spec_u64_be(m.tx_id) + spec_u32_be(m.status as u32) + spec_u64_be(m.lsn) + spec_u32_be(
        m.data.len() as u32,
    ) + m.data
}

/// The outcome of decoding a response body; trailing bytes are ignored.
#[verifier::opaque]
pub open spec fn spec_parse_response(bytes: Seq<u8>) -> Result<RespModel, ProtocolError> {
    if bytes.len() < 24 {
        Err(ProtocolError::InvalidLength)
    } else {
        let dlen = spec_be_to_u32(bytes.subrange(20, 24)) as int;
        if bytes.len() < 24 + dlen {
            Err(ProtocolError::InvalidLength)
        } else {
            Ok(RespModel {
                tx_id: spec_be_to_u64(bytes.subrange(0, 8)),
                status: spec_be_to_u32(bytes.subrange(8, 12)) as i32,
                lsn: spec_be_to_u64(bytes.subrange(12, 20)),
                data: bytes.subrange(24, 24 + dlen),
            })
        }
    }
}

impl DbfsResponse {
    /// Serializes the response to its wire body.
    pub fn serialize(&self) -> (out: Vec<u8>)
        requires
            resp_wf(self@),
        ensures
            out@ == spec_response_bytes(self@),
    {
        let mut out: Vec<u8> = Vec::new();
        push_u64_be(&mut out, self.tx_id);
        push_u32_be(&mut out, self.status as u32);
        push_u64_be(&mut out, self.lsn);
        push_u32_be(&mut out, self.data.len() as u32);
        push_bytes(&mut out, self.data.as_slice());
        proof {
            assert(out@ =~= spec_response_bytes(self@));
        }
        out
    }

    /// Decodes a response from a frame body, ignoring trailing bytes.
    pub fn deserialize(bytes: &[u8]) -> (r: Result<Self, ProtocolError>)
        ensures
            (match r {
                Ok(q) => spec_parse_response(bytes@) == Ok::<RespModel, ProtocolError>(q@),
                Err(e) => spec_parse_response(bytes@) == Err::<RespModel, ProtocolError>(e),
            }),
    {
        proof {
            reveal(spec_parse_response);
        }
        if bytes.len() < 24 {
            return Err(ProtocolError::InvalidLength);
        }
        let tx_id: u64 = read_u64_be(bytes, 0);
        let status: i32 = read_u32_be(bytes, 8) as i32;
        let lsn: u64 = read_u64_be(bytes, 12);
        let data_len: usize = read_u32_be(bytes, 20) as usize;
        if data_len > bytes.len() - 24 {
            return Err(ProtocolError::InvalidLength);
        }
        let data: Vec<u8> = copy_range(bytes, 24, data_len);
        Ok(DbfsResponse { tx_id, status, lsn, data })
    }
}

/// Decoding the serialized form of a well-formed response, with anything
/// after it, yields the response back: `decode(encode(x)) == Ok(x)`.
pub proof fn lemma_response_round_trip(m: RespModel, rest: Seq<u8>)
    requires
        resp_wf(m),
    ensures
        spec_parse_response(spec_response_bytes(m) + rest) == Ok::<RespModel, ProtocolError>(m),
{
    reveal(spec_parse_response);
    let bytes = spec_response_bytes(m) + rest;
    assert(bytes.subrange(0, 8) =~= spec_u64_be(m.tx_id));
    assert(bytes.subrange(8, 12) =~= spec_u32_be(m.status as u32));
    assert(bytes.subrange(12, 20) =~= spec_u64_be(m.lsn));
    assert(bytes.subrange(20, 24) =~= spec_u32_be(m.data.len() as u32));
    assert(bytes.subrange(24, 24 + m.data.len() as int) =~= m.data);
    crate::bytes::lemma_u64_be_round_trip(m.tx_id);
    crate::bytes::lemma_u32_be_round_trip(m.status as u32);
    crate::bytes::lemma_u64_be_round_trip(m.lsn);
    crate::bytes::lemma_u32_be_round_trip(m.data.len() as u32);
    let st = m.status;
    assert((st as u32) as i32 == st) by (bit_vector);
}

} // verus!
