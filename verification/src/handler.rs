//! The request server core: a per-session handler that decodes requests,
//! dispatches them to the filesystem under the session's transaction
//! context, and encodes responses.  Socket work stays outside; this module
//! is a pure step function from state and request to state and response.

use vstd::prelude::*;
use vstd::utf8::encode_utf8;

use crate::bytes::{push_bytes, push_u32_be, spec_u32_be};
use crate::errors::DbfsError;
use crate::fs::{
    dir_entries_of, find_entry, fs_created, fs_unlinked, fs_written, spec_dot, spec_dotdot,
    spec_reserved_name, spec_resolve, spec_resolve_parent, spec_storable_name, Dbfs, FsModel,
    NodeKind,
};
use crate::protocol::{
    spec_parse_request, spec_response_bytes, DbfsOpType, DbfsRequest, DbfsResponse,
    ProtocolError, ReqModel, RespModel, MAX_FRAME_BYTES,
};
use crate::wal::{flushed, wal_appended, TxId, WalModel, WalRecordType};

verus! {

/// The negative wire status of an error kind.
pub open spec fn spec_error_status(e: DbfsError) -> i32 {
    match e {
        DbfsError::NoEntry => -2i32,
        DbfsError::Io => -5i32,
        DbfsError::Exists => -17i32,
        DbfsError::NotDir => -20i32,
        DbfsError::IsDir => -21i32,
        DbfsError::InvalidArgument => -22i32,
        DbfsError::NoTx => -38i32,
        DbfsError::Unsupported => -95i32,
        DbfsError::Corrupt => -117i32,
    }
}

/// Maps an error kind onto its negative wire status.
pub fn error_status(e: DbfsError) -> (r: i32)
    ensures
        r == spec_error_status(e),
        r < 0,
{
    match e {
        DbfsError::NoEntry => -2,
        DbfsError::Io => -5,
        DbfsError::Exists => -17,
        DbfsError::NotDir => -20,
        DbfsError::IsDir => -21,
        DbfsError::InvalidArgument => -22,
        DbfsError::NoTx => -38,
        DbfsError::Unsupported => -95,
        DbfsError::Corrupt => -117,
    }
}

/// A success response: status zero.
pub open spec fn resp_ok(req_tx: u64, lsn: u64, data: Seq<u8>) -> RespModel {
    RespModel { tx_id: req_tx, status: 0, lsn, data }
}

/// An error response: the error's negative status, LSN zero, no data.
pub open spec fn resp_err(req_tx: u64, e: DbfsError) -> RespModel {
    RespModel { tx_id: req_tx, status: spec_error_status(e), lsn: 0, data: Seq::empty() }
}

/// What one dispatched request leaves behind: the session's transaction
/// context, the filesystem, and the response.
#[verifier::ext_equal]
pub struct StepOutcome {
    pub current: Option<u64>,
    pub fs: FsModel,
    pub resp: RespModel,
}

// ---------------------------------------------------------------------------
// JSON encoding of directory listings
// ---------------------------------------------------------------------------

/// The lower hex digit character of a nibble.
pub open spec fn spec_hex_digit(n: u8) -> u8
    recommends
        n < 16,
{
    if n < 10 {
        (0x30 + n) as u8
    } else {
        (0x61 + (n - 10)) as u8
    }
}

/// The JSON escape of one byte inside a string literal: quotes and
/// backslashes are escaped, control bytes become `\u00XX`, everything else
/// passes through.
pub open spec fn spec_json_escape_byte(b: u8) -> Seq<u8> {
    if b == 0x22 {
        seq![0x5cu8, 0x22u8]
    } else if b == 0x5c {
        seq![0x5cu8, 0x5cu8]
    } else if b < 0x20 {
        seq![0x5cu8, 0x75u8, 0x30u8, 0x30u8, spec_hex_digit(b / 16), spec_hex_digit(b % 16)]
    } else {
        seq![b]
    }
}

/// The JSON escape of a byte string.
pub open spec fn spec_json_escape(s: Seq<u8>) -> Seq<u8>
    decreases s.len(),
{
    if s.len() == 0 {
        Seq::empty()
    } else {
        spec_json_escape_byte(s.first()) + spec_json_escape(s.drop_first())
    }
}

/// A JSON string literal: the escaped bytes in double quotes.
pub open spec fn spec_json_quoted(s: Seq<u8>) -> Seq<u8> {
    seq![0x22u8] + spec_json_escape(s) + seq![0x22u8]
}

/// The comma-joined JSON string literals of a name list.
pub open spec fn spec_json_inner(names: Seq<Seq<u8>>) -> Seq<u8>
    decreases names.len(),
{
    if names.len() == 0 {
        Seq::empty()
    } else if names.len() == 1 {
        spec_json_quoted(names.first())
    } else {
        spec_json_quoted(names.first()) + seq![0x2cu8] + spec_json_inner(names.drop_first())
    }
}

/// A JSON array of the given names.
pub open spec fn spec_json_name_list(names: Seq<Seq<u8>>) -> Seq<u8> {
    seq![0x5bu8] + spec_json_inner(names) + seq![0x5du8]
}

/// Appends the JSON escape of `name` to `out`.
fn push_json_escaped(out: &mut Vec<u8>, name: &[u8])
    ensures
        final(out)@ == old(out)@ + spec_json_escape(name@),
{
    let mut i: usize = 0;
    proof {
        assert(name@.skip(0) =~= name@);
        assert(old(out)@ + Seq::<u8>::empty() =~= old(out)@);
    }
    while i < name.len()
        invariant
            i <= name@.len(),
            out@ + spec_json_escape(name@.skip(i as int)) == old(out)@ + spec_json_escape(name@),
        decreases name@.len() - i,
    {
        let ghost rem = name@.skip(i as int);
        proof {
            assert(rem.first() == name@[i as int]);
            assert(rem.drop_first() =~= name@.skip(i + 1));
        }
        let b: u8 = name[i];
        let ghost before = out@;
        if b == 0x22 {
            out.push(0x5c);
            out.push(0x22);
        } else if b == 0x5c {
            out.push(0x5c);
            out.push(0x5c);
        } else if b < 0x20 {
            out.push(0x5c);
            out.push(0x75);
            out.push(0x30);
            out.push(0x30);
            let hi: u8 = b / 16;
            let lo: u8 = b % 16;
            out.push(
                if hi < 10 {
                    0x30 + hi
                } else {
                    0x61 + (hi - 10)
                },
            );
            out.push(
                if lo < 10 {
                    0x30 + lo
                } else {
                    0x61 + (lo - 10)
                },
            );
        } else {
            out.push(b);
        }
        proof {
            assert(out@ =~= before + spec_json_escape_byte(b));
            assert(out@ + spec_json_escape(name@.skip(i + 1)) =~= before + spec_json_escape(
                rem,
            ));
        }
        i = i + 1;
    }
    proof {
        assert(name@.skip(name@.len() as int) =~= Seq::<u8>::empty());
        assert(final(out)@ + Seq::<u8>::empty() =~= final(out)@);
    }
}

/// The names of a list of directory entries.
pub open spec fn entry_names(es: Seq<crate::fs::EntryModel>) -> Seq<Seq<u8>> {
    Seq::new(es.len(), |i: int| es[i].name)
}

/// Encodes a directory listing as a UTF-8 JSON array of names.
fn encode_json_names(entries: &Vec<crate::fs::DirEntry>) -> (out: Vec<u8>)
    ensures
        out@ == spec_json_name_list(entry_names(crate::fs::entry_views(entries@))),
{
    let ghost names = entry_names(crate::fs::entry_views(entries@));
    let mut out: Vec<u8> = Vec::new();
    out.push(0x5b);
    let mut i: usize = 0;
    proof {
        assert(names.skip(0) =~= names);
    }
    while i < entries.len()
        invariant
            i <= entries@.len(),
            names == entry_names(crate::fs::entry_views(entries@)),
            out@ + spec_json_inner(names.skip(i as int)) == seq![0x5bu8] + spec_json_inner(
                names,
            ),
        decreases entries@.len() - i,
    {
        let ghost rem = names.skip(i as int);
        proof {
            assert(rem.first() == names[i as int]);
            assert(rem.drop_first() =~= names.skip(i + 1));
            assert(names[i as int] == entries@[i as int]@.name);
        }
        let ghost before = out@;
        out.push(0x22);
        push_json_escaped(&mut out, entries[i].name.as_slice());
        out.push(0x22);
        proof {
            assert(out@ =~= before + spec_json_quoted(names[i as int]));
        }
        if i + 1 < entries.len() {
            out.push(0x2c);
            proof {
                assert(rem.len() >= 2);
                assert(out@ + spec_json_inner(names.skip(i + 1)) =~= before + spec_json_inner(
                    rem,
                ));
            }
        } else {
            proof {
                assert(rem.len() == 1);
                assert(spec_json_inner(names.skip(i + 1)) =~= Seq::<u8>::empty());
                assert(out@ + spec_json_inner(names.skip(i + 1)) =~= before + spec_json_inner(
                    rem,
                ));
            }
        }
        i = i + 1;
    }
    proof {
        assert(names.skip(names.len() as int) =~= Seq::<Seq<u8>>::empty());
        assert(spec_json_inner(Seq::<Seq<u8>>::empty()) == Seq::<u8>::empty());
        assert(out@ =~= seq![0x5bu8] + spec_json_inner(names));
    }
    out.push(0x5d);
    proof {
        assert(out@ =~= spec_json_name_list(names));
    }
    out
}

// ---------------------------------------------------------------------------
// The dispatch specification
// ---------------------------------------------------------------------------

/// The lookup outcome of `name` in `parent`, mirroring `Dbfs::lookup`.
pub open spec fn spec_lookup(fs: FsModel, parent: u64, name: Seq<u8>) -> Result<u64, DbfsError> {
    if !fs.is_dir(parent) {
        Err(DbfsError::NotDir)
    } else if name == spec_dot() {
        Ok(parent)
    } else if name == spec_dotdot() {
        Ok(fs.inode(parent).parent)
    } else {
        match find_entry(dir_entries_of(fs.inode(parent)), name) {
            Some(e) => Ok(e.ino),
            None => Err(DbfsError::NoEntry),
        }
    }
}

/// `BeginTx`: allocates a fresh transaction, installs it as the session's
/// context, and reports the allocated identifier in the `lsn` field.
pub open spec fn step_begin(fs: FsModel, req: ReqModel) -> StepOutcome {
    let tx = fs.wal.next_tx_id;
    StepOutcome {
        current: Some(tx),
        fs: FsModel {
            wal: WalModel {
                next_tx_id: (tx + 1) as u64,
                ..wal_appended(fs.wal, tx, WalRecordType::TxBegin, Seq::empty())
            },
            ..fs
        },
        resp: resp_ok(req.tx_id, tx, Seq::empty()),
    }
}

/// `CommitTx`: only the session's active transaction may commit; the
/// response's `lsn` is the commit marker's LSN and the commit is durable
/// before the response exists.
pub open spec fn step_commit(current: Option<u64>, fs: FsModel, req: ReqModel) -> StepOutcome {
    if current matches Some(t) && t == req.tx_id {
        StepOutcome {
            current: None,
            fs: FsModel {
                wal: flushed(
                    wal_appended(fs.wal, req.tx_id, WalRecordType::TxCommit, Seq::empty()),
                ),
                ..fs
            },
            resp: resp_ok(req.tx_id, fs.wal.next_lsn, Seq::empty()),
        }
    } else {
        StepOutcome { current, fs, resp: resp_err(req.tx_id, DbfsError::NoTx) }
    }
}

/// `RollbackTx`: only the session's active transaction may roll back; no
/// flush is forced.
pub open spec fn step_rollback(current: Option<u64>, fs: FsModel, req: ReqModel) -> StepOutcome {
    if current matches Some(t) && t == req.tx_id {
        StepOutcome {
            current: None,
            fs: FsModel {
                wal: wal_appended(fs.wal, req.tx_id, WalRecordType::TxRollback, Seq::empty()),
                ..fs
            },
            resp: resp_ok(req.tx_id, 0, Seq::empty()),
        }
    } else {
        StepOutcome { current, fs, resp: resp_err(req.tx_id, DbfsError::NoTx) }
    }
}

/// The machine-limit checks a creation makes before touching the tree.
pub open spec fn create_limits_ok(fs: FsModel, parent: u64, name: Seq<u8>) -> bool {
    &&& fs.inodes.len() + 1 < u64::MAX
    &&& (fs.is_dir(parent) ==> fs.inode(parent).path.len() + 1 + name.len() <= u32::MAX)
}

/// `CreateFile` and `Mkdir`: need an active transaction; resolve the
/// parent, then create under it.
pub open spec fn step_create(
    current: Option<u64>,
    fs: FsModel,
    req: ReqModel,
    kind: NodeKind,
) -> StepOutcome {
    if current is None {
        StepOutcome { current, fs, resp: resp_err(req.tx_id, DbfsError::NoTx) }
    } else {
        let t = current->0;
        match spec_resolve_parent(fs, encode_utf8(req.path)) {
            Err(e) => StepOutcome { current, fs, resp: resp_err(req.tx_id, e) },
            Ok((parent, name)) => if !create_limits_ok(fs, parent, name) {
                StepOutcome { current, fs, resp: resp_err(req.tx_id, DbfsError::InvalidArgument) }
            } else if !fs.is_dir(parent) {
                StepOutcome { current, fs, resp: resp_err(req.tx_id, DbfsError::NotDir) }
            } else if !spec_storable_name(name) {
                StepOutcome { current, fs, resp: resp_err(req.tx_id, DbfsError::InvalidArgument) }
            } else if spec_reserved_name(name) {
                StepOutcome { current, fs, resp: resp_err(req.tx_id, DbfsError::Exists) }
            } else if find_entry(dir_entries_of(fs.inode(parent)), name) is Some {
                StepOutcome { current, fs, resp: resp_err(req.tx_id, DbfsError::Exists) }
            } else {
                StepOutcome {
                    current,
                    fs: fs_created(fs, t, parent, name, kind),
                    resp: resp_ok(req.tx_id, 0, Seq::empty()),
                }
            },
        }
    }
}

/// `DeleteFile`: needs an active transaction; resolves the parent and
/// unlinks the name.
pub open spec fn step_delete(current: Option<u64>, fs: FsModel, req: ReqModel) -> StepOutcome {
    if current is None {
        StepOutcome { current, fs, resp: resp_err(req.tx_id, DbfsError::NoTx) }
    } else {
        let t = current->0;
        match spec_resolve_parent(fs, encode_utf8(req.path)) {
            Err(e) => StepOutcome { current, fs, resp: resp_err(req.tx_id, e) },
            Ok((parent, name)) => if !(fs.is_dir(parent) ==> fs.inode(parent).path.len() + 1
                + name.len() <= u32::MAX) {
                StepOutcome { current, fs, resp: resp_err(req.tx_id, DbfsError::InvalidArgument) }
            } else if !fs.is_dir(parent) {
                StepOutcome { current, fs, resp: resp_err(req.tx_id, DbfsError::NotDir) }
            } else if spec_reserved_name(name) {
                StepOutcome { current, fs, resp: resp_err(req.tx_id, DbfsError::Exists) }
            } else if find_entry(dir_entries_of(fs.inode(parent)), name) is None {
                StepOutcome { current, fs, resp: resp_err(req.tx_id, DbfsError::NoEntry) }
            } else {
                StepOutcome {
                    current,
                    fs: fs_unlinked(fs, t, parent, name),
                    resp: resp_ok(req.tx_id, 0, Seq::empty()),
                }
            },
        }
    }
}

/// The write-into-a-file tail of `WriteFile`, once the target is known.
pub open spec fn step_write_into(
    current: Option<u64>,
    t: u64,
    fs: FsModel,
    req: ReqModel,
    ino: u64,
) -> StepOutcome {
    if !fs.has_ino(ino) {
        StepOutcome { current, fs, resp: resp_err(req.tx_id, DbfsError::NoEntry) }
    } else if !fs.is_file(ino) {
        StepOutcome { current, fs, resp: resp_err(req.tx_id, DbfsError::IsDir) }
    } else if 14 + fs.inode(ino).path.len() + req.data.len() > u32::MAX {
        StepOutcome { current, fs, resp: resp_err(req.tx_id, DbfsError::InvalidArgument) }
    } else if req.offset + req.data.len() > usize::MAX {
        StepOutcome { current, fs, resp: resp_err(req.tx_id, DbfsError::InvalidArgument) }
    } else {
        StepOutcome {
            current,
            fs: fs_written(fs, t, ino, req.offset, req.data),
            resp: resp_ok(req.tx_id, 0, Seq::empty()),
        }
    }
}

/// `WriteFile`: needs an active transaction.  An existing file is written
/// in place; a missing final component in an existing directory is created
/// as a file first, then written.
pub open spec fn step_write(current: Option<u64>, fs: FsModel, req: ReqModel) -> StepOutcome {
    if current is None {
        StepOutcome { current, fs, resp: resp_err(req.tx_id, DbfsError::NoTx) }
    } else {
        let t = current->0;
        match spec_resolve_parent(fs, encode_utf8(req.path)) {
            Err(e) => StepOutcome { current, fs, resp: resp_err(req.tx_id, e) },
            Ok((parent, name)) => match spec_lookup(fs, parent, name) {
                Ok(ino) => step_write_into(current, t, fs, req, ino),
                Err(DbfsError::NoEntry) => if !create_limits_ok(fs, parent, name) {
                    StepOutcome {
                        current,
                        fs,
                        resp: resp_err(req.tx_id, DbfsError::InvalidArgument),
                    }
                } else if !spec_storable_name(name) {
                    StepOutcome {
                        current,
                        fs,
                        resp: resp_err(req.tx_id, DbfsError::InvalidArgument),
                    }
                } else {
                    let fs2 = fs_created(fs, t, parent, name, NodeKind::File);
                    let new_ino = (fs.inodes.len() + 1) as u64;
                    step_write_into(current, t, fs2, req, new_ino)
                },
                Err(e) => StepOutcome { current, fs, resp: resp_err(req.tx_id, e) },
            },
        }
    }
}

/// `Readdir`: read-only, no transaction needed; resolves the path and
/// lists the directory as a JSON array of names.
pub open spec fn step_readdir(current: Option<u64>, fs: FsModel, req: ReqModel) -> StepOutcome {
    match spec_resolve(fs, encode_utf8(req.path)) {
        Err(e) => StepOutcome { current, fs, resp: resp_err(req.tx_id, e) },
        Ok(ino) => if !fs.is_dir(ino) {
            StepOutcome { current, fs, resp: resp_err(req.tx_id, DbfsError::NotDir) }
        } else {
            StepOutcome {
                current,
                fs,
                resp: resp_ok(
                    req.tx_id,
                    0,
                    spec_json_name_list(entry_names(dir_entries_of(fs.inode(ino)))),
                ),
            }
        },
    }
}

/// What one request does to the session, the filesystem and the wire.
pub open spec fn spec_handle(current: Option<u64>, fs: FsModel, req: ReqModel) -> StepOutcome {
    match req.op_type {
        DbfsOpType::BeginTx => step_begin(fs, req),
        DbfsOpType::WriteFile => step_write(current, fs, req),
        DbfsOpType::CreateFile => step_create(current, fs, req, NodeKind::File),
        DbfsOpType::DeleteFile => step_delete(current, fs, req),
        DbfsOpType::Mkdir => step_create(current, fs, req, NodeKind::Dir),
        DbfsOpType::Readdir => step_readdir(current, fs, req),
        DbfsOpType::CommitTx => step_commit(current, fs, req),
        DbfsOpType::RollbackTx => step_rollback(current, fs, req),
    }
}

/// One frame served: decode, dispatch, cap an oversized listing, frame
/// the response behind its four-byte length prefix.
pub open spec fn spec_handle_frame(current: Option<u64>, fs: FsModel, body: Seq<u8>) -> Result<
    (Option<u64>, FsModel, Seq<u8>),
    ProtocolError,
> {
    match spec_parse_request(body) {
        Err(e) => Err(e),
        Ok(req) => {
            let out = spec_handle(current, fs, req);
            let resp2 = if out.resp.data.len() + 24 > MAX_FRAME_BYTES {
                resp_err(req.tx_id, DbfsError::InvalidArgument)
            } else {
                out.resp
            };
            let body_bytes = spec_response_bytes(resp2);
            Ok((out.current, out.fs, spec_u32_be(body_bytes.len() as u32) + body_bytes))
        },
    }
}

/// The recognized server options: where to bind, which backing store the
/// log uses (`":memory:"` selects the in-memory backend), the largest
/// accepted frame, the socket read timeout, and the client cap (zero for
/// unbounded).
pub struct ServerConfig {
    pub listen_addr: String,
    pub wal_path: String,
    pub max_frame_bytes: u32,
    pub read_timeout_ms: u64,
    pub max_concurrent_clients: u64,
}

impl Default for ServerConfig {
    /// The defaults: a local address, the in-memory backend, 10 MiB
    /// frames, a five-second read timeout, and no client cap.
    fn default() -> (r: Self)
        ensures
            r.listen_addr@ == ("127.0.0.1:12345")@,
            r.wal_path@ == (":memory:")@,
            r.max_frame_bytes == MAX_FRAME_BYTES,
            r.read_timeout_ms == 5000,
            r.max_concurrent_clients == 0,
    {
        ServerConfig {
            listen_addr: "127.0.0.1:12345".to_owned(),
            wal_path: ":memory:".to_owned(),
            max_frame_bytes: MAX_FRAME_BYTES,
            read_timeout_ms: 5000,
            max_concurrent_clients: 0,
        }
    }
}

// ---------------------------------------------------------------------------
// The handler
// ---------------------------------------------------------------------------

/// A per-session request handler: holds the session's transaction context
/// and dispatches requests to the filesystem.
pub struct ElleRequestHandlerReal {
    /// The session's active transaction, if any.
    pub current_tx: Option<TxId>,
}

impl ElleRequestHandlerReal {
    /// The session's transaction context as a plain value.
    pub open spec fn current_model(&self) -> Option<u64> {
        match self.current_tx {
            Some(t) => Some(t.0),
            None => None,
        }
    }

    /// A fresh session: no active transaction.
    pub fn new() -> (r: Self)
        ensures
            r.current_model() is None,
    {
        ElleRequestHandlerReal { current_tx: None }
    }

    /// Dispatches one request under this session's transaction context,
    /// per `spec_handle`.
    pub fn handle_request(&mut self, fs: &mut Dbfs, req: &DbfsRequest) -> (resp: DbfsResponse)
        requires
            old(fs)@.wf(),
            old(fs)@.wal.next_lsn + 1 < u64::MAX,
            old(fs)@.wal.next_tx_id < u64::MAX,
        ensures
            ({
                let out = spec_handle(old(self).current_model(), old(fs)@, req@);
                &&& final(self).current_model() == out.current
                &&& final(fs)@ == out.fs
                &&& resp@ == out.resp
            }),
            final(fs)@.wf(),
    {
        match req.op_type {
            DbfsOpType::BeginTx => {
                let tx: TxId = fs.begin_tx();
                self.current_tx = Some(tx);
                let resp = DbfsResponse {
                    tx_id: req.tx_id,
                    status: 0,
                    lsn: tx.value(),
                    data: Vec::new(),
                };
                proof {
                    assert(resp@ =~= resp_ok(req@.tx_id, tx.0, Seq::<u8>::empty()));
                }
                resp
            },
            DbfsOpType::CommitTx => {
                let matched: bool = match &self.current_tx {
                    Some(t) => t.value() == req.tx_id,
                    None => false,
                };
                if matched {
                    let lsn: u64 = fs.next_lsn();
                    let r = fs.commit_tx(TxId::new(req.tx_id));
                    self.current_tx = None;
                    proof {
                        assert(r is Ok);
                    }
                    let resp = DbfsResponse { tx_id: req.tx_id, status: 0, lsn, data: Vec::new() };
                    proof {
                        assert(resp@ =~= resp_ok(req@.tx_id, lsn, Seq::<u8>::empty()));
                    }
                    resp
                } else {
                    self.error_response(req, DbfsError::NoTx)
                }
            },
            DbfsOpType::RollbackTx => {
                let matched: bool = match &self.current_tx {
                    Some(t) => t.value() == req.tx_id,
                    None => false,
                };
                if matched {
                    fs.rollback_tx(TxId::new(req.tx_id));
                    self.current_tx = None;
                    let resp = DbfsResponse { tx_id: req.tx_id, status: 0, lsn: 0, data: Vec::new() };
                    proof {
                        assert(resp@ =~= resp_ok(req@.tx_id, 0, Seq::<u8>::empty()));
                    }
                    resp
                } else {
                    self.error_response(req, DbfsError::NoTx)
                }
            },
            DbfsOpType::CreateFile => self.handle_create(fs, req, NodeKind::File),
            DbfsOpType::Mkdir => self.handle_create(fs, req, NodeKind::Dir),
            DbfsOpType::DeleteFile => self.handle_delete(fs, req),
            DbfsOpType::WriteFile => self.handle_write(fs, req),
            DbfsOpType::Readdir => self.handle_readdir(fs, req),
        }
    }

    /// Builds the error response for a request.
    fn error_response(&self, req: &DbfsRequest, e: DbfsError) -> (resp: DbfsResponse)
        ensures
            resp@ == resp_err(req@.tx_id, e),
    {
        let resp = DbfsResponse {
            tx_id: req.tx_id,
            status: error_status(e),
            lsn: 0,
            data: Vec::new(),
        };
        proof {
            assert(resp@ =~= resp_err(req@.tx_id, e));
        }
        resp
    }

    /// `CreateFile` / `Mkdir` dispatch.
    fn handle_create(&mut self, fs: &mut Dbfs, req: &DbfsRequest, kind: NodeKind) -> (resp:
        DbfsResponse)
        requires
            old(fs)@.wf(),
            old(fs)@.wal.next_lsn < u64::MAX,
        ensures
            ({
                let out = step_create(old(self).current_model(), old(fs)@, req@, kind);
                &&& final(self).current_model() == out.current
                &&& final(fs)@ == out.fs
                &&& resp@ == out.resp
            }),
            final(fs)@.wf(),
            final(self).current_model() == old(self).current_model(),
    {
        let t: TxId = match &self.current_tx {
            Some(t) => *t,
            None => {
                return self.error_response(req, DbfsError::NoTx);
            },
        };
        let path_bytes: &[u8] = req.path.as_str().as_bytes();
        let (parent, name): (u64, Vec<u8>) = match fs.resolve_parent(path_bytes) {
            Ok(p) => p,
            Err(e) => {
                return self.error_response(req, e);
            },
        };
        // Machine limits: the tree must have room for one more inode and
        // the child's absolute path must fit a record payload.
        if fs.inode_count() as u64 >= u64::MAX - 1 {
            return self.error_response(req, DbfsError::InvalidArgument);
        }
        let plen: usize = match fs.path_len(parent) {
            Ok(n) => n,
            Err(_) => {
                proof {
                    assert(false);
                }
                return self.error_response(req, DbfsError::NoEntry);
            },
        };
        let is_dir_parent: bool = matches!(fs.node_kind_of(parent), Some(NodeKind::Dir));
        let path_fits: bool = plen as u64 <= u32::MAX as u64 - 1 && name.len() as u64 <= u32::MAX
            as u64 - 1 - plen as u64;
        proof {
            assert(path_fits == (plen + 1 + name@.len() <= u32::MAX));
        }
        if is_dir_parent && !path_fits {
            return self.error_response(req, DbfsError::InvalidArgument);
        }
        match fs.create(t, parent, name.as_slice(), kind) {
            Ok(_) => {
                let resp = DbfsResponse { tx_id: req.tx_id, status: 0, lsn: 0, data: Vec::new() };
                proof {
                    assert(resp@ =~= resp_ok(req@.tx_id, 0, Seq::<u8>::empty()));
                }
                resp
            },
            Err(e) => self.error_response(req, e),
        }
    }

    /// `DeleteFile` dispatch.
    fn handle_delete(&mut self, fs: &mut Dbfs, req: &DbfsRequest) -> (resp: DbfsResponse)
        requires
            old(fs)@.wf(),
            old(fs)@.wal.next_lsn < u64::MAX,
        ensures
            ({
                let out = step_delete(old(self).current_model(), old(fs)@, req@);
                &&& final(self).current_model() == out.current
                &&& final(fs)@ == out.fs
                &&& resp@ == out.resp
            }),
            final(fs)@.wf(),
            final(self).current_model() == old(self).current_model(),
    {
        let t: TxId = match &self.current_tx {
            Some(t) => *t,
            None => {
                return self.error_response(req, DbfsError::NoTx);
            },
        };
        let path_bytes: &[u8] = req.path.as_str().as_bytes();
        let (parent, name): (u64, Vec<u8>) = match fs.resolve_parent(path_bytes) {
            Ok(p) => p,
            Err(e) => {
                return self.error_response(req, e);
            },
        };
        let plen: usize = match fs.path_len(parent) {
            Ok(n) => n,
            Err(_) => {
                proof {
                    assert(false);
                }
                return self.error_response(req, DbfsError::NoEntry);
            },
        };
        let is_dir_parent: bool = matches!(fs.node_kind_of(parent), Some(NodeKind::Dir));
        let path_fits: bool = plen as u64 <= u32::MAX as u64 - 1 && name.len() as u64 <= u32::MAX
            as u64 - 1 - plen as u64;
        proof {
            assert(path_fits == (plen + 1 + name@.len() <= u32::MAX));
        }
        if is_dir_parent && !path_fits {
            return self.error_response(req, DbfsError::InvalidArgument);
        }
        match fs.unlink(t, parent, name.as_slice()) {
            Ok(_) => {
                let resp = DbfsResponse { tx_id: req.tx_id, status: 0, lsn: 0, data: Vec::new() };
                proof {
                    assert(resp@ =~= resp_ok(req@.tx_id, 0, Seq::<u8>::empty()));
                }
                resp
            },
            Err(e) => self.error_response(req, e),
        }
    }

    /// `WriteFile` dispatch: writes an existing file, creating a missing
    /// final component first.
    fn handle_write(&mut self, fs: &mut Dbfs, req: &DbfsRequest) -> (resp: DbfsResponse)
        requires
            old(fs)@.wf(),
            old(fs)@.wal.next_lsn + 1 < u64::MAX,
        ensures
            ({
                let out = step_write(old(self).current_model(), old(fs)@, req@);
                &&& final(self).current_model() == out.current
                &&& final(fs)@ == out.fs
                &&& resp@ == out.resp
            }),
            final(fs)@.wf(),
            final(self).current_model() == old(self).current_model(),
    {
        let t: TxId = match &self.current_tx {
            Some(t) => *t,
            None => {
                return self.error_response(req, DbfsError::NoTx);
            },
        };
        let path_bytes: &[u8] = req.path.as_str().as_bytes();
        let (parent, name): (u64, Vec<u8>) = match fs.resolve_parent(path_bytes) {
            Ok(p) => p,
            Err(e) => {
                return self.error_response(req, e);
            },
        };
        match fs.lookup(parent, name.as_slice()) {
            Ok(ino) => self.write_into(fs, req, t, ino),
            Err(DbfsError::NoEntry) => {
                if fs.inode_count() as u64 >= u64::MAX - 1 {
                    return self.error_response(req, DbfsError::InvalidArgument);
                }
                let plen: usize = match fs.path_len(parent) {
                    Ok(n) => n,
                    Err(_) => {
                        proof {
                            assert(false);
                        }
                        return self.error_response(req, DbfsError::NoEntry);
                    },
                };
                let path_fits: bool = plen as u64 <= u32::MAX as u64 - 1 && name.len()
                    as u64 <= u32::MAX as u64 - 1 - plen as u64;
                proof {
                    assert(path_fits == (plen + 1 + name@.len() <= u32::MAX));
                }
                if !path_fits {
                    return self.error_response(req, DbfsError::InvalidArgument);
                }
                if !crate::fs::is_storable_name(name.as_slice()) {
                    return self.error_response(req, DbfsError::InvalidArgument);
                }
                match fs.create(t, parent, name.as_slice(), NodeKind::File) {
                    Ok(new_ino) => self.write_into(fs, req, t, new_ino),
                    Err(e) => {
                        proof {
                            assert(false);
                        }
                        self.error_response(req, e)
                    },
                }
            },
            Err(e) => self.error_response(req, e),
        }
    }

    /// Writes the request's data into a known inode.
    fn write_into(&mut self, fs: &mut Dbfs, req: &DbfsRequest, t: TxId, ino: u64) -> (resp:
        DbfsResponse)
        requires
            old(fs)@.wf(),
            old(fs)@.wal.next_lsn < u64::MAX,
        ensures
            ({
                let out = step_write_into(
                    old(self).current_model(),
                    t.0,
                    old(fs)@,
                    req@,
                    ino,
                );
                &&& final(self).current_model() == out.current
                &&& final(fs)@ == out.fs
                &&& resp@ == out.resp
            }),
            final(fs)@.wf(),
            final(self).current_model() == old(self).current_model(),
    {
        let count: usize = fs.inode_count();
        if ino < 1 || ino > count as u64 {
            return self.error_response(req, DbfsError::NoEntry);
        }
        let is_file: bool = matches!(fs.node_kind_of(ino), Some(NodeKind::File));
        if !is_file {
            return self.error_response(req, DbfsError::IsDir);
        }
        let plen: usize = match fs.path_len(ino) {
            Ok(n) => n,
            Err(_) => {
                proof {
                    assert(false);
                }
                return self.error_response(req, DbfsError::NoEntry);
            },
        };
        let payload_fits: bool = plen as u64 <= u32::MAX as u64 - 14 && req.data.len()
            as u64 <= u32::MAX as u64 - 14 - plen as u64;
        proof {
            assert(payload_fits == (14 + plen + req@.data.len() <= u32::MAX));
        }
        if !payload_fits {
            return self.error_response(req, DbfsError::InvalidArgument);
        }
        let offset_fits: bool = req.offset <= usize::MAX as u64 && req.data.len() as u64
            <= usize::MAX as u64 - req.offset;
        proof {
            assert(offset_fits == (req@.offset + req@.data.len() <= usize::MAX));
        }
        if !offset_fits {
            return self.error_response(req, DbfsError::InvalidArgument);
        }
        match fs.write_at(t, ino, req.offset, req.data.as_slice()) {
            Ok(_) => {
                let resp = DbfsResponse { tx_id: req.tx_id, status: 0, lsn: 0, data: Vec::new() };
                proof {
                    assert(resp@ =~= resp_ok(req@.tx_id, 0, Seq::<u8>::empty()));
                }
                resp
            },
            Err(e) => {
                proof {
                    assert(false);
                }
                self.error_response(req, e)
            },
        }
    }

    /// Serves one frame body: decodes the request, dispatches it, and
    /// frames the response.  A decode error is returned to the caller,
    /// which closes the connection.
    pub fn handle_frame(&mut self, fs: &mut Dbfs, body: &[u8]) -> (r: Result<
        Vec<u8>,
        ProtocolError,
    >)
        requires
            old(fs)@.wf(),
            old(fs)@.wal.next_lsn + 1 < u64::MAX,
            old(fs)@.wal.next_tx_id < u64::MAX,
        ensures
            (match r {
                Ok(frame) => spec_handle_frame(old(self).current_model(), old(fs)@, body@)
                    matches Ok(t) && final(self).current_model() == t.0 && final(fs)@ == t.1
                    && frame@ == t.2,
                Err(e) => spec_handle_frame(old(self).current_model(), old(fs)@, body@)
                    == Err::<(Option<u64>, FsModel, Seq<u8>), ProtocolError>(e) && final(self).current_model() == old(self).current_model() && final(fs)@ == old(fs)@,
            }),
            final(fs)@.wf(),
    {
        let req: DbfsRequest = match DbfsRequest::deserialize(body) {
            Ok(q) => q,
            Err(e) => {
                return Err(e);
            },
        };
        let resp: DbfsResponse = self.handle_request(fs, &req);
        let resp2: DbfsResponse = if resp.data.len() as u64 > MAX_FRAME_BYTES as u64 - 24 {
            self.error_response(&req, DbfsError::InvalidArgument)
        } else {
            resp
        };
        let resp_bytes: Vec<u8> = resp2.serialize();
        let mut frame: Vec<u8> = Vec::new();
        push_u32_be(&mut frame, resp_bytes.len() as u32);
        push_bytes(&mut frame, resp_bytes.as_slice());
        proof {
            let out = spec_handle(old(self).current_model(), old(fs)@, req@);
            assert(frame@ =~= spec_u32_be(spec_response_bytes(resp2@).len() as u32)
                + spec_response_bytes(resp2@));
        }
        Ok(frame)
    }

    /// `Readdir` dispatch: resolves the path and lists the directory as a
    /// JSON array of names.
    fn handle_readdir(&mut self, fs: &mut Dbfs, req: &DbfsRequest) -> (resp: DbfsResponse)
        requires
            old(fs)@.wf(),
        ensures
            ({
                let out = step_readdir(old(self).current_model(), old(fs)@, req@);
                &&& final(self).current_model() == out.current
                &&& final(fs)@ == out.fs
                &&& resp@ == out.resp
            }),
            final(fs)@.wf(),
    {
        let path_bytes: &[u8] = req.path.as_str().as_bytes();
        let ino: u64 = match fs.resolve(path_bytes) {
            Ok(ino) => ino,
            Err(e) => {
                return self.error_response(req, e);
            },
        };
        match fs.readdir(ino) {
            Ok(entries) => {
                let data: Vec<u8> = encode_json_names(&entries);
                let resp = DbfsResponse { tx_id: req.tx_id, status: 0, lsn: 0, data };
                proof {
                    assert(resp@ =~= resp_ok(
                        req@.tx_id,
                        0,
                        spec_json_name_list(
                            entry_names(dir_entries_of(old(fs)@.inode(ino))),
                        ),
                    ));
                }
                resp
            },
            Err(e) => self.error_response(req, e),
        }
    }
}

} // verus!
