//! The pluggable storage behind the log: a narrow capability set
//! (`append`, `flush`, `replay`, `truncate`, `durable_lsn`,
//! `is_persistent`) with two concrete variants, an in-memory store for
//! tests and transaction-semantics work, and a file-path-carrying store
//! that, like the in-memory one, buffers its records in memory.

use vstd::prelude::*;

use crate::errors::DbfsError;
use crate::wal::{
    clone_record, retained_records, views_of, Lsn, RecModel, WalRecord,
};

verus! {

/// Errors a backend can surface.
#[derive(Debug, Clone, Copy, PartialEq, Eq, Structural)]
pub enum WalBackendError {
    /// An I/O failure.
    Io,
    /// A malformed argument.
    InvalidArgument,
    /// An operation the backend does not support.
    Unsupported,
    /// Any other failure.
    Other,
}

impl From<DbfsError> for WalBackendError {
    /// Every engine error surfaces as an I/O failure at the backend edge.
    fn from(e: DbfsError) -> (r: Self)
        ensures
            r == WalBackendError::Io,
    {
        WalBackendError::Io
    }
}

impl vstd::std_specs::convert::FromSpecImpl<DbfsError> for WalBackendError {
    open spec fn obeys_from_spec() -> bool {
        true
    }

    open spec fn from_spec(e: DbfsError) -> Self {
        WalBackendError::Io
    }
}

/// The record a backend stores for an append: the given record under the
/// LSN the backend allocates, one above the count it already holds.
pub open spec fn appended_rec(prior: Seq<RecModel>, r: RecModel) -> RecModel {
    RecModel { lsn: (prior.len() + 1) as u64, ..r }
}

/// The minimal interface of a log store.  The backend allocates LSNs
/// positionally (one above the records it holds), persists on `flush`,
/// hands every record back on `replay`, and drops records below a bound on
/// `truncate`.
pub trait WalBackend: Sized {
    /// The records the store holds, in append order.
    spec fn records(&self) -> Seq<RecModel>;

    /// The highest LSN the store has persisted.
    spec fn durable(&self) -> u64;

    /// Whether the store claims durable (on-media) semantics.
    spec fn persistent(&self) -> bool;

    /// Appends a record under the next positional LSN.
    fn append(&mut self, record: &WalRecord) -> (r: Result<(), WalBackendError>)
        requires
            old(self).records().len() < u64::MAX,
        ensures
            r is Ok,
            final(self).records() == old(self).records().push(
                appended_rec(old(self).records(), record@),
            ),
            final(self).durable() == old(self).durable(),
            final(self).persistent() == old(self).persistent(),
    ;

    /// Forces persistence: after it, every held record counts as durable.
    fn flush(&mut self) -> (r: Result<(), WalBackendError>)
        ensures
            r is Ok,
            final(self).records() == old(self).records(),
            final(self).durable() == (if old(self).records().len() == 0 {
                old(self).durable()
            } else {
                old(self).records().last().lsn
            }),
            final(self).persistent() == old(self).persistent(),
    ;

    /// Reads every held record back, in order, for recovery.
    fn replay(&self) -> (r: Result<Vec<WalRecord>, WalBackendError>)
        ensures
            r matches Ok(v) && views_of(v@) == self.records(),
    ;

    /// Drops every record with an LSN below `lsn`.
    fn truncate(&mut self, lsn: Lsn) -> (r: Result<(), WalBackendError>)
        ensures
            r is Ok,
            final(self).records() == retained_records(old(self).records(), lsn),
            final(self).durable() == old(self).durable(),
            final(self).persistent() == old(self).persistent(),
    ;

    /// The highest persisted LSN.
    fn durable_lsn(&self) -> (r: Lsn)
        ensures
            r == self.durable(),
    ;

    /// Whether the store claims durable semantics.
    fn is_persistent(&self) -> (r: bool)
        ensures
            r == self.persistent(),
    ;
}

/// An in-memory log store: nothing survives the process, `flush` merely
/// advances the durable mark, and `is_persistent` is `false`.
pub struct InMemoryWalBackend {
    /// The held records, in append order.
    records: Vec<WalRecord>,
    /// The highest LSN `flush` has covered.
    flushed_lsn: u64,
}

impl InMemoryWalBackend {
    /// An empty in-memory store.
    pub fn new() -> (r: Self)
        ensures
            r.records() == Seq::<RecModel>::empty(),
            r.durable() == 0,
    {
        let r = InMemoryWalBackend { records: Vec::new(), flushed_lsn: 0 };
        proof {
            assert(views_of(r.records@) =~= Seq::<RecModel>::empty());
        }
        r
    }
}

impl WalBackend for InMemoryWalBackend {
    closed spec fn records(&self) -> Seq<RecModel> {
        views_of(self.records@)
    }

    closed spec fn durable(&self) -> u64 {
        self.flushed_lsn
    }

    closed spec fn persistent(&self) -> bool {
        false
    }

    fn append(&mut self, record: &WalRecord) -> (r: Result<(), WalBackendError>) {
        let mut rec: WalRecord = clone_record(record);
        rec.lsn = self.records.len() as u64 + 1;
        self.records.push(rec);
        proof {
            assert(views_of(self.records@) =~= views_of(old(self).records@).push(
                appended_rec(views_of(old(self).records@), record@),
            ));
        }
        Ok(())
    }

    fn flush(&mut self) -> (r: Result<(), WalBackendError>) {
        if self.records.len() > 0 {
            self.flushed_lsn = self.records[self.records.len() - 1].lsn;
            assert(self.records@.last()@ == views_of(self.records@).last());
        }
        Ok(())
    }

    fn replay(&self) -> (r: Result<Vec<WalRecord>, WalBackendError>) {
        Ok(clone_records(&self.records))
    }

    fn truncate(&mut self, lsn: Lsn) -> (r: Result<(), WalBackendError>) {
        let kept: Vec<WalRecord> = retain_from(&self.records, lsn);
        self.records = kept;
        Ok(())
    }

    fn durable_lsn(&self) -> (r: Lsn) {
        self.flushed_lsn
    }

    fn is_persistent(&self) -> (r: bool) {
        false
    }
}

/// A log store bound to a file path.  It buffers its records in memory,
/// exactly like the in-memory store, and therefore still answers `false`
/// to `is_persistent`; the path says where a durable image would belong.
pub struct VfsFileWalBackend {
    /// Where the durable image would belong.
    path: String,
    /// The held records, in append order.
    buffer: Vec<WalRecord>,
    /// The highest LSN `flush` has covered.
    flushed_lsn: u64,
}

impl VfsFileWalBackend {
    /// An empty store bound to `path`.
    pub fn new(path: String) -> (r: Self)
        ensures
            r.records() == Seq::<RecModel>::empty(),
            r.durable() == 0,
    {
        let r = VfsFileWalBackend { path, buffer: Vec::new(), flushed_lsn: 0 };
        proof {
            assert(views_of(r.buffer@) =~= Seq::<RecModel>::empty());
        }
        r
    }
}

impl WalBackend for VfsFileWalBackend {
    closed spec fn records(&self) -> Seq<RecModel> {
        views_of(self.buffer@)
    }

    closed spec fn durable(&self) -> u64 {
        self.flushed_lsn
    }

    closed spec fn persistent(&self) -> bool {
        false
    }

    fn append(&mut self, record: &WalRecord) -> (r: Result<(), WalBackendError>) {
        let mut rec: WalRecord = clone_record(record);
        rec.lsn = self.buffer.len() as u64 + 1;
        self.buffer.push(rec);
        proof {
            assert(views_of(self.buffer@) =~= views_of(old(self).buffer@).push(
                appended_rec(views_of(old(self).buffer@), record@),
            ));
        }
        Ok(())
    }

    fn flush(&mut self) -> (r: Result<(), WalBackendError>) {
        if self.buffer.len() > 0 {
            self.flushed_lsn = self.buffer[self.buffer.len() - 1].lsn;
            assert(self.buffer@.last()@ == views_of(self.buffer@).last());
        }
        Ok(())
    }

    fn replay(&self) -> (r: Result<Vec<WalRecord>, WalBackendError>) {
        Ok(clone_records(&self.buffer))
    }

    fn truncate(&mut self, lsn: Lsn) -> (r: Result<(), WalBackendError>) {
        let kept: Vec<WalRecord> = retain_from(&self.buffer, lsn);
        self.buffer = kept;
        Ok(())
    }

    fn durable_lsn(&self) -> (r: Lsn) {
        self.flushed_lsn
    }

    fn is_persistent(&self) -> (r: bool) {
        false
    }
}

/// Copies a record list.
fn clone_records(records: &Vec<WalRecord>) -> (out: Vec<WalRecord>)
    ensures
        views_of(out@) == views_of(records@),
{
    let mut out: Vec<WalRecord> = Vec::new();
    let mut i: usize = 0;
    proof {
        assert(views_of(out@) =~= views_of(records@).take(0));
    }
    while i < records.len()
        invariant
            i <= records@.len(),
            views_of(out@) == views_of(records@).take(i as int),
        decreases records@.len() - i,
    {
        let rec: WalRecord = clone_record(&records[i]);
        let ghost prev_out = out@;
        out.push(rec);
        proof {
            assert(views_of(out@) =~= views_of(prev_out).push(rec@));
            assert(views_of(out@) =~= views_of(records@).take(i + 1));
        }
        i = i + 1;
    }
    proof {
        assert(views_of(records@).take(records@.len() as int) =~= views_of(records@));
    }
    out
}

/// Keeps the records whose LSN is at least `lsn`, in order.
fn retain_from(records: &Vec<WalRecord>, lsn: Lsn) -> (out: Vec<WalRecord>)
    ensures
        views_of(out@) == retained_records(views_of(records@), lsn),
{
    let mut out: Vec<WalRecord> = Vec::new();
    let mut i: usize = 0;
    proof {
        assert(views_of(records@).take(0) =~= Seq::<RecModel>::empty());
        assert(views_of(out@) =~= retained_records(Seq::<RecModel>::empty(), lsn));
    }
    while i < records.len()
        invariant
            i <= records@.len(),
            views_of(out@) == retained_records(views_of(records@).take(i as int), lsn),
        decreases records@.len() - i,
    {
        if records[i].lsn >= lsn {
            out.push(clone_record(&records[i]));
        }
        proof {
            let views = views_of(records@);
            assert(views.take(i + 1).drop_last() =~= views.take(i as int));
            assert(views.take(i + 1).last() == views[i as int]);
            assert(views_of(out@) =~= retained_records(views.take(i + 1), lsn));
        }
        i = i + 1;
    }
    proof {
        assert(views_of(records@).take(records@.len() as int) =~= views_of(records@));
    }
    out
}

} // verus!
