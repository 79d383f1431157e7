//! The filesystem layer: an inode and directory tree whose mutations are
//! always recorded in the write-ahead log before the in-memory change.
//! Directories hold `(name, child_ino, kind)` entries and reference their
//! children by inode number; names are non-empty byte strings without
//! `'/'`, unique within their directory.

use vstd::prelude::*;

use crate::bytes::{push_bytes, push_u16_be, push_u32_be, push_u64_be, spec_u16_be, spec_u32_be,
    spec_u64_be};
use crate::errors::DbfsError;
use crate::wal::{
    committed_ids, flushed, spec_write_payload, txids_of, uncommitted_ids, wal_appended, Lsn,
    RecoveryResult, TxId, Wal, WalModel, WalRecordType,
};

verus! {

/// The path separator byte, `'/'`.
pub const SLASH: u8 = 0x2f;

/// Whether an inode is a file or a directory.
#[derive(Debug, Clone, Copy, PartialEq, Eq, Structural)]
pub enum NodeKind {
    File,
    Dir,
}

/// A directory entry: a name bound to a child inode and its kind.
#[derive(Debug)]
pub struct DirEntry {
    /// The entry's name: non-empty bytes without `'/'`.
    pub name: Vec<u8>,
    /// The child's inode number.
    pub ino: u64,
    /// The child's kind.
    pub kind: NodeKind,
}

/// The mathematical model of a directory entry.
#[verifier::ext_equal]
pub struct EntryModel {
    pub name: Seq<u8>,
    pub ino: u64,
    pub kind: NodeKind,
}

impl View for DirEntry {
    type V = EntryModel;

    open spec fn view(&self) -> EntryModel {
        EntryModel { name: self.name@, ino: self.ino, kind: self.kind }
    }
}

/// What an inode stores: file bytes, or directory entries.
#[derive(Debug)]
pub enum NodeBody {
    File { data: Vec<u8> },
    Dir { entries: Vec<DirEntry> },
}

/// The mathematical model of an inode body.
#[verifier::ext_equal]
pub enum BodyModel {
    File { data: Seq<u8> },
    Dir { entries: Seq<EntryModel> },
}

/// The views of a sequence of directory entries.
pub open spec fn entry_views(s: Seq<DirEntry>) -> Seq<EntryModel> {
    Seq::new(s.len(), |i: int| s[i]@)
}

impl View for NodeBody {
    type V = BodyModel;

    open spec fn view(&self) -> BodyModel {
        match self {
            NodeBody::File { data } => BodyModel::File { data: data@ },
            NodeBody::Dir { entries } => BodyModel::Dir { entries: entry_views(entries@) },
        }
    }
}

/// An inode: number, kind, permission bits, parent link, the absolute path
/// it was created under, and its body.
#[derive(Debug)]
pub struct Inode {
    pub ino: u64,
    pub kind: NodeKind,
    pub perm: u16,
    pub parent: u64,
    pub path: Vec<u8>,
    pub body: NodeBody,
}

/// The mathematical model of an inode.
#[verifier::ext_equal]
pub struct InodeModel {
    pub ino: u64,
    pub kind: NodeKind,
    pub perm: u16,
    pub parent: u64,
    pub path: Seq<u8>,
    pub body: BodyModel,
}

impl View for Inode {
    type V = InodeModel;

    open spec fn view(&self) -> InodeModel {
        InodeModel {
            ino: self.ino,
            kind: self.kind,
            perm: self.perm,
            parent: self.parent,
            path: self.path@,
            body: self.body@,
        }
    }
}

/// The views of a sequence of inodes.
pub open spec fn inode_views(s: Seq<Inode>) -> Seq<InodeModel> {
    Seq::new(s.len(), |i: int| s[i]@)
}

/// The entries of an inode; empty for a file.
pub open spec fn dir_entries_of(n: InodeModel) -> Seq<EntryModel> {
    match n.body {
        BodyModel::Dir { entries } => entries,
        BodyModel::File { .. } => Seq::empty(),
    }
}

/// The file bytes of an inode; empty for a directory.
pub open spec fn file_data_of(n: InodeModel) -> Seq<u8> {
    match n.body {
        BodyModel::File { data } => data,
        BodyModel::Dir { .. } => Seq::empty(),
    }
}

/// Entry well-formedness within a tree of `n_inodes` inodes: the child
/// exists, the name is non-empty and free of `'/'`, and no two entries
/// share a name.
pub open spec fn entries_wf(es: Seq<EntryModel>, n_inodes: int) -> bool {
    &&& forall|i: int| 0 <= i < es.len() ==> 1 <= (#[trigger] es[i]).ino <= n_inodes
    &&& forall|i: int| 0 <= i < es.len() ==> (#[trigger] es[i]).name.len() > 0
    &&& forall|i: int, k: int|
        0 <= i < es.len() && 0 <= k < es[i].name.len() ==> (#[trigger] es[i].name[k]) != SLASH
    &&& forall|i: int, j: int| 0 <= i < j < es.len() ==> (#[trigger] es[i]).name != (
    #[trigger] es[j]).name
}

/// The mathematical model of the filesystem: the log and the inode table,
/// where inode `k` sits at position `k - 1`.
#[verifier::ext_equal]
pub struct FsModel {
    pub wal: WalModel,
    pub inodes: Seq<InodeModel>,
}

impl FsModel {
    /// The inode numbered `ino`.
    pub open spec fn inode(self, ino: u64) -> InodeModel
        recommends
            1 <= ino <= self.inodes.len(),
    {
        self.inodes[ino - 1]
    }

    /// Whether `ino` names an inode of the tree.
    pub open spec fn has_ino(self, ino: u64) -> bool {
        1 <= ino <= self.inodes.len()
    }

    /// Whether `ino` names a directory.
    pub open spec fn is_dir(self, ino: u64) -> bool {
        self.has_ino(ino) && self.inode(ino).kind == NodeKind::Dir
    }

    /// Whether `ino` names a file.
    pub open spec fn is_file(self, ino: u64) -> bool {
        self.has_ino(ino) && self.inode(ino).kind == NodeKind::File
    }

    /// The tree invariant: the log is well formed; inodes are numbered
    /// positionally from one; the root is directory one with path `"/"`;
    /// kinds agree with bodies; parents exist; every directory's entries
    /// are well formed (names unique: for every directory and name, at
    /// most one entry) and agree with their child's kind.
    pub open spec fn wf(self) -> bool {
        &&& self.wal.wf()
        &&& 1 <= self.inodes.len() < u64::MAX
        &&& forall|i: int| 0 <= i < self.inodes.len() ==> (#[trigger] self.inodes[i]).ino == i + 1
        &&& self.inodes[0].kind == NodeKind::Dir
        &&& self.inodes[0].parent == 1
        &&& self.inodes[0].path == seq![SLASH]
        &&& forall|i: int|
            0 <= i < self.inodes.len() ==> ((#[trigger] self.inodes[i]).kind == NodeKind::File
                <==> self.inodes[i].body is File)
        &&& forall|i: int|
            0 <= i < self.inodes.len() ==> 1 <= (#[trigger] self.inodes[i]).parent
                <= self.inodes.len()
        &&& forall|i: int|
            0 <= i < self.inodes.len() ==> entries_wf(
                dir_entries_of(#[trigger] self.inodes[i]),
                self.inodes.len() as int,
            )
        &&& forall|i: int, j: int|
            0 <= i < self.inodes.len() && 0 <= j < dir_entries_of(self.inodes[i]).len() ==> (
            #[trigger] dir_entries_of(self.inodes[i])[j]).kind == self.inodes[dir_entries_of(
                self.inodes[i],
            )[j].ino - 1].kind
    }
}

/// The first entry named `name`, scanning in order.
pub open spec fn find_entry(es: Seq<EntryModel>, name: Seq<u8>) -> Option<EntryModel>
    decreases es.len(),
{
    if es.len() == 0 {
        None
    } else if es.first().name == name {
        Some(es.first())
    } else {
        find_entry(es.drop_first(), name)
    }
}

/// A found entry is an entry, and a `None` means no entry has the name.
pub proof fn lemma_find_entry_contains(es: Seq<EntryModel>, name: Seq<u8>)
    ensures
        find_entry(es, name) matches Some(e) ==> exists|i: int|
            0 <= i < es.len() && #[trigger] es[i] == e && es[i].name == name,
        find_entry(es, name) is None ==> forall|i: int|
            0 <= i < es.len() ==> (#[trigger] es[i]).name != name,
    decreases es.len(),
{
    if es.len() > 0 {
        lemma_find_entry_contains(es.drop_first(), name);
        if es.first().name != name {
            if find_entry(es, name) is Some {
                let e = find_entry(es, name)->0;
                let i = choose|i: int|
                    0 <= i < es.drop_first().len() && #[trigger] es.drop_first()[i] == e
                        && es.drop_first()[i].name == name;
                assert(es[i + 1] == e);
            }
            if find_entry(es, name) is None {
                assert forall|i: int| 0 <= i < es.len() implies (#[trigger] es[i]).name
                    != name by {
                    if i > 0 {
                        assert(es.drop_first()[i - 1] == es[i]);
                    }
                }
            }
        }
    }
}

/// The entries with `name` removed, order preserved.
pub open spec fn remove_named(es: Seq<EntryModel>, name: Seq<u8>) -> Seq<EntryModel>
    decreases es.len(),
{
    if es.len() == 0 {
        Seq::empty()
    } else {
        remove_named(es.drop_last(), name) + if es.last().name == name {
            Seq::empty()
        } else {
            seq![es.last()]
        }
    }
}

/// Removal keeps a subsequence: every kept entry comes from the original
/// sequence, no kept entry bears the removed name, and well-formedness
/// carries over.
pub proof fn lemma_remove_named_sub(es: Seq<EntryModel>, name: Seq<u8>, n_inodes: int)
    ensures
        forall|i: int|
            0 <= i < remove_named(es, name).len() ==> exists|j: int|
                0 <= j < es.len() && (#[trigger] remove_named(es, name)[i]) == #[trigger] es[j],
        forall|i: int|
            0 <= i < remove_named(es, name).len() ==> (#[trigger] remove_named(
                es,
                name,
            )[i]).name != name,
        entries_wf(es, n_inodes) ==> entries_wf(remove_named(es, name), n_inodes),
    decreases es.len(),
{
    let ret = remove_named(es, name);
    if es.len() > 0 {
        let dl = es.drop_last();
        lemma_remove_named_sub(dl, name, n_inodes);
        let rdl = remove_named(dl, name);
        assert(forall|j: int| 0 <= j < dl.len() ==> dl[j] == es[j]);
        assert forall|i: int| 0 <= i < ret.len() implies exists|j: int|
            0 <= j < es.len() && (#[trigger] ret[i]) == #[trigger] es[j] by {
            if i < rdl.len() {
                let j = choose|j: int| 0 <= j < dl.len() && (#[trigger] rdl[i]) == #[trigger] dl[j];
                assert(ret[i] == es[j]);
            } else {
                assert(ret[i] == es[es.len() - 1]);
            }
        }
        if entries_wf(es, n_inodes) {
            assert forall|i: int, j: int| 0 <= i < j < ret.len() implies (#[trigger] ret[i]).name
                != (#[trigger] ret[j]).name by {
                let wi = choose|w: int|
                    0 <= w < es.len() && (#[trigger] ret[i]) == #[trigger] es[w];
                let wj = choose|w: int|
                    0 <= w < es.len() && (#[trigger] ret[j]) == #[trigger] es[w];
                if wi == wj {
                    lemma_remove_named_distinct(es, name, i, j);
                }
            }
        }
    }
}

/// Two positions of the removal result come from two distinct positions of
/// the original, in order.
pub proof fn lemma_remove_named_distinct(es: Seq<EntryModel>, name: Seq<u8>, i: int, j: int)
    requires
        0 <= i < j < remove_named(es, name).len(),
    ensures
        remove_named(es, name)[i] != remove_named(es, name)[j] || exists|wi: int, wj: int|
            0 <= wi < wj < es.len() && es[wi] == remove_named(es, name)[i] && es[wj]
                == #[trigger] remove_named(es, name)[j],
    decreases es.len(),
{
    let ret = remove_named(es, name);
    if es.len() > 0 {
        let dl = es.drop_last();
        let rdl = remove_named(dl, name);
        assert(forall|w: int| 0 <= w < dl.len() ==> dl[w] == es[w]);
        if j < rdl.len() {
            lemma_remove_named_distinct(dl, name, i, j);
            if exists|wi: int, wj: int|
                0 <= wi < wj < dl.len() && dl[wi] == rdl[i] && dl[wj] == #[trigger] rdl[j] {
                let (wi, wj): (int, int) = choose|wi: int, wj: int|
                    0 <= wi < wj < dl.len() && dl[wi] == rdl[i] && dl[wj] == #[trigger] rdl[j];
                assert(es[wi] == ret[i] && es[wj] == ret[j]);
            }
        } else {
            assert(ret[j] == es[es.len() - 1]);
            lemma_remove_named_sub(dl, name, 0);
            let wi = choose|w: int| 0 <= w < dl.len() && (#[trigger] rdl[i]) == #[trigger] dl[w];
            assert(es[wi] == ret[i]);
        }
    }
}

/// The file bytes after writing `data` at `off`: the body grows to cover
/// the write, bytes of any gap between the old end and `off` are zero, the
/// written range holds `data`, and everything else is unchanged.
pub open spec fn spec_write_at(old_data: Seq<u8>, off: int, data: Seq<u8>) -> Seq<u8> {
    let newlen = if off + data.len() > old_data.len() {
        off + data.len()
    } else {
        old_data.len() as int
    };
    Seq::new(
        newlen as nat,
        |i: int|
            if off <= i < off + data.len() {
                data[i - off]
            } else if i < old_data.len() {
                old_data[i]
            } else {
                0u8
            },
    )
}

/// The bytes a read returns: up to `count` bytes starting at `off`, empty
/// at or beyond the end.
pub open spec fn spec_read_at(data: Seq<u8>, off: int, count: int) -> Seq<u8> {
    if off >= data.len() {
        Seq::empty()
    } else if off + count <= data.len() {
        data.subrange(off, off + count)
    } else {
        data.subrange(off, data.len() as int)
    }
}

/// The absolute path of a child: the parent's path, a separator unless the
/// parent's path already ends in one, then the name.
pub open spec fn spec_child_path(parent_path: Seq<u8>, name: Seq<u8>) -> Seq<u8> {
    if parent_path.len() > 0 && parent_path.last() == SLASH {
        parent_path + name
    } else {
        parent_path + seq![SLASH] + name
    }
}

/// The transactional filesystem: the log and the inode tree.  Every
/// mutation appends its WAL record before the in-memory change.
pub struct Dbfs {
    wal: Wal,
    inodes: Vec<Inode>,
}

impl View for Dbfs {
    type V = FsModel;

    closed spec fn view(&self) -> FsModel {
        FsModel { wal: self.wal@, inodes: inode_views(self.inodes@) }
    }
}

/// The dot name `"."`.
pub open spec fn spec_dot() -> Seq<u8> {
    seq![0x2eu8]
}

/// The dot-dot name `".."`.
pub open spec fn spec_dotdot() -> Seq<u8> {
    seq![0x2eu8, 0x2eu8]
}

/// Whether `name` is one of the reserved names `"."` and `".."`.
pub open spec fn spec_reserved_name(name: Seq<u8>) -> bool {
    name == spec_dot() || name == spec_dotdot()
}

/// Whether `name` can be stored: non-empty and free of `'/'`.
pub open spec fn spec_storable_name(name: Seq<u8>) -> bool {
    name.len() > 0 && forall|k: int| 0 <= k < name.len() ==> name[k] != SLASH
}

/// Checks whether `name` is `"."` or `".."`.
fn is_reserved_name(name: &[u8]) -> (r: bool)
    ensures
        r == spec_reserved_name(name@),
{
    if name.len() == 1 && name[0] == 0x2e {
        proof {
            assert(name@ =~= spec_dot());
        }
        true
    } else if name.len() == 2 && name[0] == 0x2e && name[1] == 0x2e {
        proof {
            assert(name@ =~= spec_dotdot());
        }
        true
    } else {
        proof {
            if name@.len() == 1 {
                assert(name@ == spec_dot() ==> name@[0] == 0x2e);
            }
            if name@.len() == 2 {
                assert(name@ == spec_dotdot() ==> name@[0] == 0x2e && name@[1] == 0x2e);
            }
        }
        false
    }
}

/// Checks whether `name` is non-empty and free of `'/'`.
pub fn is_storable_name(name: &[u8]) -> (r: bool)
    ensures
        r == spec_storable_name(name@),
{
    if name.len() == 0 {
        return false;
    }
    let mut k: usize = 0;
    while k < name.len()
        invariant
            k <= name@.len(),
            forall|w: int| 0 <= w < k ==> name@[w] != SLASH,
        decreases name@.len() - k,
    {
        if name[k] == SLASH {
            return false;
        }
        k = k + 1;
    }
    true
}

/// Compares two byte strings.
pub fn bytes_eq(a: &[u8], b: &[u8]) -> (r: bool)
    ensures
        r == (a@ == b@),
{
    if a.len() != b.len() {
        proof {
            assert(a@ != b@);
        }
        return false;
    }
    let mut k: usize = 0;
    while k < a.len()
        invariant
            k <= a@.len(),
            a@.len() == b@.len(),
            forall|w: int| 0 <= w < k ==> a@[w] == b@[w],
        decreases a@.len() - k,
    {
        if a[k] != b[k] {
            proof {
                assert(a@[k as int] != b@[k as int]);
            }
            return false;
        }
        k = k + 1;
    }
    proof {
        assert(a@ =~= b@);
    }
    true
}

/// Copies a byte slice into a fresh vector.
fn to_vec_u8(src: &[u8]) -> (r: Vec<u8>)
    ensures
        r@ == src@,
{
    let n: usize = src.len();
    let r: Vec<u8> = crate::bytes::copy_range(src, 0, n);
    proof {
        assert(src@.subrange(0, n as int) =~= src@);
    }
    r
}

/// Finds the first entry with `name` among `entries`.
fn find_entry_exec(entries: &Vec<DirEntry>, name: &[u8]) -> (r: Option<(u64, NodeKind, usize)>)
    ensures
        (match r {
            Some(t) => find_entry(entry_views(entries@), name@) matches Some(e) && e.ino == t.0
                && e.kind == t.1 && 0 <= t.2 < entries@.len() && entries@[t.2 as int]@ == e,
            None => find_entry(entry_views(entries@), name@) is None,
        }),
{
    let views = Ghost(entry_views(entries@));
    let mut i: usize = 0;
    proof {
        assert(views@.skip(0) =~= views@);
    }
    while i < entries.len()
        invariant
            i <= entries@.len(),
            views@ == entry_views(entries@),
            find_entry(views@.skip(i as int), name@) == find_entry(views@, name@),
        decreases entries@.len() - i,
    {
        proof {
            assert(views@.skip(i as int).first() == views@[i as int]);
            assert(views@.skip(i as int).drop_first() =~= views@.skip(i + 1));
        }
        if bytes_eq(entries[i].name.as_slice(), name) {
            return Some((entries[i].ino, entries[i].kind, i));
        }
        i = i + 1;
    }
    proof {
        assert(views@.skip(views@.len() as int) =~= Seq::<EntryModel>::empty());
    }
    None
}

impl Dbfs {
    /// A fresh filesystem: an empty log and a tree holding only the root
    /// directory, inode one, path `"/"`.
    pub fn new(wal_path: String) -> (r: Result<Self, DbfsError>)
        ensures
            r is Ok,
            r matches Ok(fs) ==> fs@.wf() && fs@.inodes.len() == 1 && fs@.wal.records
                == Seq::<crate::wal::RecModel>::empty() && fs@.wal.next_tx_id == 1
                && fs@.wal.next_lsn == 1 && dir_entries_of(fs@.inode(1))
                == Seq::<EntryModel>::empty(),
    {
        let wal = match Wal::new(wal_path) {
            Ok(w) => w,
            Err(e) => {
                return Err(e);
            },
        };
        let mut root_path: Vec<u8> = Vec::new();
        root_path.push(SLASH);
        let root = Inode {
            ino: 1,
            kind: NodeKind::Dir,
            perm: 0o755,
            parent: 1,
            path: root_path,
            body: NodeBody::Dir { entries: Vec::new() },
        };
        let mut inodes: Vec<Inode> = Vec::new();
        inodes.push(root);
        let fs = Dbfs { wal, inodes };
        proof {
            assert(fs@.inodes[0].path =~= seq![SLASH]);
            assert(entry_views(Seq::<DirEntry>::empty()) =~= Seq::<EntryModel>::empty());
            assert(dir_entries_of(fs@.inodes[0]) =~= Seq::<EntryModel>::empty());
        }
        Ok(fs)
    }

    /// Begins a new transaction in the log.
    pub fn begin_tx(&mut self) -> (tx: TxId)
        requires
            old(self)@.wf(),
            old(self)@.wal.next_lsn < u64::MAX,
            old(self)@.wal.next_tx_id < u64::MAX,
        ensures
            tx.0 == old(self)@.wal.next_tx_id,
            final(self)@ == (FsModel {
                wal: WalModel {
                    next_tx_id: (old(self)@.wal.next_tx_id + 1) as u64,
                    ..wal_appended(
                        old(self)@.wal,
                        old(self)@.wal.next_tx_id,
                        WalRecordType::TxBegin,
                        Seq::<u8>::empty(),
                    )
                },
                ..old(self)@
            }),
            final(self)@.wf(),
    {
        self.wal.begin_tx()
    }

    /// Commits a transaction: appends the commit marker and flushes, so
    /// the commit is durable when the call returns.
    pub fn commit_tx(&mut self, tx_id: TxId) -> (r: Result<(), DbfsError>)
        requires
            old(self)@.wf(),
            old(self)@.wal.next_lsn < u64::MAX,
        ensures
            r is Ok,
            final(self)@ == (FsModel {
                wal: flushed(
                    wal_appended(
                        old(self)@.wal,
                        tx_id.0,
                        WalRecordType::TxCommit,
                        Seq::<u8>::empty(),
                    ),
                ),
                ..old(self)@
            }),
            final(self)@.wf(),
    {
        self.wal.commit_tx(tx_id)
    }

    /// Rolls a transaction back: appends the rollback marker.
    pub fn rollback_tx(&mut self, tx_id: TxId)
        requires
            old(self)@.wf(),
            old(self)@.wal.next_lsn < u64::MAX,
        ensures
            final(self)@ == (FsModel {
                wal: wal_appended(
                    old(self)@.wal,
                    tx_id.0,
                    WalRecordType::TxRollback,
                    Seq::<u8>::empty(),
                ),
                ..old(self)@
            }),
            final(self)@.wf(),
    {
        self.wal.rollback_tx(tx_id)
    }

    /// Replays the log, reporting committed and uncommitted transactions.
    pub fn recover(&self) -> (r: Result<RecoveryResult, DbfsError>)
        ensures
            r is Ok,
            r matches Ok(res) ==> txids_of(res.committed@) == committed_ids(self@.wal.records)
                && txids_of(res.uncommitted@) == uncommitted_ids(self@.wal.records),
    {
        self.wal.recover()
    }

    /// Flushes the log to its durable image.
    pub fn sync_fs(&mut self) -> (r: Result<(), DbfsError>)
        requires
            old(self)@.wf(),
        ensures
            r is Ok,
            final(self)@ == (FsModel { wal: flushed(old(self)@.wal), ..old(self)@ }),
            final(self)@.wf(),
    {
        self.wal.flush()
    }

    /// The log's next transaction identifier and flushed LSN.
    pub fn wal_stats(&self) -> (r: (u64, u64))
        ensures
            r.0 == self@.wal.next_tx_id,
            r.1 == self@.wal.flushed_lsn,
    {
        (self.wal.next_tx_id(), self.wal.flushed_lsn())
    }

    /// The serialized bytes the last flush made durable.
    pub fn durable_image(&self) -> (r: &Vec<u8>)
        ensures
            r@ == self@.wal.image,
    {
        self.wal.durable_image()
    }

    /// The log's next LSN.
    pub fn next_lsn(&self) -> (r: Lsn)
        ensures
            r == self@.wal.next_lsn,
    {
        self.wal.next_lsn()
    }

    /// How many inodes the tree holds.
    pub fn inode_count(&self) -> (r: usize)
        ensures
            r == self@.inodes.len(),
    {
        self.inodes.len()
    }

    /// The kind of an inode, or `None` for a number outside the tree.
    pub fn node_kind_of(&self, ino: u64) -> (r: Option<NodeKind>)
        requires
            self@.wf(),
        ensures
            r is Some <==> self@.has_ino(ino),
            r matches Some(k) ==> k == self@.inode(ino).kind,
    {
        if ino < 1 || ino > self.inodes.len() as u64 {
            return None;
        }
        let idx: usize = (ino - 1) as usize;
        proof {
            assert(self.inodes@[idx as int]@ == self@.inode(ino));
        }
        Some(self.inodes[idx].kind)
    }

    /// The stored permission bits of an inode.
    pub fn node_perm(&self, ino: u64) -> (r: Result<u16, DbfsError>)
        requires
            self@.wf(),
        ensures
            !self@.has_ino(ino) ==> r == Err::<u16, DbfsError>(DbfsError::NoEntry),
            self@.has_ino(ino) ==> r == Ok::<u16, DbfsError>(self@.inode(ino).perm),
    {
        if ino < 1 || ino > self.inodes.len() as u64 {
            return Err(DbfsError::NoEntry);
        }
        let idx: usize = (ino - 1) as usize;
        proof {
            assert(self.inodes@[idx as int]@ == self@.inode(ino));
        }
        Ok(self.inodes[idx].perm)
    }

    /// The stored kind of an inode.
    pub fn inode_type(&self, ino: u64) -> (r: Result<NodeKind, DbfsError>)
        requires
            self@.wf(),
        ensures
            !self@.has_ino(ino) ==> r == Err::<NodeKind, DbfsError>(DbfsError::NoEntry),
            self@.has_ino(ino) ==> r == Ok::<NodeKind, DbfsError>(self@.inode(ino).kind),
    {
        match self.node_kind_of(ino) {
            Some(k) => Ok(k),
            None => Err(DbfsError::NoEntry),
        }
    }

    /// Attribute setting is accepted and ignored; nothing changes.
    pub fn set_attr(&self, ino: u64) -> (r: Result<(), DbfsError>)
        requires
            self@.wf(),
        ensures
            !self@.has_ino(ino) ==> r == Err::<(), DbfsError>(DbfsError::NoEntry),
            self@.has_ino(ino) ==> r == Ok::<(), DbfsError>(()),
    {
        if ino < 1 || ino > self.inodes.len() as u64 {
            return Err(DbfsError::NoEntry);
        }
        Ok(())
    }

    /// Extended attributes are not kept; the listing is always empty.
    pub fn list_xattr(&self, ino: u64) -> (r: Result<Vec<Vec<u8>>, DbfsError>)
        requires
            self@.wf(),
        ensures
            !self@.has_ino(ino) ==> r == Err::<Vec<Vec<u8>>, DbfsError>(DbfsError::NoEntry),
            self@.has_ino(ino) ==> (r matches Ok(v) && v@.len() == 0),
    {
        if ino < 1 || ino > self.inodes.len() as u64 {
            return Err(DbfsError::NoEntry);
        }
        Ok(Vec::new())
    }

    /// Shrinking or growing a file in place is deliberately unsupported.
    pub fn truncate_file(&self, ino: u64, len: u64) -> (r: Result<(), DbfsError>)
        ensures
            r == Err::<(), DbfsError>(DbfsError::Unsupported),
    {
        let _ = ino;
        let _ = len;
        Err(DbfsError::Unsupported)
    }

    /// Hard links are deliberately unsupported.
    pub fn link(&self, parent: u64, name: &[u8]) -> (r: Result<(), DbfsError>)
        ensures
            r == Err::<(), DbfsError>(DbfsError::Unsupported),
    {
        let _ = parent;
        let _ = name;
        Err(DbfsError::Unsupported)
    }

    /// Symbolic links are deliberately unsupported.
    pub fn symlink(&self, parent: u64, name: &[u8]) -> (r: Result<(), DbfsError>)
        ensures
            r == Err::<(), DbfsError>(DbfsError::Unsupported),
    {
        let _ = parent;
        let _ = name;
        Err(DbfsError::Unsupported)
    }

    /// Reading a link target is deliberately unsupported.
    pub fn readlink(&self, ino: u64) -> (r: Result<Vec<u8>, DbfsError>)
        ensures
            r == Err::<Vec<u8>, DbfsError>(DbfsError::Unsupported),
    {
        let _ = ino;
        Err(DbfsError::Unsupported)
    }

    /// Renames are deliberately unsupported.
    pub fn rename_to(&self, parent: u64, name: &[u8], new_parent: u64) -> (r: Result<
        (),
        DbfsError,
    >)
        ensures
            r == Err::<(), DbfsError>(DbfsError::Unsupported),
    {
        let _ = parent;
        let _ = name;
        let _ = new_parent;
        Err(DbfsError::Unsupported)
    }

    /// Time updates are accepted and ignored; nothing changes.
    pub fn update_time(&self, ino: u64) -> (r: Result<(), DbfsError>)
        requires
            self@.wf(),
        ensures
            !self@.has_ino(ino) ==> r == Err::<(), DbfsError>(DbfsError::NoEntry),
            self@.has_ino(ino) ==> r == Ok::<(), DbfsError>(()),
    {
        if ino < 1 || ino > self.inodes.len() as u64 {
            return Err(DbfsError::NoEntry);
        }
        Ok(())
    }

    /// The length of the absolute path an inode was created under.
    pub fn path_len(&self, ino: u64) -> (r: Result<usize, DbfsError>)
        requires
            self@.wf(),
        ensures
            !self@.has_ino(ino) ==> r == Err::<usize, DbfsError>(DbfsError::NoEntry),
            self@.has_ino(ino) ==> (r matches Ok(n) && n == self@.inode(ino).path.len()),
    {
        if ino < 1 || ino > self.inodes.len() as u64 {
            return Err(DbfsError::NoEntry);
        }
        let idx: usize = (ino - 1) as usize;
        proof {
            assert(self.inodes@[idx as int]@ == self@.inode(ino));
        }
        Ok(self.inodes[idx].path.len())
    }

    /// Looks a name up in a directory.  `"."` resolves to the directory
    /// itself and `".."` to its parent (the root's parent is the root);
    /// other names resolve through the directory's entries.  Read-only: no
    /// WAL record.
    pub fn lookup(&self, parent: u64, name: &[u8]) -> (r: Result<u64, DbfsError>)
        requires
            self@.wf(),
        ensures
            !self@.is_dir(parent) ==> r == Err::<u64, DbfsError>(DbfsError::NotDir),
            self@.is_dir(parent) && name@ == spec_dot() ==> r == Ok::<u64, DbfsError>(parent),
            self@.is_dir(parent) && name@ == spec_dotdot() ==> r == Ok::<u64, DbfsError>(
                self@.inode(parent).parent,
            ),
            self@.is_dir(parent) && !spec_reserved_name(name@) ==> (match find_entry(
                dir_entries_of(self@.inode(parent)),
                name@,
            ) {
                Some(e) => r == Ok::<u64, DbfsError>(e.ino),
                None => r == Err::<u64, DbfsError>(DbfsError::NoEntry),
            }),
            r matches Ok(ino) ==> self@.has_ino(ino),
    {
        if parent < 1 || parent > self.inodes.len() as u64 {
            return Err(DbfsError::NotDir);
        }
        let idx: usize = (parent - 1) as usize;
        let node: &Inode = &self.inodes[idx];
        proof {
            assert(node@ == self@.inode(parent));
        }
        if !matches!(node.kind, NodeKind::Dir) {
            return Err(DbfsError::NotDir);
        }
        if name.len() == 1 && name[0] == 0x2e {
            proof {
                assert(name@ =~= spec_dot());
            }
            return Ok(parent);
        }
        if name.len() == 2 && name[0] == 0x2e && name[1] == 0x2e {
            proof {
                assert(name@ =~= spec_dotdot());
            }
            return Ok(node.parent);
        }
        proof {
            assert(name@ != spec_dot() && name@ != spec_dotdot());
        }
        match &node.body {
            NodeBody::Dir { entries } => {
                match find_entry_exec(entries, name) {
                    Some(t) => {
                        proof {
                            lemma_find_entry_contains(dir_entries_of(node@), name@);
                        }
                        Ok(t.0)
                    },
                    None => Err(DbfsError::NoEntry),
                }
            },
            NodeBody::File { .. } => Err(DbfsError::NotDir),
        }
    }

    /// Reads up to `count` bytes of a file from `offset`; zero bytes come
    /// back at or beyond the end of the file.  Read-only: no WAL record.
    pub fn read_at(&self, ino: u64, offset: u64, count: usize) -> (r: Result<Vec<u8>, DbfsError>)
        requires
            self@.wf(),
        ensures
            !self@.has_ino(ino) ==> r == Err::<Vec<u8>, DbfsError>(DbfsError::NoEntry),
            self@.has_ino(ino) && !self@.is_file(ino) ==> r == Err::<Vec<u8>, DbfsError>(
                DbfsError::IsDir,
            ),
            self@.is_file(ino) ==> (r matches Ok(v) && v@ == spec_read_at(
                file_data_of(self@.inode(ino)),
                offset as int,
                count as int,
            )),
    {
        if ino < 1 || ino > self.inodes.len() as u64 {
            return Err(DbfsError::NoEntry);
        }
        let idx: usize = (ino - 1) as usize;
        let node: &Inode = &self.inodes[idx];
        proof {
            assert(node@ == self@.inode(ino));
        }
        match &node.body {
            NodeBody::File { data } => {
                if !matches!(node.kind, NodeKind::File) {
                    return Err(DbfsError::IsDir);
                }
                let flen: usize = data.len();
                if offset >= flen as u64 {
                    proof {
                        assert(spec_read_at(
                            file_data_of(self@.inode(ino)),
                            offset as int,
                            count as int,
                        ) =~= Seq::<u8>::empty());
                    }
                    return Ok(Vec::new());
                }
                let off: usize = offset as usize;
                let take: usize = if count < flen - off {
                    count
                } else {
                    flen - off
                };
                let out: Vec<u8> = crate::bytes::copy_range(data.as_slice(), off, take);
                proof {
                    assert(out@ =~= spec_read_at(
                        file_data_of(self@.inode(ino)),
                        offset as int,
                        count as int,
                    ));
                }
                Ok(out)
            },
            NodeBody::Dir { .. } => Err(DbfsError::IsDir),
        }
    }

    /// The entries of a directory, in stored order.  Read-only: no WAL
    /// record.
    pub fn readdir(&self, ino: u64) -> (r: Result<Vec<DirEntry>, DbfsError>)
        requires
            self@.wf(),
        ensures
            !self@.has_ino(ino) ==> r == Err::<Vec<DirEntry>, DbfsError>(DbfsError::NoEntry),
            self@.has_ino(ino) && !self@.is_dir(ino) ==> r == Err::<Vec<DirEntry>, DbfsError>(
                DbfsError::NotDir,
            ),
            self@.is_dir(ino) ==> (r matches Ok(v) && entry_views(v@) == dir_entries_of(
                self@.inode(ino),
            )),
    {
        if ino < 1 || ino > self.inodes.len() as u64 {
            return Err(DbfsError::NoEntry);
        }
        let idx: usize = (ino - 1) as usize;
        let node: &Inode = &self.inodes[idx];
        proof {
            assert(node@ == self@.inode(ino));
        }
        match &node.body {
            NodeBody::Dir { entries } => {
                if !matches!(node.kind, NodeKind::Dir) {
                    return Err(DbfsError::NotDir);
                }
                let mut out: Vec<DirEntry> = Vec::new();
                let mut i: usize = 0;
                while i < entries.len()
                    invariant
                        i <= entries@.len(),
                        entry_views(out@) == entry_views(entries@).take(i as int),
                    decreases entries@.len() - i,
                {
                    let e = DirEntry {
                        name: to_vec_u8(entries[i].name.as_slice()),
                        ino: entries[i].ino,
                        kind: entries[i].kind,
                    };
                    let ghost prev = out@;
                    out.push(e);
                    proof {
                        assert(entry_views(out@) =~= entry_views(prev).push(
                            entries@[i as int]@,
                        ));
                        assert(entry_views(out@) =~= entry_views(entries@).take(i + 1));
                    }
                    i = i + 1;
                }
                proof {
                    assert(entry_views(entries@).take(entries@.len() as int) =~= entry_views(
                        entries@,
                    ));
                }
                Ok(out)
            },
            NodeBody::File { .. } => Err(DbfsError::NotDir),
        }
    }

    /// The stored attributes of an inode: its number and its size (a
    /// file's byte count; for a directory, 256 bytes per entry).
    pub fn get_attr(&self, ino: u64) -> (r: Result<(u64, u64), DbfsError>)
        requires
            self@.wf(),
        ensures
            !self@.has_ino(ino) ==> r == Err::<(u64, u64), DbfsError>(DbfsError::NoEntry),
            self@.has_ino(ino) ==> (r matches Ok(a) && a.0 == ino && attr_size_ok(
                self@.inode(ino).body,
                a.1,
            )),
    {
        if ino < 1 || ino > self.inodes.len() as u64 {
            return Err(DbfsError::NoEntry);
        }
        let idx: usize = (ino - 1) as usize;
        let node: &Inode = &self.inodes[idx];
        proof {
            assert(node@ == self@.inode(ino));
        }
        match &node.body {
            NodeBody::File { data } => Ok((ino, data.len() as u64)),
            NodeBody::Dir { entries } => {
                let n: u64 = entries.len() as u64;
                if n > 0xFFFFFFFFFFFFFF {
                    Ok((ino, u64::MAX))
                } else {
                    Ok((ino, n * 256))
                }
            },
        }
    }
}

/// The model after `create`: the log gains a `FileCreate` (or `Mkdir`)
/// record carrying the child's absolute path, the parent directory gains
/// an entry, and the tree gains the child inode under the next number.
pub open spec fn fs_created(
    fs: FsModel,
    tx: u64,
    parent: u64,
    name: Seq<u8>,
    kind: NodeKind,
) -> FsModel
    recommends
        fs.is_dir(parent),
        fs.inodes.len() + 1 < u64::MAX,
{
    let p = fs.inode(parent);
    let cpath = spec_child_path(p.path, name);
    let child_ino = (fs.inodes.len() + 1) as u64;
    let entry = EntryModel { name, ino: child_ino, kind };
    let parent2 = InodeModel {
        body: BodyModel::Dir { entries: dir_entries_of(p).push(entry) },
        ..p
    };
    let child = InodeModel {
        ino: child_ino,
        kind,
        perm: if kind == NodeKind::Dir {
            0o755u16
        } else {
            0o644u16
        },
        parent,
        path: cpath,
        body: if kind == NodeKind::Dir {
            BodyModel::Dir { entries: Seq::empty() }
        } else {
            BodyModel::File { data: Seq::empty() }
        },
    };
    FsModel {
        wal: wal_appended(
            fs.wal,
            tx,
            if kind == NodeKind::Dir {
                WalRecordType::Mkdir
            } else {
                WalRecordType::FileCreate
            },
            cpath,
        ),
        inodes: fs.inodes.update(parent - 1, parent2).push(child),
    }
}

/// The model after `unlink`: the log gains a `FileDelete` record carrying
/// the removed child's absolute path, and the parent loses the entry.
pub open spec fn fs_unlinked(fs: FsModel, tx: u64, parent: u64, name: Seq<u8>) -> FsModel
    recommends
        fs.is_dir(parent),
{
    let p = fs.inode(parent);
    let parent2 = InodeModel {
        body: BodyModel::Dir { entries: remove_named(dir_entries_of(p), name) },
        ..p
    };
    FsModel {
        wal: wal_appended(fs.wal, tx, WalRecordType::FileDelete, spec_child_path(p.path, name)),
        inodes: fs.inodes.update(parent - 1, parent2),
    }
}

/// The model after `write_at`: the log gains a `FileWrite` record framing
/// the path, offset and data, and the file's body is rewritten.
pub open spec fn fs_written(fs: FsModel, tx: u64, ino: u64, offset: u64, data: Seq<u8>) -> FsModel
    recommends
        fs.is_file(ino),
{
    let n = fs.inode(ino);
    let node2 = InodeModel {
        body: BodyModel::File {
            data: spec_write_at(file_data_of(n), offset as int, data),
        },
        ..n
    };
    FsModel {
        wal: wal_appended(
            fs.wal,
            tx,
            WalRecordType::FileWrite,
            spec_write_payload(n.path, offset, data),
        ),
        inodes: fs.inodes.update(ino - 1, node2),
    }
}

/// Copies a directory entry list.
fn clone_entries(entries: &Vec<DirEntry>) -> (out: Vec<DirEntry>)
    ensures
        entry_views(out@) == entry_views(entries@),
{
    let mut out: Vec<DirEntry> = Vec::new();
    let mut i: usize = 0;
    while i < entries.len()
        invariant
            i <= entries@.len(),
            entry_views(out@) == entry_views(entries@).take(i as int),
        decreases entries@.len() - i,
    {
        let e = DirEntry {
            name: to_vec_u8(entries[i].name.as_slice()),
            ino: entries[i].ino,
            kind: entries[i].kind,
        };
        let ghost prev = out@;
        out.push(e);
        proof {
            assert(entry_views(out@) =~= entry_views(prev).push(entries@[i as int]@));
            assert(entry_views(out@) =~= entry_views(entries@).take(i + 1));
        }
        i = i + 1;
    }
    proof {
        assert(entry_views(entries@).take(entries@.len() as int) =~= entry_views(entries@));
    }
    out
}

/// Replaces the inode at position `i`.
fn set_inode(v: &mut Vec<Inode>, i: usize, val: Inode)
    requires
        i < old(v)@.len(),
    ensures
        final(v)@ == old(v)@.update(i as int, val),
{
    let slot: &mut Inode = &mut v[i];
    *slot = val;
}

/// The size `get_attr` reports for a body: a file's byte count, or 256
/// bytes per directory entry, saturated at the largest `u64`.
pub open spec fn attr_size_ok(b: BodyModel, size: u64) -> bool {
    match b {
        BodyModel::File { data } => size == data.len(),
        BodyModel::Dir { entries } => if entries.len() * 256 <= u64::MAX {
            size == entries.len() * 256
        } else {
            size == u64::MAX
        },
    }
}

impl Dbfs {
    /// Creates a file or directory under a directory.  The parent must be
    /// a directory; the name must be non-empty, free of `'/'`, not
    /// reserved and not already present.  The WAL records the child's
    /// absolute path before the tree changes; the new entry is visible to
    /// every subsequent lookup.
    pub fn create(&mut self, tx_id: TxId, parent: u64, name: &[u8], kind: NodeKind) -> (r: Result<
        u64,
        DbfsError,
    >)
        requires
            old(self)@.wf(),
            old(self)@.inodes.len() + 1 < u64::MAX,
            old(self)@.wal.next_lsn < u64::MAX,
            old(self)@.is_dir(parent) ==> old(self)@.inode(parent).path.len() + 1 + name@.len()
                <= u32::MAX,
        ensures
            !old(self)@.is_dir(parent) ==> r == Err::<u64, DbfsError>(DbfsError::NotDir)
                && final(self)@ == old(self)@,
            old(self)@.is_dir(parent) && !spec_storable_name(name@) ==> r == Err::<
                u64,
                DbfsError,
            >(DbfsError::InvalidArgument) && final(self)@ == old(self)@,
            old(self)@.is_dir(parent) && spec_storable_name(name@) && spec_reserved_name(name@)
                ==> r == Err::<u64, DbfsError>(DbfsError::Exists) && final(self)@ == old(self)@,
            old(self)@.is_dir(parent) && spec_storable_name(name@) && !spec_reserved_name(name@)
                && find_entry(dir_entries_of(old(self)@.inode(parent)), name@) is Some ==> r
                == Err::<u64, DbfsError>(DbfsError::Exists) && final(self)@ == old(self)@,
            old(self)@.is_dir(parent) && spec_storable_name(name@) && !spec_reserved_name(name@)
                && find_entry(dir_entries_of(old(self)@.inode(parent)), name@) is None ==> r
                == Ok::<u64, DbfsError>((old(self)@.inodes.len() + 1) as u64) && final(self)@
                == fs_created(old(self)@, tx_id.0, parent, name@, kind) && final(self)@.wf(),
    {
        if parent < 1 || parent > self.inodes.len() as u64 {
            return Err(DbfsError::NotDir);
        }
        let idx: usize = (parent - 1) as usize;
        proof {
            assert(self.inodes@[idx as int]@ == self@.inode(parent));
        }
        if !matches!(self.inodes[idx].kind, NodeKind::Dir) {
            return Err(DbfsError::NotDir);
        }
        if !is_storable_name(name) {
            return Err(DbfsError::InvalidArgument);
        }
        if is_reserved_name(name) {
            return Err(DbfsError::Exists);
        }
        let (perm, entries2, path2): (u16, Vec<DirEntry>, Vec<u8>) = match &self.inodes[idx].body {
            NodeBody::Dir { entries } => {
                if find_entry_exec(entries, name).is_some() {
                    return Err(DbfsError::Exists);
                }
                (
                    self.inodes[idx].perm,
                    clone_entries(entries),
                    to_vec_u8(self.inodes[idx].path.as_slice()),
                )
            },
            NodeBody::File { .. } => {
                proof {
                    assert(false);
                }
                return Err(DbfsError::NotDir);
            },
        };
        // Build the child's absolute path with the trailing-slash rule.
        let mut child_path: Vec<u8> = to_vec_u8(path2.as_slice());
        if !(child_path.len() > 0 && child_path[child_path.len() - 1] == SLASH) {
            child_path.push(SLASH);
        }
        push_bytes(&mut child_path, name);
        proof {
            assert(child_path@ =~= spec_child_path(self@.inode(parent).path, name@));
        }
        // Record the operation before mutating the tree.
        let record_kind: WalRecordType = if matches!(kind, NodeKind::Dir) {
            WalRecordType::Mkdir
        } else {
            WalRecordType::FileCreate
        };
        self.wal.append_payload(tx_id, record_kind, to_vec_u8(child_path.as_slice()));
        // Insert the entry and the child inode.
        let child_ino: u64 = self.inodes.len() as u64 + 1;
        let mut entries2 = entries2;
        entries2.push(DirEntry { name: to_vec_u8(name), ino: child_ino, kind });
        let parent2 = Inode {
            ino: parent,
            kind: NodeKind::Dir,
            perm,
            parent: self.inodes[idx].parent,
            path: path2,
            body: NodeBody::Dir { entries: entries2 },
        };
        set_inode(&mut self.inodes, idx, parent2);
        let child = Inode {
            ino: child_ino,
            kind,
            perm: if matches!(kind, NodeKind::Dir) {
                0o755
            } else {
                0o644
            },
            parent,
            path: child_path,
            body: if matches!(kind, NodeKind::Dir) {
                NodeBody::Dir { entries: Vec::new() }
            } else {
                NodeBody::File { data: Vec::new() }
            },
        };
        self.inodes.push(child);
        proof {
            let oldm = old(self)@;
            let newm = fs_created(oldm, tx_id.0, parent, name@, kind);
            assert(oldm.inode(parent).ino == parent);
            assert(entry_views(Seq::<DirEntry>::empty()) =~= Seq::<EntryModel>::empty());
            assert(inode_views(self.inodes@) =~~= newm.inodes);
            assert(self@ == newm);
            lemma_find_entry_contains(dir_entries_of(oldm.inode(parent)), name@);
            lemma_fs_created_wf(oldm, tx_id.0, parent, name@, kind);
        }
        Ok(child_ino)
    }

    /// Creates a directory: `create` with the directory kind.
    pub fn mkdir(&mut self, tx_id: TxId, parent: u64, name: &[u8]) -> (r: Result<u64, DbfsError>)
        requires
            old(self)@.wf(),
            old(self)@.inodes.len() + 1 < u64::MAX,
            old(self)@.wal.next_lsn < u64::MAX,
            old(self)@.is_dir(parent) ==> old(self)@.inode(parent).path.len() + 1 + name@.len()
                <= u32::MAX,
        ensures
            !old(self)@.is_dir(parent) ==> r == Err::<u64, DbfsError>(DbfsError::NotDir)
                && final(self)@ == old(self)@,
            old(self)@.is_dir(parent) && !spec_storable_name(name@) ==> r == Err::<
                u64,
                DbfsError,
            >(DbfsError::InvalidArgument) && final(self)@ == old(self)@,
            old(self)@.is_dir(parent) && spec_storable_name(name@) && spec_reserved_name(name@)
                ==> r == Err::<u64, DbfsError>(DbfsError::Exists) && final(self)@ == old(self)@,
            old(self)@.is_dir(parent) && spec_storable_name(name@) && !spec_reserved_name(name@)
                && find_entry(dir_entries_of(old(self)@.inode(parent)), name@) is Some ==> r
                == Err::<u64, DbfsError>(DbfsError::Exists) && final(self)@ == old(self)@,
            old(self)@.is_dir(parent) && spec_storable_name(name@) && !spec_reserved_name(name@)
                && find_entry(dir_entries_of(old(self)@.inode(parent)), name@) is None ==> r
                == Ok::<u64, DbfsError>((old(self)@.inodes.len() + 1) as u64) && final(self)@
                == fs_created(old(self)@, tx_id.0, parent, name@, NodeKind::Dir) && final(self)@.wf(),
    {
        self.create(tx_id, parent, name, NodeKind::Dir)
    }

    /// Removes a name from a directory.  The parent must be a directory;
    /// the name must exist and not be reserved.  The WAL records the
    /// removed child's absolute path before the entry disappears.
    pub fn unlink(&mut self, tx_id: TxId, parent: u64, name: &[u8]) -> (r: Result<(), DbfsError>)
        requires
            old(self)@.wf(),
            old(self)@.wal.next_lsn < u64::MAX,
            old(self)@.is_dir(parent) ==> old(self)@.inode(parent).path.len() + 1 + name@.len()
                <= u32::MAX,
        ensures
            !old(self)@.is_dir(parent) ==> r == Err::<(), DbfsError>(DbfsError::NotDir) && final(self)@ == old(self)@,
            old(self)@.is_dir(parent) && spec_reserved_name(name@) ==> r == Err::<(), DbfsError>(
                DbfsError::Exists,
            ) && final(self)@ == old(self)@,
            old(self)@.is_dir(parent) && !spec_reserved_name(name@) && find_entry(
                dir_entries_of(old(self)@.inode(parent)),
                name@,
            ) is None ==> r == Err::<(), DbfsError>(DbfsError::NoEntry) && final(self)@ == old(
                self,
            )@,
            old(self)@.is_dir(parent) && !spec_reserved_name(name@) && find_entry(
                dir_entries_of(old(self)@.inode(parent)),
                name@,
            ) is Some ==> r == Ok::<(), DbfsError>(()) && final(self)@ == fs_unlinked(
                old(self)@,
                tx_id.0,
                parent,
                name@,
            ) && final(self)@.wf(),
    {
        if parent < 1 || parent > self.inodes.len() as u64 {
            return Err(DbfsError::NotDir);
        }
        let idx: usize = (parent - 1) as usize;
        proof {
            assert(self.inodes@[idx as int]@ == self@.inode(parent));
        }
        if !matches!(self.inodes[idx].kind, NodeKind::Dir) {
            return Err(DbfsError::NotDir);
        }
        if is_reserved_name(name) {
            return Err(DbfsError::Exists);
        }
        let (perm, kept, path2): (u16, Vec<DirEntry>, Vec<u8>) = match &self.inodes[idx].body {
            NodeBody::Dir { entries } => {
                if find_entry_exec(entries, name).is_none() {
                    return Err(DbfsError::NoEntry);
                }
                (
                    self.inodes[idx].perm,
                    remove_entries_named(entries, name),
                    to_vec_u8(self.inodes[idx].path.as_slice()),
                )
            },
            NodeBody::File { .. } => {
                proof {
                    assert(false);
                }
                return Err(DbfsError::NotDir);
            },
        };
        let mut child_path: Vec<u8> = to_vec_u8(path2.as_slice());
        if !(child_path.len() > 0 && child_path[child_path.len() - 1] == SLASH) {
            child_path.push(SLASH);
        }
        push_bytes(&mut child_path, name);
        proof {
            assert(child_path@ =~= spec_child_path(self@.inode(parent).path, name@));
        }
        self.wal.append_payload(tx_id, WalRecordType::FileDelete, child_path);
        let parent2 = Inode {
            ino: parent,
            kind: NodeKind::Dir,
            perm,
            parent: self.inodes[idx].parent,
            path: path2,
            body: NodeBody::Dir { entries: kept },
        };
        set_inode(&mut self.inodes, idx, parent2);
        proof {
            let oldm = old(self)@;
            let newm = fs_unlinked(oldm, tx_id.0, parent, name@);
            assert(oldm.inode(parent).ino == parent);
            assert(inode_views(self.inodes@) =~~= newm.inodes);
            assert(self@ == newm);
            lemma_fs_unlinked_wf(oldm, tx_id.0, parent, name@);
        }
        Ok(())
    }

    /// Removes a directory name.  Defined as `unlink`: emptiness of the
    /// removed directory is deliberately not checked.
    pub fn rmdir(&mut self, tx_id: TxId, parent: u64, name: &[u8]) -> (r: Result<(), DbfsError>)
        requires
            old(self)@.wf(),
            old(self)@.wal.next_lsn < u64::MAX,
            old(self)@.is_dir(parent) ==> old(self)@.inode(parent).path.len() + 1 + name@.len()
                <= u32::MAX,
        ensures
            !old(self)@.is_dir(parent) ==> r == Err::<(), DbfsError>(DbfsError::NotDir) && final(self)@ == old(self)@,
            old(self)@.is_dir(parent) && spec_reserved_name(name@) ==> r == Err::<(), DbfsError>(
                DbfsError::Exists,
            ) && final(self)@ == old(self)@,
            old(self)@.is_dir(parent) && !spec_reserved_name(name@) && find_entry(
                dir_entries_of(old(self)@.inode(parent)),
                name@,
            ) is None ==> r == Err::<(), DbfsError>(DbfsError::NoEntry) && final(self)@ == old(
                self,
            )@,
            old(self)@.is_dir(parent) && !spec_reserved_name(name@) && find_entry(
                dir_entries_of(old(self)@.inode(parent)),
                name@,
            ) is Some ==> r == Ok::<(), DbfsError>(()) && final(self)@ == fs_unlinked(
                old(self)@,
                tx_id.0,
                parent,
                name@,
            ) && final(self)@.wf(),
    {
        self.unlink(tx_id, parent, name)
    }

    /// Writes `data` into a file at `offset`.  The body grows to cover the
    /// write; bytes of any gap between the old end and the offset are
    /// zero.  The WAL records the framed write before the body changes.
    /// Returns the number of bytes written.
    pub fn write_at(&mut self, tx_id: TxId, ino: u64, offset: u64, data: &[u8]) -> (r: Result<
        usize,
        DbfsError,
    >)
        requires
            old(self)@.wf(),
            old(self)@.wal.next_lsn < u64::MAX,
            old(self)@.is_file(ino) ==> 14 + old(self)@.inode(ino).path.len() + data@.len()
                <= u32::MAX,
            old(self)@.is_file(ino) ==> offset + data@.len() <= usize::MAX,
        ensures
            !old(self)@.has_ino(ino) ==> r == Err::<usize, DbfsError>(DbfsError::NoEntry)
                && final(self)@ == old(self)@,
            old(self)@.has_ino(ino) && !old(self)@.is_file(ino) ==> r == Err::<usize, DbfsError>(
                DbfsError::IsDir,
            ) && final(self)@ == old(self)@,
            old(self)@.is_file(ino) ==> r == Ok::<usize, DbfsError>(data@.len() as usize)
                && final(self)@ == fs_written(old(self)@, tx_id.0, ino, offset, data@) && final(self)@.wf(),
    {
        if ino < 1 || ino > self.inodes.len() as u64 {
            return Err(DbfsError::NoEntry);
        }
        let idx: usize = (ino - 1) as usize;
        proof {
            assert(self.inodes@[idx as int]@ == self@.inode(ino));
        }
        if !matches!(self.inodes[idx].kind, NodeKind::File) {
            return Err(DbfsError::IsDir);
        }
        let (perm, par, path2, newdata): (u16, u64, Vec<u8>, Vec<u8>) = match &self.inodes[idx].body
            {
            NodeBody::File { data: old_data } => {
                (
                    self.inodes[idx].perm,
                    self.inodes[idx].parent,
                    to_vec_u8(self.inodes[idx].path.as_slice()),
                    write_bytes(old_data, offset as usize, data),
                )
            },
            NodeBody::Dir { .. } => {
                proof {
                    assert(false);
                }
                return Err(DbfsError::IsDir);
            },
        };
        // Frame the write for the log: path, offset, data.
        let mut payload: Vec<u8> = Vec::new();
        push_u16_be(&mut payload, path2.len() as u16);
        push_bytes(&mut payload, path2.as_slice());
        push_u64_be(&mut payload, offset);
        push_u32_be(&mut payload, data.len() as u32);
        push_bytes(&mut payload, data);
        proof {
            assert(payload@ =~= spec_write_payload(self@.inode(ino).path, offset, data@));
        }
        self.wal.append_payload(tx_id, WalRecordType::FileWrite, payload);
        let node2 = Inode {
            ino,
            kind: NodeKind::File,
            perm,
            parent: par,
            path: path2,
            body: NodeBody::File { data: newdata },
        };
        set_inode(&mut self.inodes, idx, node2);
        proof {
            let oldm = old(self)@;
            let newm = fs_written(oldm, tx_id.0, ino, offset, data@);
            assert(oldm.inode(ino).ino == ino);
            assert(inode_views(self.inodes@) =~~= newm.inodes);
            assert(self@ == newm);
            lemma_fs_written_wf(oldm, tx_id.0, ino, offset, data@);
        }
        Ok(data.len())
    }
}

/// Computes the bytes of a file after a write: the old bytes, grown with
/// zeros to reach `off` where needed, overlaid with `data` at `off`.
fn write_bytes(old_data: &Vec<u8>, off: usize, data: &[u8]) -> (out: Vec<u8>)
    requires
        off + data@.len() <= usize::MAX,
    ensures
        out@ == spec_write_at(old_data@, off as int, data@),
{
    let mut out: Vec<u8> = Vec::new();
    let old_len: usize = old_data.len();
    let end: usize = off + data.len();
    let new_len: usize = if end > old_len {
        end
    } else {
        old_len
    };
    let mut i: usize = 0;
    while i < new_len
        invariant
            i <= new_len,
            old_len == old_data@.len(),
            end == off + data@.len(),
            new_len == spec_write_at(old_data@, off as int, data@).len(),
            out@ == spec_write_at(old_data@, off as int, data@).take(i as int),
        decreases new_len - i,
    {
        let b: u8 = if off <= i && i < end {
            data[i - off]
        } else if i < old_len {
            old_data[i]
        } else {
            0
        };
        out.push(b);
        proof {
            let target = spec_write_at(old_data@, off as int, data@);
            assert(target[i as int] == b);
            assert(out@ =~= target.take(i + 1));
        }
        i = i + 1;
    }
    proof {
        let target = spec_write_at(old_data@, off as int, data@);
        assert(target.take(target.len() as int) =~= target);
    }
    out
}

/// Removes every entry named `name`, keeping order.
fn remove_entries_named(entries: &Vec<DirEntry>, name: &[u8]) -> (out: Vec<DirEntry>)
    ensures
        entry_views(out@) == remove_named(entry_views(entries@), name@),
{
    let mut out: Vec<DirEntry> = Vec::new();
    let mut i: usize = 0;
    proof {
        assert(entry_views(entries@).take(0) =~= Seq::<EntryModel>::empty());
        assert(entry_views(out@) =~= remove_named(Seq::<EntryModel>::empty(), name@));
    }
    while i < entries.len()
        invariant
            i <= entries@.len(),
            entry_views(out@) == remove_named(entry_views(entries@).take(i as int), name@),
        decreases entries@.len() - i,
    {
        let ghost views = entry_views(entries@);
        if !bytes_eq(entries[i].name.as_slice(), name) {
            let e = DirEntry {
                name: to_vec_u8(entries[i].name.as_slice()),
                ino: entries[i].ino,
                kind: entries[i].kind,
            };
            let ghost prev = out@;
            out.push(e);
            proof {
                assert(entry_views(out@) =~= entry_views(prev).push(views[i as int]));
            }
        }
        proof {
            assert(views.take(i + 1).drop_last() =~= views.take(i as int));
            assert(views.take(i + 1).last() == views[i as int]);
            assert(entry_views(out@) =~= remove_named(views.take(i + 1), name@));
        }
        i = i + 1;
    }
    proof {
        assert(entry_views(entries@).take(entries@.len() as int) =~= entry_views(entries@));
    }
    out
}

/// The views of a sequence of byte vectors.
pub open spec fn vec2_views(s: Seq<Vec<u8>>) -> Seq<Seq<u8>> {
    Seq::new(s.len(), |i: int| s[i]@)
}

/// One scanning step of path splitting: `cur` collects the bytes of the
/// component being read; a separator closes it.  An empty component (a
/// doubled or trailing separator) is `NoEntry`.
pub open spec fn spec_split_loop(p: Seq<u8>, cur: Seq<u8>) -> Result<Seq<Seq<u8>>, DbfsError>
    decreases p.len(),
{
    if p.len() == 0 {
        if cur.len() == 0 {
            Err(DbfsError::NoEntry)
        } else {
            Ok(seq![cur])
        }
    } else if p.first() == SLASH {
        if cur.len() == 0 {
            Err(DbfsError::NoEntry)
        } else {
            match spec_split_loop(p.drop_first(), Seq::empty()) {
                Ok(rest) => Ok(seq![cur] + rest),
                Err(e) => Err(e),
            }
        }
    } else {
        spec_split_loop(p.drop_first(), cur.push(p.first()))
    }
}

/// The components of an absolute path.  The path must begin with `'/'`;
/// `"/"` has no components; empty components are `NoEntry`.
pub open spec fn spec_split_path(p: Seq<u8>) -> Result<Seq<Seq<u8>>, DbfsError> {
    if p.len() == 0 || p.first() != SLASH {
        Err(DbfsError::NoEntry)
    } else if p.len() == 1 {
        Ok(Seq::empty())
    } else {
        spec_split_loop(p.skip(1), Seq::empty())
    }
}

/// Following components from `cur` through directory entries.
pub open spec fn spec_walk(fs: FsModel, cur: u64, cs: Seq<Seq<u8>>) -> Result<u64, DbfsError>
    decreases cs.len(),
{
    if cs.len() == 0 {
        Ok(cur)
    } else if !fs.is_dir(cur) {
        Err(DbfsError::NotDir)
    } else {
        match find_entry(dir_entries_of(fs.inode(cur)), cs.first()) {
            Some(e) => spec_walk(fs, e.ino, cs.drop_first()),
            None => Err(DbfsError::NoEntry),
        }
    }
}

/// The inode an absolute path names, walking from the root.
pub open spec fn spec_resolve(fs: FsModel, p: Seq<u8>) -> Result<u64, DbfsError> {
    match spec_split_path(p) {
        Ok(cs) => spec_walk(fs, 1u64, cs),
        Err(e) => Err(e),
    }
}

/// The directory holding an absolute path's last component, and that
/// component.  The root path itself has no parent: `InvalidArgument`.
pub open spec fn spec_resolve_parent(fs: FsModel, p: Seq<u8>) -> Result<(u64, Seq<u8>), DbfsError> {
    match spec_split_path(p) {
        Ok(cs) => if cs.len() == 0 {
            Err(DbfsError::InvalidArgument)
        } else {
            match spec_walk(fs, 1u64, cs.drop_last()) {
                Ok(ino) => Ok((ino, cs.last())),
                Err(e) => Err(e),
            }
        },
        Err(e) => Err(e),
    }
}

/// Splits an absolute path into its components.
pub fn split_path(path: &[u8]) -> (r: Result<Vec<Vec<u8>>, DbfsError>)
    ensures
        (match r {
            Ok(cs) => spec_split_path(path@) == Ok::<Seq<Seq<u8>>, DbfsError>(vec2_views(cs@)),
            Err(e) => spec_split_path(path@) == Err::<Seq<Seq<u8>>, DbfsError>(e),
        }),
{
    if path.len() == 0 || path[0] != SLASH {
        return Err(DbfsError::NoEntry);
    }
    if path.len() == 1 {
        let out: Vec<Vec<u8>> = Vec::new();
        proof {
            assert(vec2_views(out@) =~= Seq::<Seq<u8>>::empty());
        }
        return Ok(out);
    }
    let mut comps: Vec<Vec<u8>> = Vec::new();
    let mut cur: Vec<u8> = Vec::new();
    let mut pos: usize = 1;
    proof {
        assert(vec2_views(comps@) =~= Seq::<Seq<u8>>::empty());
        if spec_split_loop(path@.skip(1), Seq::<u8>::empty()) is Ok {
            let rest = spec_split_loop(path@.skip(1), Seq::<u8>::empty())->Ok_0;
            assert(Seq::<Seq<u8>>::empty() + rest =~= rest);
        }
    }
    while pos < path.len()
        invariant
            1 <= pos <= path@.len(),
            (match spec_split_loop(path@.skip(pos as int), cur@) {
                Ok(rest) => spec_split_path(path@) == Ok::<Seq<Seq<u8>>, DbfsError>(
                    vec2_views(comps@) + rest,
                ),
                Err(e) => spec_split_path(path@) == Err::<Seq<Seq<u8>>, DbfsError>(e),
            }),
        decreases path@.len() - pos,
    {
        let ghost rem = path@.skip(pos as int);
        proof {
            assert(rem.first() == path@[pos as int]);
            assert(rem.drop_first() =~= path@.skip(pos + 1));
        }
        let b: u8 = path[pos];
        if b == SLASH {
            if cur.len() == 0 {
                return Err(DbfsError::NoEntry);
            }
            let ghost old_comps = comps@;
            let ghost old_cur = cur@;
            comps.push(cur);
            cur = Vec::new();
            proof {
                assert(vec2_views(comps@) =~= vec2_views(old_comps).push(old_cur));
                if spec_split_loop(path@.skip(pos + 1), Seq::<u8>::empty()) is Ok {
                    let rest2 = spec_split_loop(path@.skip(pos + 1), Seq::<u8>::empty())->Ok_0;
                    assert(vec2_views(old_comps) + (seq![old_cur] + rest2) =~= vec2_views(
                        comps@,
                    ) + rest2);
                }
            }
        } else {
            let ghost old_cur = cur@;
            cur.push(b);
            proof {
                assert(cur@ =~= old_cur.push(b));
            }
        }
        pos = pos + 1;
    }
    proof {
        assert(path@.skip(path@.len() as int) =~= Seq::<u8>::empty());
    }
    if cur.len() == 0 {
        return Err(DbfsError::NoEntry);
    }
    let ghost old_comps = comps@;
    let ghost old_cur = cur@;
    comps.push(cur);
    proof {
        assert(vec2_views(comps@) =~= vec2_views(old_comps).push(old_cur));
        assert(vec2_views(old_comps) + seq![old_cur] =~= vec2_views(comps@));
    }
    Ok(comps)
}

impl Dbfs {
    /// Follows `comps`, starting at index `from`, from inode `start`.
    fn walk_from(&self, start: u64, comps: &Vec<Vec<u8>>, from: usize) -> (r: Result<
        u64,
        DbfsError,
    >)
        requires
            self@.wf(),
            from <= comps@.len(),
            self@.has_ino(start),
        ensures
            r == spec_walk(self@, start, vec2_views(comps@).skip(from as int)),
            r matches Ok(ino) ==> self@.has_ino(ino),
    {
        let ghost views = vec2_views(comps@);
        let mut cur: u64 = start;
        let mut i: usize = from;
        while i < comps.len()
            invariant
                from <= i <= comps@.len(),
                views == vec2_views(comps@),
                self@.wf(),
                self@.has_ino(cur),
                spec_walk(self@, cur, views.skip(i as int)) == spec_walk(
                    self@,
                    start,
                    views.skip(from as int),
                ),
            decreases comps@.len() - i,
        {
            proof {
                assert(views.skip(i as int).first() == views[i as int]);
                assert(views.skip(i as int).drop_first() =~= views.skip(i + 1));
            }
            let n_inodes: usize = self.inodes.len();
            proof {
                assert(cur <= n_inodes as u64);
            }
            let idx: usize = (cur - 1) as usize;
            proof {
                assert(idx as int == cur - 1);
                assert(self@.inodes[cur - 1] == self.inodes@[idx as int]@);
                assert(self.inodes@[idx as int]@ == self@.inode(cur));
            }
            if !matches!(self.inodes[idx].kind, NodeKind::Dir) {
                return Err(DbfsError::NotDir);
            }
            match &self.inodes[idx].body {
                NodeBody::Dir { entries } => {
                    match find_entry_exec(entries, comps[i].as_slice()) {
                        Some(t) => {
                            proof {
                                lemma_find_entry_contains(
                                    dir_entries_of(self@.inode(cur)),
                                    views[i as int],
                                );
                                let es = dir_entries_of(self@.inode(cur));
                                assert(entries_wf(es, self@.inodes.len() as int));
                                let w = choose|w: int|
                                    0 <= w < es.len() && #[trigger] es[w] == find_entry(
                                        es,
                                        views[i as int],
                                    )->0 && es[w].name == views[i as int];
                                assert(1 <= es[w].ino <= self@.inodes.len());
                            }
                            cur = t.0;
                        },
                        None => {
                            return Err(DbfsError::NoEntry);
                        },
                    }
                },
                NodeBody::File { .. } => {
                    proof {
                        assert(false);
                    }
                    return Err(DbfsError::NotDir);
                },
            }
            i = i + 1;
        }
        proof {
            assert(views.skip(views.len() as int) =~= Seq::<Seq<u8>>::empty());
        }
        Ok(cur)
    }

    /// The inode an absolute path names, walking from the root.
    pub fn resolve(&self, path: &[u8]) -> (r: Result<u64, DbfsError>)
        requires
            self@.wf(),
        ensures
            r == spec_resolve(self@, path@),
            r matches Ok(ino) ==> self@.has_ino(ino),
    {
        let comps: Vec<Vec<u8>> = match split_path(path) {
            Ok(cs) => cs,
            Err(e) => {
                return Err(e);
            },
        };
        let r = self.walk_from(1, &comps, 0);
        proof {
            assert(vec2_views(comps@).skip(0) =~= vec2_views(comps@));
        }
        r
    }

    /// The directory holding an absolute path's last component, and that
    /// component.
    pub fn resolve_parent(&self, path: &[u8]) -> (r: Result<(u64, Vec<u8>), DbfsError>)
        requires
            self@.wf(),
        ensures
            (match r {
                Ok(t) => spec_resolve_parent(self@, path@) == Ok::<(u64, Seq<u8>), DbfsError>(
                    (t.0, t.1@),
                ) && self@.has_ino(t.0),
                Err(e) => spec_resolve_parent(self@, path@) == Err::<(u64, Seq<u8>), DbfsError>(
                    e,
                ),
            }),
    {
        let mut comps: Vec<Vec<u8>> = match split_path(path) {
            Ok(cs) => cs,
            Err(e) => {
                return Err(e);
            },
        };
        let ghost allviews = vec2_views(comps@);
        let name: Vec<u8> = match comps.pop() {
            Some(n) => n,
            None => {
                return Err(DbfsError::InvalidArgument);
            },
        };
        proof {
            assert(vec2_views(comps@) =~= allviews.drop_last());
            assert(name@ == allviews.last());
        }
        let ino: u64 = match self.walk_from(1, &comps, 0) {
            Ok(ino) => ino,
            Err(e) => {
                proof {
                    assert(vec2_views(comps@).skip(0) =~= allviews.drop_last());
                }
                return Err(e);
            },
        };
        proof {
            assert(vec2_views(comps@).skip(0) =~= allviews.drop_last());
        }
        Ok((ino, name))
    }
}

/// `create` preserves the tree invariant.
proof fn lemma_fs_created_wf(fs: FsModel, tx: u64, parent: u64, name: Seq<u8>, kind: NodeKind)
    requires
        fs.wf(),
        fs.is_dir(parent),
        fs.inodes.len() + 1 < u64::MAX,
        fs.wal.next_lsn < u64::MAX,
        spec_child_path(fs.inode(parent).path, name).len() <= u32::MAX,
        spec_storable_name(name),
        find_entry(dir_entries_of(fs.inode(parent)), name) is None,
    ensures
        fs_created(fs, tx, parent, name, kind).wf(),
{
    let newm = fs_created(fs, tx, parent, name, kind);
    let n = fs.inodes.len() as int;
    let p = parent - 1;
    lemma_find_entry_contains(dir_entries_of(fs.inode(parent)), name);
    assert forall|i: int| 0 <= i < newm.inodes.len() implies entries_wf(
        dir_entries_of(#[trigger] newm.inodes[i]),
        newm.inodes.len() as int,
    ) by {
        if i == n {
            assert(dir_entries_of(newm.inodes[i]) =~= Seq::<EntryModel>::empty());
        } else if i == p {
            let es = dir_entries_of(fs.inode(parent));
            let es2 = dir_entries_of(newm.inodes[i]);
            assert(es2 == es.push(EntryModel { name, ino: (n + 1) as u64, kind }));
            assert(entries_wf(es, n));
            assert forall|a: int, b: int| 0 <= a < b < es2.len() implies (#[trigger] es2[a]).name
                != (#[trigger] es2[b]).name by {
                if b == es.len() {
                    assert(es2[a] == es[a]);
                    assert(es[a].name != name);
                }
            }
        } else {
            assert(newm.inodes[i] == fs.inodes[i]);
            assert(entries_wf(dir_entries_of(fs.inodes[i]), n));
        }
    }
    assert forall|i: int, j: int|
        0 <= i < newm.inodes.len() && 0 <= j < dir_entries_of(newm.inodes[i]).len() implies (
    #[trigger] dir_entries_of(newm.inodes[i])[j]).kind == newm.inodes[dir_entries_of(
        newm.inodes[i],
    )[j].ino - 1].kind by {
        if i == n {
        } else if i == p {
            let es = dir_entries_of(fs.inode(parent));
            if j < es.len() {
                assert(dir_entries_of(newm.inodes[i])[j] == dir_entries_of(fs.inodes[i])[j]);
                assert(dir_entries_of(fs.inodes[i])[j].kind == fs.inodes[dir_entries_of(
                    fs.inodes[i],
                )[j].ino - 1].kind);
            }
        } else {
            assert(newm.inodes[i] == fs.inodes[i]);
            assert(dir_entries_of(fs.inodes[i])[j].kind == fs.inodes[dir_entries_of(
                fs.inodes[i],
            )[j].ino - 1].kind);
        }
    }
}

/// `unlink` preserves the tree invariant.
proof fn lemma_fs_unlinked_wf(fs: FsModel, tx: u64, parent: u64, name: Seq<u8>)
    requires
        fs.wf(),
        fs.is_dir(parent),
        fs.wal.next_lsn < u64::MAX,
        spec_child_path(fs.inode(parent).path, name).len() <= u32::MAX,
    ensures
        fs_unlinked(fs, tx, parent, name).wf(),
{
    let newm = fs_unlinked(fs, tx, parent, name);
    let n = fs.inodes.len() as int;
    let p = parent - 1;
    let es = dir_entries_of(fs.inode(parent));
    lemma_remove_named_sub(es, name, n);
    assert forall|i: int| 0 <= i < newm.inodes.len() implies entries_wf(
        dir_entries_of(#[trigger] newm.inodes[i]),
        newm.inodes.len() as int,
    ) by {
        if i == p {
            assert(entries_wf(es, n));
        } else {
            assert(newm.inodes[i] == fs.inodes[i]);
            assert(entries_wf(dir_entries_of(fs.inodes[i]), n));
        }
    }
    assert forall|i: int, j: int|
        0 <= i < newm.inodes.len() && 0 <= j < dir_entries_of(newm.inodes[i]).len() implies (
    #[trigger] dir_entries_of(newm.inodes[i])[j]).kind == newm.inodes[dir_entries_of(
        newm.inodes[i],
    )[j].ino - 1].kind by {
        if i == p {
            let kept = remove_named(es, name);
            let w = choose|w: int| 0 <= w < es.len() && (#[trigger] kept[j]) == #[trigger] es[w];
            assert(es[w].kind == fs.inodes[es[w].ino - 1].kind);
            assert(newm.inodes[kept[j].ino - 1].kind == fs.inodes[kept[j].ino - 1].kind);
        } else {
            assert(newm.inodes[i] == fs.inodes[i]);
            assert(dir_entries_of(fs.inodes[i])[j].kind == fs.inodes[dir_entries_of(
                fs.inodes[i],
            )[j].ino - 1].kind);
        }
    }
}

/// `write_at` preserves the tree invariant.
proof fn lemma_fs_written_wf(fs: FsModel, tx: u64, ino: u64, offset: u64, data: Seq<u8>)
    requires
        fs.wf(),
        fs.is_file(ino),
        fs.wal.next_lsn < u64::MAX,
        14 + fs.inode(ino).path.len() + data.len() <= u32::MAX,
    ensures
        fs_written(fs, tx, ino, offset, data).wf(),
{
    let newm = fs_written(fs, tx, ino, offset, data);
    let p = ino - 1;
    assert forall|i: int| 0 <= i < newm.inodes.len() implies entries_wf(
        dir_entries_of(#[trigger] newm.inodes[i]),
        newm.inodes.len() as int,
    ) by {
        if i == p {
            assert(dir_entries_of(newm.inodes[i]) =~= Seq::<EntryModel>::empty());
        } else {
            assert(newm.inodes[i] == fs.inodes[i]);
            assert(entries_wf(dir_entries_of(fs.inodes[i]), fs.inodes.len() as int));
        }
    }
    assert forall|i: int, j: int|
        0 <= i < newm.inodes.len() && 0 <= j < dir_entries_of(newm.inodes[i]).len() implies (
    #[trigger] dir_entries_of(newm.inodes[i])[j]).kind == newm.inodes[dir_entries_of(
        newm.inodes[i],
    )[j].ino - 1].kind by {
        if i != p {
            assert(newm.inodes[i] == fs.inodes[i]);
            assert(dir_entries_of(fs.inodes[i])[j].kind == fs.inodes[dir_entries_of(
                fs.inodes[i],
            )[j].ino - 1].kind);
            assert(newm.inodes[dir_entries_of(fs.inodes[i])[j].ino - 1].kind == fs.inodes[
                dir_entries_of(fs.inodes[i])[j].ino - 1].kind);
        }
    }
}

} // verus!
