use dbfs::errors::DbfsError;
use dbfs::fs::{Dbfs, NodeKind};

fn fresh() -> Dbfs {
    Dbfs::new(":memory:".to_string()).unwrap()
}

#[test]
fn create_and_lookup() {
    let mut fs = fresh();
    let tx = fs.begin_tx();
    let ino = fs.create(tx, 1, b"a", NodeKind::File).unwrap();
    assert_eq!(ino, 2);
    assert_eq!(fs.lookup(1, b"a").unwrap(), 2);
    fs.commit_tx(tx).unwrap();
}

#[test]
fn create_existing_name_is_exists_and_directory_unchanged() {
    let mut fs = fresh();
    let tx = fs.begin_tx();
    fs.create(tx, 1, b"a", NodeKind::File).unwrap();
    let before = fs.readdir(1).unwrap().len();
    assert_eq!(fs.create(tx, 1, b"a", NodeKind::File).err(), Some(DbfsError::Exists));
    assert_eq!(fs.readdir(1).unwrap().len(), before);
}

#[test]
fn names_stay_unique_per_directory() {
    let mut fs = fresh();
    let tx = fs.begin_tx();
    fs.create(tx, 1, b"a", NodeKind::File).unwrap();
    fs.create(tx, 1, b"b", NodeKind::Dir).unwrap();
    let _ = fs.create(tx, 1, b"a", NodeKind::Dir);
    let entries = fs.readdir(1).unwrap();
    let mut names: Vec<Vec<u8>> = entries.iter().map(|e| e.name.clone()).collect();
    let total = names.len();
    names.sort();
    names.dedup();
    assert_eq!(names.len(), total);
}

#[test]
fn read_at_beyond_eof_returns_nothing() {
    let mut fs = fresh();
    let tx = fs.begin_tx();
    let ino = fs.create(tx, 1, b"f", NodeKind::File).unwrap();
    fs.write_at(tx, ino, 0, b"hello").unwrap();
    assert_eq!(fs.read_at(ino, 5, 10).unwrap().len(), 0);
    assert_eq!(fs.read_at(ino, 100, 10).unwrap().len(), 0);
    assert_eq!(fs.read_at(ino, 0, 5).unwrap(), b"hello");
}

#[test]
fn write_with_gap_zero_fills() {
    let mut fs = fresh();
    let tx = fs.begin_tx();
    let ino = fs.create(tx, 1, b"f", NodeKind::File).unwrap();
    fs.write_at(tx, ino, 0, b"ab").unwrap();
    fs.write_at(tx, ino, 6, b"cd").unwrap();
    let bytes = fs.read_at(ino, 0, 16).unwrap();
    assert_eq!(bytes, vec![b'a', b'b', 0, 0, 0, 0, b'c', b'd']);
}

#[test]
fn write_overwrites_middle() {
    let mut fs = fresh();
    let tx = fs.begin_tx();
    let ino = fs.create(tx, 1, b"f", NodeKind::File).unwrap();
    fs.write_at(tx, ino, 0, b"abcdef").unwrap();
    fs.write_at(tx, ino, 2, b"XY").unwrap();
    assert_eq!(fs.read_at(ino, 0, 6).unwrap(), b"abXYef");
}

#[test]
fn unlink_removes_entry() {
    let mut fs = fresh();
    let tx = fs.begin_tx();
    fs.create(tx, 1, b"a", NodeKind::File).unwrap();
    fs.unlink(tx, 1, b"a").unwrap();
    assert_eq!(fs.lookup(1, b"a").err(), Some(DbfsError::NoEntry));
    assert_eq!(fs.unlink(tx, 1, b"a").err(), Some(DbfsError::NoEntry));
}

#[test]
fn unlink_reserved_name_is_exists() {
    let mut fs = fresh();
    let tx = fs.begin_tx();
    assert_eq!(fs.unlink(tx, 1, b".").err(), Some(DbfsError::Exists));
    assert_eq!(fs.unlink(tx, 1, b"..").err(), Some(DbfsError::Exists));
}

#[test]
fn rmdir_does_not_require_empty() {
    let mut fs = fresh();
    let tx = fs.begin_tx();
    let dir = fs.create(tx, 1, b"d", NodeKind::Dir).unwrap();
    fs.create(tx, dir, b"inner", NodeKind::File).unwrap();
    fs.rmdir(tx, 1, b"d").unwrap();
    assert_eq!(fs.lookup(1, b"d").err(), Some(DbfsError::NoEntry));
}

#[test]
fn dot_and_dotdot_resolve() {
    let mut fs = fresh();
    let tx = fs.begin_tx();
    let dir = fs.create(tx, 1, b"d", NodeKind::Dir).unwrap();
    assert_eq!(fs.lookup(dir, b".").unwrap(), dir);
    assert_eq!(fs.lookup(dir, b"..").unwrap(), 1);
    assert_eq!(fs.lookup(1, b"..").unwrap(), 1);
}

#[test]
fn lookup_on_file_is_not_dir() {
    let mut fs = fresh();
    let tx = fs.begin_tx();
    let f = fs.create(tx, 1, b"f", NodeKind::File).unwrap();
    assert_eq!(fs.lookup(f, b"x").err(), Some(DbfsError::NotDir));
    assert_eq!(fs.create(tx, f, b"x", NodeKind::File).err(), Some(DbfsError::NotDir));
}

#[test]
fn write_at_on_directory_is_is_dir() {
    let mut fs = fresh();
    let tx = fs.begin_tx();
    let d = fs.create(tx, 1, b"d", NodeKind::Dir).unwrap();
    assert_eq!(fs.write_at(tx, d, 0, b"x").err(), Some(DbfsError::IsDir));
    assert_eq!(fs.read_at(d, 0, 1).err(), Some(DbfsError::IsDir));
}

#[test]
fn resolve_walks_nested_paths() {
    let mut fs = fresh();
    let tx = fs.begin_tx();
    let d = fs.create(tx, 1, b"d", NodeKind::Dir).unwrap();
    let f = fs.create(tx, d, b"f", NodeKind::File).unwrap();
    assert_eq!(fs.resolve(b"/").unwrap(), 1);
    assert_eq!(fs.resolve(b"/d").unwrap(), d);
    assert_eq!(fs.resolve(b"/d/f").unwrap(), f);
    assert_eq!(fs.resolve(b"/missing").err(), Some(DbfsError::NoEntry));
    assert_eq!(fs.resolve(b"relative").err(), Some(DbfsError::NoEntry));
    assert_eq!(fs.resolve(b"//x").err(), Some(DbfsError::NoEntry));
}

#[test]
fn get_attr_reports_size() {
    let mut fs = fresh();
    let tx = fs.begin_tx();
    let ino = fs.create(tx, 1, b"f", NodeKind::File).unwrap();
    fs.write_at(tx, ino, 0, b"12345").unwrap();
    let (n, size) = fs.get_attr(ino).unwrap();
    assert_eq!(n, ino);
    assert_eq!(size, 5);
}

#[test]
fn wal_stats_track_transactions() {
    let mut fs = fresh();
    let tx = fs.begin_tx();
    fs.commit_tx(tx).unwrap();
    let (next_tx, flushed) = fs.wal_stats();
    assert_eq!(next_tx, 2);
    assert_eq!(flushed, 2);
}

#[test]
fn empty_or_slashed_names_are_invalid() {
    let mut fs = fresh();
    let tx = fs.begin_tx();
    assert_eq!(fs.create(tx, 1, b"", NodeKind::File).err(), Some(DbfsError::InvalidArgument));
    assert_eq!(
        fs.create(tx, 1, b"a/b", NodeKind::File).err(),
        Some(DbfsError::InvalidArgument)
    );
    assert_eq!(fs.create(tx, 1, b".", NodeKind::Dir).err(), Some(DbfsError::Exists));
}

#[test]
fn metadata_operations_report_stored_fields() {
    let mut fs = fresh();
    let tx = fs.begin_tx();
    let f = fs.create(tx, 1, b"f", NodeKind::File).unwrap();
    let d = fs.create(tx, 1, b"d", NodeKind::Dir).unwrap();
    assert_eq!(fs.node_perm(f).unwrap(), 0o644);
    assert_eq!(fs.node_perm(d).unwrap(), 0o755);
    assert_eq!(fs.inode_type(f).unwrap(), NodeKind::File);
    assert_eq!(fs.inode_type(d).unwrap(), NodeKind::Dir);
    assert_eq!(fs.node_perm(99).err(), Some(DbfsError::NoEntry));
}

#[test]
fn non_goal_operations_are_unsupported() {
    let mut fs = fresh();
    let tx = fs.begin_tx();
    let f = fs.create(tx, 1, b"f", NodeKind::File).unwrap();
    assert_eq!(fs.truncate_file(f, 0).err(), Some(DbfsError::Unsupported));
    assert_eq!(fs.link(1, b"l").err(), Some(DbfsError::Unsupported));
    assert_eq!(fs.symlink(1, b"s").err(), Some(DbfsError::Unsupported));
    assert_eq!(fs.readlink(f).err(), Some(DbfsError::Unsupported));
    assert_eq!(fs.rename_to(1, b"f", 1).err(), Some(DbfsError::Unsupported));
    assert!(fs.set_attr(f).is_ok());
    assert!(fs.update_time(f).is_ok());
    assert!(fs.list_xattr(f).unwrap().is_empty());
}
