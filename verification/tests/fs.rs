//! The tree of files.

use bunnymeshdb::clock::wall_ms;
use bunnymeshdb::fs::inodes::Inodes;
use bunnymeshdb::fs::{Errno, MeshFs, OpenMode};
use bunnymeshdb::node::hlc::Hlc;
use bunnymeshdb::storage::{ConflictPolicy, Disk, Entry, Store};

const RO: OpenMode = OpenMode { write: false, trunc: false, append: false };
const RW: OpenMode = OpenMode { write: true, trunc: false, append: false };
const TRUNC: OpenMode = OpenMode { write: true, trunc: true, append: false };
const APPEND: OpenMode = OpenMode { write: true, trunc: false, append: true };

fn ns_of(root: [u8; 32]) -> String {
    format!("u/{}", root.iter().map(|b| format!("{b:02x}")).collect::<String>())
}

fn tmp_store() -> (Store, [u8; 32]) {
    let mut store = Store::open(&Disk { snap: None, dirs: vec![] }).unwrap();
    let root = [42u8; 32];
    store.create_namespace(&ns_of(root), ConflictPolicy::Lww).unwrap();
    (store, root)
}

fn mount(root: [u8; 32]) -> MeshFs {
    MeshFs::new(root, 1000, Hlc::from(0))
}

#[test]
fn commit_keeps_unexpired_ttl_on_rewrite() {
    let (mut store, root) = tmp_store();
    let mut fs = mount(root);
    let ns = ns_of(root);
    let key = MeshFs::key_of(b"note.txt");
    let expires = wall_ms() + 60_000;
    store.put(&ns, &key, b"one", 1, [9u8; 32], [9u8; 32], expires).unwrap();
    fs.commit(&mut store, b"note.txt", b"two".to_vec(), wall_ms()).unwrap();
    match store.get(&ns, &key).unwrap() {
        Entry::Lww(v) => assert_eq!(v.expires_at, expires),
        _ => panic!("expected Lww entry"),
    }
}

#[test]
fn expired_entry_reads_absent() {
    let (mut store, root) = tmp_store();
    let fs = mount(root);
    let ns = ns_of(root);
    let key = MeshFs::key_of(b"old.txt");
    store.put(&ns, &key, b"gone", 1, [9u8; 32], [9u8; 32], wall_ms() - 1000).unwrap();
    assert!(fs.latest_info(&store, b"old.txt", wall_ms()).is_none());
    assert!(fs.file_exists(&store, b"old.txt", wall_ms()) == false);
    assert!(fs.read_value(&store, b"old.txt", wall_ms()).is_none());
    store.put(&ns, &key, b"live", 2, [9u8; 32], [9u8; 32], wall_ms() + 60_000).unwrap();
    assert!(fs.read_value(&store, b"old.txt", wall_ms()).is_some());
}

#[test]
fn commit_delete_roundtrip() {
    let (mut store, root) = tmp_store();
    let mut fs = mount(root);
    fs.commit(&mut store, b"f.txt", b"hello".to_vec(), 1).unwrap();
    match fs.read_value(&store, b"f.txt", 1) {
        Some(v) => assert_eq!(v, b"hello".to_vec()),
        None => panic!("missing after commit"),
    }
    fs.delete_path(&mut store, b"f.txt", 1).unwrap();
    assert!(fs.read_value(&store, b"f.txt", 1).is_none());
}

#[test]
fn authorized_self_requires_namespace() {
    let (mut store, _root) = tmp_store();
    let mut fs = mount([7u8; 32]);
    assert!(fs.authorized_self(&store) == false);
    match fs.commit(&mut store, b"x", Vec::new(), 1) {
        Err(e) => assert!(e == Errno::Eacces),
        Ok(_) => panic!("commit without a namespace must fail"),
    }
    assert_eq!(fs.create(&mut store, 1, b"x", 1), Err(Errno::Eacces));
    assert_eq!(fs.mkdir(&mut store, 1, b"x", 1), Err(Errno::Eacces));
    assert_eq!(fs.unlink(&mut store, 1, b"x", 1), Err(Errno::Eacces));
    assert_eq!(fs.rmdir(&mut store, 1, b"x", 1), Err(Errno::Eacces));
    assert_eq!(fs.rename(&mut store, 1, b"x", 1, b"y", true, 1), Err(Errno::Eacces));
}

#[test]
fn child_name_filters_malformed_stored_keys() {
    match MeshFs::child_name(b"ab") {
        Some((name, false)) => assert_eq!(name, b"ab".to_vec()),
        _ => panic!("plain file name must parse"),
    }
    match MeshFs::child_name(b"a/c") {
        Some((name, true)) => assert_eq!(name, b"a".to_vec()),
        _ => panic!("nested name must parse as a dir"),
    }
    assert!(MeshFs::child_name(&[]).is_none());
    assert!(MeshFs::child_name(b"/x").is_none());
    assert!(MeshFs::child_name(b".").is_none());
    assert!(MeshFs::child_name(b"..").is_none());
    assert!(MeshFs::child_name(&[0u8; 1]).is_none());
    assert!(MeshFs::child_name(b"a\x00b").is_none());
}

#[test]
fn attr_reports_mount_owner_not_requester() {
    let (mut store, root) = tmp_store();
    let mut fs = mount(root);
    fs.commit(&mut store, b"f.txt", b"hi".to_vec(), 1).unwrap();
    let a = fs.attr(&store, b"f.txt", false, 1);
    assert_eq!(a.uid, fs.owner_uid());
    assert_eq!(a.gid, fs.owner_uid());
    assert_eq!((a.size, a.blocks, a.perm, a.nlink), (2, 1, 0o644, 1));
}

#[test]
fn a_file_is_written_renamed_and_removed() {
    let (mut store, root) = tmp_store();
    let mut fs = mount(root);
    let (a, fh) = fs.create(&mut store, 1, b"note.txt", 1).unwrap();
    assert_eq!(fs.write(a.ino, fh, 0, b"hi"), Ok(2));
    assert_eq!(fs.read(&store, a.ino, 0, 10, 1), Ok(vec![]), "not before the flush");
    fs.flush(&mut store, a.ino, fh, 1).unwrap();
    fs.release(fh);
    assert_eq!(fs.read(&store, a.ino, 0, 10, 1), Ok(b"hi".to_vec()));
    assert_eq!(fs.read(&store, a.ino, 1, 1, 1), Ok(b"i".to_vec()));
    assert_eq!(fs.read(&store, a.ino, 5, 1, 1), Ok(vec![]));

    fs.rename(&mut store, 1, b"note.txt", 1, b"renamed.txt", true, 2).unwrap();
    let b = fs.lookup(&store, 1, b"renamed.txt", 2).unwrap();
    assert_eq!(fs.read(&store, b.ino, 0, 10, 2), Ok(b"hi".to_vec()));
    assert_eq!(fs.lookup(&store, 1, b"note.txt", 2), Err(Errno::Enoent));
    assert_eq!(fs.rename(&mut store, 1, b"a", 1, b"b", false, 2), Err(Errno::Enosys));

    fs.unlink(&mut store, 1, b"renamed.txt", 3).unwrap();
    assert_eq!(fs.lookup(&store, 1, b"renamed.txt", 3), Err(Errno::Enoent));
    assert_eq!(fs.getattr(&store, 99, 3), Err(Errno::Eio));
}

#[test]
fn directories_are_made_up_from_keys() {
    let (mut store, root) = tmp_store();
    let mut fs = mount(root);
    let d = fs.mkdir(&mut store, 1, b"d", 1).unwrap();
    assert!(d.is_dir);
    assert!(fs.getattr(&store, d.ino, 1).unwrap().is_dir, "an empty directory stays in sight");
    let (_, fh) = fs.create(&mut store, d.ino, b"f", 1).unwrap();
    fs.release(fh);
    fs.commit(&mut store, b"top", b"x".to_vec(), 1).unwrap();
    store.put(&ns_of(root), &b"fs/bad\x00name".to_vec(), b"", 9, [1; 32], [1; 32], 0).unwrap();
    store.put(&ns_of(root), &b"fs/old".to_vec(), b"", 9, [1; 32], [1; 32], 1).unwrap();

    let l = fs.readdir(&store, 1, 0).unwrap();
    let names: Vec<(u64, &[u8], bool)> = l.rows.iter().map(|r| (r.offset, &r.name[..], r.is_dir)).collect();
    assert_eq!(
        names,
        vec![(1, &b"."[..], true), (2, b"..", true), (3, b"d", true), (4, b"old", false), (5, b"top", false)]
    );
    assert_eq!(fs.readdir_entry(&store, &l.path, &l.rows[2], 5), Some(d.ino));
    assert_eq!(fs.readdir_entry(&store, &l.path, &l.rows[3], 5), None, "expired files are not listed");
    assert_eq!(fs.readdir(&store, 1, 4).unwrap().rows.len(), 1);
    assert!(fs.readdir(&store, 1, 5).unwrap().rows.is_empty());

    fs.rename(&mut store, 1, b"d", 1, b"e", true, 2).unwrap();
    assert!(fs.file_exists(&store, b"e/f", 2));
    assert!(!fs.dir_exists(&store, b"d"));
    fs.rmdir(&mut store, 1, b"e", 3).unwrap();
    assert!(!fs.dir_exists(&store, b"e"));
    assert!(!fs.file_exists(&store, b"e/f", 3));
}

#[test]
fn only_dirty_handles_store() {
    let (mut store, root) = tmp_store();
    let mut fs = mount(root);
    fs.commit(&mut store, b"f", b"hello".to_vec(), 1).unwrap();
    let ino = fs.lookup(&store, 1, b"f", 1).unwrap().ino;
    let before = store.revision();

    assert_eq!(fs.open(&store, ino, RO, 1), Ok(0));
    fs.flush(&mut store, ino, 0, 1).unwrap();
    let fh = fs.open(&store, ino, RW, 1).unwrap();
    fs.flush(&mut store, ino, fh, 1).unwrap();
    assert_eq!(fs.write(ino, 0, 0, b"x"), Err(Errno::Eio));
    let fh = fs.open(&store, ino, RW, 1).unwrap();
    fs.write(ino, fh, 0, b"x").unwrap();
    fs.release(fh);
    fs.flush(&mut store, ino, fh, 1).unwrap();
    assert_eq!(store.revision(), before);

    let fh = fs.open(&store, ino, RW, 1).unwrap();
    fs.write(ino, fh, 1, b"E").unwrap();
    fs.flush(&mut store, ino, fh, 1).unwrap();
    assert_eq!(fs.read_value(&store, b"f", 1), Some(b"hEllo".to_vec()));

    let fh = fs.open(&store, ino, APPEND, 1).unwrap();
    fs.write(ino, fh, 0, b"!").unwrap();
    fs.flush(&mut store, ino, fh, 1).unwrap();
    assert_eq!(fs.read_value(&store, b"f", 1), Some(b"hEllo!".to_vec()));

    let fh = fs.open(&store, ino, TRUNC, 1).unwrap();
    fs.flush(&mut store, ino, fh, 1).unwrap();
    assert_eq!(fs.read_value(&store, b"f", 1), Some(vec![]));
}

#[test]
fn sizes_change_in_the_buffer_or_in_the_store() {
    let (mut store, root) = tmp_store();
    let mut fs = mount(root);
    fs.commit(&mut store, b"f", b"hello".to_vec(), 1).unwrap();
    let ino = fs.lookup(&store, 1, b"f", 1).unwrap().ino;
    assert_eq!(fs.setattr(&mut store, ino, Some(2), None, 1).unwrap().size, 2);
    assert_eq!(fs.read_value(&store, b"f", 1), Some(b"he".to_vec()));
    let fh = fs.open(&store, ino, RW, 1).unwrap();
    assert_eq!(fs.setattr(&mut store, ino, Some(4), Some(fh), 1).unwrap().size, 4);
    assert_eq!(fs.read_value(&store, b"f", 1), Some(b"he".to_vec()), "not before the flush");
    fs.flush(&mut store, ino, fh, 1).unwrap();
    assert_eq!(fs.read_value(&store, b"f", 1), Some(b"he\0\0".to_vec()));
    assert!(fs.setattr(&mut store, 1, Some(4), None, 1).unwrap().is_dir);
}

#[test]
fn rename_takes_the_expiry_along() {
    let (mut store, root) = tmp_store();
    let mut fs = mount(root);
    fs.commit_ttl(&mut store, b"a", b"x".to_vec(), Some(100), 1).unwrap();
    fs.rename(&mut store, 1, b"a", 1, b"b", true, 2).unwrap();
    assert_eq!(fs.live_expires_at(&store, b"b", 2), 100);
    assert!(fs.read_value(&store, b"b", 99).is_some());
    assert!(fs.read_value(&store, b"b", 100).is_none());
}

#[test]
fn numbers_stay_with_their_paths() {
    let mut n = Inodes::new();
    let first = n.ino_for(b"first", &vec![]);
    let second = n.ino_for(b"second", &vec![]);
    for i in 0..300 {
        n.ino_for(format!("p{i}").as_bytes(), &vec![first]);
    }
    assert_eq!(n.ino_for(b"first", &vec![]), first);
    assert_eq!(n.path_of(first), Some(b"first".to_vec()));
    assert_eq!(n.path_of(second), Some(b"second".to_vec()));
    assert_eq!(n.path_of(1), Some(vec![]));
    assert_eq!(n.path_of(1_000_000), None);
}

#[test]
fn a_file_whose_greatest_version_expired_is_absent() {
    let mut store = Store::open(&Disk { snap: None, dirs: vec![] }).unwrap();
    let root = [42u8; 32];
    let ns = ns_of(root);
    store.create_namespace(&ns, ConflictPolicy::CrdtRegister).unwrap();
    let fs = mount(root);
    let key = MeshFs::key_of(b"f.txt");
    store.put(&ns, &key, b"lasting", 1, [9u8; 32], [9u8; 32], 0).unwrap();
    store.put(&ns, &key, b"brief", 2, [9u8; 32], [9u8; 32], 100).unwrap();
    assert_eq!(fs.read_value(&store, b"f.txt", 99), Some(b"brief".to_vec()));
    assert!(fs.read_value(&store, b"f.txt", 100).is_none());
    assert!(!fs.file_exists(&store, b"f.txt", 100));
}
