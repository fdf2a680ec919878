//! The tree of files: what each call on it answers, and what it changes.
//!
//! A file is written as a whole. A write goes to the buffer of an open handle, and a
//! flush stores the buffer, but only where the handle was opened for writing and was
//! written to or cut. A file past its expiry is not there; one that is written again
//! keeps its expiry, and takes it along to a new name.

use crate::fs::inodes;
use crate::fs::inodes::{Inodes, InodesV, ROOT_INO};
use crate::fs::path;
use crate::hexes;
use crate::hexes::hex_encode;
use crate::node::hlc;
use crate::node::hlc::Hlc;
use crate::ordmap;
use crate::ordmap::{same_bytes, OrdMap};
use crate::storage::entry::{CellsV, Entry, EntryV, Version, VersionV};
use crate::storage::log;
use crate::storage::model;
use crate::storage::model::StoreV;
use crate::storage::store;
use crate::storage::store::Store;
use crate::text;
use vstd::prelude::*;
use vstd::slice::slice_subrange;
use vstd::slice::slice_to_vec;

verus! {

/// Why a call fails.
#[derive(Debug, Clone, Copy, PartialEq, Eq, Structural)]
pub enum Errno {
    Eacces,
    Enoent,
    Enospc,
    Eio,
    Enosys,
}

/// What is shown of a file or a directory.
#[derive(Debug, Clone, Copy, PartialEq, Eq, Structural)]
pub struct Attr {
    pub ino: u64,
    pub size: u64,
    /// In units of 512 bytes.
    pub blocks: u64,
    pub mtime_secs: u64,
    pub is_dir: bool,
    pub perm: u16,
    pub nlink: u32,
    /// The user that mounted the tree, not the one that asks.
    pub uid: u32,
    pub gid: u32,
}

/// What a handle is opened for.
#[derive(Debug, Clone, Copy, PartialEq, Eq, Structural)]
pub struct OpenMode {
    pub write: bool,
    pub trunc: bool,
    pub append: bool,
}

/// A name in a directory; `offset` is where to go on behind it.
#[derive(Debug)]
pub struct DirRow {
    pub offset: u64,
    pub name: Vec<u8>,
    pub is_dir: bool,
}

/// A name in a directory, in the model.
#[verifier::ext_equal]
pub struct RowV {
    pub offset: u64,
    pub name: Seq<u8>,
    pub is_dir: bool,
}

impl View for DirRow {
    type V = RowV;

    open spec fn view(&self) -> RowV {
        RowV { offset: self.offset, name: self.name@, is_dir: self.is_dir }
    }
}

/// The views of some names.
pub open spec fn row_views(l: Seq<DirRow>) -> Seq<RowV> {
    Seq::new(l.len(), |i: int| l[i]@)
}

/// The names in a directory, with its path.
#[derive(Debug)]
pub struct Listing {
    pub path: Vec<u8>,
    pub rows: Vec<DirRow>,
}

/// What is kept of a handle that was opened for writing.
struct Handle {
    fh: u64,
    ino: u64,
    data: Vec<u8>,
    /// Was it written to or cut?
    dirty: bool,
    /// Does every write go to the end?
    append: bool,
}

/// A handle as a value of the model.
#[verifier::ext_equal]
pub struct HandleV {
    pub fh: u64,
    pub ino: u64,
    pub data: Seq<u8>,
    pub dirty: bool,
    pub append: bool,
}

impl View for Handle {
    type V = HandleV;

    closed spec fn view(&self) -> HandleV {
        HandleV {
            fh: self.fh,
            ino: self.ino,
            data: self.data@,
            dirty: self.dirty,
            append: self.append,
        }
    }
}

/// The tree of the files of a root key, the user that mounted it, and the last clock
/// issued.
pub struct MeshFs {
    pub clock: Hlc,
    root: [u8; 32],
    ns: String,
    owner_uid: u32,
    inodes: Inodes,
    handles: Vec<Handle>,
    next_fh: u64,
}

/// The tree as a value of the model.
#[verifier::ext_equal]
pub struct FsV {
    pub root: Seq<u8>,
    pub owner_uid: u32,
    pub inodes: InodesV,
    pub handles: Seq<HandleV>,
    pub next_fh: u64,
    pub clock: u64,
}

/// The tree and the store after a call, and what the call answers.
pub struct FsStep<T> {
    pub fs: FsV,
    pub store: StoreV,
    pub result: Result<T, Errno>,
}

/// The namespace of a root key.
pub open spec fn ns_of(root: Seq<u8>) -> Seq<char> {
    "u/"@ + hexes::hex_text(root)
}

/// The place of a handle from `i` on.
pub open spec fn handle_at(hs: Seq<HandleV>, fh: u64, i: int) -> int
    decreases hs.len() - i,
{
    if i < 0 || i >= hs.len() {
        hs.len() as int
    } else if hs[i].fh == fh {
        i
    } else {
        handle_at(hs, fh, i + 1)
    }
}

/// The handles with one more.
pub open spec fn with_handle(hs: Seq<HandleV>, h: HandleV) -> Seq<HandleV> {
    let i = handle_at(hs, h.fh, 0);
    if i < hs.len() {
        hs.update(i, h)
    } else {
        hs.push(h)
    }
}

/// The numbers that open handles refer to.
pub open spec fn held(hs: Seq<HandleV>) -> Seq<u64> {
    Seq::new(hs.len(), |i: int| hs[i].ino)
}

/// The number after the last handle.
pub open spec fn next_number(n: u64) -> u64 {
    ((n + 1) % 0x1_0000_0000_0000_0000) as u64
}

/// What is shown of a file or a directory.
pub open spec fn attr_with(uid: u32, ino: u64, is_dir: bool, size: u64, mtime_secs: u64) -> Attr {
    Attr {
        ino,
        size,
        blocks: ((size + 511) / 512) as u64,
        mtime_secs,
        is_dir,
        perm: if is_dir {
            0o755
        } else {
            0o644
        },
        nlink: if is_dir {
            2
        } else {
            1
        },
        uid,
        gid: uid,
    }
}

impl FsV {
    pub open spec fn ns(self) -> Seq<char> {
        ns_of(self.root)
    }

    /// The version of a file that is read; none where there is no file or it is past
    /// its expiry.
    pub open spec fn seen(self, s: StoreV, path: Seq<u8>, now_ms: u64) -> Option<VersionV> {
        match s.get(self.ns(), path::key_for(path)) {
            Some(e) => e.latest_live(now_ms),
            None => None,
        }
    }

    /// The contents of a file.
    pub open spec fn contents(self, s: StoreV, path: Seq<u8>, now_ms: u64) -> Option<Seq<u8>> {
        match self.seen(s, path, now_ms) {
            Some(v) => Some(v.value),
            None => None,
        }
    }

    /// The expiry of a file; 0 is never.
    pub open spec fn expiry(self, s: StoreV, path: Seq<u8>, now_ms: u64) -> u64 {
        match self.seen(s, path, now_ms) {
            Some(v) => v.expires_at,
            None => 0,
        }
    }

    /// The keys below a directory.
    pub open spec fn below(self, s: StoreV, path: Seq<u8>) -> Seq<Seq<u8>> {
        store::scanned_keys(s, self.ns(), path::prefix_for(path))
    }

    pub open spec fn is_file(self, s: StoreV, path: Seq<u8>, now_ms: u64) -> bool {
        self.seen(s, path, now_ms) is Some
    }

    pub open spec fn is_dir(self, s: StoreV, path: Seq<u8>) -> bool {
        self.below(s, path).len() > 0
    }

    /// The size and the time of a file; 0 for a directory and for what is not there.
    pub open spec fn measured(self, s: StoreV, path: Seq<u8>, is_dir: bool, now_ms: u64) -> (u64, u64) {
        match self.seen(s, path, now_ms) {
            Some(v) => if is_dir {
                (0, 0)
            } else {
                (v.value.len() as u64, v.hlc / 1000)
            },
            None => (0, 0),
        }
    }

    /// The tree after the number of a path was asked for.
    pub open spec fn numbered(self, path: Seq<u8>) -> FsV {
        FsV { inodes: self.inodes.asked(path, held(self.handles)), ..self }
    }

    /// What is shown of a path.
    pub open spec fn attr(self, s: StoreV, path: Seq<u8>, is_dir: bool, now_ms: u64) -> Attr {
        let m = self.measured(s, path, is_dir, now_ms);
        attr_with(self.owner_uid, self.inodes.number(path), is_dir, m.0, m.1)
    }

    pub open spec fn fails<T>(self, s: StoreV, e: Errno) -> FsStep<T> {
        FsStep { fs: self, store: s, result: Err(e) }
    }

    /// The tree after one more clock was issued.
    pub open spec fn ticked(self, now_ms: u64) -> FsV {
        FsV { clock: hlc::issued(self.clock, now_ms), ..self }
    }

    /// Store a file with an expiry.
    pub open spec fn stored(self, s: StoreV, path: Seq<u8>, data: Seq<u8>, expires_at: u64, now_ms: u64) -> FsStep<()> {
        let t = self.ticked(now_ms);
        let put = s.put(
            self.ns(),
            model::put_op(path::key_for(path), data, t.clock, self.root, self.root, expires_at),
        );
        FsStep {
            fs: t,
            store: put.store,
            result: match put.result {
                Ok(_) => Ok(()),
                Err(_) => Err(Errno::Enospc),
            },
        }
    }

    /// Store a file: with the given expiry where that is still to come, and with the
    /// one that the file has where none is given.
    pub open spec fn committed(self, s: StoreV, path: Seq<u8>, data: Seq<u8>, hint: Option<u64>, now_ms: u64) -> FsStep<()> {
        let expires_at = match hint {
            None => self.expiry(s, path, now_ms),
            Some(h) => if h > now_ms {
                h
            } else {
                0
            },
        };
        if !s.has(self.ns()) {
            self.fails(s, Errno::Eacces)
        } else {
            self.stored(s, path, data, expires_at, now_ms)
        }
    }

    /// Delete a file.
    pub open spec fn removed(self, s: StoreV, path: Seq<u8>, now_ms: u64) -> FsStep<()> {
        let t = self.ticked(now_ms);
        let del = s.delete(self.ns(), model::del_op(path::key_for(path), t.clock, self.root, self.root));
        if !s.has(self.ns()) {
            self.fails(s, Errno::Eacces)
        } else if path.len() == 0 {
            self.fails(s, Errno::Enoent)
        } else {
            FsStep {
                fs: t,
                store: del.store,
                result: match del.result {
                    Ok(_) => Ok(()),
                    Err(_) => Err(Errno::Eio),
                },
            }
        }
    }

    /// Delete keys in order, up to the first that fails.
    pub open spec fn cleared(self, s: StoreV, keys: Seq<Seq<u8>>) -> FsStep<()>
        decreases keys.len(),
    {
        if keys.len() == 0 {
            FsStep { fs: self, store: s, result: Ok(()) }
        } else {
            let del = s.delete(self.ns(), model::del_op(keys[0], self.clock, self.root, self.root));
            match del.result {
                Err(_) => self.fails(del.store, Errno::Eio),
                Ok(_) => self.cleared(del.store, keys.drop_first()),
            }
        }
    }

    /// Delete all that is below a directory.
    pub open spec fn emptied(self, s: StoreV, path: Seq<u8>, now_ms: u64) -> FsStep<()> {
        if !s.has(self.ns()) {
            self.fails(s, Errno::Eacces)
        } else {
            self.ticked(now_ms).cleared(s, self.below(s, path))
        }
    }

    /// The answer to a look at a path.
    pub open spec fn shown(self, s: StoreV, path: Seq<u8>, now_ms: u64) -> FsStep<Attr> {
        if !self.is_dir(s, path) && !self.is_file(s, path, now_ms) {
            self.fails(s, Errno::Enoent)
        } else {
            self.with_attr(s, path, self.is_dir(s, path), now_ms)
        }
    }

    /// Answer with what is shown of a path.
    pub open spec fn with_attr(self, s: StoreV, path: Seq<u8>, is_dir: bool, now_ms: u64) -> FsStep<Attr> {
        FsStep { fs: self.numbered(path), store: s, result: Ok(self.attr(s, path, is_dir, now_ms)) }
    }
}

impl View for MeshFs {
    type V = FsV;

    closed spec fn view(&self) -> FsV {
        FsV {
            root: self.root@,
            owner_uid: self.owner_uid,
            inodes: self.inodes@,
            handles: Seq::new(self.handles@.len(), |i: int| self.handles@[i]@),
            next_fh: self.next_fh,
            clock: self.clock.value(),
        }
    }
}

pub proof fn lemma_handle(hs: Seq<HandleV>, fh: u64, i: int)
    requires
        0 <= i <= hs.len(),
    ensures
        i <= handle_at(hs, fh, i) <= hs.len(),
        handle_at(hs, fh, i) < hs.len() ==> hs[handle_at(hs, fh, i)].fh == fh,
        forall|j: int| i <= j < handle_at(hs, fh, i) ==> hs[j].fh != fh,
    decreases hs.len() - i,
{
    if i < hs.len() {
        lemma_handle(hs, fh, i + 1);
    }
}

// ---------- reading ----------

impl MeshFs {
    /// Do the parts agree?
    pub closed spec fn wf(&self) -> bool {
        self.ns@ == ns_of(self.root@)
    }

    pub fn new(root_pk: [u8; 32], owner_uid: u32, clock: Hlc) -> (fs: MeshFs)
        ensures
            fs.wf(),
            fs@ == (FsV {
                root: root_pk@,
                owner_uid,
                inodes: InodesV { list: Seq::empty(), next: 2 },
                handles: Seq::empty(),
                next_fh: 1,
                clock: clock.value(),
            }),
    {
        let ns = text::join2("u/", hex_encode(root_pk.as_slice()).as_str());
        let fs = MeshFs {
            clock,
            root: root_pk,
            ns,
            owner_uid,
            inodes: Inodes::new(),
            handles: Vec::new(),
            next_fh: 1,
        };
        assert(fs@.handles =~= Seq::empty());
        fs
    }

    /// The key of a path.
    pub fn key_of(path: &[u8]) -> (k: Vec<u8>)
        ensures
            k@ == path::key_for(path@),
    {
        path::key_of(path)
    }

    /// The first name in the rest of a key behind its directory.
    pub fn child_name(rel: &[u8]) -> (r: Option<(Vec<u8>, bool)>)
        ensures
            match path::child_of(rel@) {
                Some(c) => r matches Some(x) && x.0@ == c.0 && x.1 == c.1,
                None => r is None,
            },
    {
        path::child_name(rel)
    }

    /// The user that mounted the tree.
    pub fn owner_uid(&self) -> (uid: u32)
        ensures
            uid == self@.owner_uid,
    {
        self.owner_uid
    }

    /// The path of a number.
    pub fn path_of(&self, ino: u64) -> (r: Option<Vec<u8>>)
        ensures
            match self@.inodes.path(ino) {
                Some(p) => r matches Some(v) && v@ == p,
                None => r is None,
            },
    {
        self.inodes.path_of(ino)
    }

    /// The version of a file that is read.
    fn version<'a>(&self, store: &'a Store, path: &[u8], now_ms: u64) -> (r: Option<&'a Version>)
        requires
            self.wf(),
            store.wf(),
        ensures
            match self@.seen(store@, path@, now_ms) {
                Some(v) => r matches Some(x) && x@ == v,
                None => r is None,
            },
    {
        let key = path::key_of(path);
        match store.get(self.ns.as_str(), &key) {
            Some(e) => e.latest_live(now_ms),
            None => None,
        }
    }

    /// The length and the clock of a file; none where there is no file or it is past
    /// its expiry.
    pub fn latest_info(&self, store: &Store, path: &[u8], now_ms: u64) -> (r: Option<(u64, u64)>)
        requires
            self.wf(),
            store.wf(),
        ensures
            match self@.seen(store@, path@, now_ms) {
                Some(v) => r == Some((v.value.len() as u64, v.hlc)),
                None => r is None,
            },
    {
        match self.version(store, path, now_ms) {
            Some(v) => Some((v.value.len() as u64, v.hlc)),
            None => None,
        }
    }

    /// The contents of a file.
    pub fn read_value(&self, store: &Store, path: &[u8], now_ms: u64) -> (r: Option<Vec<u8>>)
        requires
            self.wf(),
            store.wf(),
        ensures
            match self@.contents(store@, path@, now_ms) {
                Some(d) => r matches Some(v) && v@ == d,
                None => r is None,
            },
    {
        match self.version(store, path, now_ms) {
            Some(v) => Some(v.value.clone()),
            None => None,
        }
    }

    /// Is there a file?
    pub fn file_exists(&self, store: &Store, path: &[u8], now_ms: u64) -> (r: bool)
        requires
            self.wf(),
            store.wf(),
        ensures
            r == self@.is_file(store@, path@, now_ms),
    {
        self.version(store, path, now_ms).is_some()
    }

    /// Is there a directory?
    pub fn dir_exists(&self, store: &Store, path: &[u8]) -> (r: bool)
        requires
            self.wf(),
            store.wf(),
        ensures
            r == self@.is_dir(store@, path@),
    {
        let keys = store.scan_keys(self.ns.as_str(), path::dir_prefix(path).as_slice());
        assert(store::key_views(keys@).len() == keys@.len());
        keys.len() > 0
    }

    /// The expiry of a file; 0 is never.
    pub fn live_expires_at(&self, store: &Store, path: &[u8], now_ms: u64) -> (r: u64)
        requires
            self.wf(),
            store.wf(),
        ensures
            r == self@.expiry(store@, path@, now_ms),
    {
        match self.version(store, path, now_ms) {
            Some(v) => v.expires_at,
            None => 0,
        }
    }

    /// Does the store take writes of this host's files?
    pub fn authorized_self(&self, store: &Store) -> (r: bool)
        requires
            self.wf(),
            store.wf(),
        ensures
            r == store@.has(self@.ns()),
    {
        store.policy(self.ns.as_str()).is_some()
    }

    fn attr_of(&self, ino: u64, is_dir: bool, size: u64, mtime_secs: u64) -> (a: Attr)
        ensures
            a == attr_with(self@.owner_uid, ino, is_dir, size, mtime_secs),
    {
        let blocks: u64 = if size % 512 == 0 {
            size / 512
        } else {
            size / 512 + 1
        };
        Attr {
            ino,
            size,
            blocks,
            mtime_secs,
            is_dir,
            perm: if is_dir {
                0o755
            } else {
                0o644
            },
            nlink: if is_dir {
                2
            } else {
                1
            },
            uid: self.owner_uid,
            gid: self.owner_uid,
        }
    }

    /// The numbers that open handles refer to.
    fn held_inos(&self) -> (l: Vec<u64>)
        ensures
            l@ == held(self@.handles),
    {
        let mut l: Vec<u64> = Vec::new();
        let mut i: usize = 0;
        while i < self.handles.len()
            invariant
                i <= self.handles@.len(),
                l@.len() == i,
                forall|j: int| 0 <= j < i ==> l@[j] == self@.handles[j].ino,
            decreases self.handles@.len() - i,
        {
            l.push(self.handles[i].ino);
            i += 1;
        }
        assert(l@ =~= held(self@.handles));
        l
    }

    /// The number of a path.
    fn ino_for(&mut self, path: &[u8]) -> (ino: u64)
        requires
            old(self).wf(),
        ensures
            final(self).wf(),
            ino == old(self)@.inodes.number(path@),
            final(self)@ == old(self)@.numbered(path@),
    {
        let ghost was = self@;
        let keep = self.held_inos();
        let ino: u64 = self.inodes.ino_for(path, &keep);
        assert(self@.handles =~= was.handles);
        ino
    }

    /// What is shown of a path.
    pub fn attr(&mut self, store: &Store, path: &[u8], is_dir: bool, now_ms: u64) -> (a: Attr)
        requires
            old(self).wf(),
            store.wf(),
        ensures
            final(self).wf(),
            a == old(self)@.attr(store@, path@, is_dir, now_ms),
            final(self)@ == old(self)@.numbered(path@),
    {
        let (size, mtime): (u64, u64) = if is_dir {
            (0, 0)
        } else {
            match self.latest_info(store, path, now_ms) {
                Some((l, h)) => (l, h / 1000),
                None => (0, 0),
            }
        };
        let ino: u64 = self.ino_for(path);
        self.attr_of(ino, is_dir, size, mtime)
    }

    fn find_handle(&self, fh: u64) -> (i: usize)
        ensures
            i == handle_at(self@.handles, fh, 0),
            i <= self@.handles.len(),
    {
        let ghost all = self@.handles;
        let mut i: usize = 0;
        while i < self.handles.len()
            invariant
                i <= self.handles@.len(),
                all == self@.handles,
                all.len() == self.handles@.len(),
                handle_at(all, fh, 0) == handle_at(all, fh, i as int),
            decreases self.handles@.len() - i,
        {
            assert(all[i as int] == self.handles@[i as int]@);
            if self.handles[i].fh == fh {
                return i;
            }
            i += 1;
        }
        i
    }
}

// ---------- writing ----------

impl MeshFs {
    /// Store a file; an expiry that it has and that is still to come stays.
    pub fn commit(&mut self, store: &mut Store, path: &[u8], data: Vec<u8>, now_ms: u64) -> (r: Result<(), Errno>)
        requires
            old(self).wf(),
            old(store).wf(),
        ensures
            final(self).wf(),
            final(store).wf(),
            final(store).is_durable() == old(store).is_durable(),
            ({
                let want = old(self)@.committed(old(store)@, path@, data@, None, now_ms);
                final(self)@ == want.fs && final(store)@ == want.store && r == want.result
            }),
    {
        self.commit_ttl(store, path, data, None, now_ms)
    }

    /// Store a file with the given expiry, or with the one that it has.
    pub fn commit_ttl(&mut self, store: &mut Store, path: &[u8], data: Vec<u8>, ttl_hint: Option<u64>, now_ms: u64) -> (r: Result<
        (),
        Errno,
    >)
        requires
            old(self).wf(),
            old(store).wf(),
        ensures
            final(self).wf(),
            final(store).wf(),
            final(store).is_durable() == old(store).is_durable(),
            ({
                let want = old(self)@.committed(old(store)@, path@, data@, ttl_hint, now_ms);
                final(self)@ == want.fs && final(store)@ == want.store && r == want.result
            }),
    {
        if !self.authorized_self(store) {
            return Err(Errno::Eacces);
        }
        let expires_at: u64 = match ttl_hint {
            None => self.live_expires_at(store, path, now_ms),
            Some(h) => if h > now_ms {
                h
            } else {
                0
            },
        };
        let clock: u64 = self.tick(now_ms);
        let key = path::key_of(path);
        match store.put(self.ns.as_str(), &key, data.as_slice(), clock, self.root, self.root, expires_at) {
            Ok(_) => Ok(()),
            Err(_) => Err(Errno::Enospc),
        }
    }

    fn tick(&mut self, now_ms: u64) -> (clock: u64)
        requires
            old(self).wf(),
        ensures
            final(self).wf(),
            final(self)@ == old(self)@.ticked(now_ms),
            clock == final(self)@.clock,
            final(self).ns == old(self).ns,
            final(self).root == old(self).root,
    {
        let ghost was = self@;
        self.clock = Hlc::issue(self.clock, now_ms);
        assert(self@.handles =~= was.handles);
        self.clock.to_u64()
    }

    /// Delete a file.
    pub fn delete_path(&mut self, store: &mut Store, path: &[u8], now_ms: u64) -> (r: Result<(), Errno>)
        requires
            old(self).wf(),
            old(store).wf(),
        ensures
            final(self).wf(),
            final(store).wf(),
            final(store).is_durable() == old(store).is_durable(),
            ({
                let want = old(self)@.removed(old(store)@, path@, now_ms);
                final(self)@ == want.fs && final(store)@ == want.store && r == want.result
            }),
    {
        if !self.authorized_self(store) {
            return Err(Errno::Eacces);
        }
        if path.len() == 0 {
            return Err(Errno::Enoent);
        }
        let clock: u64 = self.tick(now_ms);
        let key = path::key_of(path);
        match store.delete(self.ns.as_str(), &key, clock, self.root, self.root) {
            Ok(_) => Ok(()),
            Err(_) => Err(Errno::Eio),
        }
    }

    /// Delete all that is below a directory, up to the first key that fails.
    pub fn delete_all_under(&mut self, store: &mut Store, path: &[u8], now_ms: u64) -> (r: Result<(), Errno>)
        requires
            old(self).wf(),
            old(store).wf(),
        ensures
            final(self).wf(),
            final(store).wf(),
            final(store).is_durable() == old(store).is_durable(),
            ({
                let want = old(self)@.emptied(old(store)@, path@, now_ms);
                final(self)@ == want.fs && final(store)@ == want.store && r == want.result
            }),
    {
        if !self.authorized_self(store) {
            return Err(Errno::Eacces);
        }
        let keys = store.scan_keys(self.ns.as_str(), path::dir_prefix(path).as_slice());
        let ghost all = store::key_views(keys@);
        let clock: u64 = self.tick(now_ms);
        let ghost t = self@;
        let ghost whole = t.cleared(store@, all);
        let mut i: usize = 0;
        assert(all.skip(0) =~= all);
        while i < keys.len()
            invariant
                i <= keys@.len(),
                all == store::key_views(keys@),
                store.wf(),
                store.is_durable() == old(store).is_durable(),
                self.wf(),
                self@ == t,
                clock == t.clock,
                whole == t.cleared(store@, all.skip(i as int)),
                whole == old(self)@.emptied(old(store)@, path@, now_ms),
            decreases keys@.len() - i,
        {
            proof {
                assert(all.skip(i as int).drop_first() =~= all.skip(i + 1));
                assert(all.skip(i as int)[0] == keys@[i as int]@);
            }
            if store.delete(self.ns.as_str(), &keys[i], clock, self.root, self.root).is_err() {
                return Err(Errno::Eio);
            }
            i += 1;
        }
        assert(all.skip(i as int) =~= Seq::empty());
        Ok(())
    }
}

// ---------- looking ----------

/// The names in a directory, each with whether there is more below it.
pub open spec fn kids(keys: Seq<Seq<u8>>, n: int) -> Map<Seq<u8>, bool>
    decreases keys.len(),
{
    if keys.len() == 0 {
        Map::empty()
    } else {
        let before = kids(keys.drop_last(), n);
        match path::child_of(keys.last().skip(n)) {
            Some(c) => before.insert(c.0, c.1),
            None => before,
        }
    }
}

/// The rows of a directory: itself, the one above, and its names in order.
pub open spec fn rows_of(m: Map<Seq<u8>, bool>) -> Seq<RowV> {
    let ks = ordmap::listed(m.dom());
    seq![
        RowV { offset: 1, name: seq![path::DOT], is_dir: true },
        RowV { offset: 2, name: seq![path::DOT, path::DOT], is_dir: true },
    ] + Seq::new(ks.len(), |i: int| RowV { offset: log::cap64(i + 3) as u64, name: ks[i], is_dir: m[ks[i]] })
}

/// The rows behind an offset.
pub open spec fn rows_behind(rows: Seq<RowV>, offset: u64) -> Seq<RowV> {
    if offset >= rows.len() {
        Seq::empty()
    } else {
        rows.skip(offset as int)
    }
}

impl FsV {
    /// A look at a name in a directory.
    pub open spec fn looked_up(self, s: StoreV, parent: u64, name: Seq<u8>, now_ms: u64) -> FsStep<Attr> {
        match self.inodes.path(parent) {
            None => self.fails(s, Errno::Eio),
            Some(p) => self.shown(s, path::child_path(p, name), now_ms),
        }
    }

    /// A look at a number.
    pub open spec fn looked_at(self, s: StoreV, ino: u64, now_ms: u64) -> FsStep<Attr> {
        match self.inodes.path(ino) {
            None => self.fails(s, Errno::Eio),
            Some(p) => if ino == ROOT_INO {
                self.with_attr(s, p, true, now_ms)
            } else {
                self.shown(s, p, now_ms)
            },
        }
    }

    /// The rows of a directory.
    pub open spec fn rows(self, s: StoreV, path: Seq<u8>) -> Seq<RowV> {
        rows_of(kids(self.below(s, path), path::prefix_for(path).len() as int))
    }

    /// Does a row show something? A file past its expiry is left out.
    pub open spec fn row_shows(self, s: StoreV, dir: Seq<u8>, row: RowV, now_ms: u64) -> bool {
        row.is_dir || self.is_file(s, path::child_path(dir, row.name), now_ms)
    }
}

impl MeshFs {
    /// Look at a name in a directory.
    pub fn lookup(&mut self, store: &Store, parent: u64, name: &[u8], now_ms: u64) -> (r: Result<Attr, Errno>)
        requires
            old(self).wf(),
            store.wf(),
        ensures
            final(self).wf(),
            ({
                let want = old(self)@.looked_up(store@, parent, name@, now_ms);
                final(self)@ == want.fs && r == want.result
            }),
    {
        match self.path_of(parent) {
            None => Err(Errno::Eio),
            Some(p) => {
                let path = path::join_child(p.as_slice(), name);
                self.show(store, path.as_slice(), now_ms)
            },
        }
    }

    /// Look at a path.
    fn show(&mut self, store: &Store, path: &[u8], now_ms: u64) -> (r: Result<Attr, Errno>)
        requires
            old(self).wf(),
            store.wf(),
        ensures
            final(self).wf(),
            ({
                let want = old(self)@.shown(store@, path@, now_ms);
                final(self)@ == want.fs && r == want.result
            }),
    {
        let is_dir = self.dir_exists(store, path);
        if !is_dir && !self.file_exists(store, path, now_ms) {
            return Err(Errno::Enoent);
        }
        Ok(self.attr(store, path, is_dir, now_ms))
    }

    /// Look at a number.
    pub fn getattr(&mut self, store: &Store, ino: u64, now_ms: u64) -> (r: Result<Attr, Errno>)
        requires
            old(self).wf(),
            store.wf(),
        ensures
            final(self).wf(),
            ({
                let want = old(self)@.looked_at(store@, ino, now_ms);
                final(self)@ == want.fs && r == want.result
            }),
    {
        match self.path_of(ino) {
            None => Err(Errno::Eio),
            Some(p) => if ino == ROOT_INO {
                Ok(self.attr(store, p.as_slice(), true, now_ms))
            } else {
                self.show(store, p.as_slice(), now_ms)
            },
        }
    }

    /// The names in a directory behind an offset.
    pub fn readdir(&self, store: &Store, ino: u64, offset: u64) -> (r: Result<Listing, Errno>)
        requires
            self.wf(),
            store.wf(),
        ensures
            match self@.inodes.path(ino) {
                None => r == Err::<Listing, Errno>(Errno::Eio),
                Some(p) => r matches Ok(l) && l.path@ == p && row_views(l.rows@) == rows_behind(
                    self@.rows(store@, p),
                    offset,
                ),
            },
    {
        let path = match self.path_of(ino) {
            None => {
                return Err(Errno::Eio);
            },
            Some(p) => p,
        };
        let prefix = path::dir_prefix(path.as_slice());
        let keys = store.scan_keys(self.ns.as_str(), prefix.as_slice());
        let ghost all = store::key_views(keys@);
        proof {
            lemma_under(
                store@.space(self@.ns()).cells,
                ordmap::listed(store@.space(self@.ns()).cells.index.dom()),
                prefix@,
            );
        }
        let mut m: OrdMap<bool> = OrdMap::new();
        let mut i: usize = 0;
        proof {
            assert(all.take(0) =~= Seq::empty());
            assert(m@ =~= Map::empty());
        }
        while i < keys.len()
            invariant
                i <= keys@.len(),
                all == store::key_views(keys@),
                forall|j: int| 0 <= j < all.len() ==> prefix@.len() <= (#[trigger] all[j]).len(),
                m.wf(),
                m@ == kids(all.take(i as int), prefix@.len() as int),
            decreases keys@.len() - i,
        {
            proof {
                assert(all.take(i + 1).drop_last() =~= all.take(i as int));
                assert(all.take(i + 1).last() == all[i as int]);
                assert(all[i as int] == keys@[i as int]@);
            }
            let k = keys[i].as_slice();
            let rel = slice_subrange(k, prefix.len(), k.len());
            assert(rel@ =~= all[i as int].skip(prefix@.len() as int));
            match path::child_name(rel) {
                Some((name, is_dir)) => {
                    let ghost had = m@;
                    let ghost nv = name@;
                    m.insert(name, is_dir);
                    assert(m@ =~= had.insert(nv, is_dir));
                },
                None => {},
            }
            i += 1;
        }
        assert(all.take(i as int) =~= all);
        let rows = list_rows(&m, offset);
        Ok(Listing { path, rows })
    }

    /// The number of a row of a directory; none for a file past its expiry.
    pub fn readdir_entry(&mut self, store: &Store, dir: &[u8], row: &DirRow, now_ms: u64) -> (r: Option<u64>)
        requires
            old(self).wf(),
            store.wf(),
        ensures
            final(self).wf(),
            ({
                let child = path::child_path(dir@, row.name@);
                if old(self)@.row_shows(store@, dir@, row@, now_ms) {
                    r == Some(old(self)@.inodes.number(child)) && final(self)@ == old(self)@.numbered(child)
                } else {
                    r is None && final(self)@ == old(self)@
                }
            }),
    {
        let child = path::join_child(dir, row.name.as_slice());
        if row.is_dir || self.file_exists(store, child.as_slice(), now_ms) {
            Some(self.ino_for(child.as_slice()))
        } else {
            None
        }
    }
}

proof fn lemma_under(c: CellsV, ks: Seq<Seq<u8>>, prefix: Seq<u8>)
    ensures
        forall|j: int|
            0 <= j < store::keys_under(c, ks, prefix).len() ==> store::has_prefix(
                #[trigger] store::keys_under(c, ks, prefix)[j],
                prefix,
            ),
    decreases ks.len(),
{
    if ks.len() > 0 {
        lemma_under(c, ks.drop_last(), prefix);
        let before = store::keys_under(c, ks.drop_last(), prefix);
        let all = store::keys_under(c, ks, prefix);
        assert forall|j: int| 0 <= j < all.len() implies store::has_prefix(#[trigger] all[j], prefix) by {
            if j < before.len() {
                assert(all[j] == before[j]);
            }
        }
    }
}

/// The rows of a directory behind an offset.
fn list_rows(m: &OrdMap<bool>, offset: u64) -> (l: Vec<DirRow>)
    requires
        m.wf(),
    ensures
        row_views(l@) == rows_behind(rows_of(m@), offset),
{
    let ghost ks = m.key_seq();
    let ghost all = rows_of(m@);
    proof {
        m.lemma_keys();
        ordmap::lemma_listed(ks, m@.dom());
    }
    let mut l: Vec<DirRow> = Vec::new();
    assert(row_views(l@) =~= Seq::empty());
    if offset < 1 {
        l.push(DirRow { offset: 1, name: vec![path::DOT], is_dir: true });
        proof {
            assert(l@[0].name@ =~= seq![path::DOT]);
        }
    }
    if offset < 2 {
        l.push(DirRow { offset: 2, name: vec![path::DOT, path::DOT], is_dir: true });
        proof {
            assert(l@[l@.len() - 1].name@ =~= seq![path::DOT, path::DOT]);
        }
    }
    let mut i: usize = if offset < 2 {
        0
    } else if offset - 2 < m.len() as u64 {
        (offset - 2) as usize
    } else {
        m.len()
    };
    let ghost from = if offset < all.len() {
        offset as int
    } else {
        all.len() as int
    };
    assert(row_views(l@) =~= all.subrange(from, i + 2));
    while i < m.len()
        invariant
            i <= ks.len(),
            ks == m.key_seq(),
            m.wf(),
            ks == ordmap::listed(m@.dom()),
            all == rows_of(m@),
            0 <= from <= i + 2 <= all.len(),
            all.len() == ks.len() + 2,
            row_views(l@) == all.subrange(from, i + 2),
        decreases ks.len() - i,
    {
        let ghost had = row_views(l@);
        let k = m.key_at(i);
        let d: bool = *m.val_at(i);
        l.push(DirRow { offset: (i as u64).saturating_add(3), name: k.clone(), is_dir: d });
        proof {
            assert(all[i + 2] == (RowV {
                offset: log::cap64(i + 3) as u64,
                name: ks[i as int],
                is_dir: m@[ks[i as int]],
            }));
            assert(row_views(l@) =~= had.push(all[i + 2]));
            assert(all.subrange(from, i + 3) =~= all.subrange(from, i + 2).push(all[i + 2]));
        }
        i += 1;
    }
    assert(row_views(l@) =~= rows_behind(all, offset));
    l
}

// ---------- handles ----------

/// Bytes of a given length: cut, or filled up with zeros.
pub open spec fn resized(d: Seq<u8>, n: int) -> Seq<u8> {
    if n <= d.len() {
        d.take(n)
    } else {
        d + Seq::new((n - d.len()) as nat, |i: int| 0u8)
    }
}

/// Bytes with others written over them from an offset on; what is passed over is zero.
pub open spec fn overwritten(d: Seq<u8>, off: int, data: Seq<u8>) -> Seq<u8> {
    let n = off + data.len();
    let base = if n > d.len() {
        resized(d, n)
    } else {
        d
    };
    base.take(off) + data + base.skip(n)
}

/// A part of some bytes.
pub open spec fn part(d: Seq<u8>, offset: int, size: int) -> Seq<u8> {
    if offset >= d.len() {
        Seq::empty()
    } else if offset + size > d.len() {
        d.skip(offset)
    } else {
        d.subrange(offset, offset + size)
    }
}

impl FsV {
    /// Is there a handle that was opened for writing?
    pub open spec fn holds(self, fh: u64) -> bool {
        handle_at(self.handles, fh, 0) < self.handles.len()
    }

    pub open spec fn handle(self, fh: u64) -> HandleV {
        self.handles[handle_at(self.handles, fh, 0)]
    }

    /// The tree with one more handle.
    pub open spec fn handing_out(self, ino: u64, data: Seq<u8>, dirty: bool, append: bool) -> FsV {
        FsV {
            handles: with_handle(self.handles, HandleV { fh: self.next_fh, ino, data, dirty, append }),
            next_fh: next_number(self.next_fh),
            ..self
        }
    }

    /// The tree without a handle.
    pub open spec fn without(self, fh: u64) -> FsV {
        if self.holds(fh) {
            FsV { handles: self.handles.remove(handle_at(self.handles, fh, 0)), ..self }
        } else {
            self
        }
    }

    /// The tree with other contents in a handle's buffer.
    pub open spec fn with_buffer(self, fh: u64, data: Seq<u8>, dirty: bool) -> FsV {
        FsV {
            handles: self.handles.update(
                handle_at(self.handles, fh, 0),
                HandleV { data, dirty, ..self.handle(fh) },
            ),
            ..self
        }
    }

    /// Open a file.
    pub open spec fn opened(self, s: StoreV, ino: u64, mode: OpenMode, now_ms: u64) -> FsStep<u64> {
        match self.inodes.path(ino) {
            None => self.fails(s, Errno::Eio),
            Some(p) => match self.contents(s, p, now_ms) {
                None => self.fails(s, Errno::Enoent),
                Some(d) => if !mode.write {
                    FsStep { fs: self, store: s, result: Ok(0) }
                } else {
                    FsStep {
                        fs: self.handing_out(
                            ino,
                            if mode.trunc {
                                Seq::empty()
                            } else {
                                d
                            },
                            mode.trunc,
                            mode.append,
                        ),
                        store: s,
                        result: Ok(self.next_fh),
                    }
                },
            },
        }
    }

    /// Where a write of a handle starts.
    pub open spec fn write_at(self, fh: u64, offset: u64) -> int {
        if self.handle(fh).append {
            self.handle(fh).data.len() as int
        } else {
            offset as int
        }
    }

    /// Write to a handle's buffer. One that would reach beyond what can be addressed is
    /// refused.
    pub open spec fn written(self, ino: u64, fh: u64, offset: u64, data: Seq<u8>) -> Result<FsV, Errno> {
        if self.inodes.path(ino) is None || !self.holds(fh) || self.write_at(fh, offset) + data.len() > usize::MAX {
            Err(Errno::Eio)
        } else {
            Ok(self.with_buffer(fh, overwritten(self.handle(fh).data, self.write_at(fh, offset), data), true))
        }
    }

    /// Flush a handle: it is let go, and stored where it was written to.
    pub open spec fn flushed(self, s: StoreV, ino: u64, fh: u64, now_ms: u64) -> FsStep<()> {
        match self.inodes.path(ino) {
            None => self.fails(s, Errno::Eio),
            Some(p) => if self.holds(fh) && self.handle(fh).dirty {
                self.without(fh).committed(s, p, self.handle(fh).data, None, now_ms)
            } else {
                FsStep { fs: self.without(fh), store: s, result: Ok(()) }
            },
        }
    }

    /// Make a file.
    pub open spec fn created(self, s: StoreV, parent: u64, name: Seq<u8>, now_ms: u64) -> FsStep<(Attr, u64)> {
        match self.inodes.path(parent) {
            None => self.fails(s, Errno::Eio),
            Some(p) => {
                let path = path::child_path(p, name);
                let put = self.committed(s, path, Seq::empty(), None, now_ms);
                match put.result {
                    Err(e) => put.fs.fails(put.store, e),
                    Ok(_) => {
                        let seen = put.fs.numbered(path);
                        let again = seen.numbered(path);
                        FsStep {
                            fs: again.handing_out(seen.inodes.number(path), Seq::empty(), false, false),
                            store: put.store,
                            result: Ok((put.fs.attr(put.store, path, false, now_ms), seen.next_fh)),
                        }
                    },
                }
            },
        }
    }

    /// Make a directory: a mark under its prefix keeps an empty one in sight.
    pub open spec fn made_dir(self, s: StoreV, parent: u64, name: Seq<u8>, now_ms: u64) -> FsStep<Attr> {
        match self.inodes.path(parent) {
            None => self.fails(s, Errno::Eio),
            Some(p) => {
                let path = path::child_path(p, name);
                let t = self.ticked(now_ms);
                let mark = path::key_for(path).push(path::SLASH);
                let put = s.put(self.ns(), model::put_op(mark, Seq::empty(), t.clock, self.root, self.root, 0));
                if !s.has(self.ns()) {
                    self.fails(s, Errno::Eacces)
                } else {
                    t.with_attr(put.store, path, true, now_ms)
                }
            },
        }
    }

    /// Delete a file by its name.
    pub open spec fn unlinked(self, s: StoreV, parent: u64, name: Seq<u8>, now_ms: u64) -> FsStep<()> {
        match self.inodes.path(parent) {
            None => self.fails(s, Errno::Eio),
            Some(p) => self.removed(s, path::child_path(p, name), now_ms),
        }
    }

    /// Delete a directory with all that is below it.
    pub open spec fn removed_dir(self, s: StoreV, parent: u64, name: Seq<u8>, now_ms: u64) -> FsStep<()> {
        match self.inodes.path(parent) {
            None => self.fails(s, Errno::Eio),
            Some(p) => {
                let path = path::child_path(p, name);
                let one = self.emptied(s, path, now_ms);
                match one.result {
                    Err(_) => one,
                    Ok(_) => one.fs.removed(one.store, path, now_ms),
                }
            },
        }
    }

    /// Move keys in order to another prefix, up to the first that fails. Expiries travel
    /// along. A key that holds more than one version cannot be moved.
    pub open spec fn moved(self, s: StoreV, keys: Seq<Seq<u8>>, n: int, to: Seq<u8>) -> FsStep<()>
        decreases keys.len(),
    {
        if keys.len() == 0 {
            FsStep { fs: self, store: s, result: Ok(()) }
        } else {
            match s.get(self.ns(), keys[0]) {
                None => self.moved(s, keys.drop_first(), n, to),
                Some(EntryV::Register(_)) => self.fails(s, Errno::Eio),
                Some(EntryV::Lww(v)) => {
                    let put = s.put(
                        self.ns(),
                        model::put_op(
                            to + keys[0].skip(n),
                            v.value,
                            self.clock,
                            self.root,
                            self.root,
                            v.expires_at,
                        ),
                    );
                    let del = put.store.delete(
                        self.ns(),
                        model::del_op(keys[0], self.clock, self.root, self.root),
                    );
                    if put.result is Err {
                        self.fails(put.store, Errno::Eio)
                    } else if del.result is Err {
                        self.fails(del.store, Errno::Eio)
                    } else {
                        self.moved(del.store, keys.drop_first(), n, to)
                    }
                },
            }
        }
    }

    /// Give a file or a directory another path.
    pub open spec fn repathed(self, s: StoreV, from: Seq<u8>, to: Seq<u8>, now_ms: u64) -> FsStep<()> {
        if from == to {
            FsStep { fs: self, store: s, result: Ok(()) }
        } else if !s.has(self.ns()) {
            self.fails(s, Errno::Eacces)
        } else if self.is_file(s, from, now_ms) {
            let put = self.committed(
                s,
                to,
                self.contents(s, from, now_ms)->0,
                Some(self.expiry(s, from, now_ms)),
                now_ms,
            );
            match put.result {
                Err(_) => put,
                Ok(_) => put.fs.removed(put.store, from, now_ms),
            }
        } else if self.is_dir(s, from) {
            self.ticked(now_ms).moved(
                s,
                self.below(s, from),
                path::prefix_for(from).len() as int,
                path::prefix_for(to),
            )
        } else {
            FsStep { fs: self, store: s, result: Ok(()) }
        }
    }

    /// Rename.
    pub open spec fn renamed(
        self,
        s: StoreV,
        parent: u64,
        name: Seq<u8>,
        new_parent: u64,
        new_name: Seq<u8>,
        plain: bool,
        now_ms: u64,
    ) -> FsStep<()> {
        if !plain {
            self.fails(s, Errno::Enosys)
        } else {
            match (self.inodes.path(parent), self.inodes.path(new_parent)) {
                (Some(a), Some(b)) => self.repathed(
                    s,
                    path::child_path(a, name),
                    path::child_path(b, new_name),
                    now_ms,
                ),
                _ => self.fails(s, Errno::Eio),
            }
        }
    }

    /// Give a file another size: in the buffer of the given handle where there is one,
    /// else in the store. A size beyond what can be addressed is refused.
    pub open spec fn sized(self, s: StoreV, ino: u64, path: Seq<u8>, size: u64, fh: Option<u64>, now_ms: u64) -> FsStep<
        Attr,
    > {
        let d = self.contents(s, path, now_ms)->0;
        if size > usize::MAX {
            self.fails(s, Errno::Eio)
        } else if fh is Some && self.holds(fh->0) {
            let h = self.handle(fh->0);
            FsStep {
                fs: self.with_buffer(
                    fh->0,
                    resized(h.data, size as int),
                    h.dirty || size != h.data.len(),
                ),
                store: s,
                result: Ok(
                    attr_with(
                        self.owner_uid,
                        ino,
                        false,
                        size,
                        self.measured(s, path, false, now_ms).1,
                    ),
                ),
            }
        } else {
            let put = self.committed(s, path, resized(d, size as int), None, now_ms);
            match put.result {
                Err(e) => put.fs.fails(put.store, e),
                Ok(_) => put.fs.with_attr(put.store, path, false, now_ms),
            }
        }
    }

    /// Change what is shown of a number: of all that can be asked for, the size of a
    /// file is what changes.
    pub open spec fn changed(self, s: StoreV, ino: u64, size: Option<u64>, fh: Option<u64>, now_ms: u64) -> FsStep<Attr> {
        match self.inodes.path(ino) {
            None => self.fails(s, Errno::Eio),
            Some(p) => if ino == ROOT_INO || self.is_dir(s, p) {
                self.with_attr(s, p, true, now_ms)
            } else if !self.is_file(s, p, now_ms) {
                self.fails(s, Errno::Enoent)
            } else {
                match size {
                    Some(n) => self.sized(s, ino, p, n, fh, now_ms),
                    None => self.with_attr(s, p, false, now_ms),
                }
            },
        }
    }
}

/// Cut bytes, or fill them up with zeros.
fn resize(d: &mut Vec<u8>, n: usize)
    ensures
        final(d)@ == resized(old(d)@, n as int),
{
    let ghost was = d@;
    d.resize(n, 0u8);
    assert(d@ =~= resized(was, n as int));
}

/// Write bytes over others from an offset on.
fn overwrite(d: &mut Vec<u8>, off: usize, data: &[u8])
    requires
        off + data@.len() <= usize::MAX,
    ensures
        final(d)@ == overwritten(old(d)@, off as int, data@),
{
    let end: usize = off + data.len();
    if end > d.len() {
        resize(d, end);
    }
    let ghost base = d@;
    let mut i: usize = 0;
    assert(d@ =~= base.take(off as int) + data@.take(0) + base.skip(off as int));
    while i < data.len()
        invariant
            i <= data@.len(),
            off + data@.len() <= base.len(),
            base.len() <= usize::MAX,
            d@ == base.take(off as int) + data@.take(i as int) + base.skip(off + i),
        decreases data@.len() - i,
    {
        d.set(off + i, data[i]);
        assert(d@ =~= base.take(off as int) + data@.take(i + 1) + base.skip(off + i + 1));
        i += 1;
    }
    assert(data@.take(i as int) =~= data@);
}

impl MeshFs {
    /// Hand out a handle.
    fn hand_out(&mut self, ino: u64, data: Vec<u8>, dirty: bool, append: bool) -> (fh: u64)
        requires
            old(self).wf(),
        ensures
            final(self).wf(),
            final(self)@ == old(self)@.handing_out(ino, data@, dirty, append),
            fh == old(self)@.next_fh,
    {
        let ghost was = self@;
        let fh: u64 = self.next_fh;
        let i: usize = self.find_handle(fh);
        proof {
            lemma_handle(was.handles, fh, 0);
        }
        let h = Handle { fh, ino, data, dirty, append };
        let ghost hv = h@;
        if i < self.handles.len() {
            self.handles[i] = h;
            assert(self@.handles =~= was.handles.update(i as int, hv));
        } else {
            self.handles.push(h);
            assert(self@.handles =~= was.handles.push(hv));
        }
        self.next_fh = fh.wrapping_add(1);
        assert(self@.handles =~= with_handle(was.handles, hv));
        fh
    }

    /// Open a file. A read-only handle is not tracked, and can never write.
    pub fn open(&mut self, store: &Store, ino: u64, mode: OpenMode, now_ms: u64) -> (r: Result<u64, Errno>)
        requires
            old(self).wf(),
            store.wf(),
        ensures
            final(self).wf(),
            ({
                let want = old(self)@.opened(store@, ino, mode, now_ms);
                final(self)@ == want.fs && r == want.result
            }),
    {
        let path = match self.path_of(ino) {
            None => {
                return Err(Errno::Eio);
            },
            Some(p) => p,
        };
        let value = match self.read_value(store, path.as_slice(), now_ms) {
            None => {
                return Err(Errno::Enoent);
            },
            Some(d) => d,
        };
        if !mode.write {
            return Ok(0);
        }
        let data: Vec<u8> = if mode.trunc {
            let none: Vec<u8> = Vec::new();
            assert(none@ =~= Seq::empty());
            none
        } else {
            value
        };
        Ok(self.hand_out(ino, data, mode.trunc, mode.append))
    }

    /// Read a part of a file, as it is stored.
    pub fn read(&self, store: &Store, ino: u64, offset: u64, size: u32, now_ms: u64) -> (r: Result<Vec<u8>, Errno>)
        requires
            self.wf(),
            store.wf(),
        ensures
            match self@.inodes.path(ino) {
                None => r == Err::<Vec<u8>, Errno>(Errno::Enoent),
                Some(p) => match self@.contents(store@, p, now_ms) {
                    None => r == Err::<Vec<u8>, Errno>(Errno::Enoent),
                    Some(d) => r matches Ok(v) && v@ == part(d, offset as int, size as int),
                },
            },
    {
        let path = match self.path_of(ino) {
            None => {
                return Err(Errno::Enoent);
            },
            Some(p) => p,
        };
        match self.read_value(store, path.as_slice(), now_ms) {
            None => Err(Errno::Enoent),
            Some(d) => {
                if offset >= d.len() as u64 {
                    let none: Vec<u8> = Vec::new();
                    assert(none@ =~= Seq::empty());
                    return Ok(none);
                }
                let start: usize = offset as usize;
                let end: usize = if size as u64 > (d.len() - start) as u64 {
                    d.len()
                } else {
                    start + size as usize
                };
                let cut = slice_subrange(d.as_slice(), start, end);
                assert(cut@ =~= part(d@, offset as int, size as int));
                Ok(slice_to_vec(cut))
            },
        }
    }

    /// Write to a handle's buffer; how many bytes were taken.
    pub fn write(&mut self, ino: u64, fh: u64, offset: u64, data: &[u8]) -> (r: Result<usize, Errno>)
        requires
            old(self).wf(),
        ensures
            final(self).wf(),
            match old(self)@.written(ino, fh, offset, data@) {
                Ok(t) => r == Ok::<usize, Errno>(data@.len() as usize) && final(self)@ == t,
                Err(e) => r == Err::<usize, Errno>(e) && final(self)@ == old(self)@,
            },
    {
        let ghost was = self@;
        if self.path_of(ino).is_none() {
            return Err(Errno::Eio);
        }
        let i: usize = self.find_handle(fh);
        proof {
            lemma_handle(was.handles, fh, 0);
            assert(was.handles.len() == self.handles@.len());
        }
        if i >= self.handles.len() {
            return Err(Errno::Eio);
        }
        assert(was.handles[i as int] == self.handles@[i as int]@);
        let at: u64 = if self.handles[i].append {
            self.handles[i].data.len() as u64
        } else {
            offset
        };
        if at > (usize::MAX - data.len()) as u64 {
            return Err(Errno::Eio);
        }
        let mut buf: Vec<u8> = Vec::new();
        std::mem::swap(&mut buf, &mut self.handles[i].data);
        overwrite(&mut buf, at as usize, data);
        let ghost bv = buf@;
        self.handles[i].data = buf;
        self.handles[i].dirty = true;
        assert(self@.handles =~= was.handles.update(
            i as int,
            HandleV { data: bv, dirty: true, ..was.handles[i as int] },
        ));
        Ok(data.len())
    }

    /// Let a handle go; its buffer comes back where it was written to or cut.
    fn let_go(&mut self, fh: u64) -> (r: Option<Vec<u8>>)
        requires
            old(self).wf(),
        ensures
            final(self).wf(),
            final(self)@ == old(self)@.without(fh),
            if old(self)@.holds(fh) && old(self)@.handle(fh).dirty {
                r matches Some(d) && d@ == old(self)@.handle(fh).data
            } else {
                r is None
            },
    {
        let ghost was = self@;
        let i: usize = self.find_handle(fh);
        proof {
            lemma_handle(was.handles, fh, 0);
            assert(was.handles.len() == self.handles@.len());
        }
        if i >= self.handles.len() {
            return None;
        }
        assert(was.handles[i as int] == self.handles@[i as int]@);
        let h = self.handles.remove(i);
        assert(self@.handles =~= was.handles.remove(i as int));
        if h.dirty {
            Some(h.data)
        } else {
            None
        }
    }

    /// Flush a handle: store it where it was written to or cut, and let it go.
    pub fn flush(&mut self, store: &mut Store, ino: u64, fh: u64, now_ms: u64) -> (r: Result<(), Errno>)
        requires
            old(self).wf(),
            old(store).wf(),
        ensures
            final(self).wf(),
            final(store).wf(),
            final(store).is_durable() == old(store).is_durable(),
            ({
                let want = old(self)@.flushed(old(store)@, ino, fh, now_ms);
                final(self)@ == want.fs && final(store)@ == want.store && r == want.result
            }),
    {
        let path = match self.path_of(ino) {
            None => {
                return Err(Errno::Eio);
            },
            Some(p) => p,
        };
        match self.let_go(fh) {
            Some(data) => self.commit(store, path.as_slice(), data, now_ms),
            None => Ok(()),
        }
    }

    /// Let a handle go without storing it.
    pub fn release(&mut self, fh: u64)
        requires
            old(self).wf(),
        ensures
            final(self).wf(),
            final(self)@ == old(self)@.without(fh),
    {
        let _ = self.let_go(fh);
    }

    /// Make an empty file and open it. It is stored, so the handle starts clean.
    pub fn create(&mut self, store: &mut Store, parent: u64, name: &[u8], now_ms: u64) -> (r: Result<(Attr, u64), Errno>)
        requires
            old(self).wf(),
            old(store).wf(),
        ensures
            final(self).wf(),
            final(store).wf(),
            final(store).is_durable() == old(store).is_durable(),
            ({
                let want = old(self)@.created(old(store)@, parent, name@, now_ms);
                final(self)@ == want.fs && final(store)@ == want.store && r == want.result
            }),
    {
        let path = match self.path_of(parent) {
            None => {
                return Err(Errno::Eio);
            },
            Some(p) => path::join_child(p.as_slice(), name),
        };
        let none: Vec<u8> = Vec::new();
        assert(none@ =~= Seq::empty());
        if let Err(e) = self.commit(store, path.as_slice(), none, now_ms) {
            return Err(e);
        }
        let a = self.attr(store, path.as_slice(), false, now_ms);
        let ino: u64 = self.ino_for(path.as_slice());
        let clean: Vec<u8> = Vec::new();
        assert(clean@ =~= Seq::empty());
        let fh: u64 = self.hand_out(ino, clean, false, false);
        Ok((a, fh))
    }

    /// Make a directory.
    pub fn mkdir(&mut self, store: &mut Store, parent: u64, name: &[u8], now_ms: u64) -> (r: Result<Attr, Errno>)
        requires
            old(self).wf(),
            old(store).wf(),
        ensures
            final(self).wf(),
            final(store).wf(),
            final(store).is_durable() == old(store).is_durable(),
            ({
                let want = old(self)@.made_dir(old(store)@, parent, name@, now_ms);
                final(self)@ == want.fs && final(store)@ == want.store && r == want.result
            }),
    {
        let path = match self.path_of(parent) {
            None => {
                return Err(Errno::Eio);
            },
            Some(p) => path::join_child(p.as_slice(), name),
        };
        if !self.authorized_self(store) {
            return Err(Errno::Eacces);
        }
        let mut mark = path::key_of(path.as_slice());
        mark.push(path::SLASH);
        let none: Vec<u8> = Vec::new();
        assert(none@ =~= Seq::empty());
        let clock: u64 = self.tick(now_ms);
        let _ = store.put(self.ns.as_str(), &mark, none.as_slice(), clock, self.root, self.root, 0);
        Ok(self.attr(store, path.as_slice(), true, now_ms))
    }

    /// Delete a file by its name.
    pub fn unlink(&mut self, store: &mut Store, parent: u64, name: &[u8], now_ms: u64) -> (r: Result<(), Errno>)
        requires
            old(self).wf(),
            old(store).wf(),
        ensures
            final(self).wf(),
            final(store).wf(),
            final(store).is_durable() == old(store).is_durable(),
            ({
                let want = old(self)@.unlinked(old(store)@, parent, name@, now_ms);
                final(self)@ == want.fs && final(store)@ == want.store && r == want.result
            }),
    {
        match self.path_of(parent) {
            None => Err(Errno::Eio),
            Some(p) => {
                let path = path::join_child(p.as_slice(), name);
                self.delete_path(store, path.as_slice(), now_ms)
            },
        }
    }

    /// Delete a directory with all that is below it.
    pub fn rmdir(&mut self, store: &mut Store, parent: u64, name: &[u8], now_ms: u64) -> (r: Result<(), Errno>)
        requires
            old(self).wf(),
            old(store).wf(),
        ensures
            final(self).wf(),
            final(store).wf(),
            final(store).is_durable() == old(store).is_durable(),
            ({
                let want = old(self)@.removed_dir(old(store)@, parent, name@, now_ms);
                final(self)@ == want.fs && final(store)@ == want.store && r == want.result
            }),
    {
        match self.path_of(parent) {
            None => Err(Errno::Eio),
            Some(p) => {
                let path = path::join_child(p.as_slice(), name);
                if let Err(e) = self.delete_all_under(store, path.as_slice(), now_ms) {
                    return Err(e);
                }
                self.delete_path(store, path.as_slice(), now_ms)
            },
        }
    }

    /// Move the keys of a directory to another prefix.
    #[verifier::rlimit(40)]
    fn move_keys(&self, store: &mut Store, keys: &Vec<Vec<u8>>, n: usize, to: &[u8]) -> (r: Result<(), Errno>)
        requires
            self.wf(),
            old(store).wf(),
            forall|j: int| 0 <= j < keys@.len() ==> n <= (#[trigger] keys@[j])@.len(),
        ensures
            final(store).wf(),
            final(store).is_durable() == old(store).is_durable(),
            ({
                let want = self@.moved(old(store)@, store::key_views(keys@), n as int, to@);
                want.fs == self@ && final(store)@ == want.store && r == want.result
            }),
    {
        let ghost all = store::key_views(keys@);
        let ghost whole = self@.moved(store@, all, n as int, to@);
        let clock: u64 = self.clock.to_u64();
        let mut i: usize = 0;
        assert(all.skip(0) =~= all);
        while i < keys.len()
            invariant
                i <= keys@.len(),
                all == store::key_views(keys@),
                forall|j: int| 0 <= j < keys@.len() ==> n <= (#[trigger] keys@[j])@.len(),
                store.wf(),
                store.is_durable() == old(store).is_durable(),
                self.wf(),
                clock == self@.clock,
                whole == self@.moved(store@, all.skip(i as int), n as int, to@),
                whole == self@.moved(old(store)@, all, n as int, to@),
            decreases keys@.len() - i,
        {
            proof {
                assert(all.skip(i as int).drop_first() =~= all.skip(i + 1));
                assert(all.skip(i as int)[0] == keys@[i as int]@);
            }
            let k = &keys[i];
            let (value, expires_at): (Vec<u8>, u64) = match store.get(self.ns.as_str(), k) {
                None => {
                    i += 1;
                    continue ;
                },
                Some(Entry::Register(_)) => {
                    return Err(Errno::Eio);
                },
                Some(Entry::Lww(v)) => (v.value.clone(), v.expires_at),
            };
            let mut nk = slice_to_vec(to);
            let rel = slice_subrange(k.as_slice(), n, k.len());
            assert(rel@ =~= k@.skip(n as int));
            let mut tail = slice_to_vec(rel);
            nk.append(&mut tail);
            assert(nk@ =~= to@ + k@.skip(n as int));
            if store.put(self.ns.as_str(), &nk, value.as_slice(), clock, self.root, self.root, expires_at).is_err() {
                return Err(Errno::Eio);
            }
            if store.delete(self.ns.as_str(), k, clock, self.root, self.root).is_err() {
                return Err(Errno::Eio);
            }
            i += 1;
        }
        assert(all.skip(i as int) =~= Seq::empty());
        Ok(())
    }

    /// Give a file or a directory another path.
    fn repath(&mut self, store: &mut Store, from: &[u8], to: &[u8], now_ms: u64) -> (r: Result<(), Errno>)
        requires
            old(self).wf(),
            old(store).wf(),
        ensures
            final(self).wf(),
            final(store).wf(),
            final(store).is_durable() == old(store).is_durable(),
            ({
                let want = old(self)@.repathed(old(store)@, from@, to@, now_ms);
                final(self)@ == want.fs && final(store)@ == want.store && r == want.result
            }),
    {
        if same_bytes(from, to) {
            return Ok(());
        }
        if !self.authorized_self(store) {
            return Err(Errno::Eacces);
        }
        match self.read_value(store, from, now_ms) {
            Some(data) => {
                let expires_at: u64 = self.live_expires_at(store, from, now_ms);
                if let Err(e) = self.commit_ttl(store, to, data, Some(expires_at), now_ms) {
                    return Err(e);
                }
                self.delete_path(store, from, now_ms)
            },
            None => {
                let prefix = path::dir_prefix(from);
                let keys = store.scan_keys(self.ns.as_str(), prefix.as_slice());
                let ghost all = store::key_views(keys@);
                proof {
                    lemma_under(
                store@.space(self@.ns()).cells,
                ordmap::listed(store@.space(self@.ns()).cells.index.dom()),
                prefix@,
            );
                    assert(all == self@.below(store@, from@));
                    assert forall|j: int| 0 <= j < keys@.len() implies prefix@.len() <= (#[trigger] keys@[j])@.len() by {
                        assert(all[j] == keys@[j]@);
                    }
                }
                if keys.len() == 0 {
                    return Ok(());
                }
                let _ = self.tick(now_ms);
                self.move_keys(store, &keys, prefix.len(), path::dir_prefix(to).as_slice())
            },
        }
    }

    /// Rename a file or a directory; `plain` says that no special behaviour is asked
    /// for.
    pub fn rename(
        &mut self,
        store: &mut Store,
        parent: u64,
        name: &[u8],
        new_parent: u64,
        new_name: &[u8],
        plain: bool,
        now_ms: u64,
    ) -> (r: Result<(), Errno>)
        requires
            old(self).wf(),
            old(store).wf(),
        ensures
            final(self).wf(),
            final(store).wf(),
            final(store).is_durable() == old(store).is_durable(),
            ({
                let want = old(self)@.renamed(
                    old(store)@,
                    parent,
                    name@,
                    new_parent,
                    new_name@,
                    plain,
                    now_ms,
                );
                final(self)@ == want.fs && final(store)@ == want.store && r == want.result
            }),
    {
        if !plain {
            return Err(Errno::Enosys);
        }
        match (self.path_of(parent), self.path_of(new_parent)) {
            (Some(a), Some(b)) => {
                let from = path::join_child(a.as_slice(), name);
                let to = path::join_child(b.as_slice(), new_name);
                self.repath(store, from.as_slice(), to.as_slice(), now_ms)
            },
            _ => Err(Errno::Eio),
        }
    }

    /// Give a handle's buffer another size; nothing where there is no such handle.
    fn resize_buffer(&mut self, fh: Option<u64>, size: usize) -> (r: bool)
        requires
            old(self).wf(),
        ensures
            final(self).wf(),
            if fh is Some && old(self)@.holds(fh->0) {
                let h = old(self)@.handle(fh->0);
                r && final(self)@ == old(self)@.with_buffer(
                    fh->0,
                    resized(h.data, size as int),
                    h.dirty || size != h.data.len(),
                )
            } else {
                !r && final(self)@ == old(self)@
            },
    {
        let ghost was = self@;
        let f: u64 = match fh {
            None => {
                return false;
            },
            Some(f) => f,
        };
        let i: usize = self.find_handle(f);
        proof {
            lemma_handle(was.handles, f, 0);
            assert(was.handles.len() == self.handles@.len());
        }
        if i >= self.handles.len() {
            return false;
        }
        assert(was.handles[i as int] == self.handles@[i as int]@);
        let mut buf: Vec<u8> = Vec::new();
        std::mem::swap(&mut buf, &mut self.handles[i].data);
        let dirty: bool = self.handles[i].dirty || buf.len() != size;
        resize(&mut buf, size);
        let ghost bv = buf@;
        self.handles[i].data = buf;
        self.handles[i].dirty = dirty;
        assert(self@.handles =~= was.handles.update(
            i as int,
            HandleV { data: bv, dirty, ..was.handles[i as int] },
        ));
        true
    }

    /// Change the size of a file.
    pub fn setattr(&mut self, store: &mut Store, ino: u64, size: Option<u64>, fh: Option<u64>, now_ms: u64) -> (r: Result<
        Attr,
        Errno,
    >)
        requires
            old(self).wf(),
            old(store).wf(),
        ensures
            final(self).wf(),
            final(store).wf(),
            final(store).is_durable() == old(store).is_durable(),
            ({
                let want = old(self)@.changed(old(store)@, ino, size, fh, now_ms);
                final(self)@ == want.fs && final(store)@ == want.store && r == want.result
            }),
    {
        let path = match self.path_of(ino) {
            None => {
                return Err(Errno::Eio);
            },
            Some(p) => p,
        };
        if ino == ROOT_INO || self.dir_exists(store, path.as_slice()) {
            return Ok(self.attr(store, path.as_slice(), true, now_ms));
        }
        let mut data = match self.read_value(store, path.as_slice(), now_ms) {
            None => {
                return Err(Errno::Enoent);
            },
            Some(d) => d,
        };
        if let Some(n) = size {
            if n > usize::MAX as u64 {
                return Err(Errno::Eio);
            }
            let mtime: u64 = match self.latest_info(store, path.as_slice(), now_ms) {
                Some((_, h)) => h / 1000,
                None => 0,
            };
            if self.resize_buffer(fh, n as usize) {
                return Ok(self.attr_of(ino, false, n, mtime));
            }
            resize(&mut data, n as usize);
            if let Err(e) = self.commit(store, path.as_slice(), data, now_ms) {
                return Err(e);
            }
        }
        Ok(self.attr(store, path.as_slice(), false, now_ms))
    }
}

} // verus!
