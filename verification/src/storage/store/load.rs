//! Opening a store from what its directory holds.

use crate::clock;
use crate::ordmap;
use crate::ordmap::OrdMap;
use crate::storage::disk;
use crate::storage::disk::{Disk, DiskV, LoadedV, NsFiles, ReplayV};
use crate::storage::entry;
use crate::storage::entry::{CellsV, ConflictPolicy, Entry};
use crate::storage::error::{corrupt_in, StorageError};
use crate::storage::log;
use crate::storage::log::Log;
use crate::storage::model;
use crate::storage::model::StoreV;
use crate::storage::naming;
use crate::storage::record;
use crate::storage::record::Record;
use crate::storage::snapshot;
use crate::storage::snapshot::{Snap, SnapSpace, SnapV};
use crate::storage::space::{Space, SpaceV};
use crate::storage::store;
use crate::storage::store::Store;
use crate::text;
use vstd::prelude::*;
use vstd::slice::slice_to_vec;

verus! {

/// What the snapshot says of a namespace, in the model.
pub open spec fn known_view(s: Option<SnapSpace>) -> Option<snapshot::SnapSpaceV> {
    match s {
        Some(s) => Some(s@),
        None => None,
    }
}

fn copy_segs(segs: &Vec<Vec<u8>>) -> (r: Vec<Vec<u8>>)
    ensures
        log::seg_views(r@) == log::seg_views(segs@),
{
    let mut out: Vec<Vec<u8>> = Vec::new();
    let mut i: usize = 0;
    while i < segs.len()
        invariant
            i <= segs@.len(),
            out@.len() == i,
            forall|j: int| 0 <= j < i ==> (#[trigger] out@[j])@ == segs@[j]@,
        decreases segs@.len() - i,
    {
        out.push(slice_to_vec(segs[i].as_slice()));
        i += 1;
    }
    assert(log::seg_views(out@) =~= log::seg_views(segs@));
    out
}

/// The directory with a name, if there is one.
fn find_dir<'a>(d: &'a Disk, name: &str) -> (r: Option<&'a NsFiles>)
    ensures
        match r {
            Some(f) => disk::dir_named(d@.dirs, name@) == f@,
            None => disk::dir_named(d@.dirs, name@) == (disk::DirV {
                name: name@,
                segs: Seq::empty(),
                policy: None,
            }),
        },
{
    let ghost dirs = d@.dirs;
    let mut i: usize = 0;
    assert(dirs.skip(0) =~= dirs);
    while i < d.dirs.len()
        invariant
            i <= d.dirs@.len(),
            dirs == d@.dirs,
            disk::dir_named(dirs, name@) == disk::dir_named(dirs.skip(i as int), name@),
        decreases d.dirs@.len() - i,
    {
        proof {
            let rest = dirs.skip(i as int);
            assert(rest[0] == d.dirs@[i as int]@);
            assert(rest.drop_first() =~= dirs.skip(i + 1));
        }
        if text::same_text(d.dirs[i].name.as_str(), name) {
            return Some(&d.dirs[i]);
        }
        i += 1;
    }
    None
}

/// The namespaces that have a directory.
fn discover(d: &Disk) -> (m: OrdMap<bool>)
    ensures
        m.wf(),
        m@.dom() == disk::discovered(d@),
{
    let ghost dirs = d@.dirs;
    let mut m: OrdMap<bool> = OrdMap::new();
    let mut i: usize = 0;
    while i < d.dirs.len()
        invariant
            i <= d.dirs@.len(),
            dirs == d@.dirs,
            m.wf(),
            forall|k: Seq<u8>| #[trigger] m@.dom().contains(k) <==> disk::has_dir(dirs.take(i as int), k),
        decreases d.dirs@.len() - i,
    {
        let ghost had = m@;
        let ghost t = dirs.take(i as int);
        let ghost u = dirs.take(i + 1);
        let ghost item = dirs[i as int];
        match naming::parse_ns_dir(d.dirs[i].name.as_str()) {
            Some(ns) => {
                m.insert(text::bytes_of(ns.as_str()), true);
            },
            None => {},
        }
        proof {
            assert(u[i as int] == item);
            assert forall|k: Seq<u8>| #[trigger] m@.dom().contains(k) <==> disk::has_dir(u, k) by {
                assert(had.dom().contains(k) <==> disk::has_dir(t, k));
                if disk::has_dir(t, k) {
                    let j = choose|j: int| 0 <= j < t.len() && disk::dir_for(#[trigger] t[j], k);
                    assert(u[j] == t[j]);
                    assert(disk::dir_for(u[j], k));
                }
                if disk::has_dir(u, k) {
                    let j = choose|j: int| 0 <= j < u.len() && disk::dir_for(#[trigger] u[j], k);
                    if j < i {
                        assert(disk::dir_for(t[j], k));
                    }
                }
                if disk::dir_for(item, k) {
                    assert(disk::dir_for(u[i as int], k));
                }
            }
        }
        i += 1;
    }
    assert(dirs.take(i as int) =~= dirs);
    assert(m@.dom() =~= disk::discovered(d@));
    m
}

/// The name of the first namespace of the snapshot that has no directory.
fn gone(snap: &Snap, names: &OrdMap<bool>, Ghost(d): Ghost<DiskV>) -> (r: Option<Vec<u8>>)
    requires
        snap.wf(),
        names.wf(),
        names@.dom() == disk::discovered(d),
    ensures
        match r {
            Some(k) => disk::first_gone(ordmap::listed(snap@.spaces.dom()), d) == Some(k@),
            None => disk::first_gone(ordmap::listed(snap@.spaces.dom()), d) is None,
        },
{
    let ghost keys = snap.spaces.key_seq();
    proof {
        snap.spaces.lemma_keys();
        assert(keys.skip(0) =~= keys);
    }
    let mut i: usize = 0;
    while i < snap.spaces.len()
        invariant
            i <= keys.len(),
            snap.wf(),
            names.wf(),
            names@.dom() == disk::discovered(d),
            keys == snap.spaces.key_seq(),
            keys == ordmap::listed(snap@.spaces.dom()),
            disk::first_gone(keys, d) == disk::first_gone(keys.skip(i as int), d),
        decreases keys.len() - i,
    {
        proof {
            let rest = keys.skip(i as int);
            assert(rest[0] == keys[i as int]);
            assert(rest.drop_first() =~= keys.skip(i + 1));
        }
        let k = snap.spaces.key_at(i);
        if !names.contains_key(k.as_slice()) {
            return Some(slice_to_vec(k.as_slice()));
        }
        i += 1;
    }
    None
}

/// What a policy file says.
fn read_policy_sidecar(file: &Option<Vec<u8>>, ns: &str) -> (r: Result<Option<ConflictPolicy>, StorageError>)
    ensures
        match disk::sidecar(
            match *file {
                Some(b) => Some(b@),
                None => None,
            },
            ns@,
        ) {
            Ok(p) => r matches Ok(q) && q == p,
            Err(f) => r matches Err(e) && e@ == f,
        },
{
    match file {
        None => Ok(None),
        Some(b) => {
            if b.len() != 1 {
                return Err(corrupt_in(ns, text::copy_text("policy sidecar length != 1")));
            }
            match snapshot::policy_from_u8(b[0]) {
                Ok(p) => Ok(Some(p)),
                Err(e) => Err(e),
            }
        },
    }
}

fn agree(snap: Option<ConflictPolicy>, side: Option<ConflictPolicy>, ns: &str) -> (r: Result<
    ConflictPolicy,
    StorageError,
>)
    ensures
        match disk::agreed(snap, side, ns@) {
            Ok(p) => r matches Ok(q) && q == p,
            Err(f) => r matches Err(e) && e@ == f,
        },
{
    match (snap, side) {
        (Some(a), Some(b)) => {
            if a != b {
                Err(corrupt_in(ns, text::copy_text("snapshot policy disagrees with sidecar")))
            } else {
                Ok(a)
            }
        },
        (Some(a), None) => Ok(a),
        (None, Some(b)) => Ok(b),
        (None, None) => Err(corrupt_in(ns, text::copy_text("namespace has no policy"))),
    }
}

/// Apply the records of a namespace's log from place `from` on.
fn replay(sp: &mut Space, meta: &mut OrdMap<Vec<u8>>, from: u64, head: [u8; 32]) -> (r: Result<
    [u8; 32],
    StorageError,
>)
    requires
        old(sp).wf(),
        old(meta).wf(),
        snapshot::text_keys(old(meta)@),
        from <= old(sp)@.log.records.len(),
    ensures
        final(sp).wf(),
        final(sp).name == old(sp).name,
        final(meta).wf(),
        snapshot::text_keys(final(meta)@),
        match disk::replay(
            old(sp).name@,
            old(sp).policy,
            old(sp)@.log.records,
            from as int,
            ReplayV { cells: old(sp).cells(), meta: old(meta)@, head: head@ },
        ) {
            Ok(end) => {
                &&& r matches Ok(h)
                &&& h@ == end.head
                &&& final(sp)@ == (SpaceV { cells: end.cells, ..old(sp)@ })
                &&& final(meta)@ == end.meta
            },
            Err(f) => r matches Err(e) && e@ == f,
        },
{
    let ghost first = *sp;
    let ghost recs = sp@.log.records;
    let ghost whole = disk::replay(
        sp.name@,
        sp.policy,
        recs,
        from as int,
        ReplayV { cells: sp.cells(), meta: meta@, head: head@ },
    );
    let n: u64 = sp.log.seq();
    let mut run = head;
    let mut i: u64 = from;
    proof {
        sp.log.lemma_wf();
    }
    while i < n
        invariant
            from <= i <= n,
            n == recs.len(),
            n <= usize::MAX,
            sp.wf(),
            sp.name == first.name,
            sp@ == (SpaceV { cells: sp.cells(), ..first@ }),
            recs == sp@.log.records,
            first == *old(sp),
            meta.wf(),
            snapshot::text_keys(meta@),
            whole == disk::replay(
                old(sp).name@,
                old(sp).policy,
                recs,
                from as int,
                ReplayV { cells: old(sp).cells(), meta: old(meta)@, head: head@ },
            ),
            whole == disk::replay(
                sp.name@,
                sp.policy,
                recs,
                i as int,
                ReplayV { cells: sp.cells(), meta: meta@, head: run@ },
            ),
        decreases n - i,
    {
        let bytes = slice_to_vec(sp.log.record_at(i as usize));
        match Record::parse(bytes.as_slice(), &run) {
            Err(e) => {
                return Err(e);
            },
            Ok((r, prev)) => {
                match store::apply_record(sp, meta, &r, i + 1) {
                    Err(e) => {
                        return Err(e);
                    },
                    Ok(_) => {},
                }
                run = Record::record_hash(&prev, bytes.as_slice());
            },
        }
        i += 1;
    }
    Ok(run)
}

/// Has every entry the shape of the policy?
fn fits(index: &OrdMap<Entry>, policy: ConflictPolicy) -> (r: bool)
    requires
        index.wf(),
    ensures
        forall|tombs: Map<Seq<u8>, u64>|
            r == #[trigger] entry::fits_policy(CellsV { index: index@, tombs }, policy),
{
    let ghost keys = index.key_seq();
    let mut i: usize = 0;
    while i < index.len()
        invariant
            i <= keys.len(),
            index.wf(),
            keys == index.key_seq(),
            forall|j: int|
                0 <= j < i ==> match policy {
                    ConflictPolicy::Lww => index@[#[trigger] keys[j]] is Lww,
                    ConflictPolicy::CrdtRegister => index@[keys[j]] is Register,
                },
        decreases keys.len() - i,
    {
        let good = match (index.val_at(i), policy) {
            (Entry::Lww(_), ConflictPolicy::Lww) => true,
            (Entry::Register(_), ConflictPolicy::CrdtRegister) => true,
            _ => false,
        };
        if !good {
            assert(index@.dom().contains(keys[i as int]));
            return false;
        }
        i += 1;
    }
    proof {
        index.lemma_keys();
        assert forall|k: Seq<u8>| #[trigger] index@.dom().contains(k) implies match policy {
            ConflictPolicy::Lww => index@[k] is Lww,
            ConflictPolicy::CrdtRegister => index@[k] is Register,
        } by {
            let j = keys.index_of(k);
            assert(keys.contains(k));
            assert(keys[j] == k);
        }
    }
    true
}

/// Read a namespace from its directory and what the snapshot says of it.
fn load_one(ns: &str, d: &Disk, snap: Option<SnapSpace>, meta: &mut OrdMap<Vec<u8>>) -> (r: Result<
    Space,
    StorageError,
>)
    requires
        naming::is_ns(ns@),
        snap matches Some(s) ==> s.wf(),
        old(meta).wf(),
        snapshot::text_keys(old(meta)@),
    ensures
        final(meta).wf(),
        snapshot::text_keys(final(meta)@),
        match disk::load_one(
            ns@,
            disk::dir_named(d@.dirs, naming::dir_of(ns@)),
            known_view(snap),
            old(meta)@,
        ) {
            Ok((want, m)) => {
                &&& r matches Ok(sp)
                &&& sp.wf()
                &&& sp.name@ == ns@
                &&& sp@ == want
                &&& final(meta)@ == m
            },
            Err(f) => r matches Err(e) && e@ == f,
        },
{
    let dir_name = naming::ns_dir(ns);
    let none: Option<Vec<u8>> = None;
    let segs: Vec<Vec<u8>> = match find_dir(d, dir_name.as_str()) {
        Some(f) => copy_segs(&f.segs),
        None => Vec::new(),
    };
    let file: &Option<Vec<u8>> = match find_dir(d, dir_name.as_str()) {
        Some(f) => &f.policy,
        None => &none,
    };
    let ghost dir = disk::dir_named(d@.dirs, naming::dir_of(ns@));
    assert(log::seg_views(segs@) =~= dir.segs);
    proof {
        lemma_dir_named(d@.dirs, naming::dir_of(ns@));
        if segs@.len() > 0 {
            assert(dir.segs.last() == segs@.last()@);
        }
    }
    let log = match Log::recover(dir_name.as_str(), segs) {
        Err(e) => {
            return Err(e);
        },
        Ok((log, _)) => log,
    };
    proof {
        assert(disk::recovered(dir.segs) is Ok);
        assert(log@ =~= disk::recovered(dir.segs)->Ok_0);
    }
    let side = match read_policy_sidecar(file, ns) {
        Err(e) => {
            return Err(e);
        },
        Ok(p) => p,
    };
    let known: Option<ConflictPolicy> = match &snap {
        Some(s) => Some(s.policy),
        None => None,
    };
    let policy = match agree(known, side, ns) {
        Err(e) => {
            return Err(e);
        },
        Ok(p) => p,
    };
    let base = match snap {
        Some(s) => s,
        None => {
            let s = SnapSpace {
                policy,
                seq: 0,
                head: [0u8; 32],
                index: OrdMap::new(),
                tombs: OrdMap::new(),
            };
            assert(s@.head =~= log::zero_head());
            assert(s@ =~= disk::unknown(policy));
            s
        },
    };
    if !fits(&base.index, policy) {
        return Err(corrupt_in(ns, text::copy_text("snapshot entry does not fit the policy")));
    }
    let log_seq: u64 = log.seq();
    if base.seq > log_seq {
        let mut detail = text::join3("snapshot seq ", text::dec(base.seq).as_str(), " ahead of log seq ");
        detail.push_str(text::dec(log_seq).as_str());
        return Err(corrupt_in(ns, detail));
    }
    let mut sp = Space {
        name: text::copy_text(ns),
        policy,
        log,
        index: base.index,
        tombs: base.tombs,
        sec: Vec::new(),
    };
    assert(sp.cells() =~= base@.cells);
    assert(sp@.fields =~= Seq::empty());
    let end = match replay(&mut sp, meta, base.seq, base.head) {
        Err(e) => {
            return Err(e);
        },
        Ok(h) => h,
    };
    let head = sp.log.head();
    if !ordmap::same_bytes(end.as_slice(), head.as_slice()) {
        return Err(corrupt_in(ns, text::copy_text("replayed head != stored head")));
    }
    Ok(sp)
}

proof fn lemma_dir_named(dirs: Seq<disk::DirV>, name: Seq<char>)
    ensures
        disk::dir_named(dirs, name).name == name,
    decreases dirs.len(),
{
    if dirs.len() > 0 && dirs[0].name != name {
        lemma_dir_named(dirs.drop_first(), name);
    }
}

/// The records of one namespace say nothing of the indexes of another.
proof fn lemma_replay_fields(
    ns: Seq<char>,
    policy: ConflictPolicy,
    recs: Seq<Seq<u8>>,
    i: int,
    st: ReplayV,
    other: Seq<char>,
)
    requires
        other != ns,
    ensures
        disk::replay(ns, policy, recs, i, st) matches Ok(end) ==> model::fields_of(end.meta, other)
            == model::fields_of(st.meta, other),
    decreases recs.len() - i,
{
    if i < recs.len() {
        match record::parse_record(recs[i], Some(st.head)) {
            Err(f) => {},
            Ok(r) => {
                let got = model::absorb(ns, policy, st.cells, st.meta, r, (i + 1) as u64);
                store::lemma_def_keys(other, ns);
                assert(model::fields_of(got.meta, other) == model::fields_of(st.meta, other));
                if got.fault is None {
                    lemma_replay_fields(
                        ns,
                        policy,
                        recs,
                        i + 1,
                        ReplayV {
                            cells: got.cells,
                            meta: got.meta,
                            head: record::hash_of(record::prev_of(recs[i]), recs[i]),
                        },
                        other,
                    );
                }
            },
        }
    }
}

proof fn lemma_load_fields(
    ns: Seq<char>,
    dir: disk::DirV,
    snap: Option<snapshot::SnapSpaceV>,
    meta: model::MetaV,
    other: Seq<char>,
)
    requires
        other != ns,
    ensures
        disk::load_one(ns, dir, snap, meta) matches Ok((sp, m)) ==> model::fields_of(m, other)
            == model::fields_of(meta, other),
{
    match disk::load_one(ns, dir, snap, meta) {
        Err(_) => {},
        Ok((sp, m)) => {
            let base = match snap {
                Some(s) => s,
                None => disk::unknown(sp.policy),
            };
            lemma_replay_fields(
                ns,
                sp.policy,
                sp.log.records,
                base.seq as int,
                ReplayV { cells: base.cells, meta, head: base.head },
                other,
            );
        },
    }
}

/// A namespace that was just read has no secondary indexes yet.
proof fn lemma_load_bare(
    ns: Seq<char>,
    dir: disk::DirV,
    snap: Option<snapshot::SnapSpaceV>,
    meta: model::MetaV,
)
    ensures
        disk::load_one(ns, dir, snap, meta) matches Ok((sp, m)) ==> sp.fields == Seq::<Seq<char>>::empty(),
{
}

/// The model of a store with its spaces' secondary indexes left out.
spec fn bare(sp: SpaceV) -> SpaceV {
    SpaceV { fields: Seq::empty(), ..sp }
}

/// The spaces are those of the model but for their secondary indexes.
spec fn loaded_like(spaces: Map<Seq<u8>, SpaceV>, want: Map<Seq<u8>, SpaceV>) -> bool {
    spaces.dom() == want.dom() && forall|k: Seq<u8>| #[trigger]
        spaces.dom().contains(k) ==> bare(spaces[k]) == want[k]
}

impl Store {
    /// Read one more namespace.
    fn load_next(&mut self, ns: &str, d: &Disk, known: Option<SnapSpace>) -> (r: Result<(), StorageError>)
        requires
            old(self).wf(),
            naming::is_ns(ns@),
            !old(self)@.has(ns@),
            known matches Some(s) ==> s.wf(),
        ensures
            r is Ok ==> final(self).wf(),
            final(self).is_durable() == old(self).is_durable(),
            match disk::load_one(
                ns@,
                disk::dir_named(d@.dirs, naming::dir_of(ns@)),
                known_view(known),
                old(self)@.meta,
            ) {
                Ok((sp, m)) => {
                    &&& r is Ok
                    &&& final(self)@ == (StoreV {
                        spaces: old(self)@.spaces.insert(
                            text::utf8(ns@),
                            SpaceV { fields: model::fields_of(m, ns@), ..sp },
                        ),
                        meta: m,
                        ..old(self)@
                    })
                },
                Err(f) => r matches Err(e) && e@ == f,
            },
    {
        let ghost before = *self;
        let ghost dir = disk::dir_named(d@.dirs, naming::dir_of(ns@));
        let ghost snap = known_view(known);
        match load_one(ns, d, known, &mut self.meta) {
            Err(e) => Err(e),
            Ok(mut sp) => {
                proof {
                    assert forall|k: Seq<u8>| #[trigger] self.spaces.raw().dom().contains(k) implies store::placed(
                        k,
                        self.spaces.raw()[k],
                    ) && store::indexed(self.meta@, self.spaces.raw()[k]) by {
                        assert(before.spaces.raw().dom().contains(k));
                        assert(before@.spaces.dom().contains(k));
                        lemma_load_fields(ns@, dir, snap, before@.meta, self.spaces.raw()[k].name@);
                    }
                }
                let fields = self.index_fields(ns);
                sp.set_fields(fields);
                self.give(sp);
                Ok(())
            },
        }
    }

    /// Open a store from what its directory holds, at a time.
    pub fn open_at(d: &Disk, durable: bool, now_ms: u64) -> (r: Result<Store, StorageError>)
        ensures
            match disk::opened(d@, now_ms) {
                Ok(want) => r matches Ok(s) && s.wf() && s@ == want && s.is_durable() == durable,
                Err(f) => r matches Err(e) && e@ == f,
            },
    {
        let loaded = match &d.snap {
            None => Ok(Snap::empty()),
            Some(b) => snapshot::load_snap(b.as_slice()),
        };
        let snap = match loaded {
            Err(e) => {
                return Err(e);
            },
            Ok(s) => s,
        };
        let ghost first = snap@;
        let names = discover(d);
        match gone(&snap, &names, Ghost(d@)) {
            Some(k) => {
                proof {
                    snap.spaces.lemma_keys();
                    lemma_first_gone(ordmap::listed(first.spaces.dom()), d@);
                    assert(first.spaces.dom().contains(k@));
                }
                return Err(
                    corrupt_in(
                        text::lossy_string(k.as_slice()).as_str(),
                        text::copy_text("snapshot references namespace whose log dir is gone"),
                    ),
                );
            },
            None => {},
        }
        let image = match &d.snap {
            Some(b) => Some(slice_to_vec(b.as_slice())),
            None => None,
        };
        let Snap { revision, meta, clocks, spaces: snaps } = snap;
        let mut s = Store { spaces: OrdMap::new(), meta, clocks, revision, snap: image, durable };
        match s.load_names(d, &names, snaps, Ghost(first)) {
            Err(e) => {
                return Err(e);
            },
            Ok(_) => {},
        }
        let ghost read = s;
        let stamp = text::bytes_of("created_ms");
        if !s.meta.contains_key(stamp.as_slice()) {
            let mut b: Vec<u8> = Vec::new();
            record::push_u64(&mut b, now_ms);
            assert(b@ =~= record::le64(now_ms as int));
            s.meta.insert(stamp, b);
        }
        proof {
            text::lemma_utf8_decodes("created_ms"@);
            assert(s.meta@ == disk::stamped(read.meta@, now_ms));
            assert forall|k: Seq<u8>| #[trigger] s.spaces.raw().dom().contains(k) implies store::placed(
                k,
                s.spaces.raw()[k],
            ) && store::indexed(s.meta@, s.spaces.raw()[k]) by {
                assert(read.spaces.raw().dom().contains(k));
                lemma_stamp_key(s.spaces.raw()[k].name@);
            }
            assert(s.wf());
            s.lemma_indexed();
            let all = disk::load_all(
                d@,
                first,
                ordmap::listed(disk::discovered(d@)),
                0,
                LoadedV { spaces: Map::empty(), meta: first.meta },
            )->Ok_0;
            let goal = StoreV {
                spaces: all.spaces,
                meta: s.meta@,
                clocks: first.clocks,
                revision: first.revision,
                snap: d@.snap,
            }.with_meta(s.meta@);
            let mine = s@.with_meta(s@.meta);
            assert forall|k: Seq<u8>| #[trigger] mine.spaces.dom().contains(k) implies mine.spaces[k]
                == goal.spaces[k] by {
                assert(read@.spaces.dom().contains(k));
                assert(bare(read@.spaces[k]) == all.spaces[k]);
                assert(mine.spaces[k] =~= goal.spaces[k]);
            }
            assert(mine.spaces =~= goal.spaces);
            assert(s@ == goal);
        }
        Ok(s)
    }

    /// Read the namespaces that have a directory.
    fn load_names(
        &mut self,
        d: &Disk,
        names: &OrdMap<bool>,
        snaps: OrdMap<SnapSpace>,
        Ghost(first): Ghost<SnapV>,
    ) -> (r: Result<(), StorageError>)
        requires
            old(self).wf(),
            old(self)@.spaces == Map::<Seq<u8>, SpaceV>::empty(),
            old(self)@.meta == first.meta,
            names.wf(),
            names@.dom() == disk::discovered(d@),
            snaps.wf(),
            snaps@ == first.spaces,
            forall|k: Seq<u8>| #[trigger] snaps.raw().dom().contains(k) ==> snaps.raw()[k].wf(),
        ensures
            r is Ok ==> final(self).wf(),
            final(self).is_durable() == old(self).is_durable(),
            match disk::load_all(
                d@,
                first,
                ordmap::listed(disk::discovered(d@)),
                0,
                LoadedV { spaces: Map::empty(), meta: first.meta },
            ) {
                Ok(all) => {
                    &&& r is Ok
                    &&& loaded_like(final(self)@.spaces, all.spaces)
                    &&& final(self)@.meta == all.meta
                    &&& final(self)@.clocks == old(self)@.clocks
                    &&& final(self)@.revision == old(self)@.revision
                    &&& final(self)@.snap == old(self)@.snap
                },
                Err(f) => r matches Err(e) && e@ == f,
            },
    {
        let mut snaps = snaps;
        let ghost keys = names.key_seq();
        let ghost whole = disk::load_all(
            d@,
            first,
            keys,
            0,
            LoadedV { spaces: Map::empty(), meta: first.meta },
        );
        let ghost mut want: Map<Seq<u8>, SpaceV> = Map::empty();
        proof {
            names.lemma_keys();
        }
        let mut i: usize = 0;
        while i < names.len()
            invariant
                i <= keys.len(),
                self.wf(),
                self.is_durable() == old(self).is_durable(),
                self@.clocks == old(self)@.clocks,
                self@.revision == old(self)@.revision,
                self@.snap == old(self)@.snap,
                names.wf(),
                names@.dom() == disk::discovered(d@),
                keys == names.key_seq(),
                ordmap::ascending(keys),
                keys == ordmap::listed(disk::discovered(d@)),
                whole == disk::load_all(
                    d@,
                    first,
                    keys,
                    0,
                    LoadedV { spaces: Map::empty(), meta: first.meta },
                ),
                whole == disk::load_all(d@, first, keys, i as int, LoadedV { spaces: want, meta: self@.meta }),
                loaded_like(self@.spaces, want),
                snaps.wf(),
                forall|k: Seq<u8>| #[trigger] snaps.raw().dom().contains(k) ==> snaps.raw()[k].wf(),
                forall|j: int|
                    i <= j < keys.len() ==> {
                        &&& snaps@.dom().contains(#[trigger] keys[j]) == first.spaces.dom().contains(keys[j])
                        &&& snaps@.dom().contains(keys[j]) ==> snaps@[keys[j]] == first.spaces[keys[j]]
                        &&& !self@.spaces.dom().contains(keys[j])
                    },
            decreases keys.len() - i,
        {
            let k = names.key_at(i);
            let ghost kv = k@;
            proof {
                assert(keys[i as int] == kv);
                assert(disk::has_dir(d@.dirs, kv));
                let j = choose|j: int| 0 <= j < d@.dirs.len() && disk::dir_for(#[trigger] d@.dirs[j], kv);
                let name = naming::ns_of_dir(d@.dirs[j].name)->0;
                text::lemma_utf8_decodes(name);
                assert(naming::is_ns(name));
            }
            let ns = text::lossy_string(k.as_slice());
            let ghost had = self@;
            let known = snaps.remove(k.as_slice());
            let ghost dir = disk::dir_named(d@.dirs, naming::dir_of(ns@));
            let ghost snap = known_view(known);
            proof {
                assert(text::utf8(ns@) == kv);
                assert(disk::snapped(first, kv) == snap);
            }
            match self.load_next(ns.as_str(), d, known) {
                Err(e) => {
                    return Err(e);
                },
                Ok(_) => {},
            }
            proof {
                let (sp, m) = disk::load_one(ns@, dir, snap, had.meta)->Ok_0;
                let next = want.insert(kv, sp);
                lemma_load_bare(ns@, dir, snap, had.meta);
                assert forall|q: Seq<u8>| #[trigger] self@.spaces.dom().contains(q) implies bare(self@.spaces[q])
                    == next[q] by {
                    if q != kv {
                        assert(had.spaces.dom().contains(q));
                    } else {
                        assert(bare(self@.spaces[q]) =~= sp);
                    }
                }
                assert(self@.spaces.dom() =~= next.dom());
                assert forall|j: int| i + 1 <= j < keys.len() implies {
                    &&& snaps@.dom().contains(#[trigger] keys[j]) == first.spaces.dom().contains(keys[j])
                    &&& snaps@.dom().contains(keys[j]) ==> snaps@[keys[j]] == first.spaces[keys[j]]
                    &&& !self@.spaces.dom().contains(keys[j])
                } by {
                    assert(ordmap::lex_lt(keys[i as int], keys[j]));
                    ordmap::lemma_lex_irreflexive(keys[j]);
                }
                want = next;
            }
            i += 1;
        }
        Ok(())
    }

    /// Open a store from what its directory holds, with every append made durable at
    /// once if so asked.
    pub fn open_durable(d: &Disk, durable: bool) -> (r: Result<Store, StorageError>)
        ensures
            exists|now_ms: u64|
                match #[trigger] disk::opened(d@, now_ms) {
                    Ok(want) => r matches Ok(s) && s.wf() && s@ == want && s.is_durable() == durable,
                    Err(f) => r matches Err(e) && e@ == f,
                },
    {
        let now_ms = clock::wall_ms();
        let r = Store::open_at(d, durable, now_ms);
        assert(match disk::opened(d@, now_ms) {
            Ok(want) => r matches Ok(s) && s.wf() && s@ == want && s.is_durable() == durable,
            Err(f) => r matches Err(e) && e@ == f,
        });
        r
    }

    /// Open a store from what its directory holds.
    pub fn open(d: &Disk) -> (r: Result<Store, StorageError>)
        ensures
            exists|now_ms: u64|
                match #[trigger] disk::opened(d@, now_ms) {
                    Ok(want) => r matches Ok(s) && s.wf() && s@ == want && !s.is_durable(),
                    Err(f) => r matches Err(e) && e@ == f,
                },
    {
        Store::open_durable(d, false)
    }

    /// What the store's directory holds.
    pub fn disk(&self) -> (d: Disk)
        requires
            self.wf(),
        ensures
            d@ == disk::disk_of(self@),
    {
        let ghost keys = self.spaces.key_seq();
        proof {
            self.spaces.lemma_keys();
        }
        let mut dirs: Vec<NsFiles> = Vec::new();
        let mut i: usize = 0;
        while i < self.spaces.len()
            invariant
                i <= keys.len(),
                self.wf(),
                keys == self.spaces.key_seq(),
                keys == ordmap::listed(self@.spaces.dom()),
                dirs@.len() == i,
                forall|j: int| 0 <= j < i ==> (#[trigger] dirs@[j])@ == disk::disk_of(self@).dirs[j],
            decreases keys.len() - i,
        {
            let sp = self.spaces.val_at(i);
            proof {
                assert(self.spaces.raw().dom().contains(keys[i as int]));
                text::lemma_utf8_decodes(sp.name@);
            }
            let policy: Vec<u8> = vec![snapshot::policy_to_u8(sp.policy)];
            let f = NsFiles {
                name: naming::ns_dir(sp.name.as_str()),
                segs: copy_segs(sp.log.segments()),
                policy: Some(policy),
            };
            assert(policy@ =~= seq![snapshot::policy_byte(sp.policy)]);
            assert(f@ =~= disk::disk_of(self@).dirs[i as int]);
            dirs.push(f);
            i += 1;
        }
        let snap = match &self.snap {
            Some(b) => Some(slice_to_vec(b.as_slice())),
            None => None,
        };
        let d = Disk { snap, dirs };
        assert(d@.dirs =~= disk::disk_of(self@).dirs);
        d
    }
}

proof fn lemma_first_gone(keys: Seq<Seq<u8>>, d: DiskV)
    ensures
        disk::first_gone(keys, d) matches Some(k) ==> keys.contains(k),
    decreases keys.len(),
{
    if keys.len() > 0 {
        if disk::discovered(d).contains(keys[0]) {
            lemma_first_gone(keys.drop_first(), d);
            match disk::first_gone(keys, d) {
                Some(k) => {
                    let j = keys.drop_first().index_of(k);
                    assert(keys[j + 1] == k);
                },
                None => {},
            }
        } else {
            assert(keys[0] == disk::first_gone(keys, d)->0);
        }
    }
}

/// The time of making is no index definition.
proof fn lemma_stamp_key(ns: Seq<char>)
    ensures
        model::index_key(ns) != text::utf8("created_ms"@),
{
    reveal_strlit("index/");
    reveal_strlit("created_ms");
    text::lemma_utf8_injective("index/"@ + ns, "created_ms"@);
    let a = "index/"@ + ns;
    assert(a[0] == 'i');
    assert("created_ms"@[0] == 'c');
}

} // verus!
