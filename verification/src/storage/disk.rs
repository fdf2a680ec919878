//! What a store's directory holds.

use crate::ordmap;
use crate::storage::entry;
use crate::storage::entry::{CellsV, ConflictPolicy};
use crate::storage::error::StorageFault;
use crate::storage::log;
use crate::storage::log::{LogV, Scan};
use crate::storage::model;
use crate::storage::model::{MetaV, Step, StoreV};
use crate::storage::naming;
use crate::storage::record;
use crate::storage::snapshot;
use crate::storage::snapshot::{SnapSpaceV, SnapV};
use crate::storage::space::SpaceV;
use crate::text;
use vstd::prelude::*;

verus! {

/// One directory under the store root: its name, its log segments in order, and its
/// policy file.
#[derive(Debug)]
pub struct NsFiles {
    pub name: String,
    pub segs: Vec<Vec<u8>>,
    pub policy: Option<Vec<u8>>,
}

/// A store's directory: the snapshot and the subdirectories.
#[derive(Debug)]
pub struct Disk {
    pub snap: Option<Vec<u8>>,
    pub dirs: Vec<NsFiles>,
}

/// A directory as a value of the model.
#[verifier::ext_equal]
pub struct DirV {
    pub name: Seq<char>,
    pub segs: Seq<Seq<u8>>,
    pub policy: Option<Seq<u8>>,
}

/// A store's directory as a value of the model.
#[verifier::ext_equal]
pub struct DiskV {
    pub snap: Option<Seq<u8>>,
    pub dirs: Seq<DirV>,
}

impl View for NsFiles {
    type V = DirV;

    open spec fn view(&self) -> DirV {
        DirV {
            name: self.name@,
            segs: log::seg_views(self.segs@),
            policy: match self.policy {
                Some(b) => Some(b@),
                None => None,
            },
        }
    }
}

impl View for Disk {
    type V = DiskV;

    open spec fn view(&self) -> DiskV {
        DiskV {
            snap: match self.snap {
                Some(b) => Some(b@),
                None => None,
            },
            dirs: Seq::new(self.dirs@.len(), |i: int| self.dirs@[i]@),
        }
    }
}

/// The directory of a store.
pub open spec fn disk_of(s: StoreV) -> DiskV {
    let keys = ordmap::listed(s.spaces.dom());
    DiskV {
        snap: s.snap,
        dirs: Seq::new(
            keys.len(),
            |i: int|
                DirV {
                    name: naming::dir_of(vstd::utf8::decode_utf8(keys[i])),
                    segs: s.spaces[keys[i]].log.segs,
                    policy: Some(seq![snapshot::policy_byte(s.spaces[keys[i]].policy)]),
                },
        ),
    }
}

/// Is there a directory for the namespace under `key`?
pub open spec fn has_dir(dirs: Seq<DirV>, key: Seq<u8>) -> bool {
    exists|i: int| 0 <= i < dirs.len() && dir_for(#[trigger] dirs[i], key)
}

/// Does the directory stand for the namespace under `key`?
pub open spec fn dir_for(d: DirV, key: Seq<u8>) -> bool {
    naming::ns_of_dir(d.name) matches Some(ns) && text::utf8(ns) == key
}

/// The namespaces that have a directory.
pub open spec fn discovered(d: DiskV) -> Set<Seq<u8>> {
    Set::new(|k: Seq<u8>| has_dir(d.dirs, k))
}

/// The directory with a name; an empty one where there is none.
pub open spec fn dir_named(dirs: Seq<DirV>, name: Seq<char>) -> DirV
    decreases dirs.len(),
{
    if dirs.len() == 0 {
        DirV { name, segs: Seq::empty(), policy: None }
    } else if dirs[0].name == name {
        dirs[0]
    } else {
        dir_named(dirs.drop_first(), name)
    }
}

/// The log that segments recover to, or what is wrong with them.
pub open spec fn recovered(segs: Seq<Seq<u8>>) -> Result<LogV, Seq<char>> {
    match log::scan_log(segs) {
        Scan::Corrupt { detail } => Err(detail),
        Scan::Clean { records, head } => Ok(
            LogV {
                segs: if segs.len() == 0 {
                    LogV::empty().segs
                } else {
                    segs
                },
                records,
                head,
            },
        ),
        Scan::Torn { records, head, at } => Ok(
            LogV { segs: segs.update(segs.len() - 1, segs.last().take(at)), records, head },
        ),
    }
}

pub open spec fn corrupt_ns(ns: Seq<char>, detail: Seq<char>) -> StorageFault {
    StorageFault::Corrupt { ns: Some(ns), detail }
}

/// What a policy file says.
pub open spec fn sidecar(file: Option<Seq<u8>>, ns: Seq<char>) -> Result<Option<ConflictPolicy>, StorageFault> {
    match file {
        None => Ok(None),
        Some(b) => if b.len() != 1 {
            Err(corrupt_ns(ns, "policy sidecar length != 1"@))
        } else {
            match snapshot::policy_of(b[0]) {
                Ok(p) => Ok(Some(p)),
                Err(e) => Err(e),
            }
        },
    }
}

/// The snapshot and the policy file must agree; one of them must speak.
pub open spec fn agreed(
    snap: Option<ConflictPolicy>,
    side: Option<ConflictPolicy>,
    ns: Seq<char>,
) -> Result<ConflictPolicy, StorageFault> {
    match (snap, side) {
        (Some(a), Some(b)) => if a != b {
            Err(corrupt_ns(ns, "snapshot policy disagrees with sidecar"@))
        } else {
            Ok(a)
        },
        (Some(a), None) => Ok(a),
        (None, Some(b)) => Ok(b),
        (None, None) => Err(corrupt_ns(ns, "namespace has no policy"@)),
    }
}

/// A namespace in the middle of a replay.
pub struct ReplayV {
    pub cells: CellsV,
    pub meta: MetaV,
    pub head: Seq<u8>,
}

/// Apply the records from place `i` on; each must chain to the one before.
pub open spec fn replay(
    ns: Seq<char>,
    policy: ConflictPolicy,
    recs: Seq<Seq<u8>>,
    i: int,
    st: ReplayV,
) -> Result<ReplayV, StorageFault>
    decreases recs.len() - i,
{
    if i >= recs.len() {
        Ok(st)
    } else {
        match record::parse_record(recs[i], Some(st.head)) {
            Err(f) => Err(f.error()),
            Ok(r) => {
                let got = model::absorb(ns, policy, st.cells, st.meta, r, (i + 1) as u64);
                match got.fault {
                    Some(f) => Err(f),
                    None => replay(
                        ns,
                        policy,
                        recs,
                        i + 1,
                        ReplayV {
                            cells: got.cells,
                            meta: got.meta,
                            head: record::hash_of(record::prev_of(recs[i]), recs[i]),
                        },
                    ),
                }
            },
        }
    }
}

/// What the snapshot says of a namespace that it does not know.
pub open spec fn unknown(policy: ConflictPolicy) -> SnapSpaceV {
    SnapSpaceV { policy, seq: 0, head: log::zero_head(), cells: CellsV::empty() }
}

/// A namespace read from its directory and the snapshot, with the metadata after it.
pub open spec fn load_one(
    ns: Seq<char>,
    dir: DirV,
    snap: Option<SnapSpaceV>,
    meta: MetaV,
) -> Result<(SpaceV, MetaV), StorageFault> {
    match recovered(dir.segs) {
        Err(detail) => Err(corrupt_ns(dir.name, detail)),
        Ok(l) => match sidecar(dir.policy, ns) {
            Err(e) => Err(e),
            Ok(side) => match agreed(
                match snap {
                    Some(s) => Some(s.policy),
                    None => None,
                },
                side,
                ns,
            ) {
                Err(e) => Err(e),
                Ok(policy) => {
                    let base = match snap {
                        Some(s) => s,
                        None => unknown(policy),
                    };
                    if !entry::fits_policy(base.cells, policy) {
                        Err(corrupt_ns(ns, "snapshot entry does not fit the policy"@))
                    } else if base.seq > l.records.len() {
                        Err(
                            corrupt_ns(
                                ns,
                                "snapshot seq "@ + text::decimal(base.seq as int) + " ahead of log seq "@
                                    + text::decimal(l.records.len() as int),
                            ),
                        )
                    } else {
                        match replay(
                            ns,
                            policy,
                            l.records,
                            base.seq as int,
                            ReplayV { cells: base.cells, meta, head: base.head },
                        ) {
                            Err(e) => Err(e),
                            Ok(end) => if end.head != l.head {
                                Err(corrupt_ns(ns, "replayed head != stored head"@))
                            } else {
                                Ok(
                                    (
                                        SpaceV {
                                            policy,
                                            log: l,
                                            cells: end.cells,
                                            fields: Seq::empty(),
                                        },
                                        end.meta,
                                    ),
                                )
                            },
                        }
                    }
                },
            },
        },
    }
}

/// The namespaces read so far and the metadata.
pub struct LoadedV {
    pub spaces: Map<Seq<u8>, SpaceV>,
    pub meta: MetaV,
}

/// What the snapshot says of the namespace under a key.
pub open spec fn snapped(snap: SnapV, key: Seq<u8>) -> Option<SnapSpaceV> {
    if snap.spaces.dom().contains(key) {
        Some(snap.spaces[key])
    } else {
        None
    }
}

/// Read the namespaces from place `i` on.
pub open spec fn load_all(
    d: DiskV,
    snap: SnapV,
    keys: Seq<Seq<u8>>,
    i: int,
    st: LoadedV,
) -> Result<LoadedV, StorageFault>
    decreases keys.len() - i,
{
    if i >= keys.len() {
        Ok(st)
    } else {
        let ns = vstd::utf8::decode_utf8(keys[i]);
        match load_one(ns, dir_named(d.dirs, naming::dir_of(ns)), snapped(snap, keys[i]), st.meta) {
            Err(e) => Err(e),
            Ok((sp, meta)) => load_all(
                d,
                snap,
                keys,
                i + 1,
                LoadedV { spaces: st.spaces.insert(keys[i], sp), meta },
            ),
        }
    }
}

/// The first namespace of a row that has no directory.
pub open spec fn first_gone(keys: Seq<Seq<u8>>, d: DiskV) -> Option<Seq<u8>>
    decreases keys.len(),
{
    if keys.len() == 0 {
        None
    } else if !discovered(d).contains(keys[0]) {
        Some(keys[0])
    } else {
        first_gone(keys.drop_first(), d)
    }
}

/// What a directory's snapshot says; nothing where there is none.
pub open spec fn snap_of_disk(d: DiskV) -> Result<SnapV, StorageFault> {
    match d.snap {
        None => Ok(SnapV::empty()),
        Some(b) => snapshot::parse_snap(b),
    }
}

/// Metadata with the time of making, where it was missing.
pub open spec fn stamped(meta: MetaV, now_ms: u64) -> MetaV {
    let key = text::utf8("created_ms"@);
    if meta.dom().contains(key) {
        meta
    } else {
        meta.insert(key, record::le64(now_ms as int))
    }
}

/// The store that a directory opens to at a time.
pub open spec fn opened(d: DiskV, now_ms: u64) -> Result<StoreV, StorageFault> {
    match snap_of_disk(d) {
        Err(e) => Err(e),
        Ok(snap) => match first_gone(ordmap::listed(snap.spaces.dom()), d) {
            Some(k) => Err(
                corrupt_ns(
                    vstd::utf8::decode_utf8(k),
                    "snapshot references namespace whose log dir is gone"@,
                ),
            ),
            None => match load_all(
                d,
                snap,
                ordmap::listed(discovered(d)),
                0,
                LoadedV { spaces: Map::empty(), meta: snap.meta },
            ) {
                Err(e) => Err(e),
                Ok(all) => {
                    let meta = stamped(all.meta, now_ms);
                    Ok(
                        StoreV {
                            spaces: all.spaces,
                            meta,
                            clocks: snap.clocks,
                            revision: snap.revision,
                            snap: d.snap,
                        }.with_meta(meta),
                    )
                },
            },
        },
    }
}

/// The snapshot of a store.
pub open spec fn snap_view(s: StoreV) -> SnapV {
    SnapV {
        revision: s.revision,
        meta: s.meta,
        clocks: s.clocks,
        spaces: Map::new(
            |k: Seq<u8>| s.spaces.dom().contains(k),
            |k: Seq<u8>|
                SnapSpaceV {
                    policy: s.spaces[k].policy,
                    seq: s.spaces[k].log.records.len() as u64,
                    head: s.spaces[k].log.head,
                    cells: s.spaces[k].cells,
                },
        ),
    }
}

/// A store that takes a snapshot.
pub open spec fn checkpointed(s: StoreV) -> Step<()> {
    let snap = snap_view(s);
    if snapshot::snap_fits(snap) {
        Step { store: StoreV { snap: Some(snapshot::enc_snap(snap)), ..s }, result: Ok(()) }
    } else {
        s.same(StorageFault::Io("snapshot too large"@))
    }
}

/// The policy of a namespace is the one that both its file and the snapshot give, where
/// both do; it is corrupt where they differ, and where neither gives one.
pub proof fn law_policies_must_agree(a: ConflictPolicy, b: ConflictPolicy, ns: Seq<char>)
    ensures
        agreed(Some(a), Some(b), ns) is Ok <==> a == b,
        agreed(Some(a), Some(a), ns) == Ok::<ConflictPolicy, StorageFault>(a),
        agreed(Some(a), None, ns) == Ok::<ConflictPolicy, StorageFault>(a),
        agreed(None, Some(b), ns) == Ok::<ConflictPolicy, StorageFault>(b),
        agreed(None, None, ns) is Err,
{
}

/// The time of making is noted when a directory is first opened, and never changed again.
pub proof fn law_time_of_making_is_kept(meta: MetaV, now_ms: u64, later_ms: u64)
    ensures
        stamped(meta, now_ms).dom().contains(text::utf8("created_ms"@)),
        meta.dom().contains(text::utf8("created_ms"@)) ==> stamped(meta, now_ms) == meta,
        !meta.dom().contains(text::utf8("created_ms"@)) ==> record::un64(
            stamped(meta, now_ms)[text::utf8("created_ms"@)],
        ) == now_ms,
        stamped(stamped(meta, now_ms), later_ms) == stamped(meta, now_ms),
{
    vstd::bytes::lemma_auto_spec_u64_to_from_le_bytes();
}

} // verus!
