//! What reopening a store gives back.

use crate::ordmap;
use crate::storage::disk;
use crate::storage::disk::{DirV, DiskV, LoadedV, ReplayV};
use crate::storage::entry;
use crate::storage::entry::{CellsV, ConflictPolicy};
use crate::storage::error::StorageFault;
use crate::storage::log;
use crate::storage::log::LogV;
use crate::storage::model;
use crate::storage::model::{MetaV, StoreV};
use crate::storage::naming;
use crate::storage::record;
use crate::storage::record::{OpV, RecordV, TAG_BATCH, TAG_INDEX, TAG_SCHEMA};
use crate::storage::snapshot;
use crate::storage::snapshot::{SnapSpaceV, SnapV};
use crate::storage::space::{Space, SpaceV};
use crate::storage::store::Store;
use crate::text;
use vstd::prelude::*;

verus! {

proof fn lemma_space_shaped(sp: Space)
    requires
        sp.wf(),
    ensures
        sp.log@.head.len() == 32,
        snapshot::listable(sp.index@),
        snapshot::listable(sp.tombs@),
        forall|k: Seq<u8>| #[trigger] sp.index@.dom().contains(k) ==> snapshot::entry_shaped(sp.index@[k]),
{
    sp.log.lemma_wf();
    sp.index.lemma_keys();
    sp.tombs.lemma_keys();
    assert forall|k: Seq<u8>| #[trigger] sp.index@.dom().contains(k) implies snapshot::entry_shaped(
        sp.index@[k],
    ) by {
        let e = sp.index.raw()[k];
        assert(sp.index@[k] == e@);
    }
}

impl Store {
    /// The snapshot of a well-formed store can be read back.
    pub proof fn lemma_snap_shaped(&self)
        requires
            self.wf(),
        ensures
            snapshot::snap_shaped(disk::snap_view(self@)),
            snapshot::listable(self@.spaces),
    {
        let snap = disk::snap_view(self@);
        self.meta.lemma_keys();
        self.clocks.lemma_keys();
        self.spaces.lemma_keys();
        assert(snap.spaces.dom() =~= self@.spaces.dom());
        assert forall|k: Seq<u8>| #[trigger] snap.spaces.dom().contains(k) implies snapshot::space_shaped(
            snap.spaces[k],
        ) && vstd::utf8::valid_utf8(k) by {
            let sp = self.spaces.raw()[k];
            assert(self.spaces.raw().dom().contains(k));
            lemma_space_shaped(sp);
            text::lemma_utf8_decodes(sp.name@);
        }
    }
}

/// A chained log recovers to itself.
pub proof fn law_chained_log_recovers(l: LogV)
    requires
        l.chained(),
    ensures
        disk::recovered(l.segs) == Ok::<LogV, Seq<char>>(l),
{
}

proof fn lemma_find_dir(dirs: Seq<DirV>, i: int, name: Seq<char>)
    requires
        0 <= i < dirs.len(),
        dirs[i].name == name,
        forall|j: int| 0 <= j < i ==> (#[trigger] dirs[j]).name != name,
    ensures
        disk::dir_named(dirs, name) == dirs[i],
    decreases dirs.len(),
{
    if i > 0 {
        let rest = dirs.drop_first();
        assert(dirs[0].name != name);
        assert forall|j: int| 0 <= j < i - 1 implies (#[trigger] rest[j]).name != name by {
            assert(rest[j] == dirs[j + 1]);
        }
        lemma_find_dir(rest, i - 1, name);
    }
}

/// The namespaces of a store, without their secondary indexes, up to place `i`.
spec fn first_spaces(s: StoreV, keys: Seq<Seq<u8>>, i: int) -> Map<Seq<u8>, SpaceV> {
    Map::new(
        |k: Seq<u8>| keys.take(i).contains(k),
        |k: Seq<u8>| SpaceV { fields: Seq::empty(), ..s.spaces[k] },
    )
}

proof fn lemma_first_more(s: StoreV, keys: Seq<Seq<u8>>, i: int)
    requires
        0 <= i < keys.len(),
    ensures
        first_spaces(s, keys, i).insert(keys[i], SpaceV { fields: Seq::empty(), ..s.spaces[keys[i]] })
            == first_spaces(s, keys, i + 1),
{
    let k = keys[i];
    let next = first_spaces(s, keys, i).insert(k, SpaceV { fields: Seq::empty(), ..s.spaces[k] });
    let t = keys.take(i);
    let u = keys.take(i + 1);
    assert(u[i] == k);
    assert forall|q: Seq<u8>| next.dom().contains(q) <==> u.contains(q) by {
        if t.contains(q) {
            let j = t.index_of(q);
            assert(u[j] == q);
        }
        if u.contains(q) && q != k {
            let j = u.index_of(q);
            assert(t[j] == q);
        }
    }
    assert(next =~= first_spaces(s, keys, i + 1));
}

/// The directory of a namespace is found by its name.
proof fn lemma_dir_at(s: Store, keys: Seq<Seq<u8>>, i: int)
    requires
        s.wf(),
        keys == ordmap::listed(s@.spaces.dom()),
        0 <= i < keys.len(),
    ensures
        ({
            let d = disk::disk_of(s@);
            disk::dir_named(d.dirs, naming::dir_of(vstd::utf8::decode_utf8(keys[i]))) == d.dirs[i]
        }),
{
    let d = disk::disk_of(s@);
    let k = keys[i];
    let ns = vstd::utf8::decode_utf8(k);
    s.lemma_snap_shaped();
    assert(keys.contains(k));
    s.lemma_space(k);
    assert forall|j: int| 0 <= j < i implies (#[trigger] d.dirs[j]).name != naming::dir_of(ns) by {
        assert(keys.contains(keys[j]));
        s.lemma_space(keys[j]);
        let other = vstd::utf8::decode_utf8(keys[j]);
        assert(ordmap::lex_lt(keys[j], k));
        ordmap::lemma_lex_irreflexive(k);
        naming::law_dirs_differ(other, ns);
    }
    lemma_find_dir(d.dirs, i, naming::dir_of(ns));
}

proof fn lemma_load_rest(s: Store, keys: Seq<Seq<u8>>, i: int)
    requires
        s.wf(),
        keys == ordmap::listed(s@.spaces.dom()),
        0 <= i <= keys.len(),
    ensures
        ({
            let d = disk::disk_of(s@);
            let snap = disk::snap_view(s@);
            disk::load_all(
                d,
                snap,
                keys,
                i,
                LoadedV { spaces: first_spaces(s@, keys, i), meta: s@.meta },
            ) == Ok::<LoadedV, StorageFault>(
                LoadedV { spaces: first_spaces(s@, keys, keys.len() as int), meta: s@.meta },
            )
        }),
    decreases keys.len() - i,
{
    let d = disk::disk_of(s@);
    let snap = disk::snap_view(s@);
    s.lemma_snap_shaped();
    if i < keys.len() {
        let k = keys[i];
        assert(keys.contains(k));
        s.lemma_space(k);
        let ns = vstd::utf8::decode_utf8(k);
        let sp = s@.spaces[k];
        lemma_dir_at(s, keys, i);
        law_chained_log_recovers(sp.log);
        let dir = d.dirs[i];
        let base = snap.spaces[k];
        s.lemma_lens(k);
        assert(base.seq == sp.log.records.len());
        let st = ReplayV { cells: sp.cells, meta: s@.meta, head: sp.log.head };
        assert(disk::replay(ns, sp.policy, sp.log.records, base.seq as int, st) == Ok::<
            ReplayV,
            StorageFault,
        >(st));
        let bare = SpaceV { fields: Seq::empty(), ..sp };
        assert(disk::load_one(ns, dir, Some(base), s@.meta) == Ok::<(SpaceV, MetaV), StorageFault>(
            (bare, s@.meta),
        ));
        lemma_first_more(s@, keys, i);
        lemma_load_rest(s, keys, i + 1);
    }
}

proof fn lemma_none_gone(keys: Seq<Seq<u8>>, d: DiskV)
    requires
        forall|i: int| 0 <= i < keys.len() ==> disk::discovered(d).contains(#[trigger] keys[i]),
    ensures
        disk::first_gone(keys, d) is None,
    decreases keys.len(),
{
    if keys.len() > 0 {
        let rest = keys.drop_first();
        assert(disk::discovered(d).contains(keys[0]));
        assert forall|i: int| 0 <= i < rest.len() implies disk::discovered(d).contains(#[trigger] rest[i]) by {
            assert(rest[i] == keys[i + 1]);
        }
        lemma_none_gone(rest, d);
    }
}

impl Store {
    /// A log has no more records than a machine word counts.
    pub proof fn lemma_lens(&self, k: Seq<u8>)
        requires
            self.wf(),
            self@.spaces.dom().contains(k),
        ensures
            self@.spaces[k].log.records.len() <= usize::MAX,
    {
        assert(self.spaces.raw().dom().contains(k));
        self.spaces.raw()[k].log.lemma_wf();
    }
}

/// The directories of a store stand for its namespaces.
proof fn lemma_discovered(s: Store)
    requires
        s.wf(),
    ensures
        disk::discovered(disk::disk_of(s@)) == s@.spaces.dom(),
        disk::first_gone(ordmap::listed(s@.spaces.dom()), disk::disk_of(s@)) is None,
{
    let d = disk::disk_of(s@);
    let keys = ordmap::listed(s@.spaces.dom());
    s.lemma_snap_shaped();
    assert forall|k: Seq<u8>| #[trigger] disk::discovered(d).contains(k) <==> s@.spaces.dom().contains(k) by {
        if s@.spaces.dom().contains(k) {
            assert(keys.contains(k));
            let i = keys.index_of(k);
            s.lemma_space(k);
            naming::law_dir_round_trip(vstd::utf8::decode_utf8(k));
            assert(disk::dir_for(d.dirs[i], k));
        }
        if disk::discovered(d).contains(k) {
            let i = choose|i: int| 0 <= i < d.dirs.len() && disk::dir_for(#[trigger] d.dirs[i], k);
            assert(keys.contains(keys[i]));
            s.lemma_space(keys[i]);
            naming::law_dir_round_trip(vstd::utf8::decode_utf8(keys[i]));
        }
    }
    assert(disk::discovered(d) =~= s@.spaces.dom());
    assert forall|i: int| 0 <= i < keys.len() implies disk::discovered(d).contains(#[trigger] keys[i]) by {
        assert(keys.contains(keys[i]));
    }
    lemma_none_gone(keys, d);
}

/// The namespaces, given their secondary indexes again, are those of the store.
proof fn lemma_all_spaces(s: Store, keys: Seq<Seq<u8>>)
    requires
        s.wf(),
        keys == ordmap::listed(s@.spaces.dom()),
    ensures
        (StoreV { spaces: first_spaces(s@, keys, keys.len() as int), ..s@ }).with_meta(s@.meta) == s@,
{
    let all = first_spaces(s@, keys, keys.len() as int);
    s.lemma_snap_shaped();
    assert(keys.take(keys.len() as int) =~= keys);
    s.lemma_indexed();
    let goal = (StoreV { spaces: all, ..s@ }).with_meta(s@.meta);
    let mine = s@.with_meta(s@.meta);
    assert forall|k: Seq<u8>| #[trigger] mine.spaces.dom().contains(k) implies mine.spaces[k]
        == goal.spaces[k] && goal.spaces.dom().contains(k) by {
        assert(keys.contains(k));
        assert(mine.spaces[k] =~= goal.spaces[k]);
    }
    assert forall|k: Seq<u8>| #[trigger] goal.spaces.dom().contains(k) implies mine.spaces.dom().contains(k) by {
        let i = keys.index_of(k);
        assert(keys.contains(keys[i]));
    }
    assert(mine.spaces =~= goal.spaces);
}

/// A store reopened from its directory after a snapshot is the store itself.
pub proof fn law_checkpoint_reopens(s: Store, now_ms: u64)
    requires
        s.wf(),
        snapshot::snap_fits(disk::snap_view(s@)),
        s@.snap == Some(snapshot::enc_snap(disk::snap_view(s@))),
        s@.meta.dom().contains(text::utf8("created_ms"@)),
    ensures
        disk::opened(disk::disk_of(s@), now_ms) == Ok::<StoreV, StorageFault>(s@),
{
    let d = disk::disk_of(s@);
    let snap = disk::snap_view(s@);
    let keys = ordmap::listed(s@.spaces.dom());
    assert(disk::snap_of_disk(d) == Ok::<SnapV, StorageFault>(snap)) by {
        s.lemma_snap_shaped();
        snapshot::law_snapshot_round_trip(snap);
    }
    assert(snap.spaces.dom() =~= s@.spaces.dom());
    lemma_discovered(s);
    assert(first_spaces(s@, keys, 0) =~= Map::empty());
    lemma_load_rest(s, keys, 0);
    lemma_all_spaces(s, keys);
    assert(disk::stamped(s@.meta, now_ms) == s@.meta);
}

proof fn lemma_replay_more(
    ns: Seq<char>,
    policy: ConflictPolicy,
    recs: Seq<Seq<u8>>,
    more: Seq<u8>,
    i: int,
    st: ReplayV,
)
    requires
        0 <= i <= recs.len(),
        disk::replay(ns, policy, recs, i, st) is Ok,
    ensures
        disk::replay(ns, policy, recs.push(more), i, st) == disk::replay(
            ns,
            policy,
            recs.push(more),
            recs.len() as int,
            disk::replay(ns, policy, recs, i, st)->Ok_0,
        ),
    decreases recs.len() - i,
{
    if i < recs.len() {
        assert(recs.push(more)[i] == recs[i]);
        let r = record::parse_record(recs[i], Some(st.head))->Ok_0;
        let got = model::absorb(ns, policy, st.cells, st.meta, r, (i + 1) as u64);
        lemma_replay_more(
            ns,
            policy,
            recs,
            more,
            i + 1,
            ReplayV {
                cells: got.cells,
                meta: got.meta,
                head: record::hash_of(record::prev_of(recs[i]), recs[i]),
            },
        );
    }
}

// ---------- definitions in the metadata ----------

/// The schema and the index of a namespace, as the metadata defines them.
pub open spec fn defs(m: MetaV, ns: Seq<char>) -> (Option<Seq<u8>>, Option<Seq<u8>>) {
    (model::look(m, model::schema_key(ns)), model::look(m, model::index_key(ns)))
}

/// The keys of definitions differ, from one another and from that of the time of making.
pub proof fn lemma_def_keys(ns: Seq<char>, other: Seq<char>)
    ensures
        model::schema_key(ns) != model::index_key(other),
        model::schema_key(ns) == model::schema_key(other) ==> ns == other,
        model::index_key(ns) == model::index_key(other) ==> ns == other,
        model::schema_key(ns) != text::utf8("created_ms"@),
        model::index_key(ns) != text::utf8("created_ms"@),
{
    reveal_strlit("schema/");
    reveal_strlit("index/");
    reveal_strlit("created_ms");
    let (a, b) = ("schema/"@ + ns, "schema/"@ + other);
    let (c, d) = ("index/"@ + ns, "index/"@ + other);
    text::lemma_utf8_decodes(a);
    text::lemma_utf8_decodes(b);
    text::lemma_utf8_decodes(c);
    text::lemma_utf8_decodes(d);
    text::lemma_utf8_decodes("created_ms"@);
    assert(a[0] == 's' && c[0] == 'i' && d[0] == 'i' && "created_ms"@[0] == 'c');
    assert(a.skip(7) =~= ns && b.skip(7) =~= other);
    assert(c.skip(6) =~= ns && d.skip(6) =~= other);
}

/// Applying a record sets the definitions of its own namespace, from what it says alone.
proof fn lemma_absorb_defs(
    ns: Seq<char>,
    policy: ConflictPolicy,
    cells: CellsV,
    m: MetaV,
    m2: MetaV,
    r: RecordV,
    seq: u64,
    other: Seq<char>,
)
    ensures
        other != ns ==> defs(model::absorb(ns, policy, cells, m, r, seq).meta, other) == defs(m, other),
        defs(m, ns) == defs(m2, ns) ==> defs(model::absorb(ns, policy, cells, m, r, seq).meta, ns) == defs(
            model::absorb(ns, policy, cells, m2, r, seq).meta,
            ns,
        ),
{
    lemma_def_keys(ns, other);
    lemma_def_keys(other, ns);
    lemma_def_keys(ns, ns);
}

// ---------- what the directory rebuilds ----------

/// What the snapshot of a store's directory says; nothing where there is none.
pub open spec fn held_snap(s: StoreV) -> SnapV {
    match s.snap {
        None => SnapV::empty(),
        Some(b) => snapshot::parse_snap(b)->Ok_0,
    }
}

/// What the replay of a namespace starts from.
pub open spec fn base_of(s: StoreV, k: Seq<u8>) -> SnapSpaceV {
    match disk::snapped(held_snap(s), k) {
        Some(b) => b,
        None => disk::unknown(s.spaces[k].policy),
    }
}

/// The replay of a namespace's log behind the snapshot.
pub open spec fn replayed(s: StoreV, k: Seq<u8>) -> Result<ReplayV, StorageFault> {
    let base = base_of(s, k);
    disk::replay(
        vstd::utf8::decode_utf8(k),
        s.spaces[k].policy,
        s.spaces[k].log.records,
        base.seq as int,
        ReplayV { cells: base.cells, meta: held_snap(s).meta, head: base.head },
    )
}

/// Do the snapshot and the log behind it give the live data and the definitions of a
/// namespace?
pub open spec fn rebuilds_one(s: StoreV, k: Seq<u8>) -> bool {
    let base = base_of(s, k);
    &&& base.policy == s.spaces[k].policy
    &&& entry::fits_policy(base.cells, base.policy)
    &&& base.seq <= s.spaces[k].log.records.len()
    &&& replayed(s, k) is Ok
    &&& replayed(s, k)->Ok_0.cells == s.spaces[k].cells
    &&& replayed(s, k)->Ok_0.head == s.spaces[k].log.head
    &&& defs(replayed(s, k)->Ok_0.meta, vstd::utf8::decode_utf8(k)) == defs(s.meta, vstd::utf8::decode_utf8(k))
}

/// Does the directory of a store give the store's live data and definitions?
pub open spec fn rebuilds(s: StoreV) -> bool {
    &&& s.snap matches Some(b) ==> snapshot::parse_snap(b) is Ok
    &&& held_snap(s).spaces.dom().subset_of(s.spaces.dom())
    &&& forall|k: Seq<u8>| #[trigger] s.spaces.dom().contains(k) ==> rebuilds_one(s, k)
    &&& forall|ns: Seq<char>| !s.has(ns) ==> #[trigger] defs(held_snap(s).meta, ns) == defs(s.meta, ns)
}

/// The metadata plays no part in what a replay gives of the data, and the definitions of
/// a namespace follow from those that it starts with; it leaves those of others alone.
proof fn lemma_replay_meta(
    ns: Seq<char>,
    policy: ConflictPolicy,
    recs: Seq<Seq<u8>>,
    i: int,
    a: ReplayV,
    b: ReplayV,
)
    requires
        a.cells == b.cells,
        a.head == b.head,
    ensures
        match disk::replay(ns, policy, recs, i, a) {
            Ok(x) => disk::replay(ns, policy, recs, i, b) matches Ok(y) && x.cells == y.cells && x.head == y.head && (
            defs(a.meta, ns) == defs(b.meta, ns) ==> defs(x.meta, ns) == defs(y.meta, ns)) && forall|other: Seq<char>|
                other != ns ==> #[trigger] defs(x.meta, other) == defs(a.meta, other),
            Err(_) => disk::replay(ns, policy, recs, i, b) is Err,
        },
    decreases recs.len() - i,
{
    if i < recs.len() {
        match record::parse_record(recs[i], Some(a.head)) {
            Err(_) => {},
            Ok(r) => {
                let x = model::absorb(ns, policy, a.cells, a.meta, r, (i + 1) as u64);
                let y = model::absorb(ns, policy, b.cells, b.meta, r, (i + 1) as u64);
                if x.fault is None {
                    let head = record::hash_of(record::prev_of(recs[i]), recs[i]);
                    lemma_absorb_defs(ns, policy, a.cells, a.meta, b.meta, r, (i + 1) as u64, ns);
                    assert forall|other: Seq<char>| other != ns implies #[trigger] defs(x.meta, other) == defs(
                        a.meta,
                        other,
                    ) by {
                        lemma_absorb_defs(ns, policy, a.cells, a.meta, b.meta, r, (i + 1) as u64, other);
                    }
                    lemma_replay_meta(
                        ns,
                        policy,
                        recs,
                        i + 1,
                        ReplayV { cells: x.cells, meta: x.meta, head },
                        ReplayV { cells: y.cells, meta: y.meta, head },
                    );
                }
            },
        }
    }
}

/// Do two stores have the same snapshot, and the same namespaces but for one of them?
spec fn alike_but(s: StoreV, t: StoreV, key: Seq<u8>) -> bool {
    &&& t.snap == s.snap
    &&& t.spaces.dom() == s.spaces.dom()
    &&& forall|k: Seq<u8>| #[trigger]
        s.spaces.dom().contains(k) && k != key ==> t.spaces[k].policy == s.spaces[k].policy && t.spaces[k].log
            == s.spaces[k].log && t.spaces[k].cells == s.spaces[k].cells
}

/// One more record, applied as its replay would be.
proof fn lemma_one_more(before: Store, t: StoreV, ns: Seq<char>, r: RecordV)
    requires
        before.wf(),
        before@.has(ns),
        rebuilds(before@),
        before@.space(ns).log.records.len() < u64::MAX,
        r.canonical(),
        r.fits(),
        alike_but(before@, t, text::utf8(ns)),
        t.space(ns).policy == before@.space(ns).policy,
        t.space(ns).log == before@.space(ns).with_record(r).log,
        ({
            let sp = before@.space(ns);
            let got = model::absorb(ns, sp.policy, sp.cells, before@.meta, r, model::next_seq(sp));
            got.fault is None && t.space(ns).cells == got.cells && t.meta == got.meta
        }),
    ensures
        rebuilds(t),
{
    let s = before@;
    let key = text::utf8(ns);
    text::lemma_utf8_decodes(ns);
    before.lemma_space(key);
    let sp = s.space(ns);
    assert forall|other: Seq<char>| other != ns implies #[trigger] defs(t.meta, other) == defs(s.meta, other) by {
        lemma_absorb_defs(ns, sp.policy, sp.cells, s.meta, s.meta, r, model::next_seq(sp), other);
    }
    assert(held_snap(t) == held_snap(s));
    assert forall|other: Seq<char>| !t.has(other) implies #[trigger] defs(held_snap(t).meta, other) == defs(
        t.meta,
        other,
    ) by {
        assert(!s.has(other) && other != ns);
        assert(defs(t.meta, other) == defs(s.meta, other));
    }
    assert forall|k: Seq<u8>| #[trigger] t.spaces.dom().contains(k) implies rebuilds_one(t, k) by {
        assert(rebuilds_one(s, k));
        before.lemma_space(k);
        let other = vstd::utf8::decode_utf8(k);
        if k != key {
            assert(other != ns);
            assert(defs(t.meta, other) == defs(s.meta, other));
        }
        if k == key {
            let bytes = r.bytes(sp.log.head);
            let base = base_of(s, k);
            let from = ReplayV { cells: base.cells, meta: held_snap(s).meta, head: base.head };
            record::law_record_round_trip(r, sp.log.head);
            lemma_replay_more(ns, sp.policy, sp.log.records, bytes, base.seq as int, from);
            let more = sp.log.records.push(bytes);
            let n = sp.log.records.len() as int;
            let end = replayed(s, k)->Ok_0;
            assert(more[n] == bytes);
            let got = model::absorb(ns, sp.policy, end.cells, end.meta, r, (n + 1) as u64);
            let live = model::absorb(ns, sp.policy, sp.cells, s.meta, r, (n + 1) as u64);
            assert(got.cells == live.cells && got.fault == live.fault);
            lemma_absorb_defs(ns, sp.policy, sp.cells, end.meta, s.meta, r, (n + 1) as u64, ns);
            assert(defs(got.meta, ns) == defs(live.meta, ns));
            let last = ReplayV {
                cells: got.cells,
                meta: got.meta,
                head: record::hash_of(record::prev_of(bytes), bytes),
            };
            assert(disk::replay(ns, sp.policy, more, n + 1, last) == Ok::<ReplayV, StorageFault>(last));
            assert(disk::replay(ns, sp.policy, more, n, end) == Ok::<ReplayV, StorageFault>(last));
            assert(base_of(t, k) == base);
            assert(replayed(t, k) == Ok::<ReplayV, StorageFault>(last));
        }
    }
}

/// A snapshot rebuilds what it was taken of.
pub proof fn law_snapshot_rebuilds(s: Store)
    requires
        s.wf(),
        snapshot::snap_fits(disk::snap_view(s@)),
        s@.snap == Some(snapshot::enc_snap(disk::snap_view(s@))),
    ensures
        rebuilds(s@),
{
    let snap = disk::snap_view(s@);
    s.lemma_snap_shaped();
    snapshot::law_snapshot_round_trip(snap);
    assert(held_snap(s@) == snap);
    assert(snap.spaces.dom() =~= s@.spaces.dom());
    assert forall|k: Seq<u8>| #[trigger] s@.spaces.dom().contains(k) implies rebuilds_one(s@, k) by {
        s.lemma_space(k);
        s.lemma_lens(k);
        assert(base_of(s@, k) == snap.spaces[k]);
    }
}

/// No local write is lost, not even one that lifts a tombstone or is older than what it
/// replaces: where the directory gives the live data, it does after the write. A
/// snapshot has to fit its length fields.
pub proof fn law_write_survives_crash(before: Store, after: Store, ns: Seq<char>, o: OpV)
    requires
        before.wf(),
        after.wf(),
        rebuilds(before@),
        record::is_op_tag(o.tag),
        model::single(o).canonical(),
        before@.space(ns).log.records.len() < u64::MAX,
        after@ == before@.put(ns, o).store || after@ == before@.delete(ns, o).store,
        entry::unlike(before@.space(ns).cells, before@.space(ns).policy, o) ==> snapshot::snap_fits(
            disk::snap_view(after@),
        ),
    ensures
        rebuilds(after@),
{
    if before@.has(ns) && model::single(o).fits() {
        let key = text::utf8(ns);
        text::lemma_utf8_decodes(ns);
        before.lemma_space(key);
        let sp = before@.space(ns);
        entry::law_operations_go_through(sp.cells, ns, sp.policy, o, model::next_seq(sp));
        if entry::unlike(sp.cells, sp.policy, o) {
            lemma_kept(after, before@.write(ns, o).store);
        } else {
            entry::law_replay_agrees(sp.cells, ns, sp.policy, o, model::next_seq(sp));
            assert(after@.spaces.dom() =~= before@.spaces.dom());
            lemma_one_more(before, after@, ns, model::single(o));
        }
    }
}

/// Nor is a batch of local writes.
pub proof fn law_batch_survives_crash(before: Store, after: Store, ns: Seq<char>, ops: Seq<OpV>)
    requires
        before.wf(),
        after.wf(),
        rebuilds(before@),
        model::batch_record(ops).canonical(),
        before@.space(ns).log.records.len() < u64::MAX,
        after@ == before@.put_batch(ns, ops).store,
        ({
            let sp = before@.space(ns);
            entry::unlike_all(sp.cells, ns, sp.policy, ops, model::next_seq(sp)) ==> snapshot::snap_fits(
                disk::snap_view(after@),
            )
        }),
    ensures
        rebuilds(after@),
{
    let r = model::batch_record(ops);
    if before@.has(ns) && ops.len() > 0 && model::first_bad_tag(ops) is None && r.fits() {
        let key = text::utf8(ns);
        text::lemma_utf8_decodes(ns);
        before.lemma_space(key);
        let sp = before@.space(ns);
        let seq = model::next_seq(sp);
        entry::law_batches_go_through(sp.cells, ns, sp.policy, ops, seq);
        if entry::unlike_all(sp.cells, ns, sp.policy, ops, seq) {
            lemma_kept(after, before@.put_batch(ns, ops).store);
        } else {
            entry::law_batch_replay_agrees(sp.cells, ns, sp.policy, ops, seq);
            assert(after@.spaces.dom() =~= before@.spaces.dom());
            lemma_one_more(before, after@, ns, r);
        }
    }
}

/// A store that was kept by a snapshot.
proof fn lemma_kept(after: Store, t: StoreV)
    requires
        after.wf(),
        after@ == t,
        snapshot::snap_fits(disk::snap_view(t)),
        exists|u: StoreV| #[trigger] disk::checkpointed(u).store == t,
    ensures
        rebuilds(after@),
{
    let u = choose|u: StoreV| #[trigger] disk::checkpointed(u).store == t;
    assert(disk::snap_view(u) == disk::snap_view(t));
    law_snapshot_rebuilds(after);
}

/// Nor is a record that was taken in from a peer.
pub proof fn law_synced_record_survives_crash(before: Store, after: Store, ns: Seq<char>, r: RecordV)
    requires
        before.wf(),
        rebuilds(before@),
        r.canonical(),
        before@.space(ns).log.records.len() < u64::MAX,
        after@ == before@.sync(ns, r).store,
    ensures
        rebuilds(after@),
{
    let sp = before@.space(ns);
    if before@.has(ns) && !model::seen(sp.log.records, model::version_id(r)) && model::unsound_tag(r) is None
        && r.fits() {
        let key = text::utf8(ns);
        text::lemma_utf8_decodes(ns);
        before.lemma_space(key);
        lemma_absorb_goes_through(ns, sp, before@.meta, r);
        assert(after@.spaces.dom() =~= before@.spaces.dom());
        lemma_one_more(before, after@, ns, r);
    }
}

/// Taking in a record never fails where the entries have the shape of the policy.
proof fn lemma_absorb_goes_through(ns: Seq<char>, sp: SpaceV, meta: MetaV, r: RecordV)
    requires
        entry::fits_policy(sp.cells, sp.policy),
        r.sound(),
    ensures
        model::absorb(ns, sp.policy, sp.cells, meta, r, model::next_seq(sp)).fault is None,
{
    if record::is_op_tag(r.op.tag) {
        entry::law_operations_go_through(sp.cells, ns, sp.policy, r.op, model::next_seq(sp));
    } else if r.op.tag == TAG_BATCH {
        entry::law_batches_go_through(sp.cells, ns, sp.policy, r.ops, model::next_seq(sp));
    }
}

/// A record of a peer is always taken in, and once: the log grows by one where it does
/// not hold the event yet, and nothing changes where it does.
pub proof fn law_sync_goes_through(s: Store, ns: Seq<char>, r: RecordV)
    requires
        s.wf(),
        s@.has(ns),
        r.sound(),
        r.fits(),
    ensures
        ({
            let fresh = !model::seen(s@.space(ns).log.records, model::version_id(r));
            let t = s@.sync(ns, r);
            &&& t.result == Ok::<bool, StorageFault>(fresh)
            &&& fresh ==> t.store.space(ns).log.records.len() == s@.space(ns).log.records.len() + 1
            &&& !fresh ==> t.store == s@
            &&& t.store.sync(ns, r).result == Ok::<bool, StorageFault>(false)
            &&& t.store.sync(ns, r).store == t.store
        }),
{
    let key = text::utf8(ns);
    text::lemma_utf8_decodes(ns);
    s.lemma_space(key);
    lemma_sound_tag(r);
    lemma_absorb_goes_through(ns, s@.space(ns), s@.meta, r);
    model::law_sync_is_idempotent(s@, ns, r);
}

proof fn lemma_sound_tag(r: RecordV)
    requires
        r.sound(),
    ensures
        model::unsound_tag(r) is None,
{
    if r.op.tag == TAG_BATCH {
        lemma_sound_ops(r.ops);
    }
}

proof fn lemma_sound_ops(ops: Seq<OpV>)
    requires
        forall|i: int| 0 <= i < ops.len() ==> record::is_op_tag((#[trigger] ops[i]).tag),
    ensures
        model::first_bad_tag(ops) is None,
    decreases ops.len(),
{
    if ops.len() > 0 {
        let rest = ops.drop_first();
        assert(record::is_op_tag(ops[0].tag));
        assert forall|i: int| 0 <= i < rest.len() implies record::is_op_tag((#[trigger] rest[i]).tag) by {
            assert(rest[i] == ops[i + 1]);
        }
        lemma_sound_ops(rest);
    }
}

/// Neither the definition of a schema or an index, nor a new namespace, nor metadata
/// that defines nothing costs the directory what it rebuilds. A definition is never an
/// empty value: that clears.
pub proof fn law_definitions_survive_crash(
    before: Store,
    after: Store,
    ns: Seq<char>,
    key: Seq<u8>,
    o: OpV,
    value: Option<Seq<u8>>,
    policy: ConflictPolicy,
    meta: MetaV,
    n: int,
)
    requires
        before.wf(),
        rebuilds(before@),
        o.tag == TAG_SCHEMA && key == model::schema_key(ns) || o.tag == TAG_INDEX && key == model::index_key(ns),
        value == model::non_empty(o.value),
        model::single(o).canonical(),
        before@.space(ns).log.records.len() < u64::MAX,
        ({
            ||| after@ == before@.define(ns, key, o, value).store
            ||| after@ == before@.create(ns, policy).store
            ||| after@ == before@.with_meta(meta).bumped(n) && forall|any: Seq<char>| #[trigger]
                defs(meta, any) == defs(before@.meta, any)
        }),
    ensures
        rebuilds(after@),
{
    let s = before@;
    let k = text::utf8(ns);
    text::lemma_utf8_decodes(ns);
    if after@ == s.with_meta(meta).bumped(n) && forall|any: Seq<char>| #[trigger]
        defs(meta, any) == defs(s.meta, any) {
        assert(after@.spaces.dom() =~= s.spaces.dom());
        assert(held_snap(after@) == held_snap(s));
        assert forall|q: Seq<u8>| #[trigger] after@.spaces.dom().contains(q) implies rebuilds_one(after@, q) by {
            assert(rebuilds_one(s, q));
            assert(defs(meta, vstd::utf8::decode_utf8(q)) == defs(s.meta, vstd::utf8::decode_utf8(q)));
        }
        assert forall|any: Seq<char>| !after@.has(any) implies #[trigger] defs(held_snap(after@).meta, any) == defs(
            after@.meta,
            any,
        ) by {
            assert(!s.has(any));
            assert(defs(meta, any) == defs(s.meta, any));
        }
    } else if after@ == s.define(ns, key, o, value).store {
        if s.has(ns) && model::single(o).fits() {
            assert(after@.spaces.dom() =~= s.spaces.dom());
            lemma_one_more(before, after@, ns, model::single(o));
        }
    } else if !s.has(ns) && after@ != s {
        assert(held_snap(after@) == held_snap(s));
        assert(after@.meta == s.meta);
        assert(defs(held_snap(s).meta, ns) == defs(s.meta, ns));
        assert forall|q: Seq<u8>| #[trigger] after@.spaces.dom().contains(q) implies rebuilds_one(after@, q) by {
            if q != k {
                assert(rebuilds_one(s, q));
            } else {
                assert(!held_snap(s).spaces.dom().contains(q));
            }
        }
        assert forall|any: Seq<char>| !after@.has(any) implies #[trigger] defs(held_snap(after@).meta, any) == defs(
            after@.meta,
            any,
        ) by {
            assert(!s.has(any));
        }
    }
}

/// The namespaces read back, whatever the metadata was.
proof fn lemma_load_data(s: Store, keys: Seq<Seq<u8>>, i: int, st: LoadedV)
    requires
        s.wf(),
        rebuilds(s@),
        keys == ordmap::listed(s@.spaces.dom()),
        0 <= i <= keys.len(),
        st.spaces == first_spaces(s@, keys, i),
        forall|ns: Seq<char>|
            if keys.take(i).contains(text::utf8(ns)) {
                #[trigger] defs(st.meta, ns) == defs(s@.meta, ns)
            } else {
                defs(st.meta, ns) == defs(held_snap(s@).meta, ns)
            },
    ensures
        disk::load_all(disk::disk_of(s@), held_snap(s@), keys, i, st) matches Ok(end) && end.spaces == first_spaces(
            s@,
            keys,
            keys.len() as int,
        ) && forall|ns: Seq<char>| s@.has(ns) ==> #[trigger] defs(end.meta, ns) == defs(s@.meta, ns),
    decreases keys.len() - i,
{
    let d = disk::disk_of(s@);
    let snap = held_snap(s@);
    s.lemma_snap_shaped();
    if i < keys.len() {
        let k = keys[i];
        assert(keys.contains(k));
        s.lemma_space(k);
        assert(rebuilds_one(s@, k));
        let ns = vstd::utf8::decode_utf8(k);
        let sp = s@.spaces[k];
        lemma_dir_at(s, keys, i);
        law_chained_log_recovers(sp.log);
        let base = base_of(s@, k);
        lemma_replay_meta(
            ns,
            sp.policy,
            sp.log.records,
            base.seq as int,
            ReplayV { cells: base.cells, meta: st.meta, head: base.head },
            ReplayV { cells: base.cells, meta: snap.meta, head: base.head },
        );
        lemma_replay_meta(
            ns,
            sp.policy,
            sp.log.records,
            base.seq as int,
            ReplayV { cells: base.cells, meta: snap.meta, head: base.head },
            ReplayV { cells: base.cells, meta: st.meta, head: base.head },
        );
        let one = disk::load_one(ns, d.dirs[i], disk::snapped(snap, k), st.meta);
        let bare = SpaceV { fields: Seq::empty(), ..sp };
        assert(one is Ok && one->Ok_0.0 =~= bare);
        lemma_first_more(s@, keys, i);
        let meta = one->Ok_0.1;
        let (t, u) = (keys.take(i), keys.take(i + 1));
        assert(!t.contains(k)) by {
            if t.contains(k) {
                let j = t.index_of(k);
                assert(ordmap::lex_lt(keys[j], keys[i]));
                ordmap::lemma_lex_irreflexive(k);
            }
        }
        assert(defs(st.meta, ns) == defs(snap.meta, ns));
        assert forall|any: Seq<char>|
            if u.contains(text::utf8(any)) {
                #[trigger] defs(meta, any) == defs(s@.meta, any)
            } else {
                defs(meta, any) == defs(snap.meta, any)
            } by {
            text::lemma_utf8_decodes(any);
            assert(u[i] == k);
            if any != ns {
                assert(defs(meta, any) == defs(st.meta, any));
                assert(text::utf8(any) != k);
                if u.contains(text::utf8(any)) {
                    let j = u.index_of(text::utf8(any));
                    assert(t[j] == text::utf8(any));
                }
                if t.contains(text::utf8(any)) {
                    let j = t.index_of(text::utf8(any));
                    assert(u[j] == text::utf8(any));
                }
            }
        }
        lemma_load_data(s, keys, i + 1, LoadedV { spaces: st.spaces.insert(k, bare), meta });
    } else {
        assert forall|any: Seq<char>| s@.has(any) implies #[trigger] defs(st.meta, any) == defs(s@.meta, any) by {
            assert(keys.take(i) =~= keys);
            assert(keys.contains(text::utf8(any)));
        }
    }
}

/// A store reopens as itself: each namespace comes back with its policy, its log, its
/// live data, its schema and its index.
pub proof fn law_store_reopens(s: Store, now_ms: u64, ns: Seq<char>)
    requires
        s.wf(),
        rebuilds(s@),
    ensures
        disk::opened(disk::disk_of(s@), now_ms) matches Ok(t) && t.spaces.dom() == s@.spaces.dom() && (s@.has(ns)
            ==> t.space(ns) == s@.space(ns) && defs(t.meta, ns) == defs(s@.meta, ns)),
{
    let k = text::utf8(ns);
    text::lemma_utf8_decodes(ns);
    let d = disk::disk_of(s@);
    let snap = held_snap(s@);
    let keys = ordmap::listed(s@.spaces.dom());
    s.lemma_snap_shaped();
    lemma_discovered(s);
    let known = ordmap::listed(snap.spaces.dom());
    assert(s@.spaces.dom() =~= keys.to_set());
    vstd::seq_lib::seq_to_set_is_finite(keys);
    assert(first_spaces(s@, keys, 0) =~= Map::empty());
    let first = LoadedV { spaces: Map::empty(), meta: snap.meta };
    lemma_load_data(s, keys, 0, first);
    assert(disk::first_gone(known, d) is None) by {
        assert forall|i: int| 0 <= i < known.len() implies disk::discovered(d).contains(#[trigger] known[i]) by {
            lemma_listed_in(s@, i);
        }
        lemma_none_gone(known, d);
    }
    let t = disk::opened(d, now_ms)->Ok_0;
    let all = first_spaces(s@, keys, keys.len() as int);
    assert(keys.take(keys.len() as int) =~= keys);
    assert forall|q: Seq<u8>| t.spaces.dom().contains(q) <==> s@.spaces.dom().contains(q) by {
        if s@.spaces.dom().contains(q) {
            assert(keys.contains(q));
        }
        if all.dom().contains(q) {
            assert(keys.contains(keys[keys.index_of(q)]));
        }
    }
    assert(t.spaces.dom() =~= s@.spaces.dom());
    if s@.has(ns) {
        assert(keys.contains(k));
        s.lemma_space(k);
        let end = disk::load_all(d, snap, keys, 0, first)->Ok_0;
        assert(defs(end.meta, ns) == defs(s@.meta, ns));
        lemma_def_keys(ns, ns);
        assert(defs(t.meta, ns) == defs(end.meta, ns));
        assert(t.space(ns) =~= s@.space(ns));
    }
}

/// The listed namespaces of a snapshot are among those of the store.
proof fn lemma_listed_in(s: StoreV, i: int)
    requires
        rebuilds(s),
        s.spaces.dom().finite(),
        0 <= i < ordmap::listed(held_snap(s).spaces.dom()).len(),
    ensures
        s.spaces.dom().contains(ordmap::listed(held_snap(s).spaces.dom())[i]),
{
    let d = held_snap(s).spaces.dom();
    vstd::set_lib::lemma_set_subset_finite(s.spaces.dom(), d);
    ordmap::lemma_has_list(d);
    let known = ordmap::listed(d);
    assert(known.contains(known[i]));
}

// ---------- what was opened ----------

/// Do the snapshot and the log of a namespace give its live data, and the definitions of
/// it that the metadata has?
spec fn gives(snap: SnapV, k: Seq<u8>, sp: SpaceV, m: MetaV) -> bool {
    let base = match disk::snapped(snap, k) {
        Some(b) => b,
        None => disk::unknown(sp.policy),
    };
    let end = disk::replay(
        vstd::utf8::decode_utf8(k),
        sp.policy,
        sp.log.records,
        base.seq as int,
        ReplayV { cells: base.cells, meta: snap.meta, head: base.head },
    );
    &&& base.policy == sp.policy
    &&& entry::fits_policy(base.cells, base.policy)
    &&& base.seq <= sp.log.records.len()
    &&& end is Ok
    &&& end->Ok_0.cells == sp.cells
    &&& end->Ok_0.head == sp.log.head
    &&& defs(end->Ok_0.meta, vstd::utf8::decode_utf8(k)) == defs(m, vstd::utf8::decode_utf8(k))
}

/// Each namespace that is read has the data that the directory gives.
proof fn lemma_load_gives(d: DiskV, snap: SnapV, keys: Seq<Seq<u8>>, i: int, st: LoadedV)
    requires
        0 <= i <= keys.len(),
        ordmap::ascending(keys),
        forall|j: int|
            0 <= j < keys.len() ==> text::utf8(vstd::utf8::decode_utf8(#[trigger] keys[j])) == keys[j],
        disk::load_all(d, snap, keys, i, st) is Ok,
        forall|k: Seq<u8>| #[trigger]
            st.spaces.dom().contains(k) ==> keys.take(i).contains(k) && gives(snap, k, st.spaces[k], st.meta),
        forall|ns: Seq<char>|
            !st.spaces.dom().contains(text::utf8(ns)) ==> #[trigger] defs(st.meta, ns) == defs(snap.meta, ns),
    ensures
        ({
            let end = disk::load_all(d, snap, keys, i, st)->Ok_0;
            &&& forall|k: Seq<u8>| #[trigger]
                end.spaces.dom().contains(k) ==> keys.contains(k) && gives(snap, k, end.spaces[k], end.meta)
            &&& forall|k: Seq<u8>| #[trigger] st.spaces.dom().contains(k) ==> end.spaces.dom().contains(k)
            &&& forall|j: int| i <= j < keys.len() ==> end.spaces.dom().contains(#[trigger] keys[j])
            &&& forall|ns: Seq<char>|
                !end.spaces.dom().contains(text::utf8(ns)) ==> #[trigger] defs(end.meta, ns) == defs(snap.meta, ns)
        }),
    decreases keys.len() - i,
{
    if i < keys.len() {
        let k = keys[i];
        let ns = vstd::utf8::decode_utf8(k);
        let dir = disk::dir_named(d.dirs, naming::dir_of(ns));
        let one = disk::load_one(ns, dir, disk::snapped(snap, k), st.meta);
        let (sp, meta) = one->Ok_0;
        let base = match disk::snapped(snap, k) {
            Some(b) => b,
            None => disk::unknown(sp.policy),
        };
        let (t, u) = (keys.take(i), keys.take(i + 1));
        assert(!t.contains(k)) by {
            if t.contains(k) {
                let j = t.index_of(k);
                assert(ordmap::lex_lt(keys[j], keys[i]));
                ordmap::lemma_lex_irreflexive(k);
            }
        }
        assert(defs(st.meta, ns) == defs(snap.meta, ns));
        lemma_replay_meta(
            ns,
            sp.policy,
            sp.log.records,
            base.seq as int,
            ReplayV { cells: base.cells, meta: st.meta, head: base.head },
            ReplayV { cells: base.cells, meta: snap.meta, head: base.head },
        );
        assert(gives(snap, k, sp, meta));
        let next = LoadedV { spaces: st.spaces.insert(k, sp), meta };
        assert(u[i] == k);
        assert forall|q: Seq<u8>| #[trigger] next.spaces.dom().contains(q) implies u.contains(q) && gives(
            snap,
            q,
            next.spaces[q],
            meta,
        ) by {
            if q != k {
                assert(st.spaces.dom().contains(q));
                let j = t.index_of(q);
                assert(u[j] == q);
                let other = vstd::utf8::decode_utf8(q);
                assert(text::utf8(vstd::utf8::decode_utf8(keys[j])) == keys[j]);
                assert(other != ns);
                assert(defs(meta, other) == defs(st.meta, other));
            }
        }
        assert forall|any: Seq<char>| !next.spaces.dom().contains(text::utf8(any)) implies #[trigger] defs(meta, any)
            == defs(snap.meta, any) by {
            assert(any != ns);
            assert(defs(meta, any) == defs(st.meta, any));
            assert(!st.spaces.dom().contains(text::utf8(any)));
        }
        assert(next.spaces.dom().contains(k));
        lemma_load_gives(d, snap, keys, i + 1, next);
        assert forall|q: Seq<u8>| #[trigger] st.spaces.dom().contains(q) implies disk::load_all(
            d,
            snap,
            keys,
            i,
            st,
        )->Ok_0.spaces.dom().contains(q) by {
            assert(next.spaces.dom().contains(q));
        }
    } else {
        assert(keys.take(i) =~= keys);
    }
}

proof fn lemma_spaces_finite(ss: Seq<snapshot::ReadSpace>)
    ensures
        snapshot::put_spaces(ss).dom().finite(),
    decreases ss.len(),
{
    if ss.len() > 0 {
        lemma_spaces_finite(ss.drop_last());
    }
}

/// A directory has finitely many namespaces.
proof fn lemma_discovered_finite(dirs: Seq<DirV>, d: DiskV)
    requires
        d.dirs == dirs,
    ensures
        disk::discovered(d).finite(),
{
    let keys = Seq::new(
        dirs.len(),
        |i: int|
            match naming::ns_of_dir(dirs[i].name) {
                Some(ns) => text::utf8(ns),
                None => Seq::empty(),
            },
    );
    vstd::seq_lib::seq_to_set_is_finite(keys);
    assert forall|k: Seq<u8>| disk::discovered(d).contains(k) implies keys.to_set().contains(k) by {
        let i = choose|i: int| 0 <= i < dirs.len() && disk::dir_for(#[trigger] dirs[i], k);
        assert(keys[i] == k);
        assert(keys.contains(k));
    }
    vstd::set_lib::lemma_set_subset_finite(keys.to_set(), disk::discovered(d));
}

proof fn lemma_none_missing(keys: Seq<Seq<u8>>, d: DiskV, i: int)
    requires
        disk::first_gone(keys, d) is None,
        0 <= i < keys.len(),
    ensures
        disk::discovered(d).contains(keys[i]),
    decreases keys.len(),
{
    if i > 0 {
        lemma_none_missing(keys.drop_first(), d, i - 1);
        assert(keys.drop_first()[i - 1] == keys[i]);
    }
}

/// A store that was opened can be lost and opened again: its directory gives its live
/// data and definitions.
pub proof fn law_opened_store_rebuilds(d: DiskV, now_ms: u64)
    requires
        disk::opened(d, now_ms) is Ok,
    ensures
        rebuilds(disk::opened(d, now_ms)->Ok_0),
{
    let s = disk::opened(d, now_ms)->Ok_0;
    let snap = disk::snap_of_disk(d)->Ok_0;
    let keys = ordmap::listed(disk::discovered(d));
    let first = LoadedV { spaces: Map::empty(), meta: snap.meta };
    lemma_discovered_finite(d.dirs, d);
    ordmap::lemma_has_list(disk::discovered(d));
    assert forall|j: int| 0 <= j < keys.len() implies text::utf8(vstd::utf8::decode_utf8(#[trigger] keys[j]))
        == keys[j] by {
        assert(keys.contains(keys[j]));
        assert(disk::discovered(d).contains(keys[j]));
        let i = choose|i: int| 0 <= i < d.dirs.len() && disk::dir_for(#[trigger] d.dirs[i], keys[j]);
        text::lemma_utf8_decodes(naming::ns_of_dir(d.dirs[i].name)->0);
    }
    lemma_load_gives(d, snap, keys, 0, first);
    let all = disk::load_all(d, snap, keys, 0, first)->Ok_0;
    assert(s.snap == d.snap);
    assert(held_snap(s) == snap);
    assert(s.spaces.dom() =~= all.spaces.dom());
    assert forall|ns: Seq<char>| #[trigger] defs(s.meta, ns) == defs(all.meta, ns) by {
        lemma_def_keys(ns, ns);
    }
    assert forall|k: Seq<u8>| #[trigger] s.spaces.dom().contains(k) implies rebuilds_one(s, k) by {
        assert(all.spaces.dom().contains(k));
        assert(gives(snap, k, all.spaces[k], all.meta));
        assert(defs(s.meta, vstd::utf8::decode_utf8(k)) == defs(all.meta, vstd::utf8::decode_utf8(k)));
    }
    assert forall|ns: Seq<char>| !s.has(ns) implies #[trigger] defs(held_snap(s).meta, ns) == defs(s.meta, ns) by {
        assert(defs(all.meta, ns) == defs(snap.meta, ns));
        assert(defs(s.meta, ns) == defs(all.meta, ns));
    }
    let known = snap.spaces.dom();
    if let Some(b) = d.snap {
        lemma_snap_finite(b);
    }
    assert(known.finite());
    ordmap::lemma_has_list(known);
    assert forall|k: Seq<u8>| known.contains(k) implies s.spaces.dom().contains(k) by {
        let names = ordmap::listed(known);
        assert(names.contains(k));
        lemma_none_missing(names, d, names.index_of(k));
        assert(keys.contains(k));
        assert(all.spaces.dom().contains(keys[keys.index_of(k)]));
    }
}

proof fn lemma_snap_finite(b: Seq<u8>)
    ensures
        snapshot::parse_snap(b) matches Ok(s) ==> s.spaces.dom().finite(),
{
    if let Ok(s) = snapshot::parse_snap(b) {
        let ss = choose|ss: Seq<snapshot::ReadSpace>| s.spaces == #[trigger] snapshot::put_spaces(ss);
        lemma_spaces_finite(ss);
    }
}

} // verus!
