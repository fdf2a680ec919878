//! Compacting a whole store, in memory or in its directory.

use crate::clock;
use crate::ordmap;
use crate::storage::compaction;
use crate::storage::disk;
use crate::storage::disk::{Disk, DiskV};
use crate::storage::error::{StorageError, StorageFault};
use crate::storage::log;
use crate::storage::model::{Step, StoreV};
use crate::storage::snapshot;
use crate::storage::space;
use crate::storage::space::SpaceV;
use crate::storage::store;
use crate::storage::store::recovery;
use crate::storage::store::Store;
use crate::text;
use vstd::prelude::*;

verus! {

/// The bytes that a namespace's segments take.
pub open spec fn size_of(sp: SpaceV) -> int {
    log::cap64(log::total_len(sp.log.segs))
}

/// The bytes that compaction gives back in one namespace.
pub open spec fn gain(ns: Seq<char>, sp: SpaceV, now_ms: u64) -> int {
    let before = size_of(sp);
    let after = size_of(compaction::compacted(ns, sp, now_ms));
    if before > after {
        before - after
    } else {
        0
    }
}

/// The bytes that compaction gives back in a row of namespaces.
pub open spec fn gains(s: StoreV, keys: Seq<Seq<u8>>, now_ms: u64) -> int
    decreases keys.len(),
{
    if keys.len() == 0 {
        0
    } else {
        gains(s, keys.drop_last(), now_ms) + gain(
            vstd::utf8::decode_utf8(keys.last()),
            s.spaces[keys.last()],
            now_ms,
        )
    }
}

/// The store with the namespaces of a row compacted.
pub open spec fn compact_some(s: StoreV, keys: Seq<Seq<u8>>, now_ms: u64) -> StoreV {
    StoreV {
        spaces: Map::new(
            |k: Seq<u8>| s.spaces.dom().contains(k),
            |k: Seq<u8>|
                if keys.contains(k) {
                    compaction::compacted(vstd::utf8::decode_utf8(k), s.spaces[k], now_ms)
                } else {
                    s.spaces[k]
                },
        ),
        ..s
    }
}

/// Can every namespace be compacted?
pub open spec fn all_fit(s: StoreV, now_ms: u64) -> bool {
    forall|k: Seq<u8>| #[trigger] s.spaces.dom().contains(k) ==> compaction::kept_fits(s.spaces[k].cells, now_ms)
}

/// A store that compacts itself and takes a snapshot; the bytes given back.
pub open spec fn compacting(s: StoreV, now_ms: u64) -> Step<u64> {
    let keys = ordmap::listed(s.spaces.dom());
    if !all_fit(s, now_ms) {
        s.same(space::too_large())
    } else {
        let end = disk::checkpointed(compact_some(s, keys, now_ms));
        Step {
            store: end.store,
            result: match end.result {
                Ok(_) => Ok(log::cap64(gains(s, keys, now_ms)) as u64),
                Err(e) => Err(e),
            },
        }
    }
}

/// A node with mesh peers keeps its whole log: it tells which events were seen.
pub open spec fn refused_live(s: StoreV) -> StorageFault {
    StorageFault::Io(
        "refusing to compact: node has mesh-synced peers ("@ + text::decimal(
            ordmap::listed(s.clocks.dom()).len() as int,
        ) + " recorded); compaction is only safe standalone"@,
    )
}

/// As [`refused_live`], for a directory.
pub open spec fn refused_dir(s: StoreV) -> StorageFault {
    StorageFault::Io(
        "refusing to compact: node has mesh-synced peers ("@ + text::decimal(
            ordmap::listed(s.clocks.dom()).len() as int,
        ) + " peer clock(s) recorded); compaction is only safe on a standalone node"@,
    )
}

/// Does the store know of peers?
pub open spec fn has_peers(s: StoreV) -> bool {
    ordmap::listed(s.clocks.dom()).len() > 0
}

/// What compacting a running store does.
pub open spec fn gc(s: StoreV, now_ms: u64) -> Step<u64> {
    if has_peers(s) {
        s.same(refused_live(s))
    } else {
        compacting(s, now_ms)
    }
}

/// Does the second store answer as the first one, from a time on? Every namespace has its
/// policy, its schema and its index, and every key shows the same version, but for the
/// number of its record; a deleted or expired one shows none.
pub open spec fn answers_alike(s: StoreV, t: StoreV, now_ms: u64) -> bool {
    &&& t.meta == s.meta
    &&& t.clocks == s.clocks
    &&& t.spaces.dom() == s.spaces.dom()
    &&& forall|ns: Seq<char>| #[trigger]
        s.has(ns) ==> t.space(ns).policy == s.space(ns).policy && t.space(ns).fields == s.space(ns).fields
    &&& forall|ns: Seq<char>, key: Seq<u8>, at_ms: u64|
        now_ms <= at_ms ==> #[trigger] compaction::seen_of(t.get(ns, key), at_ms) == compaction::seen_of(
            s.get(ns, key),
            at_ms,
        )
}

/// Does a directory open, at any time, to the store that compacting another one gave, and
/// answer as that one did?
pub open spec fn reopens_compacted(d: DiskV, end: DiskV, now_ms: u64) -> bool {
    let s = disk::opened(d, now_ms)->Ok_0;
    let t = compacting(s, now_ms).store;
    &&& forall|later_ms: u64| #[trigger] disk::opened(end, later_ms) == Ok::<StoreV, StorageFault>(t)
    &&& answers_alike(s, t, now_ms)
}

/// What compacting a directory does: the directory after it and the bytes given back.
pub open spec fn compact_disk(d: DiskV, now_ms: u64) -> Result<(u64, DiskV), StorageFault> {
    match disk::opened(d, now_ms) {
        Err(e) => Err(e),
        Ok(s) => if has_peers(s) {
            Err(refused_dir(s))
        } else {
            match compacting(s, now_ms).result {
                Err(e) => Err(e),
                Ok(n) => Ok((n, disk::disk_of(compacting(s, now_ms).store))),
            }
        },
    }
}

proof fn lemma_gains(s: StoreV, keys: Seq<Seq<u8>>, now_ms: u64)
    ensures
        gains(s, keys, now_ms) >= 0,
    decreases keys.len(),
{
    if keys.len() > 0 {
        lemma_gains(s, keys.drop_last(), now_ms);
    }
}

impl Store {
    /// Can every namespace be compacted?
    fn can_compact(&self, now_ms: u64) -> (r: bool)
        requires
            self.wf(),
        ensures
            r == all_fit(self@, now_ms),
    {
        let ghost keys = self.spaces.key_seq();
        proof {
            self.spaces.lemma_keys();
        }
        let mut i: usize = 0;
        while i < self.spaces.len()
            invariant
                i <= keys.len(),
                self.wf(),
                keys == self.spaces.key_seq(),
                forall|k: Seq<u8>| #[trigger] self@.spaces.dom().contains(k) ==> keys.contains(k),
                forall|j: int|
                    0 <= j < i ==> compaction::kept_fits(self@.spaces[#[trigger] keys[j]].cells, now_ms),
            decreases keys.len() - i,
        {
            let sp = self.spaces.val_at(i);
            assert(self.spaces.raw().dom().contains(keys[i as int]));
            if !sp.can_compact(now_ms) {
                assert(self@.spaces.dom().contains(keys[i as int]));
                return false;
            }
            i += 1;
        }
        proof {
            assert forall|k: Seq<u8>| #[trigger] self@.spaces.dom().contains(k) implies compaction::kept_fits(
                self@.spaces[k].cells,
                now_ms,
            ) by {
                let j = keys.index_of(k);
                assert(keys[j] == k);
            }
        }
        true
    }

    /// Compact every namespace and take a snapshot.
    fn compact_all(&mut self, now_ms: u64) -> (r: Result<u64, StorageError>)
        requires
            old(self).wf(),
        ensures
            final(self).wf(),
            final(self).is_durable() == old(self).is_durable(),
            final(self)@ == compacting(old(self)@, now_ms).store,
            match compacting(old(self)@, now_ms).result {
                Ok(n) => r matches Ok(m) && m == n,
                Err(f) => r matches Err(e) && e@ == f,
            },
    {
        let ghost before = *self;
        let ghost keys = ordmap::listed(self@.spaces.dom());
        if !self.can_compact(now_ms) {
            return Err(StorageError::Io(text::copy_text("record too large")));
        }
        let names = self.namespaces();
        let mut total: u64 = 0;
        let mut i: usize = 0;
        proof {
            self.spaces.lemma_keys();
            assert(compact_some(before@, keys.take(0), now_ms).spaces =~= before@.spaces);
        }
        while i < names.len()
            invariant
                i <= names@.len(),
                names@.len() == keys.len(),
                keys == ordmap::listed(before@.spaces.dom()),
                ordmap::ascending(keys),
                before == *old(self),
                before.wf(),
                all_fit(before@, now_ms),
                self.wf(),
                self.is_durable() == before.is_durable(),
                self@ == compact_some(before@, keys.take(i as int), now_ms),
                total == log::cap64(gains(before@, keys.take(i as int), now_ms)),
                forall|j: int|
                    0 <= j < names@.len() ==> text::utf8((#[trigger] names@[j]).0@) == keys[j]
                        && before@.spaces.dom().contains(keys[j]),
            decreases names@.len() - i,
        {
            let ns = names[i].0.as_str();
            let ghost k = keys[i as int];
            let ghost t = keys.take(i as int);
            let ghost u = keys.take(i + 1);
            proof {
                assert(text::utf8(ns@) == k);
                text::lemma_utf8_decodes(ns@);
                assert(u.drop_last() =~= t);
                assert(u.last() == k);
                lemma_gains(before@, t, now_ms);
                assert(!t.contains(k)) by {
                    if t.contains(k) {
                        let j = t.index_of(k);
                        assert(ordmap::lex_lt(keys[j], keys[i as int]));
                        ordmap::lemma_lex_irreflexive(k);
                    }
                }
            }
            match self.take(ns) {
                None => {},
                Some(mut sp) => {
                    let size: u64 = sp.log.size();
                    sp.compact(now_ms);
                    let after: u64 = sp.log.size();
                    let freed: u64 = if size > after {
                        size - after
                    } else {
                        0
                    };
                    total = total.saturating_add(freed);
                    self.give(sp);
                },
            }
            proof {
                assert forall|q: Seq<u8>| u.contains(q) <==> t.contains(q) || q == k by {
                    if t.contains(q) {
                        let j = t.index_of(q);
                        assert(u[j] == q);
                    }
                    if q == k {
                        assert(u[i as int] == q);
                    }
                    if u.contains(q) && q != k {
                        let j = u.index_of(q);
                        assert(t[j] == q);
                    }
                }
                assert(self@.spaces =~= compact_some(before@, u, now_ms).spaces);
            }
            i += 1;
        }
        assert(keys.take(i as int) =~= keys);
        match self.checkpoint() {
            Ok(_) => Ok(total),
            Err(e) => Err(e),
        }
    }

    /// Compact a running store at a time: drop superseded and expired versions, keep
    /// what is read, and take a snapshot. A store with mesh peers is refused. The bytes
    /// given back are returned.
    pub fn gc_live_at(&mut self, now_ms: u64) -> (r: Result<u64, StorageError>)
        requires
            old(self).wf(),
        ensures
            final(self).wf(),
            final(self).is_durable() == old(self).is_durable(),
            final(self)@ == gc(old(self)@, now_ms).store,
            match gc(old(self)@, now_ms).result {
                Ok(n) => r matches Ok(m) && m == n,
                Err(f) => r matches Err(e) && e@ == f,
            },
            r is Ok ==> answers_alike(old(self)@, final(self)@, now_ms),
    {
        proof {
            self.clocks.lemma_keys();
            if gc(self@, now_ms).result is Ok {
                law_compacted_store_answers_alike(*self, now_ms);
            }
        }
        if self.clocks.len() > 0 {
            return Err(
                StorageError::Io(
                    text::join3(
                        "refusing to compact: node has mesh-synced peers (",
                        text::dec(self.clocks.len() as u64).as_str(),
                        " recorded); compaction is only safe standalone",
                    ),
                ),
            );
        }
        self.compact_all(now_ms)
    }

    /// Compact a running store by the wall clock. See [`Store::gc_live_at`].
    pub fn gc_live(&mut self) -> (r: Result<u64, StorageError>)
        requires
            old(self).wf(),
        ensures
            final(self).wf(),
            final(self).is_durable() == old(self).is_durable(),
            exists|now_ms: u64| {
                let want = #[trigger] gc(old(self)@, now_ms);
                &&& final(self)@ == want.store
                &&& match want.result {
                    Ok(n) => r matches Ok(m) && m == n,
                    Err(f) => r matches Err(e) && e@ == f,
                }
            },
    {
        let now_ms = clock::wall_ms();
        let ghost before = self@;
        let r = self.gc_live_at(now_ms);
        assert({
            let want = gc(before, now_ms);
            &&& self@ == want.store
            &&& match want.result {
                Ok(n) => r matches Ok(m) && m == n,
                Err(f) => r matches Err(e) && e@ == f,
            }
        });
        r
    }
}

/// Compact a directory at a time: what it holds afterwards, and the bytes given back. The
/// directory opens to the compacted store, which answers as before.
pub fn compact_at(d: &Disk, now_ms: u64) -> (r: Result<(u64, Disk), StorageError>)
    ensures
        match compact_disk(d@, now_ms) {
            Ok((n, after)) => r matches Ok((m, end)) && m == n && end@ == after && reopens_compacted(
                d@,
                end@,
                now_ms,
            ),
            Err(f) => r matches Err(e) && e@ == f,
        },
{
    let mut s = match Store::open_at(d, false, now_ms) {
        Err(e) => {
            return Err(e);
        },
        Ok(s) => s,
    };
    let ghost first = s;
    proof {
        s.clocks.lemma_keys();
    }
    if s.clocks.len() > 0 {
        return Err(
            StorageError::Io(
                text::join3(
                    "refusing to compact: node has mesh-synced peers (",
                    text::dec(s.clocks.len() as u64).as_str(),
                    " peer clock(s) recorded); compaction is only safe on a standalone node",
                ),
            ),
        );
    }
    match s.compact_all(now_ms) {
        Err(e) => Err(e),
        Ok(n) => {
            proof {
                assert forall|later_ms: u64| #[trigger] disk::opened(disk::disk_of(s@), later_ms) == Ok::<
                    StoreV,
                    StorageFault,
                >(s@) by {
                    law_compacted_directory_answers_alike(d@, first, s, now_ms, later_ms);
                }
                law_compacted_directory_answers_alike(d@, first, s, now_ms, 0);
            }
            Ok((n, s.disk()))
        },
    }
}

/// Compact the directory of a stopped standalone node by the wall clock. See
/// [`compact_at`].
pub fn compact_dir(d: &Disk) -> (r: Result<(u64, Disk), StorageError>)
    ensures
        exists|now_ms: u64|
            match #[trigger] compact_disk(d@, now_ms) {
                Ok((n, after)) => r matches Ok((m, end)) && m == n && end@ == after && reopens_compacted(
                    d@,
                    end@,
                    now_ms,
                ),
                Err(f) => r matches Err(e) && e@ == f,
            },
{
    let now_ms = clock::wall_ms();
    let r = compact_at(d, now_ms);
    assert(match compact_disk(d@, now_ms) {
        Ok((n, after)) => r matches Ok((m, end)) && m == n && end@ == after && reopens_compacted(d@, end@, now_ms),
        Err(f) => r matches Err(e) && e@ == f,
    });
    r
}

/// A store that knows of peers is never compacted.
pub proof fn law_mesh_node_keeps_its_log(s: StoreV, now_ms: u64)
    requires
        has_peers(s),
    ensures
        gc(s, now_ms).result is Err,
        gc(s, now_ms).store == s,
{
}

/// A compacted store answers as before. A standalone store is compacted, where the kept
/// records and the snapshot fit their length fields.
pub proof fn law_compacted_store_answers_alike(s: Store, now_ms: u64)
    requires
        s.wf(),
        !has_peers(s@),
        all_fit(s@, now_ms),
        snapshot::snap_fits(disk::snap_view(compact_some(s@, ordmap::listed(s@.spaces.dom()), now_ms))),
    ensures
        gc(s@, now_ms).result is Ok,
        answers_alike(s@, gc(s@, now_ms).store, now_ms),
{
    let keys = ordmap::listed(s@.spaces.dom());
    let t = gc(s@, now_ms).store;
    s.lemma_snap_shaped();
    assert(t.spaces.dom() =~= s@.spaces.dom());
    assert forall|ns: Seq<char>| #[trigger] s@.has(ns) implies t.space(ns).policy == s@.space(ns).policy && t.space(
        ns,
    ).fields == s@.space(ns).fields by {
        assert(keys.contains(text::utf8(ns)));
    }
    assert forall|ns: Seq<char>, key: Seq<u8>, at_ms: u64| now_ms <= at_ms implies #[trigger] compaction::seen_of(
        t.get(ns, key),
        at_ms,
    ) == compaction::seen_of(s@.get(ns, key), at_ms) by {
        if s@.has(ns) {
            let k = text::utf8(ns);
            text::lemma_utf8_decodes(ns);
            s.lemma_space(k);
            assert(keys.contains(k));
            let snap = disk::snap_view(s@);
            assert(snap.spaces.dom().contains(k));
            assert(snapshot::space_shaped(snap.spaces[k]));
            let sp = s@.space(ns);
            compaction::law_compaction_keeps_reads(ns, sp.policy, sp.cells, now_ms, key, at_ms);
        }
    }
}

/// A compacted directory opens to a store that answers as before, whenever it is opened.
/// Here `s` is what the directory opened to, and `t` what compaction made of it.
pub proof fn law_compacted_directory_answers_alike(d: DiskV, s: Store, t: Store, now_ms: u64, later_ms: u64)
    requires
        s.wf(),
        t.wf(),
        disk::opened(d, now_ms) == Ok::<StoreV, StorageFault>(s@),
        t@ == compacting(s@, now_ms).store,
        !has_peers(s@),
        all_fit(s@, now_ms),
        snapshot::snap_fits(disk::snap_view(compact_some(s@, ordmap::listed(s@.spaces.dom()), now_ms))),
    ensures
        compact_disk(d, now_ms) is Ok,
        disk::opened(compact_disk(d, now_ms)->Ok_0.1, later_ms) == Ok::<StoreV, StorageFault>(t@),
        answers_alike(s@, t@, now_ms),
{
    law_compacted_store_answers_alike(s, now_ms);
    let u = compact_some(s@, ordmap::listed(s@.spaces.dom()), now_ms);
    assert(disk::snap_view(u) == disk::snap_view(t@));
    recovery::law_checkpoint_reopens(t, later_ms);
}

/// A store that has heard of so much as one peer is not compacted: its log tells which
/// events were seen.
pub proof fn law_one_peer_keeps_the_log(s: StoreV, peer: Seq<u8>, now_ms: u64)
    requires
        s.clocks.dom().contains(peer),
        s.clocks.dom().finite(),
    ensures
        gc(s, now_ms).result is Err,
        gc(s, now_ms).store == s,
{
    ordmap::lemma_has_list(s.clocks.dom());
    let l = ordmap::listed(s.clocks.dom());
    assert(l.contains(peer));
    assert(l.index_of(peer) < l.len());
}

/// The bytes of the logs of a row of namespaces.
pub open spec fn bytes_in(s: StoreV, keys: Seq<Seq<u8>>) -> int
    decreases keys.len(),
{
    if keys.len() == 0 {
        0
    } else {
        bytes_in(s, keys.drop_last()) + log::total_len(s.spaces[keys.last()].log.segs)
    }
}

proof fn lemma_given_back(s: StoreV, all: Seq<Seq<u8>>, keys: Seq<Seq<u8>>, now_ms: u64)
    requires
        forall|k: Seq<u8>| #[trigger] s.spaces.dom().contains(k) ==> all.contains(k),
        forall|i: int| 0 <= i < keys.len() ==> s.spaces.dom().contains(#[trigger] keys[i]),
        forall|k: Seq<u8>| #[trigger]
            s.spaces.dom().contains(k) ==> log::total_len(s.spaces[k].log.segs) <= u64::MAX && log::total_len(
                compact_some(s, all, now_ms).spaces[k].log.segs,
            ) <= log::total_len(s.spaces[k].log.segs),
    ensures
        gains(s, keys, now_ms) == bytes_in(s, keys) - bytes_in(compact_some(s, all, now_ms), keys),
    decreases keys.len(),
{
    if keys.len() > 0 {
        let front = keys.drop_last();
        assert forall|i: int| 0 <= i < front.len() implies s.spaces.dom().contains(#[trigger] front[i]) by {
            assert(front[i] == keys[i]);
        }
        lemma_given_back(s, all, front, now_ms);
        let k = keys[keys.len() - 1];
        assert(s.spaces.dom().contains(k));
        assert(all.contains(k));
    }
}

/// Compaction says how many bytes it gave back: those of all logs before it less those
/// after it, where no log got longer.
pub proof fn law_compaction_says_what_it_gave_back(s: StoreV, t: StoreV, now_ms: u64)
    requires
        s.spaces.dom().finite(),
        gc(s, now_ms).result is Ok,
        t == compact_some(s, ordmap::listed(s.spaces.dom()), now_ms),
        forall|k: Seq<u8>| #[trigger]
            s.spaces.dom().contains(k) ==> log::total_len(s.spaces[k].log.segs) <= u64::MAX && log::total_len(
                t.spaces[k].log.segs,
            ) <= log::total_len(s.spaces[k].log.segs),
        bytes_in(s, ordmap::listed(s.spaces.dom())) <= u64::MAX,
    ensures
        ({
            let keys = ordmap::listed(s.spaces.dom());
            &&& gc(s, now_ms).result->Ok_0 == bytes_in(s, keys) - bytes_in(t, keys)
            &&& gc(s, now_ms).store.spaces == t.spaces
        }),
{
    let keys = ordmap::listed(s.spaces.dom());
    ordmap::lemma_has_list(s.spaces.dom());
    assert forall|k: Seq<u8>| #[trigger] s.spaces.dom().contains(k) implies keys.contains(k) by {}
    assert forall|i: int| 0 <= i < keys.len() implies s.spaces.dom().contains(#[trigger] keys[i]) by {
        assert(keys.contains(keys[i]));
    }
    lemma_given_back(s, keys, keys, now_ms);
    lemma_gains(s, keys, now_ms);
    lemma_bytes_in(t, keys);
}

proof fn lemma_bytes_in(s: StoreV, keys: Seq<Seq<u8>>)
    ensures
        bytes_in(s, keys) >= 0,
    decreases keys.len(),
{
    if keys.len() > 0 {
        lemma_bytes_in(s, keys.drop_last());
        lemma_total(s.spaces[keys.last()].log.segs);
    }
}

proof fn lemma_total(segs: Seq<Seq<u8>>)
    ensures
        log::total_len(segs) >= 0,
    decreases segs.len(),
{
    if segs.len() > 0 {
        lemma_total(segs.drop_last());
    }
}

} // verus!
