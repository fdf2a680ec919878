//! One namespace in memory: its log, its live data and its secondary indexes.

use crate::ordmap::OrdMap;
use crate::storage::entry;
use crate::storage::entry::{CellsV, ConflictPolicy, Entry, EntryV, Version};
use crate::storage::error::{corrupt_in, StorageError, StorageFault};
use crate::storage::log::{Log, LogV};
use crate::storage::record;
use crate::storage::record::{Record, TAG_DEL, TAG_PUT, TAG_PUT_TTL};
use crate::storage::rows::{RowV, Rows};
use crate::text;
use vstd::prelude::*;
use vstd::slice::slice_to_vec;

verus! {

/// A secondary index: a field and its rows.
#[derive(Debug)]
pub struct Sec {
    pub field: String,
    pub rows: Rows,
}

/// One namespace.
pub struct Space {
    pub name: String,
    pub policy: ConflictPolicy,
    pub log: Log,
    pub index: OrdMap<Entry>,
    pub tombs: OrdMap<u64>,
    pub sec: Vec<Sec>,
}

/// A namespace as a value of the model.
#[verifier::ext_equal]
pub struct SpaceV {
    pub policy: ConflictPolicy,
    pub log: LogV,
    pub cells: CellsV,
    /// The fields that have a secondary index.
    pub fields: Seq<Seq<char>>,
}

/// A record whose length fields cannot hold it.
pub open spec fn too_large() -> StorageFault {
    StorageFault::Io("record too large"@)
}

impl SpaceV {
    /// The namespace with one more record in its log.
    pub open spec fn with_record(self, r: record::RecordV) -> SpaceV {
        SpaceV { log: self.log.append(r.bytes(self.log.head)), ..self }
    }
}

/// The fields of some secondary indexes.
pub open spec fn sec_fields(sec: Seq<Sec>) -> Seq<Seq<char>> {
    Seq::new(sec.len(), |i: int| sec[i].field@)
}

impl View for Space {
    type V = SpaceV;

    open spec fn view(&self) -> SpaceV {
        SpaceV {
            policy: self.policy,
            log: self.log@,
            cells: self.cells(),
            fields: sec_fields(self.sec@),
        }
    }
}

impl Space {
    pub open spec fn cells(&self) -> CellsV {
        CellsV { index: self.index@, tombs: self.tombs@ }
    }

    /// The parts are well formed, the log is chained, the entries have the shape of the
    /// policy, and each secondary index holds the rows that the live data gives.
    pub open spec fn wf(&self) -> bool {
        &&& self.log.wf()
        &&& self.log@.chained()
        &&& entry::fits_policy(self.cells(), self.policy)
        &&& self.index.wf()
        &&& self.tombs.wf()
        &&& forall|i: int|
            0 <= i < self.sec@.len() ==> {
                &&& (#[trigger] self.sec@[i]).rows.wf()
                &&& self.sec@[i].rows@ == self.cells().rows(self.sec@[i].field@)
            }
    }

    /// As `wf`, but the rows of `key` may be out of date.
    pub open spec fn wf_but(&self, key: Seq<u8>) -> bool {
        &&& self.log.wf()
        &&& self.log@.chained()
        &&& entry::fits_policy(self.cells(), self.policy)
        &&& self.index.wf()
        &&& self.tombs.wf()
        &&& forall|i: int|
            0 <= i < self.sec@.len() ==> {
                &&& (#[trigger] self.sec@[i]).rows.wf()
                &&& forall|p: RowV|
                    p.1 != key ==> (#[trigger] self.sec@[i].rows@.contains(p) <==> self.cells().rows(
                        self.sec@[i].field@,
                    ).contains(p))
            }
    }

    /// A namespace without data.
    pub fn fresh(name: String, policy: ConflictPolicy, log: Log) -> (s: Space)
        requires
            log.wf(),
            log@.chained(),
        ensures
            s.wf(),
            s.name == name,
            s@ == (SpaceV { policy, log: log@, cells: CellsV::empty(), fields: Seq::empty() }),
    {
        let s = Space { name, policy, log, index: OrdMap::new(), tombs: OrdMap::new(), sec: Vec::new() };
        assert(sec_fields(s.sec@) =~= Seq::empty());
        s
    }

    /// Put a record behind the log; one that its length fields cannot hold is refused.
    pub fn append(&mut self, r: &Record) -> (out: Result<u64, StorageError>)
        requires
            old(self).wf(),
            r@.sound(),
        ensures
            final(self).wf(),
            final(self).name == old(self).name,
            match out {
                Ok(seq) => r@.fits() && seq == old(self)@.log.records.len() + 1 && final(self)@
                    == old(self)@.with_record(r@),
                Err(e) => !r@.fits() && e@ == too_large() && *final(self) == *old(self),
            },
    {
        if !r.fits() {
            return Err(StorageError::Io(text::copy_text("record too large")));
        }
        proof {
            self.log.lemma_wf();
            record::law_sound_record_reads(r@, self.log@.head);
        }
        let bytes = r.to_bytes(self.log.head());
        self.log.append(bytes.as_slice())
    }

    /// The entry that reads see.
    pub fn get(&self, key: &[u8]) -> (r: Option<&Entry>)
        requires
            self.index.wf(),
            self.tombs.wf(),
        ensures
            match r {
                Some(e) => self.cells().get(key@) == Some(e@),
                None => self.cells().get(key@) is None,
            },
    {
        if self.tombs.contains_key(key) {
            return None;
        }
        self.index.get(key)
    }

    /// The value that reads see.
    fn shown(&self, key: &[u8]) -> (r: Option<&Vec<u8>>)
        requires
            self.index.wf(),
            self.tombs.wf(),
        ensures
            match r {
                Some(v) => self.cells().shown(key@) == Some(v@),
                None => self.cells().shown(key@) is None,
            },
    {
        match self.get(key) {
            Some(e) => match e.latest() {
                Some(v) => Some(&v.value),
                None => None,
            },
            None => None,
        }
    }

    /// Derive the rows of one key anew in every secondary index.
    fn refresh(&mut self, key: &[u8])
        requires
            old(self).wf_but(key@),
        ensures
            final(self).wf(),
            final(self)@ == old(self)@,
            final(self).name == old(self).name,
    {
        let ghost before = *self;
        let ghost cells = self.cells();
        let value: Option<Vec<u8>> = match self.shown(key) {
            Some(v) => Some(slice_to_vec(v.as_slice())),
            None => None,
        };
        let mut i: usize = 0;
        while i < self.sec.len()
            invariant
                i <= self.sec@.len(),
                self.sec@.len() == before.sec@.len(),
                before.wf_but(key@),
                self.log == before.log,
                self.index == before.index,
                self.tombs == before.tombs,
                self.name == before.name,
                self.policy == before.policy,
                cells == self.cells(),
                cells == before.cells(),
                match value {
                    Some(v) => cells.shown(key@) == Some(v@),
                    None => cells.shown(key@) is None,
                },
                forall|j: int| i <= j < self.sec@.len() ==> #[trigger] self.sec@[j] == before.sec@[j],
                forall|j: int|
                    0 <= j < i ==> {
                        &&& (#[trigger] self.sec@[j]).rows.wf()
                        &&& self.sec@[j].field@ == before.sec@[j].field@
                        &&& self.sec@[j].rows@ == cells.rows(self.sec@[j].field@)
                    },
            decreases self.sec@.len() - i,
        {
            let ghost was = self.sec@[i as int];
            assert(was == before.sec@[i as int]);
            assert(was.rows.wf());
            let fv: Option<Vec<u8>> = match &value {
                Some(v) => entry::field_values(v.as_slice(), self.sec[i].field.as_str()),
                None => None,
            };
            let sec = &mut self.sec[i];
            sec.rows.drop_key(key);
            let ghost dropped = sec.rows@;
            if let Some(b) = &fv {
                sec.rows.insert(b.as_slice(), key);
            }
            proof {
                let now = self.sec@[i as int];
                let want = cells.rows(was.field@);
                assert forall|p: RowV| now.rows@.contains(p) <==> want.contains(p) by {
                    if p.1 != key@ {
                        assert(was.rows@.contains(p) <==> want.contains(p));
                        assert(dropped.contains(p) <==> was.rows@.contains(p));
                    } else {
                        assert(!dropped.contains(p));
                    }
                }
                assert(now.rows@ =~= want);
            }
            i += 1;
        }
        assert(sec_fields(self.sec@) =~= sec_fields(before.sec@));
    }

    /// Index the given fields, and no others.
    pub fn set_fields(&mut self, fields: Vec<String>)
        requires
            old(self).wf(),
        ensures
            final(self).wf(),
            final(self).name == old(self).name,
            final(self)@ == (SpaceV { fields: crate::json::texts(fields@), ..old(self)@ }),
    {
        let ghost before = *self;
        let ghost cells = self.cells();
        let mut sec: Vec<Sec> = Vec::new();
        let mut i: usize = 0;
        while i < fields.len()
            invariant
                i <= fields@.len(),
                before.wf(),
                *self == before,
                cells == before.cells(),
                sec@.len() == i,
                forall|j: int|
                    0 <= j < i ==> {
                        &&& (#[trigger] sec@[j]).rows.wf()
                        &&& sec@[j].field@ == fields@[j]@
                        &&& sec@[j].rows@ == cells.rows(fields@[j]@)
                    },
            decreases fields@.len() - i,
        {
            let rows = self.rows_of(fields[i].as_str());
            sec.push(Sec { field: fields[i].clone(), rows });
            i += 1;
        }
        self.sec = sec;
        assert(sec_fields(self.sec@) =~= crate::json::texts(fields@));
    }

    /// The rows of a field, derived from the live data.
    fn rows_of(&self, field: &str) -> (rows: Rows)
        requires
            self.wf(),
        ensures
            rows.wf(),
            rows@ == self.cells().rows(field@),
    {
        let ghost cells = self.cells();
        let ghost keys = self.index.key_seq();
        let mut rows = Rows::new();
        let mut i: usize = 0;
        proof {
            self.index.lemma_keys();
        }
        while i < self.index.len()
            invariant
                i <= keys.len(),
                self.wf(),
                keys == self.index.key_seq(),
                cells == self.cells(),
                rows.wf(),
                forall|p: RowV|
                    #[trigger] rows@.contains(p) <==> cells.rows(field@).contains(p) && keys.take(
                        i as int,
                    ).contains(p.1),
            decreases keys.len() - i,
        {
            let key = self.index.key_at(i);
            let ghost had = rows@;
            let fv: Option<Vec<u8>> = match self.shown(key.as_slice()) {
                Some(v) => entry::field_values(v.as_slice(), field),
                None => None,
            };
            if let Some(b) = &fv {
                rows.insert(b.as_slice(), key.as_slice());
            }
            proof {
                let t = keys.take(i as int);
                let u = keys.take(i + 1);
                assert(u =~= t.push(key@));
                assert forall|p: RowV| #[trigger]
                    rows@.contains(p) <==> cells.rows(field@).contains(p) && u.contains(p.1) by {
                    assert(u.contains(p.1) <==> t.contains(p.1) || p.1 == key@) by {
                        if t.contains(p.1) {
                            let j = t.index_of(p.1);
                            assert(u[j] == p.1);
                        }
                        if p.1 == key@ {
                            assert(u[i as int] == p.1);
                        }
                        if u.contains(p.1) && p.1 != key@ {
                            let j = u.index_of(p.1);
                            assert(t[j] == p.1);
                        }
                    }
                    assert(had.contains(p) <==> cells.rows(field@).contains(p) && t.contains(p.1));
                }
            }
            i += 1;
        }
        proof {
            self.index.lemma_keys();
            assert(keys.take(i as int) =~= keys);
            assert(rows@ =~= cells.rows(field@));
        }
        rows
    }

    /// A register gets one more version.
    fn add_version(&mut self, key: &[u8], version: Version) -> (r: Result<(), StorageError>)
        requires
            old(self).wf_but(key@),
            old(self).policy is CrdtRegister,
        ensures
            final(self).wf_but(key@),
            final(self).name == old(self).name,
            ({
                let out = old(self).cells().add_version(old(self).name@, key@, version@);
                &&& final(self)@ == (SpaceV { cells: out.cells, ..old(self)@ })
                &&& match r {
                    Ok(_) => out.fault is None,
                    Err(e) => out.fault == Some(e@),
                }
            }),
    {
        let ghost before = *self;
        match self.index.get(key) {
            Some(e) => match e {
                Entry::Register(_) => {},
                Entry::Lww(_) => {
                    assert(self.cells() =~= before.cells());
                    return Err(
                        corrupt_in(
                            self.name.as_str(),
                            text::copy_text("register policy entry not a Register"),
                        ),
                    );
                },
            },
            None => {},
        }
        let ghost v = version@;
        let mut versions: Vec<Version> = match self.index.remove(key) {
            Some(e) => match e {
                Entry::Register(vs) => vs,
                Entry::Lww(v) => Vec::new(),
            },
            None => Vec::new(),
        };
        let ghost had = entry::version_views(versions@);
        versions.push(version);
        proof {
            assert(entry::version_views(versions@) =~= had.push(v));
            if !before.index@.dom().contains(key@) {
                assert(had =~= Seq::empty());
            }
            assert(seq![v] =~= Seq::empty().push(v));
        }
        self.index.insert(slice_to_vec(key), Entry::Register(versions));
        proof {
            let out = before.cells().add_version(before.name@, key@, v);
            assert(self.index@ =~= out.cells.index);
            assert(self.cells() =~= out.cells);
            assert(self.index@.remove(key@) =~= before.index@.remove(key@));
            self.lemma_touched(before, key@);
        }
        Ok(())
    }

    /// A change to one key leaves the rows of the others in date.
    proof fn lemma_touched(&self, before: Space, key: Seq<u8>)
        requires
            before.wf_but(key),
            self.log == before.log,
            self.sec == before.sec,
            self.index.wf(),
            self.tombs.wf(),
            entry::fits_policy(self.cells(), self.policy),
            self.index@.remove(key) == before.index@.remove(key),
            self.tombs@.remove(key) == before.tombs@.remove(key),
        ensures
            self.wf_but(key),
    {
        let a = before.cells();
        let b = self.cells();
        assert forall|k: Seq<u8>| k != key implies #[trigger] a.shown(k) == b.shown(k) by {
            assert(self.index@.remove(key).dom().contains(k) == self.index@.dom().contains(k));
            assert(before.index@.remove(key).dom().contains(k) == before.index@.dom().contains(k));
            assert(self.tombs@.remove(key).dom().contains(k) == self.tombs@.dom().contains(k));
            assert(before.tombs@.remove(key).dom().contains(k) == before.tombs@.dom().contains(k));
            if self.index@.dom().contains(k) {
                assert(self.index@.remove(key)[k] == self.index@[k]);
                assert(before.index@.remove(key)[k] == before.index@[k]);
            }
        }
        assert forall|i: int| 0 <= i < self.sec@.len() implies {
            &&& (#[trigger] self.sec@[i]).rows.wf()
            &&& forall|p: RowV|
                p.1 != key ==> (#[trigger] self.sec@[i].rows@.contains(p) <==> b.rows(
                    self.sec@[i].field@,
                ).contains(p))
        } by {
            assert(before.sec@[i].rows.wf());
            assert forall|p: RowV| p.1 != key implies (#[trigger] self.sec@[i].rows@.contains(p) <==> b.rows(
                self.sec@[i].field@,
            ).contains(p)) by {
                assert(before.sec@[i].rows@.contains(p) <==> a.rows(before.sec@[i].field@).contains(p));
                assert(a.shown(p.1) == b.shown(p.1));
            }
        }
    }

    /// A delete: the entry goes, a tombstone stays.
    fn bury(&mut self, key: &[u8], hlc: u64)
        requires
            old(self).wf(),
        ensures
            final(self).wf(),
            final(self).name == old(self).name,
            final(self)@ == (SpaceV { cells: old(self).cells().bury(key@, hlc), ..old(self)@ }),
    {
        let ghost before = *self;
        let _ = self.index.remove(key);
        self.tombs.insert(slice_to_vec(key), hlc);
        proof {
            assert(before.wf_but(key@));
            assert(self.index@.remove(key@) =~= before.index@.remove(key@));
            assert(self.tombs@.remove(key@) =~= before.tombs@.remove(key@));
            self.lemma_touched(before, key@);
        }
        self.refresh(key);
    }

    fn version(o: &Record, seq: u64) -> (v: Version)
        ensures
            v@ == entry::version_of(o.op(), seq),
    {
        Version {
            hlc: o.hlc,
            replica: o.replica,
            author: o.author,
            value: o.value.clone(),
            seq,
            expires_at: o.expires_at,
        }
    }

    fn bad_tag(&self, tag: u8) -> (e: StorageError)
        ensures
            e@ == entry::bad_tag(self.name@, tag),
    {
        corrupt_in(self.name.as_str(), text::join2("bad tag ", text::dec(tag as u64).as_str()))
    }

    /// Apply a local operation to the live data. See [`CellsV::local`].
    pub fn apply_local_op(&mut self, o: &Record, seq: u64) -> (r: Result<(), StorageError>)
        requires
            old(self).wf(),
        ensures
            final(self).wf(),
            final(self).name == old(self).name,
            ({
                let out = old(self).cells().local(old(self).name@, old(self).policy, o.op(), seq);
                &&& final(self)@ == (SpaceV { cells: out.cells, ..old(self)@ })
                &&& match r {
                    Ok(_) => out.fault is None,
                    Err(e) => out.fault == Some(e@),
                }
            }),
    {
        let ghost before = *self;
        if o.tag == TAG_PUT || o.tag == TAG_PUT_TTL {
            let version = Space::version(o, seq);
            let ghost v = version@;
            let _ = self.tombs.remove(o.key.as_slice());
            let ghost lifted = self.cells();
            proof {
                assert(before.wf_but(o.key@));
                assert(self.tombs@.remove(o.key@) =~= before.tombs@.remove(o.key@));
                self.lemma_touched(before, o.key@);
            }
            match self.policy {
                ConflictPolicy::Lww => {
                    let ghost mid = *self;
                    self.index.insert(o.key.clone(), Entry::Lww(version));
                    proof {
                        assert(self.index@.remove(o.key@) =~= mid.index@.remove(o.key@));
                        self.lemma_touched(mid, o.key@);
                        assert(self.cells() =~= lifted.with_entry(o.key@, EntryV::Lww(v)));
                    }
                    self.refresh(o.key.as_slice());
                    Ok(())
                },
                ConflictPolicy::CrdtRegister => {
                    let r = self.add_version(o.key.as_slice(), version);
                    self.refresh(o.key.as_slice());
                    r
                },
            }
        } else if o.tag == TAG_DEL {
            self.bury(o.key.as_slice(), o.hlc);
            Ok(())
        } else {
            Err(self.bad_tag(o.tag))
        }
    }

    /// Does the write do something else than its replay? See [`entry::unlike`].
    pub fn unlike(&self, o: &Record) -> (r: bool)
        requires
            self.index.wf(),
            self.tombs.wf(),
        ensures
            r == entry::unlike(self.cells(), self.policy, o.op()),
    {
        (o.tag == TAG_PUT || o.tag == TAG_PUT_TTL) && (self.tombs.contains_key(o.key.as_slice()) || (self.policy
            == ConflictPolicy::Lww && self.stale(o)))
    }

    /// Does the index hold a later write than the operation?
    fn stale(&self, o: &Record) -> (r: bool)
        requires
            self.index.wf(),
        ensures
            r == self.cells().stale(o.op()),
    {
        match self.index.get(o.key.as_slice()) {
            Some(e) => match e {
                Entry::Lww(v) => !entry::at_or_after(o.hlc, &o.replica, v.hlc, &v.replica),
                Entry::Register(_) => false,
            },
            None => false,
        }
    }

    /// Apply a synced or replayed operation to the live data. See [`CellsV::synced`].
    pub fn apply_record_op(&mut self, o: &Record, seq: u64) -> (r: Result<(), StorageError>)
        requires
            old(self).wf(),
        ensures
            final(self).wf(),
            final(self).name == old(self).name,
            ({
                let out = old(self).cells().synced(old(self).name@, old(self).policy, o.op(), seq);
                &&& final(self)@ == (SpaceV { cells: out.cells, ..old(self)@ })
                &&& match r {
                    Ok(_) => out.fault is None,
                    Err(e) => out.fault == Some(e@),
                }
            }),
    {
        let ghost before = *self;
        if o.tag == TAG_PUT || o.tag == TAG_PUT_TTL {
            assert(before.wf_but(o.key@));
            let version = Space::version(o, seq);
            let ghost v = version@;
            match self.policy {
                ConflictPolicy::Lww => {
                    if !self.stale(o) {
                        self.index.insert(o.key.clone(), Entry::Lww(version));
                        proof {
                            assert(self.index@.remove(o.key@) =~= before.index@.remove(o.key@));
                            self.lemma_touched(before, o.key@);
                            assert(self.cells() =~= before.cells().with_entry(o.key@, EntryV::Lww(v)));
                        }
                        self.refresh(o.key.as_slice());
                    }
                    Ok(())
                },
                ConflictPolicy::CrdtRegister => {
                    let r = self.add_version(o.key.as_slice(), version);
                    self.refresh(o.key.as_slice());
                    r
                },
            }
        } else if o.tag == TAG_DEL {
            self.bury(o.key.as_slice(), o.hlc);
            Ok(())
        } else {
            Err(self.bad_tag(o.tag))
        }
    }

    /// Apply local operations in order, up to the first that fails. The number of those
    /// that went well comes back too, and whether one does something else than its replay.
    pub fn apply_local_ops(&mut self, ops: &Vec<Record>, seq: u64) -> (r: (usize, bool, Result<(), StorageError>))
        requires
            old(self).wf(),
        ensures
            final(self).wf(),
            final(self).name == old(self).name,
            ({
                let out = old(self).cells().local_all(
                    old(self).name@,
                    old(self).policy,
                    record::ops_of(ops@),
                    seq,
                );
                &&& final(self)@ == (SpaceV { cells: out.cells, ..old(self)@ })
                &&& match r.2 {
                    Ok(_) => out.fault is None && r.0 == ops@.len() && r.1 == entry::unlike_all(
                        old(self).cells(),
                        old(self).name@,
                        old(self).policy,
                        record::ops_of(ops@),
                        seq,
                    ),
                    Err(e) => out.fault == Some(e@),
                }
                &&& r.0 == entry::local_done(
                    old(self).cells(),
                    old(self).name@,
                    old(self).policy,
                    record::ops_of(ops@),
                    seq,
                )
            }),
    {
        let ghost before = *self;
        let ghost all = record::ops_of(ops@);
        let mut i: usize = 0;
        let mut unlike = false;
        assert(all.skip(0) =~= all);
        while i < ops.len()
            invariant
                i <= ops@.len(),
                before == *old(self),
                self.wf(),
                self.name == before.name,
                all == record::ops_of(ops@),
                self@ == (SpaceV { cells: self.cells(), ..before@ }),
                before.cells().local_all(before.name@, before.policy, all, seq)
                    == self.cells().local_all(before.name@, before.policy, all.skip(i as int), seq),
                entry::unlike_all(before.cells(), before.name@, before.policy, all, seq) == (unlike
                    || entry::unlike_all(self.cells(), before.name@, before.policy, all.skip(i as int), seq)),
                entry::local_done(before.cells(), before.name@, before.policy, all, seq) == i
                    + entry::local_done(
                    self.cells(),
                    before.name@,
                    before.policy,
                    all.skip(i as int),
                    seq,
                ),
            decreases ops@.len() - i,
        {
            let ghost rest = all.skip(i as int);
            assert(rest.drop_first() =~= all.skip(i + 1));
            assert(rest[0] == ops@[i as int].op());
            unlike = unlike || self.unlike(&ops[i]);
            match self.apply_local_op(&ops[i], seq) {
                Ok(_) => {},
                Err(e) => {
                    return (i, unlike, Err(e));
                },
            }
            i += 1;
        }
        (i, unlike, Ok(()))
    }

    /// Apply synced or replayed operations in order, up to the first that fails.
    pub fn apply_record_ops(&mut self, ops: &Vec<Record>, seq: u64) -> (r: Result<(), StorageError>)
        requires
            old(self).wf(),
        ensures
            final(self).wf(),
            final(self).name == old(self).name,
            ({
                let out = old(self).cells().synced_all(
                    old(self).name@,
                    old(self).policy,
                    record::ops_of(ops@),
                    seq,
                );
                &&& final(self)@ == (SpaceV { cells: out.cells, ..old(self)@ })
                &&& match r {
                    Ok(_) => out.fault is None,
                    Err(e) => out.fault == Some(e@),
                }
            }),
    {
        let ghost before = *self;
        let ghost all = record::ops_of(ops@);
        let mut i: usize = 0;
        assert(all.skip(0) =~= all);
        while i < ops.len()
            invariant
                i <= ops@.len(),
                before == *old(self),
                self.wf(),
                self.name == before.name,
                all == record::ops_of(ops@),
                self@ == (SpaceV { cells: self.cells(), ..before@ }),
                before.cells().synced_all(before.name@, before.policy, all, seq)
                    == self.cells().synced_all(before.name@, before.policy, all.skip(i as int), seq),
            decreases ops@.len() - i,
        {
            let ghost rest = all.skip(i as int);
            assert(rest.drop_first() =~= all.skip(i + 1));
            assert(rest[0] == ops@[i as int].op());
            match self.apply_record_op(&ops[i], seq) {
                Ok(_) => {},
                Err(e) => {
                    return Err(e);
                },
            }
            i += 1;
        }
        Ok(())
    }

    /// Rows of the index over `field` from `start` on.
    pub fn lookup(&self, field: &str, start: &[u8]) -> (r: Option<Vec<(Vec<u8>, Vec<u8>)>>)
        requires
            self.wf(),
        ensures
            match r {
                Some(out) => self@.fields.contains(field@) && crate::storage::rows::rows_ascend(
                    crate::storage::rows::row_views(out@),
                ) && forall|p: RowV| #[trigger]
                    crate::storage::rows::row_views(out@).contains(p) <==> self@.cells.rows(field@).contains(p)
                        && !crate::ordmap::lex_lt(p.0, start@),
                None => !self@.fields.contains(field@),
            },
    {
        let mut i: usize = 0;
        while i < self.sec.len()
            invariant
                i <= self.sec@.len(),
                self.wf(),
                forall|j: int| 0 <= j < i ==> (#[trigger] self@.fields[j]) != field@,
            decreases self.sec@.len() - i,
        {
            assert(self@.fields[i as int] == self.sec@[i as int].field@);
            if text::same_text(self.sec[i].field.as_str(), field) {
                assert(self@.fields.contains(field@));
                return Some(self.sec[i].rows.from(start));
            }
            i += 1;
        }
        None
    }
}

} // verus!
