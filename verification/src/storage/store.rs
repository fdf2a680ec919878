//! The store: namespaces, metadata and peer clocks in memory.
//!
//! Every change is a record in a namespace's log first; the live data is what the
//! log gives. A store holds the bytes of its own segments and of its last snapshot:
//! whoever keeps it on disk writes those out.

use crate::json;
use crate::ordmap;
use crate::ordmap::OrdMap;
use crate::storage::disk;
use crate::storage::entry;
use crate::storage::entry::{CellsV, ConflictPolicy, Entry, EntryV};
use crate::storage::error::{corrupt_in, StorageError, StorageFault};
use crate::storage::log;
use crate::storage::log::Log;
use crate::storage::model;
use crate::storage::model::{MetaV, StoreV};
use crate::storage::naming;
use crate::storage::record;
use crate::storage::record::{Record, TAG_BATCH, TAG_DEL, TAG_INDEX, TAG_PUT, TAG_PUT_TTL, TAG_SCHEMA};
use crate::storage::rows;
use crate::storage::snapshot;
use crate::storage::snapshot::{SnapSpaceV, Writer};
use crate::storage::space;
use crate::storage::space::{Space, SpaceV};
use crate::text;
use vstd::prelude::*;
use vstd::slice::{slice_subrange, slice_to_vec};

pub mod compact;
pub mod laws;
pub mod load;
pub mod recovery;

verus! {

pub type Namespace = String;

pub type Key = Vec<u8>;

/// A store.
pub struct Store {
    spaces: OrdMap<Space>,
    meta: OrdMap<Vec<u8>>,
    clocks: OrdMap<i64>,
    revision: u64,
    snap: Option<Vec<u8>>,
    durable: bool,
}

impl View for Store {
    type V = StoreV;

    closed spec fn view(&self) -> StoreV {
        StoreV {
            spaces: self.spaces@,
            meta: self.meta@,
            clocks: self.clocks@,
            revision: self.revision,
            snap: match self.snap {
                Some(b) => Some(b@),
                None => None,
            },
        }
    }
}

/// What holds of a namespace in its store, but for its secondary indexes.
pub open spec fn placed(key: Seq<u8>, sp: Space) -> bool {
    &&& sp.wf()
    &&& text::utf8(sp.name@) == key
    &&& naming::is_ns(sp.name@)
}

/// The secondary indexes are those that the metadata asks for.
pub open spec fn indexed(meta: MetaV, sp: Space) -> bool {
    sp@.fields == model::fields_of(meta, sp.name@)
}

impl Store {
    /// The maps are in order, every namespace is well formed and stands under its
    /// name, and its secondary indexes are those that the metadata asks for.
    pub closed spec fn wf(&self) -> bool {
        &&& self.parts()
        &&& forall|k: Seq<u8>|
            #[trigger] self.spaces.raw().dom().contains(k) ==> placed(k, self.spaces.raw()[k]) && indexed(
                self.meta@,
                self.spaces.raw()[k],
            )
    }

    spec fn parts(&self) -> bool {
        &&& self.spaces.wf()
        &&& self.meta.wf()
        &&& self.clocks.wf()
        &&& snapshot::text_keys(self.meta@)
        &&& snapshot::text_keys(self.clocks@)
    }

    /// As `wf`, but the secondary indexes of the namespace under `key` may differ.
    spec fn wf_but(&self, key: Seq<u8>) -> bool {
        &&& self.parts()
        &&& forall|k: Seq<u8>|
            #[trigger] self.spaces.raw().dom().contains(k) ==> placed(k, self.spaces.raw()[k]) && (k != key
                ==> indexed(self.meta@, self.spaces.raw()[k]))
    }

    /// Is every append to be made durable at once?
    pub closed spec fn is_durable(&self) -> bool {
        self.durable
    }

    /// What holds of a namespace of a well-formed store.
    pub proof fn lemma_space(&self, key: Seq<u8>)
        requires
            self.wf(),
            self@.spaces.dom().contains(key),
        ensures
            vstd::utf8::valid_utf8(key),
            text::utf8(vstd::utf8::decode_utf8(key)) == key,
            naming::is_ns(vstd::utf8::decode_utf8(key)),
            self@.spaces[key].log.chained(),
            entry::fits_policy(self@.spaces[key].cells, self@.spaces[key].policy),
            self@.spaces[key].fields == model::fields_of(self@.meta, vstd::utf8::decode_utf8(key)),
    {
        let sp = self.spaces.raw()[key];
        assert(self.spaces.raw().dom().contains(key));
        text::lemma_utf8_decodes(sp.name@);
    }

    /// The keys of a namespace are listed in order.
    pub proof fn lemma_index_listed(&self, ns: Seq<char>)
        requires
            self.wf(),
            self@.has(ns),
        ensures
            ordmap::ascending(ordmap::listed(self@.space(ns).cells.index.dom())),
            ordmap::lists(ordmap::listed(self@.space(ns).cells.index.dom()), self@.space(ns).cells.index.dom()),
    {
        let k = text::utf8(ns);
        let sp = self.spaces.raw()[k];
        assert(self.spaces.raw().dom().contains(k));
        sp.index.lemma_keys();
    }

    /// The namespace, if the store has it.
    pub(crate) fn space(&self, ns: &str) -> (r: Option<&Space>)
        requires
            self.wf(),
        ensures
            r is Some <==> self@.has(ns@),
            r matches Some(sp) ==> sp@ == self@.space(ns@) && sp.wf() && sp.name@ == ns@,
    {
        let key = text::bytes_of(ns);
        match self.spaces.get(key.as_slice()) {
            Some(sp) => {
                proof {
                    assert(self.spaces.raw().dom().contains(key@));
                    text::lemma_utf8_injective(sp.name@, ns@);
                }
                Some(sp)
            },
            None => None,
        }
    }

    /// Take a namespace out.
    fn take(&mut self, ns: &str) -> (r: Option<Space>)
        requires
            old(self).wf(),
        ensures
            final(self).wf(),
            match r {
                Some(sp) => {
                    &&& old(self)@.has(ns@)
                    &&& sp@ == old(self)@.space(ns@)
                    &&& placed(text::utf8(ns@), sp)
                    &&& indexed(old(self)@.meta, sp)
                    &&& sp.name@ == ns@
                    &&& final(self)@ == (StoreV {
                        spaces: old(self)@.spaces.remove(text::utf8(ns@)),
                        ..old(self)@
                    })
                    &&& final(self).durable == old(self).durable
                },
                None => {
                    &&& !old(self)@.has(ns@)
                    &&& final(self)@ == old(self)@
                    &&& final(self).durable == old(self).durable
                },
            },
    {
        let ghost before = *self;
        let key = text::bytes_of(ns);
        match self.spaces.remove(key.as_slice()) {
            Some(sp) => {
                proof {
                    assert(before.spaces.raw().dom().contains(key@));
                    text::lemma_utf8_injective(sp.name@, ns@);
                    assert forall|k: Seq<u8>| #[trigger] self.spaces.raw().dom().contains(k) implies placed(
                        k,
                        self.spaces.raw()[k],
                    ) && indexed(self.meta@, self.spaces.raw()[k]) by {
                        assert(before.spaces.raw().dom().contains(k));
                    }
                }
                Some(sp)
            },
            None => {
                proof {
                    assert(self@.spaces =~= before@.spaces);
                    assert forall|k: Seq<u8>| #[trigger] self.spaces.raw().dom().contains(k) implies placed(
                        k,
                        self.spaces.raw()[k],
                    ) && indexed(self.meta@, self.spaces.raw()[k]) by {
                        assert(before.spaces.raw().dom().contains(k));
                    }
                }
                None
            },
        }
    }

    /// Put a namespace in.
    fn give(&mut self, sp: Space)
        requires
            old(self).wf(),
            placed(text::utf8(sp.name@), sp),
            indexed(old(self)@.meta, sp),
        ensures
            final(self).wf(),
            final(self)@ == (StoreV {
                spaces: old(self)@.spaces.insert(text::utf8(sp.name@), sp@),
                ..old(self)@
            }),
            final(self).durable == old(self).durable,
    {
        let ghost before = *self;
        let key = text::bytes_of(sp.name.as_str());
        self.spaces.insert(key, sp);
        proof {
            assert forall|k: Seq<u8>| #[trigger] self.spaces.raw().dom().contains(k) implies placed(
                k,
                self.spaces.raw()[k],
            ) && indexed(self.meta@, self.spaces.raw()[k]) by {
                if k != key@ {
                    assert(before.spaces.raw().dom().contains(k));
                }
            }
        }
    }

    /// A store without anything in it.
    pub fn empty(durable: bool) -> (s: Store)
        ensures
            s.wf(),
            s.is_durable() == durable,
            s@ == (StoreV {
                spaces: Map::empty(),
                meta: Map::empty(),
                clocks: Map::empty(),
                revision: 0,
                snap: None,
            }),
    {
        Store {
            spaces: OrdMap::new(),
            meta: OrdMap::new(),
            clocks: OrdMap::new(),
            revision: 0,
            snap: None,
            durable,
        }
    }

    /// Is every append to be made durable at once?
    pub fn durable(&self) -> (r: bool)
        ensures
            r == self.is_durable(),
    {
        self.durable
    }

    fn bump(&mut self, n: u64)
        requires
            old(self).wf(),
        ensures
            final(self).wf(),
            final(self)@ == old(self)@.bumped(n as int),
            final(self).durable == old(self).durable,
    {
        self.revision = self.revision.saturating_add(n);
    }

    /// Make a namespace.
    pub fn create_namespace(&mut self, ns: &str, policy: ConflictPolicy) -> (r: Result<(), StorageError>)
        requires
            old(self).wf(),
        ensures
            final(self).wf(),
            final(self).is_durable() == old(self).is_durable(),
            final(self)@ == old(self)@.create(ns@, policy).store,
            match old(self)@.create(ns@, policy).result {
                Ok(_) => r is Ok,
                Err(f) => r matches Err(e) && e@ == f,
            },
    {
        if !naming::valid_ns(ns) {
            return Err(StorageError::BadName(text::copy_text(ns)));
        }
        if self.space(ns).is_some() {
            return Err(StorageError::NamespaceExists(text::copy_text(ns)));
        }
        let mut sp = Space::fresh(text::copy_text(ns), policy, Log::empty());
        let fields = self.index_fields(ns);
        sp.set_fields(fields);
        self.give(sp);
        self.bump(1);
        Ok(())
    }

    /// The namespaces and their policies, in name order.
    pub fn namespaces(&self) -> (r: Vec<(Namespace, ConflictPolicy)>)
        requires
            self.wf(),
        ensures
            r@.len() == ordmap::listed(self@.spaces.dom()).len(),
            forall|i: int|
                0 <= i < r@.len() ==> {
                    let k = ordmap::listed(self@.spaces.dom())[i];
                    &&& text::utf8((#[trigger] r@[i]).0@) == k
                    &&& r@[i].1 == self@.spaces[k].policy
                    &&& self@.has(r@[i].0@)
                },
    {
        proof {
            self.spaces.lemma_keys();
        }
        let mut out: Vec<(Namespace, ConflictPolicy)> = Vec::new();
        let mut i: usize = 0;
        while i < self.spaces.len()
            invariant
                i <= self.spaces.key_seq().len(),
                self.wf(),
                self.spaces.key_seq() == ordmap::listed(self@.spaces.dom()),
                out@.len() == i,
                forall|j: int|
                    0 <= j < i ==> {
                        let k = ordmap::listed(self@.spaces.dom())[j];
                        &&& text::utf8((#[trigger] out@[j]).0@) == k
                        &&& out@[j].1 == self@.spaces[k].policy
                        &&& self@.has(out@[j].0@)
                    },
            decreases self.spaces.key_seq().len() - i,
        {
            let sp = self.spaces.val_at(i);
            assert(self.spaces.raw().dom().contains(self.spaces.key_seq()[i as int]));
            out.push((sp.name.clone(), sp.policy));
            i += 1;
        }
        out
    }

    /// The policy of a namespace.
    pub fn policy(&self, ns: &str) -> (r: Option<ConflictPolicy>)
        requires
            self.wf(),
        ensures
            r == (if self@.has(ns@) {
                Some(self@.space(ns@).policy)
            } else {
                None
            }),
    {
        match self.space(ns) {
            Some(sp) => Some(sp.policy),
            None => None,
        }
    }

    fn write(&mut self, ns: &str, o: &Record) -> (r: Result<u64, StorageError>)
        requires
            old(self).wf(),
            old(self)@.has(ns@),
            record::is_op_tag(o.tag),
            o.ops@.len() == 0,
        ensures
            final(self).wf(),
            final(self).is_durable() == old(self).is_durable(),
            final(self)@ == old(self)@.write(ns@, o.op()).store,
            match old(self)@.write(ns@, o.op()).result {
                Ok(seq) => r matches Ok(n) && n == seq,
                Err(f) => r matches Err(e) && e@ == f,
            },
    {
        let ghost before = *self;
        assert(record::ops_of(o.ops@) =~= Seq::empty());
        match self.take(ns) {
            None => Ok(0),
            Some(mut sp) => {
                let ghost was = sp@;
                let unlike = sp.unlike(o);
                let out = match sp.append(o) {
                    Err(e) => Err(e),
                    Ok(seq) => match sp.apply_local_op(o, seq) {
                        Ok(_) => Ok(seq),
                        Err(e) => Err(e),
                    },
                };
                self.give(sp);
                proof {
                    if !model::single(o.op()).fits() {
                        assert(self@.spaces =~= before@.spaces);
                    }
                    let want = SpaceV {
                        cells: was.cells.local(ns@, was.policy, o.op(), model::next_seq(was)).cells,
                        ..was.with_record(model::single(o.op()))
                    };
                    if model::single(o.op()).fits() {
                        assert(sp@ =~= want);
                        assert(self@.spaces =~= before@.spaces.insert(text::utf8(ns@), want));
                    }
                }
                if out.is_ok() {
                    self.bump(1);
                    if unlike {
                        let _ = self.checkpoint();
                    }
                }
                out
            },
        }
    }

    /// Put a value; the number of its record comes back. A write with an expiry (in
    /// wall-clock ms, 0 is never) is a TTL write. One that its replay would not repeat,
    /// since it lifts a tombstone or is older than what it replaces, is followed by a
    /// snapshot.
    pub fn put(
        &mut self,
        ns: &str,
        key: &Key,
        value: &[u8],
        hlc: u64,
        replica: [u8; 32],
        author: [u8; 32],
        expires_at: u64,
    ) -> (r: Result<u64, StorageError>)
        requires
            old(self).wf(),
        ensures
            final(self).wf(),
            final(self).is_durable() == old(self).is_durable(),
            ({
                let o = model::put_op(key@, value@, hlc, replica@, author@, expires_at);
                &&& final(self)@ == old(self)@.put(ns@, o).store
                &&& match old(self)@.put(ns@, o).result {
                    Ok(seq) => r matches Ok(n) && n == seq,
                    Err(f) => r matches Err(e) && e@ == f,
                }
            }),
    {
        if self.space(ns).is_none() {
            return Err(StorageError::NotFound(text::copy_text(ns)));
        }
        let record = Record {
            tag: if expires_at == 0 {
                TAG_PUT
            } else {
                TAG_PUT_TTL
            },
            key: key.clone(),
            hlc,
            replica,
            author,
            value: slice_to_vec(value),
            expires_at,
            ops: Vec::new(),
        };
        self.write(ns, &record)
    }

    /// Delete a key; the number of the record comes back.
    pub fn delete(&mut self, ns: &str, key: &Key, hlc: u64, replica: [u8; 32], author: [u8; 32]) -> (r: Result<
        u64,
        StorageError,
    >)
        requires
            old(self).wf(),
        ensures
            final(self).wf(),
            final(self).is_durable() == old(self).is_durable(),
            ({
                let o = model::del_op(key@, hlc, replica@, author@);
                &&& final(self)@ == old(self)@.delete(ns@, o).store
                &&& match old(self)@.delete(ns@, o).result {
                    Ok(seq) => r matches Ok(n) && n == seq,
                    Err(f) => r matches Err(e) && e@ == f,
                }
            }),
    {
        if self.space(ns).is_none() {
            return Err(StorageError::BadName(text::copy_text(ns)));
        }
        let record = Record {
            tag: TAG_DEL,
            key: key.clone(),
            hlc,
            replica,
            author,
            value: Vec::new(),
            expires_at: 0,
            ops: Vec::new(),
        };
        assert(record.value@ =~= Seq::empty());
        self.write(ns, &record)
    }

    /// Write a batch as one record: one chain link and one event. Its operations run in
    /// order with the meaning of local writes, so the last one on a key wins.
    pub fn put_batch(&mut self, ns: &str, ops: &Vec<Record>) -> (r: Result<u64, StorageError>)
        requires
            old(self).wf(),
        ensures
            final(self).wf(),
            final(self).is_durable() == old(self).is_durable(),
            ({
                let want = old(self)@.put_batch(ns@, record::ops_of(ops@));
                &&& final(self)@ == want.store
                &&& match want.result {
                    Ok(seq) => r matches Ok(n) && n == seq,
                    Err(f) => r matches Err(e) && e@ == f,
                }
            }),
    {
        let ghost before = *self;
        let ghost all = record::ops_of(ops@);
        if ops.len() == 0 || self.space(ns).is_none() {
            return Err(StorageError::BadName(text::copy_text(ns)));
        }
        match bad_op_tag(ops) {
            Some(t) => {
                return Err(corrupt_in(ns, text::join2("bad tag ", text::dec(t as u64).as_str())));
            },
            None => {},
        }
        let batch = Record {
            tag: TAG_BATCH,
            key: Vec::new(),
            hlc: ops[0].hlc,
            replica: ops[0].replica,
            author: ops[0].author,
            value: Vec::new(),
            expires_at: 0,
            ops: copy_ops(ops),
        };
        proof {
            assert(batch@ =~= model::batch_record(all));
            lemma_good_tags(all);
        }
        match self.take(ns) {
            None => Ok(0),
            Some(mut sp) => {
                let ghost was = sp@;
                match sp.append(&batch) {
                    Err(e) => {
                        self.give(sp);
                        assert(self@.spaces =~= before@.spaces);
                        Err(e)
                    },
                    Ok(seq) => {
                        let (done, unlike, out) = sp.apply_local_ops(ops, seq);
                        let ghost want = SpaceV {
                            cells: was.cells.local_all(ns@, was.policy, all, seq).cells,
                            ..was.with_record(model::batch_record(all))
                        };
                        assert(sp@ =~= want);
                        self.give(sp);
                        assert(self@.spaces =~= before@.spaces.insert(text::utf8(ns@), want));
                        self.bump(done as u64);
                        match out {
                            Ok(_) => {
                                if unlike {
                                    let _ = self.checkpoint();
                                }
                                Ok(seq)
                            },
                            Err(e) => Err(e),
                        }
                    },
                }
            },
        }
    }

    /// The index definition of a namespace, as it was given.
    pub fn index_def(&self, ns: &str) -> (r: Option<&Vec<u8>>)
        requires
            self.wf(),
        ensures
            match r {
                Some(v) => model::look(self@.meta, model::index_key(ns@)) == Some(v@),
                None => model::look(self@.meta, model::index_key(ns@)) is None,
            },
    {
        let key = text::bytes_of(text::join2("index/", ns).as_str());
        self.meta.get(key.as_slice())
    }

    /// The fields to index in a namespace; none where there is no secondary index.
    pub fn index_fields(&self, ns: &str) -> (r: Vec<String>)
        requires
            self.wf(),
        ensures
            json::texts(r@) == model::fields_of(self@.meta, ns@),
    {
        match self.index_def(ns) {
            None => {
                let none: Vec<String> = Vec::new();
                assert(json::texts(none@) =~= Seq::empty());
                none
            },
            Some(def) => fields_in(def.as_slice()),
        }
    }

    /// Bring the secondary indexes of a namespace in line with the metadata.
    fn reindex(&mut self, ns: &str)
        requires
            old(self).wf_but(text::utf8(ns@)),
        ensures
            final(self).wf(),
            final(self)@ == old(self)@.with_meta(old(self)@.meta),
            final(self).durable == old(self).durable,
    {
        let ghost before = *self;
        let ghost key = text::utf8(ns@);
        let bytes = text::bytes_of(ns);
        let def = text::bytes_of(text::join2("index/", ns).as_str());
        let fields = match self.meta.get(def.as_slice()) {
            None => {
                let none: Vec<String> = Vec::new();
                assert(json::texts(none@) =~= Seq::empty());
                none
            },
            Some(v) => fields_in(v.as_slice()),
        };
        match self.spaces.remove(bytes.as_slice()) {
            None => {},
            Some(mut sp) => {
                proof {
                    assert(before.spaces.raw().dom().contains(key));
                    text::lemma_utf8_injective(sp.name@, ns@);
                }
                sp.set_fields(fields);
                self.spaces.insert(bytes, sp);
            },
        }
        proof {
            assert forall|k: Seq<u8>| #[trigger] self.spaces.raw().dom().contains(k) implies placed(
                k,
                self.spaces.raw()[k],
            ) && indexed(self.meta@, self.spaces.raw()[k]) by {
                assert(before.spaces.raw().dom().contains(k));
            }
            let want = before@.with_meta(before@.meta);
            assert forall|k: Seq<u8>| #[trigger] self@.spaces.dom().contains(k) implies self@.spaces[k]
                == want.spaces[k] by {
                let sp = self.spaces.raw()[k];
                assert(self.spaces.raw().dom().contains(k));
                assert(before.spaces.raw().dom().contains(k));
                text::lemma_utf8_decodes(sp.name@);
                assert(self@.spaces[k] =~= want.spaces[k]);
            }
            assert(self@.spaces =~= want.spaces);
        }
    }

    /// Put a definition record behind a namespace's log and set the metadata.
    fn define(&mut self, ns: &str, record: &Record, meta_key: Vec<u8>, value: Option<&[u8]>) -> (r: Result<
        u64,
        StorageError,
    >)
        requires
            old(self).wf(),
            record.tag == TAG_SCHEMA || record.tag == TAG_INDEX,
            record.ops@.len() == 0,
            meta_key@ == model::schema_key(ns@) || meta_key@ == model::index_key(ns@),
        ensures
            final(self).wf(),
            final(self).is_durable() == old(self).is_durable(),
            ({
                let v = match value {
                    Some(b) => Some(b@),
                    None => None,
                };
                let want = old(self)@.define(ns@, meta_key@, record.op(), v);
                &&& final(self)@ == want.store
                &&& match want.result {
                    Ok(seq) => r matches Ok(n) && n == seq,
                    Err(f) => r matches Err(e) && e@ == f,
                }
            }),
    {
        let ghost before = *self;
        assert(record::ops_of(record.ops@) =~= Seq::empty());
        match self.take(ns) {
            None => Err(StorageError::BadName(text::copy_text(ns))),
            Some(mut sp) => {
                let ghost was = sp@;
                match sp.append(record) {
                    Err(e) => {
                        self.give(sp);
                        assert(self@.spaces =~= before@.spaces);
                        Err(e)
                    },
                    Ok(seq) => {
                        self.give(sp);
                        proof {
                            assert(self@.spaces =~= before@.spaces.insert(
                                text::utf8(ns@),
                                was.with_record(model::single(record.op())),
                            ));
                        }
                        self.set_meta(ns, meta_key, value);
                        self.bump(1);
                        Ok(seq)
                    },
                }
            },
        }
    }

    /// Set or clear a definition of a namespace in the metadata.
    fn set_meta(&mut self, ns: &str, meta_key: Vec<u8>, value: Option<&[u8]>)
        requires
            old(self).wf(),
            meta_key@ == model::schema_key(ns@) || meta_key@ == model::index_key(ns@),
        ensures
            final(self).wf(),
            final(self).durable == old(self).durable,
            final(self)@ == old(self)@.with_meta(
                model::set_or_clear(
                    old(self)@.meta,
                    meta_key@,
                    match value {
                        Some(b) => Some(b@),
                        None => None,
                    },
                ),
            ),
    {
        let ghost before = *self;
        proof {
            text::lemma_utf8_decodes("schema/"@ + ns@);
            text::lemma_utf8_decodes("index/"@ + ns@);
        }
        match value {
            Some(v) => {
                self.meta.insert(meta_key, slice_to_vec(v));
            },
            None => {
                let _ = self.meta.remove(meta_key.as_slice());
            },
        }
        proof {
            assert forall|k: Seq<u8>| #[trigger] self.spaces.raw().dom().contains(k) implies placed(
                k,
                self.spaces.raw()[k],
            ) && (k != text::utf8(ns@) ==> indexed(self.meta@, self.spaces.raw()[k])) by {
                let sp = self.spaces.raw()[k];
                assert(before.spaces.raw().dom().contains(k));
                if k != text::utf8(ns@) {
                    lemma_def_keys(sp.name@, ns@);
                }
            }
        }
        self.reindex(ns);
    }

    /// Set or clear the index definition of a namespace, a JSON list of fields: a record
    /// that peers get too, then the secondary indexes. The record's number comes back.
    pub fn set_index(
        &mut self,
        ns: &str,
        value: Option<&[u8]>,
        hlc: u64,
        replica: [u8; 32],
        author: [u8; 32],
    ) -> (r: Result<u64, StorageError>)
        requires
            old(self).wf(),
        ensures
            final(self).wf(),
            final(self).is_durable() == old(self).is_durable(),
            ({
                let v = match value {
                    Some(b) => Some(b@),
                    None => None,
                };
                let o = model::def_op(TAG_INDEX, v, hlc, replica@, author@);
                let want = old(self)@.define(ns@, model::index_key(ns@), o, v);
                &&& final(self)@ == want.store
                &&& match want.result {
                    Ok(seq) => r matches Ok(n) && n == seq,
                    Err(f) => r matches Err(e) && e@ == f,
                }
            }),
    {
        let record = def_record(TAG_INDEX, value, hlc, replica, author);
        self.define(ns, &record, text::bytes_of(text::join2("index/", ns).as_str()), value)
    }

    /// Set or clear the schema of a namespace: a record that peers get too, then the
    /// metadata. The record's number comes back.
    pub fn set_schema(
        &mut self,
        ns: &str,
        value: Option<&[u8]>,
        hlc: u64,
        replica: [u8; 32],
        author: [u8; 32],
    ) -> (r: Result<u64, StorageError>)
        requires
            old(self).wf(),
        ensures
            final(self).wf(),
            final(self).is_durable() == old(self).is_durable(),
            ({
                let v = match value {
                    Some(b) => Some(b@),
                    None => None,
                };
                let o = model::def_op(TAG_SCHEMA, v, hlc, replica@, author@);
                let want = old(self)@.define(ns@, model::schema_key(ns@), o, v);
                &&& final(self)@ == want.store
                &&& match want.result {
                    Ok(seq) => r matches Ok(n) && n == seq,
                    Err(f) => r matches Err(e) && e@ == f,
                }
            }),
    {
        let record = def_record(TAG_SCHEMA, value, hlc, replica, author);
        self.define(ns, &record, text::bytes_of(text::join2("schema/", ns).as_str()), value)
    }

    /// The schema of a namespace, as it was given.
    pub fn schema(&self, ns: &str) -> (r: Option<&Vec<u8>>)
        requires
            self.wf(),
        ensures
            match r {
                Some(v) => model::look(self@.meta, model::schema_key(ns@)) == Some(v@),
                None => model::look(self@.meta, model::schema_key(ns@)) is None,
            },
    {
        let key = text::bytes_of(text::join2("schema/", ns).as_str());
        self.meta.get(key.as_slice())
    }

    /// The rows (field value, key) of the index over `field` whose value is not before
    /// `start`, in order; none where the field has no index.
    pub fn index_lookup(&self, ns: &str, field: &str, start: &[u8]) -> (r: Vec<(Vec<u8>, Vec<u8>)>)
        requires
            self.wf(),
        ensures
            rows::rows_ascend(rows::row_views(r@)),
            forall|p: rows::RowV| #[trigger]
                rows::row_views(r@).contains(p) <==> index_rows(self@, ns@, field@).contains(p) && !ordmap::lex_lt(
                    p.0,
                    start@,
                ),
    {
        match self.space(ns) {
            Some(sp) => {
                proof {
                    self.lemma_space(text::utf8(ns@));
                    text::lemma_utf8_decodes(ns@);
                }
                match sp.lookup(field, start) {
                    Some(out) => out,
                    None => Vec::new(),
                }
            },
            None => Vec::new(),
        }
    }

    /// The entry under a key: none where it was deleted.
    pub fn get(&self, ns: &str, key: &Key) -> (r: Option<&Entry>)
        requires
            self.wf(),
        ensures
            match r {
                Some(e) => self@.get(ns@, key@) == Some(e@),
                None => self@.get(ns@, key@) is None,
            },
    {
        match self.space(ns) {
            Some(sp) => sp.get(key.as_slice()),
            None => None,
        }
    }

    /// The entries under a prefix that a read sees, in key order.
    pub fn scan(&self, ns: &str, prefix: &[u8]) -> (r: Vec<(Key, Entry)>)
        requires
            self.wf(),
        ensures
            scan_views(r@) == scanned(self@, ns@, prefix@),
    {
        let mut out: Vec<(Key, Entry)> = Vec::new();
        match self.space(ns) {
            None => {
                assert(scan_views(out@) =~= Seq::empty());
                out
            },
            Some(sp) => {
                let ghost c = sp.cells();
                let ghost ks = sp.index.key_seq();
                proof {
                    sp.index.lemma_keys();
                    assert(scan_views(out@) =~= Seq::empty());
                    assert(under(c, ks.take(0), prefix@) =~= Seq::empty());
                }
                let mut i: usize = 0;
                while i < sp.index.len()
                    invariant
                        i <= ks.len(),
                        sp.index.wf(),
                        sp.tombs.wf(),
                        c == sp.cells(),
                        ks == sp.index.key_seq(),
                        scan_views(out@) == under(c, ks.take(i as int), prefix@),
                    decreases ks.len() - i,
                {
                    let k = sp.index.key_at(i);
                    let ghost had = scan_views(out@);
                    proof {
                        assert(ks.take(i + 1).drop_last() =~= ks.take(i as int));
                    }
                    if starts_with(k.as_slice(), prefix) {
                        match sp.get(k.as_slice()) {
                            Some(e) => {
                                out.push((k.clone(), e.clone()));
                                assert(scan_views(out@) =~= had.push((k@, c.get(k@)->0)));
                            },
                            None => {},
                        }
                    }
                    i += 1;
                }
                assert(ks.take(i as int) =~= ks);
                out
            },
        }
    }

    /// The keys under a prefix, in order.
    pub fn scan_keys(&self, ns: &str, prefix: &[u8]) -> (r: Vec<Key>)
        requires
            self.wf(),
        ensures
            key_views(r@) == scanned_keys(self@, ns@, prefix@),
    {
        let mut out: Vec<Key> = Vec::new();
        match self.space(ns) {
            None => {
                assert(key_views(out@) =~= Seq::empty());
                out
            },
            Some(sp) => {
                let ghost c = sp.cells();
                let ghost ks = sp.index.key_seq();
                proof {
                    sp.index.lemma_keys();
                    assert(key_views(out@) =~= Seq::empty());
                    assert(keys_under(c, ks.take(0), prefix@) =~= Seq::empty());
                }
                let mut i: usize = 0;
                while i < sp.index.len()
                    invariant
                        i <= ks.len(),
                        sp.index.wf(),
                        sp.tombs.wf(),
                        c == sp.cells(),
                        ks == sp.index.key_seq(),
                        key_views(out@) == keys_under(c, ks.take(i as int), prefix@),
                    decreases ks.len() - i,
                {
                    let k = sp.index.key_at(i);
                    let ghost had = key_views(out@);
                    proof {
                        assert(ks.take(i + 1).drop_last() =~= ks.take(i as int));
                    }
                    if starts_with(k.as_slice(), prefix) && sp.get(k.as_slice()).is_some() {
                        out.push(k.clone());
                        assert(key_views(out@) =~= had.push(k@));
                    }
                    i += 1;
                }
                assert(ks.take(i as int) =~= ks);
                out
            },
        }
    }

    /// The records of a namespace from number `from_seq` on, at most `max` of them (any
    /// number where `max` is 0).
    pub fn log_records(&self, ns: &str, from_seq: u64, max: u64) -> (r: Result<
        Vec<(u64, Vec<u8>)>,
        StorageError,
    >)
        requires
            self.wf(),
        ensures
            if self@.has(ns@) {
                let recs = self@.space(ns@).log.records;
                r matches Ok(out) && log::numbered(
                    out@,
                    recs,
                    from_seq as int,
                    log::window_end(recs.len() as int, from_seq as int, max as int),
                )
            } else {
                r matches Err(e) && e@ == StorageFault::NotFound(ns@)
            },
    {
        match self.space(ns) {
            Some(sp) => sp.log.read_records(from_seq, max),
            None => Err(StorageError::NotFound(text::copy_text(ns))),
        }
    }

    /// The number of records of a namespace and the hash of the last one.
    pub fn head(&self, ns: &str) -> (r: Option<(u64, [u8; 32])>)
        requires
            self.wf(),
        ensures
            match r {
                Some((seq, h)) => self@.has(ns@) && seq == self@.space(ns@).log.records.len() && h@
                    == self@.space(ns@).log.head,
                None => !self@.has(ns@),
            },
    {
        match self.space(ns) {
            Some(sp) => Some((sp.log.seq(), sp.log.head())),
            None => None,
        }
    }

    /// The namespaces with their heads, in name order.
    pub fn namespaces_with_head(&self) -> (r: Vec<(Namespace, u64, [u8; 32])>)
        requires
            self.wf(),
        ensures
            r@.len() == ordmap::listed(self@.spaces.dom()).len(),
            forall|i: int|
                0 <= i < r@.len() ==> {
                    let k = ordmap::listed(self@.spaces.dom())[i];
                    &&& text::utf8((#[trigger] r@[i]).0@) == k
                    &&& r@[i].1 == self@.spaces[k].log.records.len()
                    &&& r@[i].2@ == self@.spaces[k].log.head
                },
    {
        proof {
            self.spaces.lemma_keys();
        }
        let mut out: Vec<(Namespace, u64, [u8; 32])> = Vec::new();
        let mut i: usize = 0;
        while i < self.spaces.len()
            invariant
                i <= self.spaces.key_seq().len(),
                self.wf(),
                self.spaces.key_seq() == ordmap::listed(self@.spaces.dom()),
                out@.len() == i,
                forall|j: int|
                    0 <= j < i ==> {
                        let k = ordmap::listed(self@.spaces.dom())[j];
                        &&& text::utf8((#[trigger] out@[j]).0@) == k
                        &&& out@[j].1 == self@.spaces[k].log.records.len()
                        &&& out@[j].2@ == self@.spaces[k].log.head
                    },
            decreases self.spaces.key_seq().len() - i,
        {
            let sp = self.spaces.val_at(i);
            assert(self.spaces.raw().dom().contains(self.spaces.key_seq()[i as int]));
            out.push((sp.name.clone(), sp.log.seq(), sp.log.head()));
            i += 1;
        }
        out
    }

    /// A well-formed store has the secondary indexes that its metadata asks for.
    pub proof fn lemma_indexed(&self)
        requires
            self.wf(),
        ensures
            self@.with_meta(self@.meta) == self@,
    {
        let want = self@.with_meta(self@.meta);
        assert forall|k: Seq<u8>| #[trigger] self@.spaces.dom().contains(k) implies self@.spaces[k]
            == want.spaces[k] by {
            let sp = self.spaces.raw()[k];
            assert(self.spaces.raw().dom().contains(k));
            text::lemma_utf8_decodes(sp.name@);
            assert(self@.spaces[k] =~= want.spaces[k]);
        }
        assert(want.spaces =~= self@.spaces);
    }

    /// Take in a record whose event the log does not hold.
    fn take_in(&mut self, ns: &str, r: &Record) -> (out: Result<(), StorageError>)
        requires
            old(self).wf(),
            old(self)@.has(ns@),
            !model::seen(old(self)@.space(ns@).log.records, model::version_id(r@)),
        ensures
            final(self).wf(),
            final(self).is_durable() == old(self).is_durable(),
            final(self)@ == old(self)@.sync(ns@, r@).store,
            match old(self)@.sync(ns@, r@).result {
                Ok(new) => out is Ok && new,
                Err(f) => out matches Err(e) && e@ == f,
            },
    {
        let ghost before = *self;
        match unsound_tag(r) {
            Some(t) => {
                return Err(corrupt_in(ns, text::join2("bad tag ", text::dec(t as u64).as_str())));
            },
            None => {},
        }
        match self.take(ns) {
            None => Ok(()),
            Some(mut sp) => {
                let ghost was = sp@;
                match sp.append(r) {
                    Err(e) => {
                        self.give(sp);
                        assert(self@.spaces =~= before@.spaces);
                        Err(e)
                    },
                    Ok(seq) => {
                        let ghost bare = *self;
                        let ghost got = model::absorb(ns@, was.policy, was.cells, before@.meta, r@, seq);
                        let out = apply_record(&mut sp, &mut self.meta, r, seq);
                        proof {
                            assert forall|k: Seq<u8>| #[trigger] self.spaces.raw().dom().contains(k) implies placed(
                                k,
                                self.spaces.raw()[k],
                            ) && indexed(self.meta@, self.spaces.raw()[k]) by {
                                assert(bare.spaces.raw().dom().contains(k));
                                assert(bare@.spaces.dom().contains(k));
                                assert(k != text::utf8(ns@));
                                lemma_def_keys(self.spaces.raw()[k].name@, ns@);
                            }
                            lemma_def_keys(ns@, ns@);
                        }
                        if r.tag == TAG_INDEX {
                            let fields = self.index_fields(ns);
                            sp.set_fields(fields);
                        }
                        self.give(sp);
                        proof {
                            self.lemma_indexed();
                            let want = before@.with_space(
                                ns@,
                                SpaceV { cells: got.cells, ..was.with_record(r@) },
                            ).with_meta(got.meta);
                            let mine = self@.with_meta(self@.meta);
                            assert forall|k: Seq<u8>| #[trigger] mine.spaces.dom().contains(k) implies mine.spaces[k]
                                == want.spaces[k] by {
                                if k == text::utf8(ns@) {
                                    assert(mine.spaces[k] =~= want.spaces[k]);
                                }
                            }
                            assert(mine.spaces =~= want.spaces);
                        }
                        match out {
                            Ok(_) => {
                                self.bump(1);
                                Ok(())
                            },
                            Err(e) => Err(e),
                        }
                    },
                }
            },
        }
    }

    /// Take in a verified record of a peer; false where the log holds its event.
    pub fn apply_synced(&mut self, ns: &str, record: &Record) -> (r: Result<bool, StorageError>)
        requires
            old(self).wf(),
        ensures
            final(self).wf(),
            final(self).is_durable() == old(self).is_durable(),
            final(self)@ == old(self)@.sync(ns@, record@).store,
            match old(self)@.sync(ns@, record@).result {
                Ok(new) => r matches Ok(b) && b == new,
                Err(f) => r matches Err(e) && e@ == f,
            },
    {
        let held: bool = match self.space(ns) {
            None => {
                return Err(StorageError::BadName(text::copy_text(ns)));
            },
            Some(sp) => {
                let ids = log_versions(&sp.log);
                ids.contains_key(version_key(record).as_slice())
            },
        };
        if held {
            return Ok(false);
        }
        match self.take_in(ns, record) {
            Ok(_) => Ok(true),
            Err(e) => Err(e),
        }
    }

    /// Take in verified records in order; how many were new. The log is read once.
    pub fn apply_synced_batch(&mut self, ns: &str, records: &Vec<Record>) -> (r: Result<u64, StorageError>)
        requires
            old(self).wf(),
        ensures
            final(self).wf(),
            final(self).is_durable() == old(self).is_durable(),
            ({
                let want = old(self)@.sync_all(ns@, log::record_views(records@));
                &&& final(self)@ == want.store
                &&& match want.result {
                    Ok(n) => r matches Ok(m) && m == n,
                    Err(f) => r matches Err(e) && e@ == f,
                }
            }),
    {
        let ghost before = *self;
        let ghost all = log::record_views(records@);
        let mut ids: OrdMap<bool> = match self.space(ns) {
            None => {
                return Err(StorageError::BadName(text::copy_text(ns)));
            },
            Some(sp) => log_versions(&sp.log),
        };
        let mut applied: u64 = 0;
        let mut i: usize = 0;
        proof {
            assert(all.skip(0) =~= all);
            reveal(synced_so_far);
        }
        while i < records.len()
            invariant
                i <= records@.len(),
                self.wf(),
                self.is_durable() == old(self).is_durable(),
                self@.has(ns@),
                ids.wf(),
                holds_ids(ids@, self@.space(ns@).log.records),
                all == log::record_views(records@),
                before == *old(self),
                applied <= i,
                synced_so_far(before@, self@, ns@, all, i as int, applied as int),
            decreases records@.len() - i,
        {
            let ghost rest = all.skip(i as int);
            let ghost r = records@[i as int]@;
            let ghost was = self@;
            proof {
                assert(rest[0] == r);
                self.lemma_space(text::utf8(ns@));
                lemma_sync_step(before@, was, ns@, all, i as int, applied as int);
            }
            let id = version_key(&records[i]);
            if !ids.contains_key(id.as_slice()) {
                match self.take_in(ns, &records[i]) {
                    Ok(_) => {
                        let ghost had = ids@;
                        ids.insert(id, true);
                        proof {
                            let recs = was.space(ns@).log.records;
                            let next = self@.space(ns@).log.records;
                            let bytes = r.bytes(was.space(ns@).log.head);
                            assert(next == recs.push(bytes));
                            if r.op.tag == TAG_BATCH {
                                lemma_good_tags(r.ops);
                            }
                            lemma_taken(had, ids@, recs, r, was.space(ns@).log.head);
                        }
                        applied = applied + 1;
                    },
                    Err(e) => {
                        return Err(e);
                    },
                }
            }
            i += 1;
        }
        proof {
            reveal(synced_so_far);
            assert(all.skip(i as int).len() == 0);
        }
        Ok(applied)
    }

    /// A value of the metadata.
    pub fn meta_get(&self, key: &str) -> (r: Option<&Vec<u8>>)
        requires
            self.wf(),
        ensures
            match r {
                Some(v) => model::look(self@.meta, text::utf8(key@)) == Some(v@),
                None => model::look(self@.meta, text::utf8(key@)) is None,
            },
    {
        self.meta.get(text::bytes_of(key).as_slice())
    }

    /// Set a value of the metadata; an index definition takes effect at once.
    pub fn meta_set(&mut self, key: &str, value: Vec<u8>)
        requires
            old(self).wf(),
        ensures
            final(self).wf(),
            final(self).is_durable() == old(self).is_durable(),
            final(self)@ == old(self)@.with_meta(old(self)@.meta.insert(text::utf8(key@), value@)).bumped(1),
    {
        let ghost before = *self;
        let chars = text::chars_of(key);
        let ns = index_target(&chars);
        let ghost bytes = text::utf8(key@);
        self.meta.insert(text::bytes_of(key), value);
        proof {
            text::lemma_utf8_decodes(key@);
            assert forall|k: Seq<u8>| #[trigger] self.spaces.raw().dom().contains(k) implies placed(
                k,
                self.spaces.raw()[k],
            ) && (k != text::utf8(ns@) ==> indexed(self.meta@, self.spaces.raw()[k])) by {
                let sp = self.spaces.raw()[k];
                assert(before.spaces.raw().dom().contains(k));
                if model::index_key(sp.name@) == bytes {
                    text::lemma_utf8_injective("index/"@ + sp.name@, key@);
                }
            }
        }
        self.reindex(ns.as_str());
        self.bump(1);
    }

    /// Note how far the clock of a peer is off.
    pub fn set_peer_clock(&mut self, name: &str, diff: i64)
        requires
            old(self).wf(),
        ensures
            final(self).wf(),
            final(self).is_durable() == old(self).is_durable(),
            final(self)@ == (StoreV {
                clocks: old(self)@.clocks.insert(text::utf8(name@), diff),
                ..old(self)@
            }),
    {
        proof {
            text::lemma_utf8_decodes(name@);
        }
        self.clocks.insert(text::bytes_of(name), diff);
    }

    /// How far the clock of a peer is off, if that is known.
    pub fn peer_clock(&self, name: &str) -> (r: Option<i64>)
        requires
            self.wf(),
        ensures
            r == (if self@.clocks.dom().contains(text::utf8(name@)) {
                Some(self@.clocks[text::utf8(name@)])
            } else {
                None
            }),
    {
        match self.clocks.get(text::bytes_of(name).as_slice()) {
            Some(d) => Some(*d),
            None => None,
        }
    }

    /// Take a snapshot of the live data; one whose lengths do not fit their fields is
    /// refused.
    pub fn checkpoint(&mut self) -> (r: Result<(), StorageError>)
        requires
            old(self).wf(),
        ensures
            final(self).wf(),
            final(self).is_durable() == old(self).is_durable(),
            ({
                let snap = disk::snap_view(old(self)@);
                if snapshot::snap_fits(snap) {
                    r is Ok && final(self)@ == (StoreV {
                        snap: Some(snapshot::enc_snap(snap)),
                        ..old(self)@
                    })
                } else {
                    r matches Err(e) && e@ == StorageFault::Io("snapshot too large"@) && final(self)@
                        == old(self)@
                }
            }),
    {
        let ghost snap = disk::snap_view(self@);
        let mut w = Writer::start(self.revision);
        w.meta(&self.meta);
        w.clocks(&self.clocks);
        let ghost start = w.buf@;
        let ghost ok = w.ok;
        let ghost enc = |p: (Seq<u8>, SnapSpaceV)| snapshot::enc_space(p);
        let ghost ps = snapshot::pairs(snap.spaces);
        proof {
            self.spaces.lemma_keys();
            assert(snap.spaces.dom() =~= self.spaces@.dom());
            assert(snapshot::cat(enc, ps.take(0)) =~= Seq::empty());
        }
        w.count(self.spaces.len());
        let mut i: usize = 0;
        while i < self.spaces.len()
            invariant
                i <= ps.len(),
                self.wf(),
                *self == *old(self),
                snap == disk::snap_view(self@),
                snap.spaces.dom() == self.spaces@.dom(),
                self.spaces.key_seq() == ordmap::listed(self.spaces@.dom()),
                ps == snapshot::pairs(snap.spaces),
                ps.len() == self.spaces.key_seq().len(),
                enc == (|p: (Seq<u8>, SnapSpaceV)| snapshot::enc_space(p)),
                w.ok == (ok && snapshot::short(ps.len() as int) && forall|j: int|
                    0 <= j < i ==> snapshot::space_fits(#[trigger] ps[j])),
                w.ok ==> w.buf@ == start + (record::le32(ps.len() as int) + snapshot::cat(
                    enc,
                    ps.take(i as int),
                )),
            decreases ps.len() - i,
        {
            let k = self.spaces.key_at(i);
            let sp = self.spaces.val_at(i);
            let ghost had = w.buf@;
            let ghost item = ps[i as int];
            proof {
                assert(self.spaces.raw().dom().contains(k@));
                assert(item == (k@, snap.spaces[k@]));
            }
            let head = sp.log.head();
            w.space(k.as_slice(), sp.policy, sp.log.seq(), &head, &sp.index, &sp.tombs);
            proof {
                assert(ps.take(i + 1).drop_last() =~= ps.take(i as int));
                assert(w.ok ==> w.buf@ =~= had + enc(item));
                assert(w.ok ==> w.buf@ =~= start + (record::le32(ps.len() as int) + snapshot::cat(
                    enc,
                    ps.take(i + 1),
                )));
            }
            i += 1;
        }
        proof {
            assert(ps.take(i as int) =~= ps);
            assert(w.ok ==> w.buf@ =~= snapshot::enc_snap(snap));
            if snapshot::spaces_fit(snap.spaces) {
                assert forall|j: int| 0 <= j < ps.len() implies snapshot::space_fits(#[trigger] ps[j]) by {
                    assert(snap.spaces.dom().contains(self.spaces.key_seq()[j])) by {
                        self.spaces.lemma_keys();
                    }
                }
            }
            if w.ok {
                assert forall|k: Seq<u8>| #[trigger] snap.spaces.dom().contains(k) implies snapshot::space_fits(
                    (k, snap.spaces[k]),
                ) by {
                    self.spaces.lemma_keys();
                    let j = self.spaces.key_seq().index_of(k);
                    assert(ps[j] == (k, snap.spaces[k]));
                }
            }
        }
        if !w.ok {
            return Err(StorageError::Io(text::copy_text("snapshot too large")));
        }
        self.snap = Some(w.buf);
        Ok(())
    }

    /// The number of changes that the store has seen.
    pub fn revision(&self) -> (r: u64)
        ensures
            r == self@.revision,
    {
        self.revision
    }
}

/// Apply a synced or replayed record to a namespace and the metadata.
pub(crate) fn apply_record(sp: &mut Space, meta: &mut OrdMap<Vec<u8>>, r: &Record, seq: u64) -> (out: Result<
    (),
    StorageError,
>)
    requires
        old(sp).wf(),
        old(meta).wf(),
        snapshot::text_keys(old(meta)@),
    ensures
        final(sp).wf(),
        final(sp).name == old(sp).name,
        final(meta).wf(),
        snapshot::text_keys(final(meta)@),
        ({
            let got = model::absorb(
                old(sp).name@,
                old(sp).policy,
                old(sp).cells(),
                old(meta)@,
                r@,
                seq,
            );
            &&& final(sp)@ == (SpaceV { cells: got.cells, ..old(sp)@ })
            &&& final(meta)@ == got.meta
            &&& match out {
                Ok(_) => got.fault is None,
                Err(e) => got.fault == Some(e@),
            }
        }),
{
    if record::known_op_tag(r.tag) {
        sp.apply_record_op(r, seq)
    } else if r.tag == TAG_BATCH {
        sp.apply_record_ops(&r.ops, seq)
    } else if r.tag == TAG_SCHEMA {
        define_in(meta, text::join2("schema/", sp.name.as_str()), r);
        Ok(())
    } else if r.tag == TAG_INDEX {
        define_in(meta, text::join2("index/", sp.name.as_str()), r);
        Ok(())
    } else {
        Err(corrupt_in(sp.name.as_str(), text::join2("bad tag ", text::dec(r.tag as u64).as_str())))
    }
}

/// Set or clear a definition: an empty value clears.
fn define_in(meta: &mut OrdMap<Vec<u8>>, key: String, r: &Record)
    requires
        old(meta).wf(),
        snapshot::text_keys(old(meta)@),
    ensures
        final(meta).wf(),
        snapshot::text_keys(final(meta)@),
        final(meta)@ == model::set_or_clear(old(meta)@, text::utf8(key@), model::non_empty(r.value@)),
{
    proof {
        text::lemma_utf8_decodes(key@);
    }
    let bytes = text::bytes_of(key.as_str());
    if r.value.len() == 0 {
        let _ = meta.remove(bytes.as_slice());
    } else {
        meta.insert(bytes, r.value.clone());
    }
}

/// An event's identity as bytes.
spec fn id_bytes(id: (u8, u64, Seq<u8>)) -> Seq<u8> {
    seq![id.0] + record::le64(id.1 as int) + id.2
}

proof fn lemma_id_bytes(a: (u8, u64, Seq<u8>), b: (u8, u64, Seq<u8>))
    requires
        id_bytes(a) == id_bytes(b),
    ensures
        a == b,
{
    vstd::bytes::lemma_auto_spec_u64_to_from_le_bytes();
    let x = id_bytes(a);
    assert(a.0 == x[0]);
    assert(b.0 == x[0]);
    assert(record::le64(a.1 as int) =~= x.subrange(1, 9));
    assert(record::le64(b.1 as int) =~= x.subrange(1, 9));
    assert(a.2 =~= x.skip(9));
    assert(b.2 =~= x.skip(9));
}

/// What identifies the event that a record carries.
fn version_key(r: &Record) -> (b: Vec<u8>)
    ensures
        b@ == id_bytes(model::version_id(r@)),
{
    let mut b: Vec<u8> = Vec::new();
    b.push(r.tag);
    record::push_u64(&mut b, r.hlc);
    record::push_bytes(&mut b, r.replica.as_slice());
    assert(b@ =~= id_bytes(model::version_id(r@)));
    b
}

/// The set holds just the events of the records.
spec fn holds_ids(set: Map<Seq<u8>, bool>, records: Seq<Seq<u8>>) -> bool {
    forall|id: (u8, u64, Seq<u8>)| #[trigger]
        set.dom().contains(id_bytes(id)) <==> model::seen(records, id)
}

/// The events of a log.
fn log_versions(log: &Log) -> (m: OrdMap<bool>)
    requires
        log.wf(),
    ensures
        m.wf(),
        holds_ids(m@, log@.records),
{
    let ghost recs = log@.records;
    let mut m: OrdMap<bool> = OrdMap::new();
    let n: usize = log.seq() as usize;
    proof {
        log.lemma_wf();
    }
    let mut i: usize = 0;
    while i < n
        invariant
            i <= n,
            n == recs.len(),
            log.wf(),
            recs == log@.records,
            m.wf(),
            holds_ids(m@, recs.take(i as int)),
        decreases n - i,
    {
        let bytes = log.record_at(i);
        let ghost had = m@;
        let ghost t = recs.take(i as int);
        let ghost u = recs.take(i + 1);
        let ghost mut new: Option<(u8, u64, Seq<u8>)> = None;
        match Record::parse_chain(bytes, None) {
            Ok((r, _)) => {
                proof {
                    new = Some(model::version_id(r@));
                }
                m.insert(version_key(&r), true);
            },
            Err(_) => {},
        }
        proof {
            assert forall|id: (u8, u64, Seq<u8>)| #[trigger]
                m@.dom().contains(id_bytes(id)) <==> model::seen(u, id) by {
                assert(had.dom().contains(id_bytes(id)) <==> model::seen(t, id));
                if model::seen(t, id) {
                    let j = choose|j: int| 0 <= j < t.len() && model::record_has(#[trigger] t[j], id);
                    assert(u[j] == t[j]);
                    assert(model::record_has(u[j], id));
                }
                if model::seen(u, id) {
                    let j = choose|j: int| 0 <= j < u.len() && model::record_has(#[trigger] u[j], id);
                    if j < i {
                        assert(model::record_has(t[j], id));
                    } else {
                        assert(u[j] == bytes@);
                    }
                }
                if new is Some {
                    if id_bytes(new->0) == id_bytes(id) {
                        lemma_id_bytes(new->0, id);
                        assert(u[i as int] == bytes@);
                        assert(model::record_has(u[i as int], id));
                    }
                }
            }
        }
        i += 1;
    }
    assert(recs.take(n as int) =~= recs);
    m
}

/// After `i` records, `done` of them new, what is left gives what was to be given.
#[verifier::opaque]
spec fn synced_so_far(
    first: StoreV,
    now: StoreV,
    ns: Seq<char>,
    all: Seq<record::RecordV>,
    i: int,
    done: int,
) -> bool {
    let whole = first.sync_all(ns, all);
    let rest = now.sync_all(ns, all.skip(i));
    &&& whole.store == rest.store
    &&& match rest.result {
        Ok(n) => whole.result == Ok::<int, StorageFault>(n + done),
        Err(f) => whole.result == Err::<int, StorageFault>(f),
    }
}

proof fn lemma_sync_step(
    first: StoreV,
    now: StoreV,
    ns: Seq<char>,
    all: Seq<record::RecordV>,
    i: int,
    done: int,
)
    requires
        0 <= i < all.len(),
        now.has(ns),
        synced_so_far(first, now, ns, all, i, done),
    ensures
        ({
            let one = now.sync(ns, all[i]);
            match one.result {
                Ok(new) => one.store.has(ns) && synced_so_far(
                    first,
                    one.store,
                    ns,
                    all,
                    i + 1,
                    done + if new {
                        1int
                    } else {
                        0
                    },
                ),
                Err(f) => {
                    &&& first.sync_all(ns, all).store == one.store
                    &&& first.sync_all(ns, all).result == Err::<int, StorageFault>(f)
                },
            }
        }),
{
    reveal(synced_so_far);
    let rest = all.skip(i);
    assert(rest[0] == all[i]);
    assert(rest.drop_first() =~= all.skip(i + 1));
}

proof fn lemma_taken(
    had: Map<Seq<u8>, bool>,
    now: Map<Seq<u8>, bool>,
    recs: Seq<Seq<u8>>,
    r: record::RecordV,
    head: Seq<u8>,
)
    requires
        holds_ids(had, recs),
        now == had.insert(id_bytes(model::version_id(r)), true),
        r.sound(),
        r.fits(),
        head.len() == 32,
    ensures
        holds_ids(now, recs.push(r.bytes(head))),
{
    let bytes = r.bytes(head);
    let next = recs.push(bytes);
    record::law_sound_record_reads(r, head);
    assert forall|id: (u8, u64, Seq<u8>)| #[trigger]
        now.dom().contains(id_bytes(id)) <==> model::seen(next, id) by {
        assert(had.dom().contains(id_bytes(id)) <==> model::seen(recs, id));
        if model::seen(recs, id) {
            let j = choose|j: int| 0 <= j < recs.len() && model::record_has(#[trigger] recs[j], id);
            assert(next[j] == recs[j]);
            assert(model::record_has(next[j], id));
        }
        if model::seen(next, id) {
            let j = choose|j: int| 0 <= j < next.len() && model::record_has(#[trigger] next[j], id);
            if j < recs.len() {
                assert(model::record_has(recs[j], id));
            } else {
                assert(next[j] == bytes);
            }
        }
        if id_bytes(id) == id_bytes(model::version_id(r)) {
            lemma_id_bytes(id, model::version_id(r));
            assert(next[recs.len() as int] == bytes);
            assert(model::record_has(next[recs.len() as int], id));
        }
    }
}

/// The tag that nothing can be applied for.
fn unsound_tag(r: &Record) -> (t: Option<u8>)
    ensures
        t == model::unsound_tag(r@),
        t is None ==> r@.sound(),
{
    proof {
        if model::unsound_tag(r@) is None && r.tag == TAG_BATCH {
            lemma_good_tags(r@.ops);
        }
    }
    if !record::known_tag(r.tag) {
        Some(r.tag)
    } else if r.tag == TAG_BATCH {
        bad_op_tag(&r.ops)
    } else {
        None
    }
}

/// The fields that an index definition names.
pub(crate) fn fields_in(def: &[u8]) -> (r: Vec<String>)
    ensures
        json::texts(r@) == model::fields_in(Some(def@)),
{
    let s = text::lossy_string(def);
    match json::read_strings(s.as_str()) {
        Some(l) => l,
        None => {
            let none: Vec<String> = Vec::new();
            assert(json::texts(none@) =~= Seq::empty());
            none
        },
    }
}

/// A definition of one namespace is no index definition of another.
pub proof fn lemma_def_keys(a: Seq<char>, b: Seq<char>)
    ensures
        model::index_key(a) != model::schema_key(b),
        a != b ==> model::index_key(a) != model::index_key(b),
{
    reveal_strlit("index/");
    reveal_strlit("schema/");
    text::lemma_utf8_injective("index/"@ + a, "schema/"@ + b);
    text::lemma_utf8_injective("index/"@ + a, "index/"@ + b);
    let i = "index/"@ + a;
    let s = "schema/"@ + b;
    let j = "index/"@ + b;
    assert(i[0] == 'i' && s[0] == 's');
    if i == j {
        assert(a =~= i.skip(6));
        assert(b =~= j.skip(6));
    }
}

/// The namespace whose index definition stands under a metadata key; an empty name
/// for any other key.
fn index_target(key: &Vec<char>) -> (r: String)
    ensures
        forall|ns: Seq<char>| key@ == "index/"@ + ns ==> r@ == ns,
{
    proof {
        reveal_strlit("index/");
    }
    if key.len() >= 6 && key[0] == 'i' && key[1] == 'n' && key[2] == 'd' && key[3] == 'e' && key[4] == 'x'
        && key[5] == '/' {
        let r = text::string_of(slice_subrange(key.as_slice(), 6, key.len()));
        assert forall|ns: Seq<char>| key@ == "index/"@ + ns implies r@ == ns by {
            assert(key@.subrange(6, key@.len() as int) =~= ns);
        }
        r
    } else {
        assert forall|ns: Seq<char>| key@ == "index/"@ + ns implies false by {
            let k = "index/"@ + ns;
            assert(k[0] == 'i' && k[1] == 'n' && k[2] == 'd' && k[3] == 'e' && k[4] == 'x' && k[5] == '/');
        }
        text::copy_text("")
    }
}

fn def_record(tag: u8, value: Option<&[u8]>, hlc: u64, replica: [u8; 32], author: [u8; 32]) -> (r: Record)
    ensures
        r.op() == model::def_op(
            tag,
            match value {
                Some(b) => Some(b@),
                None => None,
            },
            hlc,
            replica@,
            author@,
        ),
        r.ops@.len() == 0,
        r.tag == tag,
{
    let value: Vec<u8> = match value {
        Some(v) => slice_to_vec(v),
        None => Vec::new(),
    };
    let key: Vec<u8> = Vec::new();
    assert(key@ =~= Seq::empty());
    Record { tag, key, hlc, replica, author, value, expires_at: 0, ops: Vec::new() }
}

/// The first tag that no operation of a batch may carry.
fn bad_op_tag(ops: &Vec<Record>) -> (r: Option<u8>)
    ensures
        r == model::first_bad_tag(record::ops_of(ops@)),
{
    let ghost all = record::ops_of(ops@);
    let mut i: usize = 0;
    assert(all.skip(0) =~= all);
    while i < ops.len()
        invariant
            i <= ops@.len(),
            all == record::ops_of(ops@),
            model::first_bad_tag(all) == model::first_bad_tag(all.skip(i as int)),
        decreases ops@.len() - i,
    {
        let ghost rest = all.skip(i as int);
        assert(rest[0] == ops@[i as int].op());
        assert(rest.drop_first() =~= all.skip(i + 1));
        if !record::known_op_tag(ops[i].tag) {
            return Some(ops[i].tag);
        }
        i += 1;
    }
    None
}

proof fn lemma_good_tags(ops: Seq<record::OpV>)
    requires
        model::first_bad_tag(ops) is None,
    ensures
        forall|i: int| 0 <= i < ops.len() ==> record::is_op_tag((#[trigger] ops[i]).tag),
    decreases ops.len(),
{
    if ops.len() > 0 {
        lemma_good_tags(ops.drop_first());
        assert forall|i: int| 0 <= i < ops.len() implies record::is_op_tag((#[trigger] ops[i]).tag) by {
            if i > 0 {
                assert(ops[i] == ops.drop_first()[i - 1]);
            }
        }
    }
}

fn copy_ops(ops: &Vec<Record>) -> (r: Vec<Record>)
    ensures
        record::ops_of(r@) == record::ops_of(ops@),
        r@.len() == ops@.len(),
{
    let mut out: Vec<Record> = Vec::new();
    let mut i: usize = 0;
    while i < ops.len()
        invariant
            i <= ops@.len(),
            out@.len() == i,
            forall|j: int| 0 <= j < i ==> (#[trigger] out@[j]).op() == ops@[j].op(),
        decreases ops@.len() - i,
    {
        let op = ops[i].clone();
        assert(op@.op == ops@[i as int]@.op);
        out.push(op);
        i += 1;
    }
    assert(record::ops_of(out@) =~= record::ops_of(ops@));
    out
}

/// Does the text of bytes start with `prefix`?
pub open spec fn has_prefix(k: Seq<u8>, prefix: Seq<u8>) -> bool {
    prefix.len() <= k.len() && k.take(prefix.len() as int) == prefix
}

/// Do the bytes start with `prefix`?
pub fn starts_with(k: &[u8], prefix: &[u8]) -> (r: bool)
    ensures
        r == has_prefix(k@, prefix@),
{
    if prefix.len() > k.len() {
        return false;
    }
    let head = slice_subrange(k, 0, prefix.len());
    assert(head@ =~= k@.take(prefix@.len() as int));
    ordmap::same_bytes(head, prefix)
}

pub open spec fn scan_views(s: Seq<(Key, Entry)>) -> Seq<(Seq<u8>, EntryV)> {
    Seq::new(s.len(), |i: int| (s[i].0@, s[i].1@))
}

pub open spec fn key_views(s: Seq<Key>) -> Seq<Seq<u8>> {
    Seq::new(s.len(), |i: int| s[i]@)
}

/// The rows of a secondary index: none where the field has no index.
pub open spec fn index_rows(s: StoreV, ns: Seq<char>, field: Seq<char>) -> Set<rows::RowV> {
    if s.has(ns) && model::fields_of(s.meta, ns).contains(field) {
        s.space(ns).cells.rows(field)
    } else {
        Set::empty()
    }
}

/// The keys of a row that start with a prefix and that a read sees.
pub open spec fn keys_under(c: CellsV, ks: Seq<Seq<u8>>, prefix: Seq<u8>) -> Seq<Seq<u8>>
    decreases ks.len(),
{
    if ks.len() == 0 {
        Seq::empty()
    } else if has_prefix(ks.last(), prefix) && c.get(ks.last()) is Some {
        keys_under(c, ks.drop_last(), prefix).push(ks.last())
    } else {
        keys_under(c, ks.drop_last(), prefix)
    }
}

/// What a read sees of a row of keys that start with a prefix.
pub open spec fn under(c: CellsV, ks: Seq<Seq<u8>>, prefix: Seq<u8>) -> Seq<(Seq<u8>, EntryV)>
    decreases ks.len(),
{
    if ks.len() == 0 {
        Seq::empty()
    } else if has_prefix(ks.last(), prefix) && c.get(ks.last()) is Some {
        under(c, ks.drop_last(), prefix).push((ks.last(), c.get(ks.last())->0))
    } else {
        under(c, ks.drop_last(), prefix)
    }
}

/// What a scan finds: the keys under a prefix that a read sees, in order.
pub open spec fn scanned(s: StoreV, ns: Seq<char>, prefix: Seq<u8>) -> Seq<(Seq<u8>, EntryV)> {
    if s.has(ns) {
        let c = s.space(ns).cells;
        under(c, ordmap::listed(c.index.dom()), prefix)
    } else {
        Seq::empty()
    }
}

/// The keys that a scan finds.
pub open spec fn scanned_keys(s: StoreV, ns: Seq<char>, prefix: Seq<u8>) -> Seq<Seq<u8>> {
    if s.has(ns) {
        let c = s.space(ns).cells;
        keys_under(c, ordmap::listed(c.index.dom()), prefix)
    } else {
        Seq::empty()
    }
}

} // verus!
