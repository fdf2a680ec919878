//! The store as a value of the model, and what each operation makes of it.

use crate::json;
use crate::storage::disk;
use crate::storage::entry;
use crate::storage::entry::{CellsV, ConflictPolicy, EntryV};
use crate::storage::error::StorageFault;
use crate::storage::log;
use crate::storage::naming;
use crate::storage::record;
use crate::storage::record::{
    OpV, RecordV, TAG_BATCH, TAG_DEL, TAG_INDEX, TAG_PUT, TAG_PUT_TTL, TAG_SCHEMA,
};
use crate::storage::space;
use crate::storage::space::SpaceV;
use crate::text;
use vstd::prelude::*;

verus! {

/// The metadata: values under text keys.
pub type MetaV = Map<Seq<u8>, Seq<u8>>;

/// A store as a value of the model.
#[verifier::ext_equal]
pub struct StoreV {
    /// The namespaces, by the UTF-8 form of their names.
    pub spaces: Map<Seq<u8>, SpaceV>,
    pub meta: MetaV,
    pub clocks: Map<Seq<u8>, i64>,
    /// How many changes the store has seen.
    pub revision: u64,
    /// The last snapshot taken.
    pub snap: Option<Seq<u8>>,
}

/// A store after an operation, and what the operation returns.
pub struct Step<T> {
    pub store: StoreV,
    pub result: Result<T, StorageFault>,
}

/// The metadata key of a namespace's schema.
pub open spec fn schema_key(ns: Seq<char>) -> Seq<u8> {
    text::utf8("schema/"@ + ns)
}

/// The metadata key of a namespace's index definition.
pub open spec fn index_key(ns: Seq<char>) -> Seq<u8> {
    text::utf8("index/"@ + ns)
}

/// The value under a key, if there is one.
pub open spec fn look(m: MetaV, key: Seq<u8>) -> Option<Seq<u8>> {
    if m.dom().contains(key) {
        Some(m[key])
    } else {
        None
    }
}

/// The fields that an index definition names; none where it is no list of texts.
pub open spec fn fields_in(def: Option<Seq<u8>>) -> Seq<Seq<char>> {
    match def {
        None => Seq::empty(),
        Some(b) => match json::strings_read(text::lossy_text(b)) {
            Some(l) => l,
            None => Seq::empty(),
        },
    }
}

/// The fields to index in a namespace.
pub open spec fn fields_of(m: MetaV, ns: Seq<char>) -> Seq<Seq<char>> {
    fields_in(look(m, index_key(ns)))
}

/// Metadata with a value set or cleared.
pub open spec fn set_or_clear(m: MetaV, key: Seq<u8>, value: Option<Seq<u8>>) -> MetaV {
    match value {
        Some(v) => m.insert(key, v),
        None => m.remove(key),
    }
}

/// The value of a definition record: an empty one clears.
pub open spec fn non_empty(value: Seq<u8>) -> Option<Seq<u8>> {
    if value.len() == 0 {
        None
    } else {
        Some(value)
    }
}

/// What identifies the event that a record carries.
pub open spec fn version_id(r: RecordV) -> (u8, u64, Seq<u8>) {
    (r.op.tag, r.op.hlc, r.op.replica)
}

/// Does the log hold the event?
pub open spec fn seen(records: Seq<Seq<u8>>, id: (u8, u64, Seq<u8>)) -> bool {
    exists|i: int| 0 <= i < records.len() && record_has(#[trigger] records[i], id)
}

/// Do the bytes read as a record of the event?
pub open spec fn record_has(bytes: Seq<u8>, id: (u8, u64, Seq<u8>)) -> bool {
    record::parse_record(bytes, None) matches Ok(r) && version_id(r) == id
}

/// The tag of the record or of one of its operations that nothing can be applied for.
pub open spec fn unsound_tag(r: RecordV) -> Option<u8> {
    if !record::is_tag(r.op.tag) {
        Some(r.op.tag)
    } else if r.op.tag == TAG_BATCH {
        first_bad_tag(r.ops)
    } else {
        None
    }
}

/// The first tag that no operation of a batch may carry.
pub open spec fn first_bad_tag(ops: Seq<OpV>) -> Option<u8>
    decreases ops.len(),
{
    if ops.len() == 0 {
        None
    } else if !record::is_op_tag(ops[0].tag) {
        Some(ops[0].tag)
    } else {
        first_bad_tag(ops.drop_first())
    }
}

/// The record of one operation.
pub open spec fn single(op: OpV) -> RecordV {
    RecordV { op, ops: Seq::empty() }
}

/// The record of a put.
pub open spec fn put_op(
    key: Seq<u8>,
    value: Seq<u8>,
    hlc: u64,
    replica: Seq<u8>,
    author: Seq<u8>,
    expires_at: u64,
) -> OpV {
    OpV {
        tag: if expires_at == 0 {
            TAG_PUT
        } else {
            TAG_PUT_TTL
        },
        key,
        hlc,
        replica,
        author,
        value,
        expires_at,
    }
}

/// The record of a delete.
pub open spec fn del_op(key: Seq<u8>, hlc: u64, replica: Seq<u8>, author: Seq<u8>) -> OpV {
    OpV { tag: TAG_DEL, key, hlc, replica, author, value: Seq::empty(), expires_at: 0 }
}

/// A record that carries a definition.
pub open spec fn def_op(tag: u8, value: Option<Seq<u8>>, hlc: u64, replica: Seq<u8>, author: Seq<u8>) -> OpV {
    OpV {
        tag,
        key: Seq::empty(),
        hlc,
        replica,
        author,
        value: match value {
            Some(v) => v,
            None => Seq::empty(),
        },
        expires_at: 0,
    }
}

/// The record of a batch; its event is that of the first operation.
pub open spec fn batch_record(ops: Seq<OpV>) -> RecordV {
    RecordV {
        op: OpV {
            tag: TAG_BATCH,
            key: Seq::empty(),
            hlc: ops[0].hlc,
            replica: ops[0].replica,
            author: ops[0].author,
            value: Seq::empty(),
            expires_at: 0,
        },
        ops,
    }
}

/// The number of the next record.
pub open spec fn next_seq(sp: SpaceV) -> u64 {
    (sp.log.records.len() + 1) as u64
}

/// A namespace and the metadata after a record was applied, and what went wrong.
pub struct Absorbed {
    pub cells: CellsV,
    pub meta: MetaV,
    pub fault: Option<StorageFault>,
}

/// Apply a synced or replayed record.
pub open spec fn absorb(
    ns: Seq<char>,
    policy: ConflictPolicy,
    cells: CellsV,
    meta: MetaV,
    r: RecordV,
    seq: u64,
) -> Absorbed {
    if record::is_op_tag(r.op.tag) {
        let out = cells.synced(ns, policy, r.op, seq);
        Absorbed { cells: out.cells, meta, fault: out.fault }
    } else if r.op.tag == TAG_BATCH {
        let out = cells.synced_all(ns, policy, r.ops, seq);
        Absorbed { cells: out.cells, meta, fault: out.fault }
    } else if r.op.tag == TAG_SCHEMA {
        Absorbed {
            cells,
            meta: set_or_clear(meta, schema_key(ns), non_empty(r.op.value)),
            fault: None,
        }
    } else if r.op.tag == TAG_INDEX {
        Absorbed {
            cells,
            meta: set_or_clear(meta, index_key(ns), non_empty(r.op.value)),
            fault: None,
        }
    } else {
        Absorbed { cells, meta, fault: Some(entry::bad_tag(ns, r.op.tag)) }
    }
}

impl StoreV {
    pub open spec fn has(self, ns: Seq<char>) -> bool {
        self.spaces.dom().contains(text::utf8(ns))
    }

    pub open spec fn space(self, ns: Seq<char>) -> SpaceV {
        self.spaces[text::utf8(ns)]
    }

    pub open spec fn with_space(self, ns: Seq<char>, sp: SpaceV) -> StoreV {
        StoreV { spaces: self.spaces.insert(text::utf8(ns), sp), ..self }
    }

    /// The store with `n` more changes counted.
    pub open spec fn bumped(self, n: int) -> StoreV {
        StoreV { revision: log::cap64(self.revision + n) as u64, ..self }
    }

    pub open spec fn same<T>(self, e: StorageFault) -> Step<T> {
        Step { store: self, result: Err(e) }
    }

    /// The entry that reads see.
    pub open spec fn get(self, ns: Seq<char>, key: Seq<u8>) -> Option<EntryV> {
        if self.has(ns) {
            self.space(ns).cells.get(key)
        } else {
            None
        }
    }

    /// Make a namespace.
    pub open spec fn create(self, ns: Seq<char>, policy: ConflictPolicy) -> Step<()> {
        if !naming::is_ns(ns) {
            self.same(StorageFault::BadName(ns))
        } else if self.has(ns) {
            self.same(StorageFault::NamespaceExists(ns))
        } else {
            Step {
                store: self.with_space(
                    ns,
                    SpaceV {
                        policy,
                        log: log::LogV::empty(),
                        cells: CellsV::empty(),
                        fields: fields_of(self.meta, ns),
                    },
                ).bumped(1),
                result: Ok(()),
            }
        }
    }

    /// Write one operation: to the log, then to the live data.
    pub open spec fn write(self, ns: Seq<char>, o: OpV) -> Step<u64> {
        let sp = self.space(ns);
        let seq = next_seq(sp);
        let out = sp.cells.local(ns, sp.policy, o, seq);
        let after = self.with_space(ns, SpaceV { cells: out.cells, ..sp.with_record(single(o)) });
        if !single(o).fits() {
            self.same(space::too_large())
        } else {
            match out.fault {
                Some(f) => after.same(f),
                None => Step {
                    store: after.bumped(1).kept(entry::unlike(sp.cells, sp.policy, o)),
                    result: Ok(seq),
                },
            }
        }
    }

    /// The store after a write. One that does something else than its replay is kept by
    /// a snapshot, so that the log behind the snapshot always gives the live data.
    pub open spec fn kept(self, unlike: bool) -> StoreV {
        if unlike {
            disk::checkpointed(self).store
        } else {
            self
        }
    }

    pub open spec fn put(self, ns: Seq<char>, o: OpV) -> Step<u64> {
        if !self.has(ns) {
            self.same(StorageFault::NotFound(ns))
        } else {
            self.write(ns, o)
        }
    }

    pub open spec fn delete(self, ns: Seq<char>, o: OpV) -> Step<u64> {
        if !self.has(ns) {
            self.same(StorageFault::BadName(ns))
        } else {
            self.write(ns, o)
        }
    }

    /// Write a batch: one record, then every operation in order.
    pub open spec fn put_batch(self, ns: Seq<char>, ops: Seq<OpV>) -> Step<u64> {
        let sp = self.space(ns);
        let seq = next_seq(sp);
        let out = sp.cells.local_all(ns, sp.policy, ops, seq);
        let done = entry::local_done(sp.cells, ns, sp.policy, ops, seq);
        let after = self.with_space(
            ns,
            SpaceV { cells: out.cells, ..sp.with_record(batch_record(ops)) },
        ).bumped(done);
        if ops.len() == 0 || !self.has(ns) {
            self.same(StorageFault::BadName(ns))
        } else if first_bad_tag(ops) is Some {
            self.same(entry::bad_tag(ns, first_bad_tag(ops)->0))
        } else if !batch_record(ops).fits() {
            self.same(space::too_large())
        } else {
            match out.fault {
                Some(f) => after.same(f),
                None => Step {
                    store: after.kept(entry::unlike_all(sp.cells, ns, sp.policy, ops, seq)),
                    result: Ok(seq),
                },
            }
        }
    }

    /// The store with other metadata; the secondary indexes follow.
    pub open spec fn with_meta(self, meta: MetaV) -> StoreV {
        StoreV {
            meta,
            spaces: Map::new(
                |k: Seq<u8>| self.spaces.dom().contains(k),
                |k: Seq<u8>|
                    SpaceV { fields: fields_of(meta, vstd::utf8::decode_utf8(k)), ..self.spaces[k] },
            ),
            ..self
        }
    }

    /// Set or clear a definition of a namespace (its schema or its index fields): a
    /// record in the log, then the metadata.
    pub open spec fn define(self, ns: Seq<char>, key: Seq<u8>, o: OpV, value: Option<Seq<u8>>) -> Step<u64> {
        let sp = self.space(ns);
        if !self.has(ns) {
            self.same(StorageFault::BadName(ns))
        } else if !single(o).fits() {
            self.same(space::too_large())
        } else {
            Step {
                store: self.with_space(ns, sp.with_record(single(o))).with_meta(
                    set_or_clear(self.meta, key, value),
                ).bumped(1),
                result: Ok(next_seq(sp)),
            }
        }
    }

    /// Take in a record of a peer: once for each event.
    pub open spec fn sync(self, ns: Seq<char>, r: RecordV) -> Step<bool> {
        let sp = self.space(ns);
        let got = absorb(ns, sp.policy, sp.cells, self.meta, r, next_seq(sp));
        let after = self.with_space(ns, SpaceV { cells: got.cells, ..sp.with_record(r) }).with_meta(got.meta);
        if !self.has(ns) {
            self.same(StorageFault::BadName(ns))
        } else if seen(sp.log.records, version_id(r)) {
            Step { store: self, result: Ok(false) }
        } else if unsound_tag(r) is Some {
            self.same(entry::bad_tag(ns, unsound_tag(r)->0))
        } else if !r.fits() {
            self.same(space::too_large())
        } else {
            match got.fault {
                Some(f) => after.same(f),
                None => Step { store: after.bumped(1), result: Ok(true) },
            }
        }
    }

    /// Take in records in order, up to the first that fails; how many were new.
    pub open spec fn sync_all(self, ns: Seq<char>, rs: Seq<RecordV>) -> Step<int>
        decreases rs.len(),
    {
        if !self.has(ns) {
            self.same(StorageFault::BadName(ns))
        } else if rs.len() == 0 {
            Step { store: self, result: Ok(0) }
        } else {
            let one = self.sync(ns, rs[0]);
            match one.result {
                Err(e) => Step { store: one.store, result: Err(e) },
                Ok(new) => {
                    let rest = one.store.sync_all(ns, rs.drop_first());
                    match rest.result {
                        Err(e) => rest,
                        Ok(n) => Step {
                            store: rest.store,
                            result: Ok(
                                n + if new {
                                    1int
                                } else {
                                    0
                                },
                            ),
                        },
                    }
                },
            }
        }
    }
}

// ---------- laws ----------

/// An event is taken in once: a record that the log holds changes nothing.
pub proof fn law_sync_is_idempotent(s: StoreV, ns: Seq<char>, r: RecordV)
    requires
        s.has(ns),
        s.space(ns).log.head.len() == 32,
        r.sound(),
        s.sync(ns, r).result is Ok,
    ensures
        ({
            let t = s.sync(ns, r).store;
            t.sync(ns, r).result == Ok::<bool, StorageFault>(false) && t.sync(ns, r).store == t
        }),
{
    let sp = s.space(ns);
    let one = s.sync(ns, r);
    let t = one.store;
    if !seen(sp.log.records, version_id(r)) {
        record::law_sound_record_reads(r, sp.log.head);
        let bytes = r.bytes(sp.log.head);
        let recs = t.space(ns).log.records;
        assert(recs == sp.log.records.push(bytes));
        assert(record_has(recs[recs.len() - 1], version_id(r)));
    }
}

/// A batch is one record and one event: the log grows by one, whatever it holds.
pub proof fn law_batch_is_one_record(s: StoreV, ns: Seq<char>, ops: Seq<OpV>)
    requires
        s.put_batch(ns, ops).result is Ok,
    ensures
        s.put_batch(ns, ops).store.space(ns).log.records == s.space(ns).log.records.push(
            batch_record(ops).bytes(s.space(ns).log.head),
        ),
        s.put_batch(ns, ops).result == Ok::<u64, StorageFault>(next_seq(s.space(ns))),
{
}

/// A batch that is refused for its tags, its size or its namespace leaves the store
/// as it was: nothing is applied in part.
pub proof fn law_refused_batch_changes_nothing(s: StoreV, ns: Seq<char>, ops: Seq<OpV>)
    requires
        ops.len() == 0 || !s.has(ns) || first_bad_tag(ops) is Some || !batch_record(ops).fits(),
    ensures
        s.put_batch(ns, ops).result is Err,
        s.put_batch(ns, ops).store == s,
{
}

/// A last-writer-wins batch of well-tagged operations always goes through.
pub proof fn law_lww_batch_goes_through(c: CellsV, ns: Seq<char>, ops: Seq<OpV>, seq: u64)
    requires
        first_bad_tag(ops) is None,
    ensures
        c.local_all(ns, ConflictPolicy::Lww, ops, seq).fault is None,
        entry::local_done(c, ns, ConflictPolicy::Lww, ops, seq) == ops.len(),
    decreases ops.len(),
{
    if ops.len() > 0 {
        law_lww_batch_goes_through(
            c.local(ns, ConflictPolicy::Lww, ops[0], seq).cells,
            ns,
            ops.drop_first(),
            seq,
        );
    }
}

/// In a batch the last operation on a key decides what is read.
pub proof fn law_last_op_of_batch_decides(c: CellsV, ns: Seq<char>, ops: Seq<OpV>, seq: u64, i: int)
    requires
        0 <= i < ops.len(),
        forall|j: int| i < j < ops.len() ==> (#[trigger] ops[j]).key != ops[i].key,
        first_bad_tag(ops) is None,
    ensures
        c.local_all(ns, ConflictPolicy::Lww, ops, seq).cells.get(ops[i].key) == (if ops[i].tag == TAG_DEL {
            None
        } else {
            Some(EntryV::Lww(entry::version_of(ops[i], seq)))
        }),
    decreases ops.len(),
{
    let step = c.local(ns, ConflictPolicy::Lww, ops[0], seq).cells;
    let rest = ops.drop_first();
    if i == 0 {
        assert forall|j: int| 0 <= j < rest.len() implies (#[trigger] rest[j]).key != ops[0].key by {
            assert(rest[j] == ops[j + 1]);
        }
        lemma_others_stay(step, ns, rest, seq, ops[0].key);
    } else {
        assert forall|j: int| i - 1 < j < rest.len() implies (#[trigger] rest[j]).key != rest[i - 1].key by {
            assert(rest[j] == ops[j + 1]);
        }
        law_last_op_of_batch_decides(step, ns, rest, seq, i - 1);
    }
}

/// A batch leaves the keys that it does not write as they were.
pub proof fn lemma_others_stay(c: CellsV, ns: Seq<char>, ops: Seq<OpV>, seq: u64, key: Seq<u8>)
    requires
        forall|j: int| 0 <= j < ops.len() ==> (#[trigger] ops[j]).key != key,
    ensures
        c.local_all(ns, ConflictPolicy::Lww, ops, seq).cells.get(key) == c.get(key),
    decreases ops.len(),
{
    if ops.len() > 0 {
        let rest = ops.drop_first();
        assert(ops[0].key != key);
        assert forall|j: int| 0 <= j < rest.len() implies (#[trigger] rest[j]).key != key by {
            assert(rest[j] == ops[j + 1]);
        }
        lemma_others_stay(c.local(ns, ConflictPolicy::Lww, ops[0], seq).cells, ns, rest, seq, key);
    }
}

/// Work on one namespace leaves the data of the others as it was.
pub proof fn law_other_namespaces_stay(s: StoreV, ns: Seq<char>, other: Seq<char>, o: OpV, key: Seq<u8>)
    requires
        other != ns,
    ensures
        s.put(ns, o).store.get(other, key) == s.get(other, key),
        s.delete(ns, o).store.get(other, key) == s.get(other, key),
        s.sync(ns, single(o)).store.get(other, key) == s.get(other, key),
{
    text::lemma_utf8_injective(ns, other);
}

} // verus!
