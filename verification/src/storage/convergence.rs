//! Stores that took in the same records hold the same data, in whatever order the
//! records came.

use crate::hash;
use crate::storage::entry;
use crate::storage::entry::{CellsV, ConflictPolicy, EntryV, VersionV};
use crate::storage::model;
use crate::storage::model::StoreV;
use crate::storage::record;
use crate::storage::record::{OpV, RecordV, TAG_BATCH, TAG_DEL, TAG_PUT, TAG_PUT_TTL};
use vstd::prelude::*;

verus! {

// ---------- operations and where they stand ----------

/// The operations of a record: those of a batch, or its own one.
pub open spec fn ops_of(r: RecordV) -> Seq<OpV> {
    if r.op.tag == TAG_BATCH {
        r.ops
    } else if record::is_op_tag(r.op.tag) {
        seq![r.op]
    } else {
        Seq::empty()
    }
}

/// Where an operation stands: a record and a place in it.
pub struct Mark {
    pub from: RecordV,
    pub at: int,
}

impl Mark {
    /// The operation that stands there.
    pub open spec fn op(self) -> OpV {
        ops_of(self.from)[self.at]
    }

    /// Does a write to the key stand there?
    pub open spec fn writes(self, key: Seq<u8>) -> bool {
        (self.op().tag == TAG_PUT || self.op().tag == TAG_PUT_TTL) && self.op().key == key
    }

    /// Does a delete of the key stand there?
    pub open spec fn removes(self, key: Seq<u8>) -> bool {
        self.op().tag == TAG_DEL && self.op().key == key
    }

    /// Does the operation win over the other? The greater one by clock and replica
    /// does; of one record's, at the same clock, the later one.
    pub open spec fn beats(self, m: Mark) -> bool {
        &&& entry::not_before(self.op().hlc, self.op().replica, m.op().hlc, m.op().replica)
        &&& self.from == m.from && self.op().hlc == m.op().hlc && self.op().replica == m.op().replica ==> m.at
            <= self.at
    }
}

/// The places of all operations of some records.
pub open spec fn marks_in(rs: Set<RecordV>) -> Set<Mark> {
    Set::new(|m: Mark| rs.contains(m.from) && 0 <= m.at < ops_of(m.from).len())
}

/// Is it one of the writes to a key?
pub open spec fn puts(w: Set<Mark>, m: Mark, key: Seq<u8>) -> bool {
    w.contains(m) && m.writes(key)
}

/// Is it one of the deletes of a key?
pub open spec fn dels(w: Set<Mark>, m: Mark, key: Seq<u8>) -> bool {
    w.contains(m) && m.removes(key)
}

/// Is a key written to?
pub open spec fn is_put(w: Set<Mark>, key: Seq<u8>) -> bool {
    exists|m: Mark| #[trigger] puts(w, m, key)
}

/// Is a key deleted?
pub open spec fn is_del(w: Set<Mark>, key: Seq<u8>) -> bool {
    exists|m: Mark| #[trigger] dels(w, m, key)
}

// ---------- what operations tell ----------

/// Is the version what the operation writes?
pub open spec fn carries(v: VersionV, m: Mark) -> bool {
    v == entry::version_of(m.op(), v.seq)
}

/// Does the version come from one of the writes to a key?
#[verifier::opaque]
pub open spec fn comes_from(v: VersionV, w: Set<Mark>, key: Seq<u8>) -> bool {
    exists|m: Mark| #[trigger] puts(w, m, key) && carries(v, m)
}

/// Does the write win over all writes to a key?
pub open spec fn is_top(m: Mark, w: Set<Mark>, key: Seq<u8>) -> bool {
    puts(w, m, key) && forall|n: Mark| #[trigger] puts(w, n, key) ==> m.beats(n)
}

/// Does the version come from a write that wins over all writes to a key?
#[verifier::opaque]
pub open spec fn comes_from_top(v: VersionV, w: Set<Mark>, key: Seq<u8>) -> bool {
    exists|m: Mark| #[trigger] is_top(m, w, key) && carries(v, m)
}

/// Is what the operation writes among the versions?
#[verifier::opaque]
pub open spec fn among(vs: Seq<VersionV>, m: Mark) -> bool {
    exists|i: int| 0 <= i < vs.len() && carries(#[trigger] vs[i], m)
}

/// Is the entry what the writes to a key tell? The greatest of them, or all of them with
/// the greatest to be seen, as the policy says.
#[verifier::opaque]
pub open spec fn tells(e: EntryV, policy: ConflictPolicy, w: Set<Mark>, key: Seq<u8>) -> bool {
    match e {
        EntryV::Lww(v) => policy is Lww && comes_from_top(v, w, key),
        EntryV::Register(vs) => {
            &&& policy is CrdtRegister
            &&& entry::latest_of(vs) is Some
            &&& comes_from_top(entry::latest_of(vs)->0, w, key)
            &&& forall|i: int| 0 <= i < vs.len() ==> comes_from(#[trigger] vs[i], w, key)
            &&& forall|m: Mark| #[trigger] puts(w, m, key) ==> among(vs, m)
        },
    }
}

/// Has an entry the shape of the policy?
pub open spec fn fits_policy(e: EntryV, policy: ConflictPolicy) -> bool {
    match policy {
        ConflictPolicy::Lww => e is Lww,
        ConflictPolicy::CrdtRegister => e is Register,
    }
}

/// Is what is held under a key what the operations tell? A delete wins over all writes.
pub open spec fn holds_at(c: CellsV, policy: ConflictPolicy, w: Set<Mark>, key: Seq<u8>) -> bool {
    &&& c.tombs.dom().contains(key) <==> is_del(w, key)
    &&& c.index.dom().contains(key) ==> fits_policy(c.index[key], policy)
    &&& !c.tombs.dom().contains(key) ==> (c.index.dom().contains(key) <==> is_put(w, key)) && (
    c.index.dom().contains(key) ==> tells(c.index[key], policy, w, key))
}

/// Is all that is held what the operations tell?
pub open spec fn holds(c: CellsV, policy: ConflictPolicy, w: Set<Mark>) -> bool {
    forall|key: Seq<u8>| #[trigger] holds_at(c, policy, w, key)
}

// ---------- one more operation ----------

proof fn lemma_order(a: OpV, b: OpV, c: OpV)
    ensures
        entry::not_before(a.hlc, a.replica, b.hlc, b.replica) || entry::not_before(b.hlc, b.replica, a.hlc, a.replica),
        entry::not_before(a.hlc, a.replica, b.hlc, b.replica) && entry::not_before(b.hlc, b.replica, c.hlc, c.replica)
            ==> entry::not_before(a.hlc, a.replica, c.hlc, c.replica),
        entry::not_before(a.hlc, a.replica, b.hlc, b.replica) && entry::not_before(b.hlc, b.replica, a.hlc, a.replica)
            ==> a.hlc == b.hlc && a.replica == b.replica,
        entry::not_before(a.hlc, a.replica, a.hlc, a.replica),
{
    entry::lemma_write_order(a.hlc, a.replica, b.hlc, b.replica, c.hlc, c.replica);
}

/// Does the operation come after all others of its record?
pub open spec fn is_last(m: Mark, w: Set<Mark>) -> bool {
    forall|n: Mark| #[trigger] w.contains(n) && n.from == m.from ==> n.at < m.at
}

/// One more synced operation.
proof fn lemma_step(c: CellsV, ns: Seq<char>, policy: ConflictPolicy, w: Set<Mark>, m: Mark, seq: u64, key: Seq<u8>)
    requires
        holds_at(c, policy, w, key),
        record::is_op_tag(m.op().tag),
        is_last(m, w),
    ensures
        holds_at(c.synced(ns, policy, m.op(), seq).cells, policy, w.insert(m), key),
        key == m.op().key ==> c.synced(ns, policy, m.op(), seq).fault is None,
{
    let o = m.op();
    let u = w.insert(m);
    if is_del(w, key) {
        let n = choose|n: Mark| #[trigger] dels(w, n, key);
        assert(dels(u, n, key));
    }
    if is_del(u, key) {
        let n = choose|n: Mark| #[trigger] dels(u, n, key);
        if n != m {
            assert(dels(w, n, key));
        }
    }
    if is_put(w, key) {
        let n = choose|n: Mark| #[trigger] puts(w, n, key);
        assert(puts(u, n, key));
    }
    if is_put(u, key) {
        let n = choose|n: Mark| #[trigger] puts(u, n, key);
        if n != m {
            assert(puts(w, n, key));
        }
    }
    if o.tag == TAG_DEL && o.key == key {
        assert(dels(u, m, key));
    } else if o.tag != TAG_DEL && o.key == key {
        assert(puts(u, m, key));
        if !c.tombs.dom().contains(key) {
            lemma_told_put(c, ns, policy, w, m, seq);
        }
    } else if !c.tombs.dom().contains(key) && c.index.dom().contains(key) {
        assert forall|n: Mark| #[trigger] puts(u, n, key) <==> puts(w, n, key) by {}
        lemma_told_same(c.index[key], policy, w, u, key);
    }
}

/// Operations that write nothing to a key tell nothing of its entry.
proof fn lemma_told_same(e: EntryV, policy: ConflictPolicy, w: Set<Mark>, u: Set<Mark>, key: Seq<u8>)
    requires
        tells(e, policy, w, key),
        forall|n: Mark| #[trigger] puts(u, n, key) <==> puts(w, n, key),
    ensures
        tells(e, policy, u, key),
{
    reveal(comes_from_top);
    reveal(tells);
    match e {
        EntryV::Lww(v) => {
            let n = choose|n: Mark| #[trigger] is_top(n, w, key) && carries(v, n);
            assert(puts(u, n, key));
            assert(is_top(n, u, key));
        },
        EntryV::Register(vs) => {
            let top = choose|n: Mark| #[trigger] is_top(n, w, key) && carries(entry::latest_of(vs)->0, n);
            assert(puts(u, top, key));
            assert(is_top(top, u, key));
            assert forall|i: int| 0 <= i < vs.len() implies comes_from(#[trigger] vs[i], u, key) by {
                assert(comes_from(vs[i], w, key));
                reveal(comes_from);
                let n = choose|n: Mark| #[trigger] puts(w, n, key) && carries(vs[i], n);
                assert(puts(u, n, key));
            }
            assert forall|n: Mark| #[trigger] puts(u, n, key) implies among(vs, n) by {
                assert(puts(w, n, key));
            }
        },
    }
}

/// One more write beside the greatest: the greater of the two is the greatest.
proof fn lemma_top_put(was: VersionV, w: Set<Mark>, m: Mark, seq: u64)
    requires
        comes_from_top(was, w, m.op().key),
        m.writes(m.op().key),
        is_last(m, w),
    ensures
        ({
            let o = m.op();
            if entry::not_before(o.hlc, o.replica, was.hlc, was.replica) {
                comes_from_top(entry::version_of(o, seq), w.insert(m), o.key)
            } else {
                comes_from_top(was, w.insert(m), o.key)
            }
        }),
{
    reveal(comes_from_top);
    let o = m.op();
    let key = o.key;
    let u = w.insert(m);
    let n = choose|n: Mark| #[trigger] is_top(n, w, key) && carries(was, n);
    lemma_order(o, n.op(), n.op());
    assert(puts(u, m, key));
    if entry::not_before(o.hlc, o.replica, was.hlc, was.replica) {
        assert forall|p: Mark| #[trigger] puts(u, p, key) implies m.beats(p) by {
            if p != m {
                assert(puts(w, p, key));
                assert(n.beats(p));
                lemma_order(o, n.op(), p.op());
            }
        }
        assert(is_top(m, u, key));
        assert(carries(entry::version_of(o, seq), m));
    } else {
        assert forall|p: Mark| #[trigger] puts(u, p, key) implies n.beats(p) by {
            if p != m {
                assert(puts(w, p, key));
            }
        }
        assert(puts(u, n, key));
        assert(is_top(n, u, key));
    }
}

/// The first write is the greatest.
proof fn lemma_first_put(w: Set<Mark>, m: Mark, seq: u64)
    requires
        !is_put(w, m.op().key),
        m.writes(m.op().key),
    ensures
        comes_from_top(entry::version_of(m.op(), seq), w.insert(m), m.op().key),
{
    reveal(comes_from_top);
    let o = m.op();
    let u = w.insert(m);
    lemma_order(o, o, o);
    assert(puts(u, m, o.key));
    assert forall|p: Mark| #[trigger] puts(u, p, o.key) implies m.beats(p) by {
        if p != m {
            assert(puts(w, p, o.key));
        }
    }
    assert(is_top(m, u, o.key));
    assert(carries(entry::version_of(o, seq), m));
}

/// One more version of a register.
proof fn lemma_told_version(was: Seq<VersionV>, w: Set<Mark>, m: Mark, seq: u64)
    requires
        if is_put(w, m.op().key) {
            tells(EntryV::Register(was), ConflictPolicy::CrdtRegister, w, m.op().key)
        } else {
            was.len() == 0
        },
        m.writes(m.op().key),
        is_last(m, w),
    ensures
        tells(
            EntryV::Register(was.push(entry::version_of(m.op(), seq))),
            ConflictPolicy::CrdtRegister,
            w.insert(m),
            m.op().key,
        ),
{
    reveal(tells);
    let key = m.op().key;
    let u = w.insert(m);
    let fresh = entry::version_of(m.op(), seq);
    let vs = was.push(fresh);
    let e = EntryV::Register(was);
    assert(vs.drop_last() =~= was);
    if is_put(w, key) {
        lemma_top_put(entry::latest_of(was)->0, w, m, seq);
    } else {
        lemma_first_put(w, m, seq);
    }
    assert(puts(u, m, key));
    assert(carries(fresh, m));
    assert forall|i: int| 0 <= i < vs.len() implies comes_from(#[trigger] vs[i], u, key) by {
        if i < was.len() {
            assert(e->Register_0[i] == vs[i]);
            assert(comes_from(was[i], w, key));
            reveal(comes_from);
            let n = choose|n: Mark| #[trigger] puts(w, n, key) && carries(was[i], n);
            assert(puts(u, n, key));
        } else {
            reveal(comes_from);
        }
    }
    assert forall|n: Mark| #[trigger] puts(u, n, key) implies among(vs, n) by {
        if n == m {
            reveal(among);
            assert(carries(vs[vs.len() - 1], m));
        } else {
            assert(puts(w, n, key));
            assert(is_put(w, key));
            assert(among(was, n));
            reveal(among);
            let i = choose|i: int| 0 <= i < was.len() && carries(#[trigger] was[i], n);
            assert(vs[i] == was[i]);
        }
    }
}

/// One more write to a key that is not deleted.
proof fn lemma_told_put(c: CellsV, ns: Seq<char>, policy: ConflictPolicy, w: Set<Mark>, m: Mark, seq: u64)
    requires
        holds_at(c, policy, w, m.op().key),
        !c.tombs.dom().contains(m.op().key),
        m.writes(m.op().key),
        is_last(m, w),
    ensures
        c.synced(ns, policy, m.op(), seq).cells.index.dom().contains(m.op().key),
        tells(c.synced(ns, policy, m.op(), seq).cells.index[m.op().key], policy, w.insert(m), m.op().key),
{
    let o = m.op();
    let key = o.key;
    match policy {
        ConflictPolicy::Lww => {
            reveal(tells);
            if c.index.dom().contains(key) {
                lemma_top_put(c.index[key]->Lww_0, w, m, seq);
            } else {
                lemma_first_put(w, m, seq);
            }
        },
        ConflictPolicy::CrdtRegister => {
            let was = if c.index.dom().contains(key) {
                c.index[key]->Register_0
            } else {
                Seq::empty()
            };
            lemma_told_version(was, w, m, seq);
            assert(Seq::<VersionV>::empty().push(entry::version_of(o, seq)) =~= seq![entry::version_of(o, seq)]);
        },
    }
}

// ---------- one more record ----------

/// The places, and those of a record from the given one on.
pub open spec fn with_rest(w: Set<Mark>, r: RecordV, k: int) -> Set<Mark> {
    Set::new(|m: Mark| w.contains(m) || (m.from == r && k <= m.at < ops_of(r).len()))
}

proof fn lemma_steps(c: CellsV, ns: Seq<char>, policy: ConflictPolicy, w: Set<Mark>, r: RecordV, k: int, seq: u64)
    requires
        holds(c, policy, w),
        r.sound(),
        0 <= k <= ops_of(r).len(),
        forall|n: Mark| #[trigger] w.contains(n) && n.from == r ==> n.at < k,
    ensures
        holds(c.synced_all(ns, policy, ops_of(r).skip(k), seq).cells, policy, with_rest(w, r, k)),
        c.synced_all(ns, policy, ops_of(r).skip(k), seq).fault is None,
    decreases ops_of(r).len() - k,
{
    let ops = ops_of(r).skip(k);
    if k == ops_of(r).len() {
        assert(with_rest(w, r, k) =~= w);
    } else {
        let m = Mark { from: r, at: k };
        let o = m.op();
        let u = w.insert(m);
        assert(ops[0] == o);
        assert(record::is_op_tag(o.tag));
        let d = c.synced(ns, policy, o, seq).cells;
        assert(is_last(m, w));
        assert forall|key: Seq<u8>| #[trigger] holds_at(d, policy, u, key) by {
            assert(holds_at(c, policy, w, key));
            lemma_step(c, ns, policy, w, m, seq, key);
        }
        assert(holds_at(c, policy, w, o.key));
        lemma_step(c, ns, policy, w, m, seq, o.key);
        assert(ops.drop_first() =~= ops_of(r).skip(k + 1));
        assert forall|n: Mark| with_rest(u, r, k + 1).contains(n) <==> with_rest(w, r, k).contains(n) by {
            if n.from == r && n.at == k {
                assert(n == m);
            }
        }
        assert(with_rest(u, r, k + 1) =~= with_rest(w, r, k));
        lemma_steps(d, ns, policy, u, r, k + 1, seq);
    }
}

/// One event, one record.
pub open spec fn one_to_one(rs: Set<RecordV>) -> bool {
    forall|a: RecordV, b: RecordV|
        rs.contains(a) && rs.contains(b) && #[trigger] model::version_id(a) == #[trigger] model::version_id(b) ==> a
            == b
}

/// Is it the event of one of the records?
pub open spec fn is_event(rs: Set<RecordV>, id: (u8, u64, Seq<u8>)) -> bool {
    exists|r: RecordV| rs.contains(r) && #[trigger] model::version_id(r) == id
}

/// Are the events of a log those of the records?
pub open spec fn logs(log: Seq<Seq<u8>>, rs: Set<RecordV>) -> bool {
    forall|id: (u8, u64, Seq<u8>)| #[trigger] model::seen(log, id) <==> is_event(rs, id)
}

/// Does a namespace hold what some records tell?
pub open spec fn took(s: StoreV, ns: Seq<char>, policy: ConflictPolicy, rs: Set<RecordV>) -> bool {
    &&& s.has(ns)
    &&& s.space(ns).policy == policy
    &&& s.space(ns).log.head.len() == 32
    &&& logs(s.space(ns).log.records, rs)
    &&& holds(s.space(ns).cells, policy, marks_in(rs))
}

/// What comes of taking in a record for the data alone.
proof fn lemma_absorbed(
    ns: Seq<char>,
    policy: ConflictPolicy,
    c: CellsV,
    meta: model::MetaV,
    r: RecordV,
    seq: u64,
    rs: Set<RecordV>,
)
    requires
        holds(c, policy, marks_in(rs)),
        r.sound(),
        !rs.contains(r),
    ensures
        holds(model::absorb(ns, policy, c, meta, r, seq).cells, policy, marks_in(rs.insert(r))),
{
    let ops = ops_of(r);
    let w = marks_in(rs);
    assert(ops.skip(0) =~= ops);
    assert(with_rest(w, r, 0) =~= marks_in(rs.insert(r)));
    lemma_steps(c, ns, policy, w, r, 0, seq);
    if record::is_op_tag(r.op.tag) {
        assert(ops.drop_first() =~= Seq::empty());
        let one = c.synced(ns, policy, r.op, seq);
        let m = Mark { from: r, at: 0 };
        assert(m.op() == r.op);
        assert(holds_at(c, policy, w, r.op.key));
        lemma_step(c, ns, policy, w, m, seq, r.op.key);
        assert(one.cells.synced_all(ns, policy, ops.drop_first(), seq).cells == one.cells);
    }
}

/// One more record in the log.
proof fn lemma_logged(log: Seq<Seq<u8>>, rs: Set<RecordV>, r: RecordV, bytes: Seq<u8>)
    requires
        logs(log, rs),
        record::parse_record(bytes, None) == Ok::<RecordV, record::Fault>(r.plain()),
    ensures
        logs(log.push(bytes), rs.insert(r)),
{
    let more = rs.insert(r);
    let longer = log.push(bytes);
    assert(model::version_id(r.plain()) == model::version_id(r));
    assert forall|id: (u8, u64, Seq<u8>)| #[trigger] model::seen(longer, id) <==> is_event(more, id) by {
        if model::seen(longer, id) {
            let i = choose|i: int| 0 <= i < longer.len() && model::record_has(#[trigger] longer[i], id);
            if i < log.len() {
                assert(log[i] == longer[i]);
                assert(model::seen(log, id));
                let q = choose|q: RecordV| rs.contains(q) && #[trigger] model::version_id(q) == id;
                assert(more.contains(q));
            } else {
                assert(more.contains(r) && model::version_id(r) == id);
            }
        }
        if is_event(more, id) {
            let q = choose|q: RecordV| more.contains(q) && #[trigger] model::version_id(q) == id;
            if q == r {
                assert(model::record_has(longer[log.len() as int], id));
            } else {
                assert(rs.contains(q) && model::version_id(q) == id);
                assert(model::seen(log, id));
                let i = choose|i: int| 0 <= i < log.len() && model::record_has(#[trigger] log[i], id);
                assert(longer[i] == log[i]);
            }
        }
    }
}

/// One more record.
proof fn lemma_take(s: StoreV, ns: Seq<char>, policy: ConflictPolicy, rs: Set<RecordV>, r: RecordV)
    requires
        took(s, ns, policy, rs),
        r.sound(),
        one_to_one(rs.insert(r)),
        s.sync(ns, r).result is Ok,
    ensures
        took(s.sync(ns, r).store, ns, policy, rs.insert(r)),
{
    let sp = s.space(ns);
    let id = model::version_id(r);
    let t = s.sync(ns, r).store;
    let more = rs.insert(r);
    if model::seen(sp.log.records, id) {
        assert(is_event(rs, id));
        let q = choose|q: RecordV| rs.contains(q) && #[trigger] model::version_id(q) == id;
        assert(more.contains(q) && more.contains(r));
        assert(q == r);
        assert(more =~= rs);
    } else {
        if rs.contains(r) {
            assert(is_event(rs, id));
        }
        lemma_absorbed(ns, policy, sp.cells, s.meta, r, model::next_seq(sp), rs);
        record::law_sound_record_reads(r, sp.log.head);
        let bytes = r.bytes(sp.log.head);
        hash::lemma_digest_len(record::prev_of(bytes) + bytes);
        lemma_logged(sp.log.records, rs, r, bytes);
        let log = t.space(ns).log;
        assert(log.records == sp.log.records.push(bytes));
        assert(log.head == record::hash_of(record::prev_of(bytes), bytes));
        assert(t.space(ns).cells == model::absorb(ns, policy, sp.cells, s.meta, r, model::next_seq(sp)).cells);
    }
}

/// The records, and those of a row.
pub open spec fn with_records(known: Set<RecordV>, rs: Seq<RecordV>) -> Set<RecordV> {
    known.union(rs.to_set())
}

proof fn lemma_take_all(s: StoreV, ns: Seq<char>, policy: ConflictPolicy, known: Set<RecordV>, rs: Seq<RecordV>)
    requires
        took(s, ns, policy, known),
        forall|i: int| 0 <= i < rs.len() ==> (#[trigger] rs[i]).sound(),
        one_to_one(with_records(known, rs)),
        s.sync_all(ns, rs).result is Ok,
    ensures
        took(s.sync_all(ns, rs).store, ns, policy, with_records(known, rs)),
    decreases rs.len(),
{
    if rs.len() == 0 {
        assert(with_records(known, rs) =~= known);
    } else {
        let r = rs[0];
        let rest = rs.drop_first();
        let more = known.insert(r);
        assert(rs.to_set().contains(r)) by {
            assert(rs.contains(r));
        }
        assert forall|q: RecordV| with_records(more, rest).contains(q) <==> with_records(known, rs).contains(q) by {
            if rs.contains(q) {
                let i = rs.index_of(q);
                if i > 0 {
                    assert(rest[i - 1] == q);
                }
            }
            if rest.contains(q) {
                assert(rs[rest.index_of(q) + 1] == q);
            }
        }
        assert(with_records(more, rest) =~= with_records(known, rs));
        assert(one_to_one(more)) by {
            assert forall|a: RecordV, b: RecordV|
                more.contains(a) && more.contains(b) && #[trigger] model::version_id(a)
                    == #[trigger] model::version_id(b) implies a == b by {
                assert(with_records(known, rs).contains(a) && with_records(known, rs).contains(b));
            }
        }
        lemma_take(s, ns, policy, known, r);
        assert forall|i: int| 0 <= i < rest.len() implies (#[trigger] rest[i]).sound() by {
            assert(rest[i] == rs[i + 1]);
        }
        lemma_take_all(s.sync(ns, r).store, ns, policy, more, rest);
    }
}

// ---------- laws ----------

/// Do two versions differ in no more than the number of their records? Each node counts
/// its own.
pub open spec fn same_version(a: VersionV, b: VersionV) -> bool {
    VersionV { seq: 0, ..a } == VersionV { seq: 0, ..b }
}

/// Is every version of the first list in the second?
pub open spec fn all_in(a: Seq<VersionV>, b: Seq<VersionV>) -> bool {
    forall|i: int| 0 <= i < a.len() ==> one_of(#[trigger] a[i], b)
}

/// Is the version in the list?
pub open spec fn one_of(v: VersionV, b: Seq<VersionV>) -> bool {
    exists|j: int| 0 <= j < b.len() && same_version(v, #[trigger] b[j])
}

/// Do two entries show the same?
pub open spec fn same_entry(a: Option<EntryV>, b: Option<EntryV>) -> bool {
    match (a, b) {
        (None, None) => true,
        (Some(EntryV::Lww(x)), Some(EntryV::Lww(y))) => same_version(x, y),
        (Some(EntryV::Register(x)), Some(EntryV::Register(y))) => all_in(x, y) && all_in(y, x),
        _ => false,
    }
}

/// Do writes to a key that stand in different records, and write differently, differ in
/// clock or replica?
pub open spec fn writes_differ(w: Set<Mark>, key: Seq<u8>) -> bool {
    forall|a: Mark, b: Mark| #[trigger]
        puts(w, a, key) && #[trigger] puts(w, b, key) && a.from != b.from && a.op().hlc == b.op().hlc
            && a.op().replica == b.op().replica ==> a.op() == b.op()
}

proof fn lemma_all_in(x: Seq<VersionV>, y: Seq<VersionV>, policy: ConflictPolicy, w: Set<Mark>, key: Seq<u8>)
    requires
        tells(EntryV::Register(x), policy, w, key),
        tells(EntryV::Register(y), policy, w, key),
    ensures
        all_in(x, y),
{
    reveal(tells);
    let e = EntryV::Register(x);
    assert forall|i: int| 0 <= i < x.len() implies one_of(#[trigger] x[i], y) by {
        assert(e->Register_0[i] == x[i]);
        assert(comes_from(x[i], w, key));
        reveal(comes_from);
        let m = choose|m: Mark| #[trigger] puts(w, m, key) && carries(x[i], m);
        assert(among(y, m));
        reveal(among);
        let j = choose|j: int| 0 <= j < y.len() && carries(#[trigger] y[j], m);
        assert(same_version(x[i], y[j]));
    }
}

proof fn lemma_same_top(x: VersionV, y: VersionV, w: Set<Mark>, key: Seq<u8>)
    requires
        comes_from_top(x, w, key),
        comes_from_top(y, w, key),
        writes_differ(w, key),
    ensures
        same_version(x, y),
{
    reveal(comes_from_top);
    let m = choose|m: Mark| #[trigger] is_top(m, w, key) && carries(x, m);
    let n = choose|n: Mark| #[trigger] is_top(n, w, key) && carries(y, n);
    assert(puts(w, m, key) && puts(w, n, key));
    assert(m.beats(n) && n.beats(m));
    lemma_order(m.op(), n.op(), n.op());
    assert(m.op() == n.op());
}

/// What is seen of an entry comes from the greatest write.
proof fn lemma_seen(e: EntryV, policy: ConflictPolicy, w: Set<Mark>, key: Seq<u8>)
    requires
        tells(e, policy, w, key),
    ensures
        e.latest() is Some,
        comes_from_top(e.latest()->0, w, key),
{
    reveal(tells);
}

proof fn lemma_same(a: CellsV, b: CellsV, policy: ConflictPolicy, w: Set<Mark>, key: Seq<u8>)
    requires
        holds_at(a, policy, w, key),
        holds_at(b, policy, w, key),
        writes_differ(w, key),
    ensures
        same_entry(a.get(key), b.get(key)),
        a.shown(key) == b.shown(key),
{
    if a.get(key) is Some {
        assert(b.get(key) is Some);
        lemma_seen(a.index[key], policy, w, key);
        lemma_seen(b.index[key], policy, w, key);
        lemma_same_top(a.index[key].latest()->0, b.index[key].latest()->0, w, key);
        match (a.index[key], b.index[key]) {
            (EntryV::Lww(x), EntryV::Lww(y)) => {},
            (EntryV::Register(x), EntryV::Register(y)) => {
                lemma_all_in(x, y, policy, w, key);
                lemma_all_in(y, x, policy, w, key);
            },
            _ => {},
        }
    }
}

/// Is a namespace there, with a policy, and without data or records?
pub open spec fn is_fresh(s: StoreV, ns: Seq<char>, policy: ConflictPolicy) -> bool {
    &&& s.has(ns)
    &&& s.space(ns).policy == policy
    &&& s.space(ns).cells == CellsV::empty()
    &&& s.space(ns).log.records.len() == 0
    &&& s.space(ns).log.head.len() == 32
}

proof fn lemma_fresh(s: StoreV, ns: Seq<char>, policy: ConflictPolicy)
    requires
        is_fresh(s, ns, policy),
    ensures
        took(s, ns, policy, Set::empty()),
{
    let w = marks_in(Set::empty());
    assert forall|key: Seq<u8>| #[trigger] holds_at(s.space(ns).cells, policy, w, key) by {}
}

/// Two stores that take in the same records, each in its own order.
pub open spec fn take_the_same(
    a: StoreV,
    b: StoreV,
    ns: Seq<char>,
    policy: ConflictPolicy,
    ra: Seq<RecordV>,
    rb: Seq<RecordV>,
) -> bool {
    &&& is_fresh(a, ns, policy)
    &&& is_fresh(b, ns, policy)
    &&& forall|r: RecordV| ra.contains(r) <==> rb.contains(r)
    &&& forall|i: int| 0 <= i < ra.len() ==> (#[trigger] ra[i]).sound()
    &&& one_to_one(ra.to_set())
    &&& a.sync_all(ns, ra).result is Ok
    &&& b.sync_all(ns, rb).result is Ok
}

/// Both hold what the records tell.
proof fn lemma_both(
    a: StoreV,
    b: StoreV,
    ns: Seq<char>,
    policy: ConflictPolicy,
    ra: Seq<RecordV>,
    rb: Seq<RecordV>,
)
    requires
        take_the_same(a, b, ns, policy, ra, rb),
    ensures
        took(a.sync_all(ns, ra).store, ns, policy, ra.to_set()),
        took(b.sync_all(ns, rb).store, ns, policy, ra.to_set()),
{
    let all = ra.to_set();
    assert(rb.to_set() =~= all) by {
        assert forall|r: RecordV| rb.to_set().contains(r) <==> all.contains(r) by {
            assert(ra.contains(r) <==> rb.contains(r));
        }
    }
    assert forall|i: int| 0 <= i < rb.len() implies (#[trigger] rb[i]).sound() by {
        assert(rb.contains(rb[i]));
        assert(ra.contains(rb[i]));
        assert(ra[ra.index_of(rb[i])].sound());
    }
    assert(with_records(Set::empty(), ra) =~= all);
    assert(with_records(Set::empty(), rb) =~= all);
    lemma_fresh(a, ns, policy);
    lemma_fresh(b, ns, policy);
    lemma_take_all(a, ns, policy, Set::empty(), ra);
    lemma_take_all(b, ns, policy, Set::empty(), rb);
}

/// Stores converge: two nodes that took in the same records hold the same under every
/// key, and show the same value of it, in whatever order the records came, and how
/// often. Where the last writer wins that is the greatest write by clock and replica; a
/// register holds every write; and a delete wins over all writes.
pub proof fn law_stores_converge(
    a: StoreV,
    b: StoreV,
    ns: Seq<char>,
    policy: ConflictPolicy,
    ra: Seq<RecordV>,
    rb: Seq<RecordV>,
    key: Seq<u8>,
)
    requires
        take_the_same(a, b, ns, policy, ra, rb),
        writes_differ(marks_in(ra.to_set()), key),
    ensures
        ({
            let x = a.sync_all(ns, ra).store;
            let y = b.sync_all(ns, rb).store;
            &&& same_entry(x.get(ns, key), y.get(ns, key))
            &&& x.space(ns).cells.shown(key) == y.space(ns).cells.shown(key)
        }),
{
    lemma_both(a, b, ns, policy, ra, rb);
    let x = a.sync_all(ns, ra).store.space(ns).cells;
    let y = b.sync_all(ns, rb).store.space(ns).cells;
    let w = marks_in(ra.to_set());
    assert(holds_at(x, policy, w, key));
    assert(holds_at(y, policy, w, key));
    lemma_same(x, y, policy, w, key);
}

/// What survives is the greatest write: where the last writer wins, a key that a node
/// took in records of shows the write that wins over all others by clock and replica,
/// in whatever order they came; and nothing, once a delete is among them.
pub proof fn law_greatest_write_survives(s: StoreV, ns: Seq<char>, rs: Seq<RecordV>, key: Seq<u8>, m: Mark)
    requires
        is_fresh(s, ns, ConflictPolicy::Lww),
        forall|i: int| 0 <= i < rs.len() ==> (#[trigger] rs[i]).sound(),
        one_to_one(rs.to_set()),
        s.sync_all(ns, rs).result is Ok,
        writes_differ(marks_in(rs.to_set()), key),
        is_top(m, marks_in(rs.to_set()), key),
    ensures
        ({
            let got = s.sync_all(ns, rs).store.get(ns, key);
            if is_del(marks_in(rs.to_set()), key) {
                got is None
            } else {
                got matches Some(EntryV::Lww(v)) && v == entry::version_of(m.op(), v.seq)
            }
        }),
{
    let w = marks_in(rs.to_set());
    let policy = ConflictPolicy::Lww;
    lemma_fresh(s, ns, policy);
    assert(with_records(Set::empty(), rs) =~= rs.to_set());
    lemma_take_all(s, ns, policy, Set::empty(), rs);
    let c = s.sync_all(ns, rs).store.space(ns).cells;
    assert(holds_at(c, policy, w, key));
    if !is_del(w, key) {
        assert(puts(w, m, key));
        reveal(tells);
        reveal(comes_from_top);
        let v = c.index[key]->Lww_0;
        let n = choose|n: Mark| #[trigger] is_top(n, w, key) && carries(v, n);
        assert(puts(w, n, key));
        assert(m.beats(n) && n.beats(m));
        lemma_order(m.op(), n.op(), m.op());
        assert(m.op() == n.op());
    }
}

/// Records of one operation each.
pub open spec fn singles(ops: Seq<OpV>) -> Seq<RecordV> {
    Seq::new(ops.len(), |i: int| model::single(ops[i]))
}

/// Of some writes to a key, each with a clock and replica of its own, the greatest one
/// survives, in whatever order they are taken in; with a delete among them, nothing does.
pub proof fn law_survivor_is_the_greatest(s: StoreV, ns: Seq<char>, ops: Seq<OpV>, key: Seq<u8>, i: int)
    requires
        is_fresh(s, ns, ConflictPolicy::Lww),
        forall|j: int|
            0 <= j < ops.len() ==> record::is_op_tag((#[trigger] ops[j]).tag) && ops[j].key == key && model::single(
                ops[j],
            ).sound(),
        forall|j: int, k: int|
            0 <= j < k < ops.len() ==> (#[trigger] ops[j]).hlc != (#[trigger] ops[k]).hlc || ops[j].replica
                != ops[k].replica,
        s.sync_all(ns, singles(ops)).result is Ok,
        0 <= i < ops.len(),
        ops[i].tag != TAG_DEL,
        forall|j: int|
            0 <= j < ops.len() && (#[trigger] ops[j]).tag != TAG_DEL ==> entry::not_before(
                ops[i].hlc,
                ops[i].replica,
                ops[j].hlc,
                ops[j].replica,
            ),
    ensures
        ({
            let got = s.sync_all(ns, singles(ops)).store.get(ns, key);
            if exists|j: int| 0 <= j < ops.len() && (#[trigger] ops[j]).tag == TAG_DEL {
                got is None
            } else {
                got matches Some(EntryV::Lww(v)) && v == entry::version_of(ops[i], v.seq)
            }
        }),
{
    let rs = singles(ops);
    let w = marks_in(rs.to_set());
    assert forall|m: Mark| #[trigger] w.contains(m) implies m.at == 0 && exists|j: int|
        0 <= j < ops.len() && m.op() == #[trigger] ops[j] && m.from == model::single(ops[j]) by {
        let j = rs.index_of(m.from);
        assert(rs[j] == model::single(ops[j]));
        assert(ops_of(m.from) == seq![ops[j]]);
    }
    assert forall|j: int| 0 <= j < ops.len() implies w.contains(Mark { from: model::single(#[trigger] ops[j]), at: 0 })
        by {
        assert(rs[j] == model::single(ops[j]));
        assert(rs.contains(rs[j]));
    }
    assert forall|a: RecordV, b: RecordV|
        rs.to_set().contains(a) && rs.to_set().contains(b) && #[trigger] model::version_id(a)
            == #[trigger] model::version_id(b) implies a == b by {
        let j = rs.index_of(a);
        let k = rs.index_of(b);
        assert(a == model::single(ops[j]) && b == model::single(ops[k]));
        if j < k {
            assert(ops[j].hlc != ops[k].hlc || ops[j].replica != ops[k].replica);
        } else if k < j {
            assert(ops[k].hlc != ops[j].hlc || ops[k].replica != ops[j].replica);
        }
    }
    assert forall|a: Mark, b: Mark| #[trigger]
        puts(w, a, key) && #[trigger] puts(w, b, key) && a.from != b.from && a.op().hlc == b.op().hlc
            && a.op().replica == b.op().replica implies a.op() == b.op() by {
        assert(w.contains(a) && w.contains(b));
        let j = choose|j: int| 0 <= j < ops.len() && a.op() == #[trigger] ops[j] && a.from == model::single(ops[j]);
        let k = choose|k: int| 0 <= k < ops.len() && b.op() == #[trigger] ops[k] && b.from == model::single(ops[k]);
        if j < k {
            assert(ops[j].hlc != ops[k].hlc || ops[j].replica != ops[k].replica);
        } else if k < j {
            assert(ops[k].hlc != ops[j].hlc || ops[k].replica != ops[j].replica);
        }
    }
    let m = Mark { from: model::single(ops[i]), at: 0 };
    assert(m.op() == ops[i]);
    assert(puts(w, m, key));
    assert forall|n: Mark| #[trigger] puts(w, n, key) implies m.beats(n) by {
        assert(w.contains(n));
        let j = choose|j: int| 0 <= j < ops.len() && n.op() == #[trigger] ops[j] && n.from == model::single(ops[j]);
        assert(ops[j].tag != TAG_DEL);
    }
    law_greatest_write_survives(s, ns, rs, key, m);
    if exists|j: int| 0 <= j < ops.len() && (#[trigger] ops[j]).tag == TAG_DEL {
        let j = choose|j: int| 0 <= j < ops.len() && (#[trigger] ops[j]).tag == TAG_DEL;
        let d = Mark { from: model::single(ops[j]), at: 0 };
        assert(d.op() == ops[j]);
        assert(dels(w, d, key));
    } else if is_del(w, key) {
        let d = choose|d: Mark| #[trigger] dels(w, d, key);
        assert(w.contains(d));
        let j = choose|j: int| 0 <= j < ops.len() && d.op() == #[trigger] ops[j] && d.from == model::single(ops[j]);
        assert(ops[j].tag == TAG_DEL);
    }
}

/// A secondary index answers alike everywhere: over a field, two nodes that took in the
/// same records have the same rows.
pub proof fn law_indexes_agree(
    a: StoreV,
    b: StoreV,
    ns: Seq<char>,
    policy: ConflictPolicy,
    ra: Seq<RecordV>,
    rb: Seq<RecordV>,
    field: Seq<char>,
)
    requires
        take_the_same(a, b, ns, policy, ra, rb),
        forall|key: Seq<u8>| #[trigger] writes_differ(marks_in(ra.to_set()), key),
    ensures
        a.sync_all(ns, ra).store.space(ns).cells.rows(field) == b.sync_all(ns, rb).store.space(ns).cells.rows(field),
{
    let x = a.sync_all(ns, ra).store.space(ns).cells;
    let y = b.sync_all(ns, rb).store.space(ns).cells;
    assert forall|key: Seq<u8>| #[trigger] x.shown(key) == y.shown(key) by {
        assert(writes_differ(marks_in(ra.to_set()), key));
        law_stores_converge(a, b, ns, policy, ra, rb, key);
    }
    assert(x.rows(field) =~= y.rows(field));
}

// ---------- operations on one key ----------

/// What is held after some synced operations, each with the number of its record.
pub open spec fn taken(c: CellsV, ns: Seq<char>, ops: Seq<OpV>, seqs: Seq<u64>) -> CellsV
    decreases ops.len(),
{
    if ops.len() == 0 {
        c
    } else {
        taken(c, ns, ops.drop_last(), seqs).synced(
            ns,
            ConflictPolicy::Lww,
            ops.last(),
            seqs[ops.len() - 1],
        ).cells
    }
}

/// Are they operations on one key, no two with the same clock and replica?
pub open spec fn on_one_key(ops: Seq<OpV>, key: Seq<u8>) -> bool {
    &&& forall|i: int| 0 <= i < ops.len() ==> record::is_op_tag((#[trigger] ops[i]).tag) && ops[i].key == key
    &&& forall|i: int, j: int|
        0 <= i < j < ops.len() ==> (#[trigger] ops[i]).hlc != (#[trigger] ops[j]).hlc || ops[i].replica
            != ops[j].replica
}

/// Is a delete among the operations?
pub open spec fn deletes(ops: Seq<OpV>) -> bool {
    exists|i: int| 0 <= i < ops.len() && (#[trigger] ops[i]).tag == TAG_DEL
}

/// Is the operation the greatest by clock and replica?
pub open spec fn is_greatest(ops: Seq<OpV>, i: int) -> bool {
    0 <= i < ops.len() && forall|j: int|
        0 <= j < ops.len() ==> entry::not_before(
            ops[i].hlc,
            ops[i].replica,
            (#[trigger] ops[j]).hlc,
            ops[j].replica,
        )
}

proof fn lemma_taken(c: CellsV, ns: Seq<char>, ops: Seq<OpV>, seqs: Seq<u64>, key: Seq<u8>)
    requires
        on_one_key(ops, key),
        !c.index.dom().contains(key),
        !c.tombs.dom().contains(key),
    ensures
        ({
            let got = taken(c, ns, ops, seqs);
            &&& got.tombs.dom().contains(key) <==> deletes(ops)
            &&& !deletes(ops) ==> (got.index.dom().contains(key) <==> ops.len() > 0)
            &&& !deletes(ops) && ops.len() > 0 ==> exists|i: int| #[trigger]
                is_greatest(ops, i) && got.index[key] == EntryV::Lww(entry::version_of(ops[i], seqs[i]))
        }),
    decreases ops.len(),
{
    if ops.len() > 0 {
        let front = ops.drop_last();
        let n = front.len() as int;
        let o = ops.last();
        assert(ops[n] == o);
        assert(on_one_key(front, key)) by {
            assert forall|i: int| 0 <= i < front.len() implies record::is_op_tag((#[trigger] front[i]).tag)
                && front[i].key == key by {
                assert(front[i] == ops[i]);
            }
            assert forall|i: int, j: int| 0 <= i < j < front.len() implies (#[trigger] front[i]).hlc != (
            #[trigger] front[j]).hlc || front[i].replica != front[j].replica by {
                assert(front[i] == ops[i] && front[j] == ops[j]);
            }
        }
        lemma_taken(c, ns, front, seqs, key);
        let had = taken(c, ns, front, seqs);
        if deletes(front) {
            let i = choose|i: int| 0 <= i < front.len() && (#[trigger] front[i]).tag == TAG_DEL;
            assert(ops[i].tag == TAG_DEL);
        } else if o.tag != TAG_DEL {
            assert(!deletes(ops)) by {
                if deletes(ops) {
                    let i = choose|i: int| 0 <= i < ops.len() && (#[trigger] ops[i]).tag == TAG_DEL;
                    assert(front[i].tag == TAG_DEL);
                }
            }
            if front.len() == 0 {
                lemma_order(o, o, o);
                assert(is_greatest(ops, n));
            } else {
                let i = choose|i: int| #[trigger]
                    is_greatest(front, i) && had.index[key] == EntryV::Lww(entry::version_of(front[i], seqs[i]));
                assert(front[i] == ops[i]);
                lemma_order(ops[i], o, o);
                if had.stale(o) {
                    assert forall|j: int| 0 <= j < ops.len() implies entry::not_before(
                        ops[i].hlc,
                        ops[i].replica,
                        (#[trigger] ops[j]).hlc,
                        ops[j].replica,
                    ) by {
                        if j < n {
                            assert(front[j] == ops[j]);
                        }
                    }
                    assert(is_greatest(ops, i));
                } else {
                    assert forall|j: int| 0 <= j < ops.len() implies entry::not_before(
                        o.hlc,
                        o.replica,
                        (#[trigger] ops[j]).hlc,
                        ops[j].replica,
                    ) by {
                        lemma_order(o, o, o);
                        if j < n {
                            assert(front[j] == ops[j]);
                            lemma_order(o, ops[i], ops[j]);
                        }
                    }
                    assert(is_greatest(ops, n));
                }
            }
        }
    }
}

/// Of synced operations on a key that held nothing, each with a clock and replica of its
/// own, the greatest one survives where the last writer wins; a delete among them leaves
/// nothing.
pub proof fn law_greatest_operation_survives(c: CellsV, ns: Seq<char>, ops: Seq<OpV>, seqs: Seq<u64>, key: Seq<u8>)
    requires
        on_one_key(ops, key),
        !c.index.dom().contains(key),
        !c.tombs.dom().contains(key),
    ensures
        ({
            let got = taken(c, ns, ops, seqs).get(key);
            &&& deletes(ops) || ops.len() == 0 ==> got is None
            &&& !deletes(ops) && ops.len() > 0 ==> exists|i: int| #[trigger] is_greatest(ops, i)
            &&& !deletes(ops) ==> forall|i: int| #[trigger]
                is_greatest(ops, i) ==> got == Some(EntryV::Lww(entry::version_of(ops[i], seqs[i])))
        }),
{
    lemma_taken(c, ns, ops, seqs, key);
    if !deletes(ops) && ops.len() > 0 {
        let got = taken(c, ns, ops, seqs);
        let i = choose|i: int| #[trigger]
            is_greatest(ops, i) && got.index[key] == EntryV::Lww(entry::version_of(ops[i], seqs[i]));
        assert forall|j: int| #[trigger] is_greatest(ops, j) implies got.get(key) == Some(
            EntryV::Lww(entry::version_of(ops[j], seqs[j])),
        ) by {
            lemma_order(ops[i], ops[j], ops[i]);
            if i < j {
                assert(ops[i].hlc != ops[j].hlc || ops[i].replica != ops[j].replica);
            } else if j < i {
                assert(ops[j].hlc != ops[i].hlc || ops[j].replica != ops[i].replica);
            }
        }
    }
}

/// The order of synced operations on a key does not matter: the same ones leave the same
/// behind, but for the number of its record.
pub proof fn law_order_does_not_matter(
    c: CellsV,
    ns: Seq<char>,
    a: Seq<OpV>,
    b: Seq<OpV>,
    seqs_a: Seq<u64>,
    seqs_b: Seq<u64>,
    key: Seq<u8>,
)
    requires
        on_one_key(a, key),
        on_one_key(b, key),
        forall|o: OpV| a.contains(o) <==> b.contains(o),
        !c.index.dom().contains(key),
        !c.tombs.dom().contains(key),
    ensures
        same_entry(taken(c, ns, a, seqs_a).get(key), taken(c, ns, b, seqs_b).get(key)),
{
    law_greatest_operation_survives(c, ns, a, seqs_a, key);
    law_greatest_operation_survives(c, ns, b, seqs_b, key);
    assert forall|i: int| 0 <= i < a.len() implies b.contains(#[trigger] a[i]) by {
        assert(a.contains(a[i]));
    }
    assert forall|i: int| 0 <= i < b.len() implies a.contains(#[trigger] b[i]) by {
        assert(b.contains(b[i]));
    }
    if deletes(a) {
        let i = choose|i: int| 0 <= i < a.len() && (#[trigger] a[i]).tag == TAG_DEL;
        assert(b[b.index_of(a[i])].tag == TAG_DEL);
    }
    if deletes(b) {
        let i = choose|i: int| 0 <= i < b.len() && (#[trigger] b[i]).tag == TAG_DEL;
        assert(a[a.index_of(b[i])].tag == TAG_DEL);
    }
    if a.len() > 0 {
        assert(b.contains(a[0]));
    }
    if b.len() > 0 {
        assert(a.contains(b[0]));
    }
    if !deletes(a) && a.len() > 0 {
        let i = choose|i: int| #[trigger] is_greatest(a, i);
        let j = b.index_of(a[i]);
        assert(b[j] == a[i]);
        assert forall|k: int| 0 <= k < b.len() implies entry::not_before(
            b[j].hlc,
            b[j].replica,
            (#[trigger] b[k]).hlc,
            b[k].replica,
        ) by {
            assert(a.contains(b[k]));
            assert(a[a.index_of(b[k])] == b[k]);
        }
        assert(is_greatest(b, j));
        let (v, w) = (entry::version_of(a[i], seqs_a[i]), entry::version_of(b[j], seqs_b[j]));
        assert(same_version(v, w));
    }
}

} // verus!
