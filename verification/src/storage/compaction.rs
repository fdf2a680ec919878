//! Compaction: the records that reproduce a namespace's current data, and no others.

use crate::ordmap;
use crate::storage::entry;
use crate::storage::entry::{CellsV, ConflictPolicy, Entry, EntryV, Version, VersionV};
use crate::storage::log;
use crate::storage::log::Log;
use crate::storage::model;
use crate::storage::record;
use crate::storage::record::{Record, RecordV, TAG_DEL, TAG_PUT, TAG_PUT_TTL};
use crate::storage::space::{Space, SpaceV};
use vstd::prelude::*;

verus! {

/// Has the version run out?
pub open spec fn expired(v: VersionV, now_ms: u64) -> bool {
    v.expires_at != 0 && v.expires_at <= now_ms
}

/// The record that writes a version again.
pub open spec fn put_again(key: Seq<u8>, v: VersionV) -> RecordV {
    model::single(model::put_op(key, v.value, v.hlc, v.replica, v.author, v.expires_at))
}

/// The records of those versions of a key that have not run out.
pub open spec fn version_records(key: Seq<u8>, vs: Seq<VersionV>, now_ms: u64) -> Seq<RecordV>
    decreases vs.len(),
{
    if vs.len() == 0 {
        Seq::empty()
    } else if expired(vs.last(), now_ms) {
        version_records(key, vs.drop_last(), now_ms)
    } else {
        version_records(key, vs.drop_last(), now_ms).push(put_again(key, vs.last()))
    }
}

/// The versions of an entry.
pub open spec fn versions_of(e: EntryV) -> Seq<VersionV> {
    match e {
        EntryV::Lww(v) => seq![v],
        EntryV::Register(vs) => vs,
    }
}

/// The records of the live keys of a row: those that a read sees a value of. Where the
/// greatest version has run out, the older ones that it superseded go with it.
pub open spec fn live_records(c: CellsV, keys: Seq<Seq<u8>>, now_ms: u64) -> Seq<RecordV>
    decreases keys.len(),
{
    if keys.len() == 0 {
        Seq::empty()
    } else {
        let front = live_records(c, keys.drop_last(), now_ms);
        let k = keys.last();
        if c.tombs.dom().contains(k) || c.index[k].latest_live(now_ms) is None {
            front
        } else {
            front + version_records(k, versions_of(c.index[k]), now_ms)
        }
    }
}

/// The record that deletes a key again.
pub open spec fn del_again(key: Seq<u8>, hlc: u64) -> RecordV {
    model::single(model::del_op(key, hlc, log::zero_head(), log::zero_head()))
}

/// One delete for each tombstoned key of a row.
pub open spec fn tomb_records(c: CellsV, keys: Seq<Seq<u8>>) -> Seq<RecordV> {
    Seq::new(keys.len(), |i: int| del_again(keys[i], c.tombs[keys[i]]))
}

/// The records that reproduce the data: every unexpired version of each key that a read
/// sees a value of, and one delete for each tombstoned key.
pub open spec fn kept(c: CellsV, now_ms: u64) -> Seq<RecordV> {
    live_records(c, ordmap::listed(c.index.dom()), now_ms) + tomb_records(c, ordmap::listed(c.tombs.dom()))
}

/// Every kept record fits its length fields.
pub open spec fn kept_fits(c: CellsV, now_ms: u64) -> bool {
    forall|i: int| 0 <= i < kept(c, now_ms).len() ==> (#[trigger] kept(c, now_ms)[i]).fits()
}

/// The data that records give, applied in order behind `off` others.
pub open spec fn rebuilt(
    ns: Seq<char>,
    policy: ConflictPolicy,
    c: CellsV,
    recs: Seq<RecordV>,
    off: int,
) -> CellsV
    decreases recs.len(),
{
    if recs.len() == 0 {
        c
    } else {
        rebuilt(ns, policy, c, recs.drop_last(), off).synced(
            ns,
            policy,
            recs.last().op,
            (off + recs.len()) as u64,
        ).cells
    }
}

/// The namespace after compaction.
pub open spec fn compacted(ns: Seq<char>, sp: SpaceV, now_ms: u64) -> SpaceV {
    let recs = kept(sp.cells, now_ms);
    SpaceV {
        log: log::fresh_log(recs),
        cells: rebuilt(ns, sp.policy, CellsV::empty(), recs, 0),
        ..sp
    }
}

fn version_expired(v: &Version, now_ms: u64) -> (r: bool)
    ensures
        r == expired(v@, now_ms),
{
    v.expires_at != 0 && v.expires_at <= now_ms
}

fn put_record(key: &Vec<u8>, v: &Version) -> (r: Record)
    ensures
        r@ == put_again(key@, v@),
        r@.canonical(),
{
    let r = Record {
        tag: if v.expires_at == 0 {
            TAG_PUT
        } else {
            TAG_PUT_TTL
        },
        key: key.clone(),
        hlc: v.hlc,
        replica: v.replica,
        author: v.author,
        value: v.value.clone(),
        expires_at: v.expires_at,
        ops: Vec::new(),
    };
    assert(r@.ops =~= Seq::empty());
    r
}

fn del_record(key: &Vec<u8>, hlc: u64) -> (r: Record)
    ensures
        r@ == del_again(key@, hlc),
        r@.canonical(),
{
    let zero = [0u8; 32];
    let r = Record {
        tag: TAG_DEL,
        key: key.clone(),
        hlc,
        replica: zero,
        author: zero,
        value: Vec::new(),
        expires_at: 0,
        ops: Vec::new(),
    };
    assert(zero@ =~= log::zero_head());
    assert(r@.ops =~= Seq::empty());
    assert(r@.op.value =~= Seq::empty());
    r
}

/// All records are canonical.
spec fn all_canonical(rs: Seq<Record>) -> bool {
    forall|i: int| 0 <= i < rs.len() ==> (#[trigger] rs[i])@.canonical()
}

/// Put the records of those versions of a key that have not run out behind `out`.
fn push_versions(out: &mut Vec<Record>, key: &Vec<u8>, vs: &Vec<Version>, now_ms: u64)
    requires
        all_canonical(old(out)@),
    ensures
        all_canonical(final(out)@),
        log::record_views(final(out)@) == log::record_views(old(out)@) + version_records(
            key@,
            entry::version_views(vs@),
            now_ms,
        ),
{
    let ghost start = log::record_views(out@);
    let ghost all = entry::version_views(vs@);
    let mut i: usize = 0;
    proof {
        assert(version_records(key@, all.take(0), now_ms) =~= Seq::empty());
        assert(start + Seq::<RecordV>::empty() =~= start);
    }
    while i < vs.len()
        invariant
            i <= vs@.len(),
            all == entry::version_views(vs@),
            all_canonical(out@),
            log::record_views(out@) == start + version_records(key@, all.take(i as int), now_ms),
        decreases vs@.len() - i,
    {
        let ghost had = log::record_views(out@);
        proof {
            assert(all.take(i + 1).drop_last() =~= all.take(i as int));
        }
        if !version_expired(&vs[i], now_ms) {
            let r = put_record(key, &vs[i]);
            let ghost rv = r@;
            out.push(r);
            proof {
                assert(log::record_views(out@) =~= had.push(rv));
                assert(log::record_views(out@) =~= start + version_records(key@, all.take(i + 1), now_ms));
            }
        }
        i += 1;
    }
    assert(all.take(i as int) =~= all);
}

impl Space {
    /// The records that reproduce the data. See [`kept`].
    pub fn kept_records(&self, now_ms: u64) -> (out: Vec<Record>)
        requires
            self.wf(),
        ensures
            log::record_views(out@) == kept(self.cells(), now_ms),
            forall|i: int| 0 <= i < out@.len() ==> (#[trigger] out@[i])@.canonical(),
    {
        let ghost c = self.cells();
        let ghost keys = self.index.key_seq();
        let ghost dels = self.tombs.key_seq();
        let mut out: Vec<Record> = Vec::new();
        proof {
            self.index.lemma_keys();
            self.tombs.lemma_keys();
            assert(log::record_views(out@) =~= Seq::empty());
            assert(live_records(c, keys.take(0), now_ms) =~= Seq::empty());
        }
        let mut i: usize = 0;
        while i < self.index.len()
            invariant
                i <= keys.len(),
                self.wf(),
                c == self.cells(),
                keys == self.index.key_seq(),
                all_canonical(out@),
                log::record_views(out@) == live_records(c, keys.take(i as int), now_ms),
            decreases keys.len() - i,
        {
            let key = self.index.key_at(i);
            let ghost had = log::record_views(out@);
            proof {
                assert(keys.take(i + 1).drop_last() =~= keys.take(i as int));
                assert(keys.take(i + 1).last() == key@);
            }
            let e = self.index.val_at(i);
            if !self.tombs.contains_key(key.as_slice()) && e.latest_live(now_ms).is_some() {
                match e {
                    Entry::Lww(v) => {
                        proof {
                            let one = seq![v@];
                            assert(one.drop_last() =~= Seq::empty());
                            assert(version_records(key@, one.drop_last(), now_ms) =~= Seq::empty());
                            assert(had + Seq::<RecordV>::empty() =~= had);
                        }
                        if !version_expired(v, now_ms) {
                            let r = put_record(key, v);
                            let ghost rv = r@;
                            out.push(r);
                            assert(log::record_views(out@) =~= had.push(rv));
                            assert(log::record_views(out@) =~= had + version_records(key@, seq![v@], now_ms));
                        }
                    },
                    Entry::Register(vs) => {
                        push_versions(&mut out, key, vs, now_ms);
                    },
                }
            }
            i += 1;
        }
        let ghost live = live_records(c, keys, now_ms);
        proof {
            assert(keys.take(i as int) =~= keys);
            assert(log::record_views(out@) =~= live + tomb_records(c, dels).take(0));
        }
        let mut j: usize = 0;
        while j < self.tombs.len()
            invariant
                j <= dels.len(),
                self.wf(),
                c == self.cells(),
                dels == self.tombs.key_seq(),
                all_canonical(out@),
                log::record_views(out@) == live + tomb_records(c, dels).take(j as int),
            decreases dels.len() - j,
        {
            let key = self.tombs.key_at(j);
            let hlc: u64 = *self.tombs.val_at(j);
            let ghost had = log::record_views(out@);
            let r = del_record(key, hlc);
            let ghost rv = r@;
            out.push(r);
            proof {
                assert(log::record_views(out@) =~= had.push(rv));
                assert(rv == tomb_records(c, dels)[j as int]);
                assert(log::record_views(out@) =~= live + tomb_records(c, dels).take(j + 1));
            }
            j += 1;
        }
        assert(tomb_records(c, dels).take(j as int) =~= tomb_records(c, dels));
        out
    }

    /// Can the namespace be compacted?
    pub fn can_compact(&self, now_ms: u64) -> (r: bool)
        requires
            self.wf(),
        ensures
            r == kept_fits(self.cells(), now_ms),
    {
        let out = self.kept_records(now_ms);
        let mut i: usize = 0;
        let ghost all = kept(self.cells(), now_ms);
        while i < out.len()
            invariant
                i <= out@.len(),
                all == kept(self.cells(), now_ms),
                log::record_views(out@) == all,
                forall|j: int| 0 <= j < i ==> (#[trigger] all[j]).fits(),
            decreases out@.len() - i,
        {
            assert(all[i as int] == out@[i as int]@);
            if !out[i].fits() {
                return false;
            }
            i += 1;
        }
        true
    }

    /// Compact the namespace: a fresh log of the kept records, and the data they give.
    pub fn compact(&mut self, now_ms: u64)
        requires
            old(self).wf(),
            kept_fits(old(self).cells(), now_ms),
        ensures
            final(self).wf(),
            final(self).name == old(self).name,
            final(self)@ == compacted(old(self).name@, old(self)@, now_ms),
    {
        let recs = self.kept_records(now_ms);
        let ghost all = kept(self.cells(), now_ms);
        proof {
            assert forall|i: int| 0 <= i < recs@.len() implies (#[trigger] recs@[i])@.fits()
                && recs@[i]@.canonical() by {
                assert(all[i] == recs@[i]@);
            }
        }
        let log = Log::write_fresh(&recs);
        let fields = self.field_names();
        let name = self.name.clone();
        let mut sp = Space::fresh(name, self.policy, log);
        let ghost empty = sp@;
        let ghost ns = self.name@;
        let mut i: usize = 0;
        proof {
            lemma_kept_are_ops(self.cells(), now_ms);
            assert(all.take(0) =~= Seq::empty());
        }
        while i < recs.len()
            invariant
                i <= recs@.len(),
                sp.wf(),
                sp.name@ == ns,
                sp.policy == empty.policy,
                log::record_views(recs@) == all,
                sp@ == (SpaceV {
                    cells: rebuilt(ns, empty.policy, CellsV::empty(), all.take(i as int), 0),
                    ..empty
                }),
                forall|j: int| 0 <= j < all.len() ==> record::is_op_tag((#[trigger] all[j]).op.tag),
                sp.policy is CrdtRegister ==> registers(sp.cells()),
            decreases recs@.len() - i,
        {
            proof {
                assert(all[i as int] == recs@[i as int]@);
                assert(all.take(i + 1).drop_last() =~= all.take(i as int));
                assert(all.take(i + 1).last() == all[i as int]);
            }
            let _ = sp.apply_record_op(&recs[i], i as u64 + 1);
            i += 1;
        }
        assert(all.take(i as int) =~= all);
        sp.set_fields(fields);
        self.log = sp.log;
        self.index = sp.index;
        self.tombs = sp.tombs;
        self.sec = sp.sec;
    }

    /// The fields that have a secondary index.
    fn field_names(&self) -> (r: Vec<String>)
        ensures
            crate::json::texts(r@) == self@.fields,
    {
        let mut out: Vec<String> = Vec::new();
        let mut i: usize = 0;
        while i < self.sec.len()
            invariant
                i <= self.sec@.len(),
                out@.len() == i,
                forall|j: int| 0 <= j < i ==> (#[trigger] out@[j])@ == self.sec@[j].field@,
            decreases self.sec@.len() - i,
        {
            out.push(self.sec[i].field.clone());
            i += 1;
        }
        assert(crate::json::texts(out@) =~= self@.fields);
        out
    }
}

/// Every entry is a register.
pub open spec fn registers(c: CellsV) -> bool {
    forall|k: Seq<u8>| #[trigger] c.index.dom().contains(k) ==> c.index[k] is Register
}

proof fn lemma_versions_are_ops(key: Seq<u8>, vs: Seq<VersionV>, now_ms: u64)
    ensures
        forall|i: int|
            0 <= i < version_records(key, vs, now_ms).len() ==> record::is_op_tag(
                (#[trigger] version_records(key, vs, now_ms)[i]).op.tag,
            ),
    decreases vs.len(),
{
    if vs.len() > 0 {
        lemma_versions_are_ops(key, vs.drop_last(), now_ms);
        let front = version_records(key, vs.drop_last(), now_ms);
        let all = version_records(key, vs, now_ms);
        assert forall|i: int| 0 <= i < all.len() implies record::is_op_tag((#[trigger] all[i]).op.tag) by {
            if i < front.len() {
                assert(all[i] == front[i]);
            }
        }
    }
}

proof fn lemma_live_are_ops(c: CellsV, keys: Seq<Seq<u8>>, now_ms: u64)
    ensures
        forall|i: int|
            0 <= i < live_records(c, keys, now_ms).len() ==> record::is_op_tag(
                (#[trigger] live_records(c, keys, now_ms)[i]).op.tag,
            ),
    decreases keys.len(),
{
    if keys.len() > 0 {
        lemma_live_are_ops(c, keys.drop_last(), now_ms);
        let k = keys.last();
        lemma_versions_are_ops(k, versions_of(c.index[k]), now_ms);
        let front = live_records(c, keys.drop_last(), now_ms);
        let mine = version_records(k, versions_of(c.index[k]), now_ms);
        let all = live_records(c, keys, now_ms);
        assert forall|i: int| 0 <= i < all.len() implies record::is_op_tag((#[trigger] all[i]).op.tag) by {
            if i < front.len() {
                assert(all[i] == front[i]);
            } else {
                assert(all[i] == mine[i - front.len()]);
            }
        }
    }
}

proof fn lemma_kept_are_ops(c: CellsV, now_ms: u64)
    ensures
        forall|i: int|
            0 <= i < kept(c, now_ms).len() ==> record::is_op_tag((#[trigger] kept(c, now_ms)[i]).op.tag),
{
    lemma_live_are_ops(c, ordmap::listed(c.index.dom()), now_ms);
}

// ---------- what compaction keeps ----------

/// The versions that have not run out.
pub open spec fn unexpired(vs: Seq<VersionV>, now_ms: u64) -> Seq<VersionV>
    decreases vs.len(),
{
    if vs.len() == 0 {
        Seq::empty()
    } else if expired(vs.last(), now_ms) {
        unexpired(vs.drop_last(), now_ms)
    } else {
        unexpired(vs.drop_last(), now_ms).push(vs.last())
    }
}

/// The version without its record number.
pub open spec fn unnumbered(v: VersionV) -> VersionV {
    VersionV { seq: 0, ..v }
}

/// The same versions in the same order, but for their record numbers.
pub open spec fn same_versions(a: Seq<VersionV>, b: Seq<VersionV>) -> bool {
    a.len() == b.len() && forall|i: int|
        0 <= i < a.len() ==> unnumbered(#[trigger] a[i]) == unnumbered(b[i])
}

proof fn lemma_rebuilt_concat(
    ns: Seq<char>,
    policy: ConflictPolicy,
    c: CellsV,
    a: Seq<RecordV>,
    b: Seq<RecordV>,
    off: int,
)
    ensures
        rebuilt(ns, policy, c, a + b, off) == rebuilt(
            ns,
            policy,
            rebuilt(ns, policy, c, a, off),
            b,
            off + a.len(),
        ),
    decreases b.len(),
{
    if b.len() == 0 {
        assert(a + b =~= a);
    } else {
        lemma_rebuilt_concat(ns, policy, c, a, b.drop_last(), off);
        assert((a + b).drop_last() =~= a + b.drop_last());
        assert((a + b).last() == b.last());
    }
}

proof fn lemma_records_of(key: Seq<u8>, vs: Seq<VersionV>, now_ms: u64)
    ensures
        version_records(key, vs, now_ms).len() == unexpired(vs, now_ms).len(),
        forall|i: int|
            0 <= i < unexpired(vs, now_ms).len() ==> #[trigger] version_records(key, vs, now_ms)[i]
                == put_again(key, unexpired(vs, now_ms)[i]),
    decreases vs.len(),
{
    if vs.len() > 0 {
        lemma_records_of(key, vs.drop_last(), now_ms);
        let front = unexpired(vs.drop_last(), now_ms);
        let recs = version_records(key, vs, now_ms);
        assert forall|i: int| 0 <= i < unexpired(vs, now_ms).len() implies #[trigger] recs[i] == put_again(
            key,
            unexpired(vs, now_ms)[i],
        ) by {
            if i < front.len() {
                assert(recs[i] == version_records(key, vs.drop_last(), now_ms)[i]);
            }
        }
    }
}

/// Writing the unexpired versions of a register again gives a register of them.
proof fn lemma_register_again(
    ns: Seq<char>,
    c: CellsV,
    key: Seq<u8>,
    vs: Seq<VersionV>,
    now_ms: u64,
    off: int,
)
    requires
        !c.index.dom().contains(key),
    ensures
        ({
            let out = rebuilt(
                ns,
                ConflictPolicy::CrdtRegister,
                c,
                version_records(key, vs, now_ms),
                off,
            );
            let live = unexpired(vs, now_ms);
            if live.len() == 0 {
                out == c
            } else {
                &&& out.tombs == c.tombs
                &&& out.index.dom() == c.index.dom().insert(key)
                &&& out.index[key] is Register
                &&& same_versions(out.index[key]->Register_0, live)
                &&& forall|k: Seq<u8>| #![trigger out.index[k]] k != key ==> out.index[k] == c.index[k]
            }
        }),
    decreases vs.len(),
{
    if vs.len() > 0 {
        let p = ConflictPolicy::CrdtRegister;
        let front = vs.drop_last();
        lemma_register_again(ns, c, key, front, now_ms, off);
        lemma_records_of(key, front, now_ms);
        let had = rebuilt(ns, p, c, version_records(key, front, now_ms), off);
        if !expired(vs.last(), now_ms) {
            let recs = version_records(key, vs, now_ms);
            assert(recs.drop_last() =~= version_records(key, front, now_ms));
            let out = rebuilt(ns, p, c, recs, off);
            let v = entry::version_of(recs.last().op, (off + recs.len()) as u64);
            assert(out == had.add_version(ns, key, v).cells);
            assert(unnumbered(v) =~= unnumbered(vs.last()));
            let live = unexpired(vs, now_ms);
            let ws = out.index[key]->Register_0;
            assert(out.index.dom() =~= c.index.dom().insert(key));
            assert forall|i: int| 0 <= i < ws.len() implies unnumbered(#[trigger] ws[i]) == unnumbered(live[i]) by {
                if unexpired(front, now_ms).len() > 0 && i < ws.len() - 1 {
                    let old = had.index[key]->Register_0;
                    assert(ws[i] == old[i]);
                    assert(unnumbered(old[i]) == unnumbered(unexpired(front, now_ms)[i]));
                }
            }
        }
    }
}

/// What the records of the live keys of a row give.
spec fn live_like(out: CellsV, c: CellsV, keys: Seq<Seq<u8>>, now_ms: u64) -> bool {
    &&& out.tombs == Map::<Seq<u8>, u64>::empty()
    &&& forall|k: Seq<u8>| #[trigger]
        out.index.dom().contains(k) <==> {
            &&& keys.contains(k)
            &&& !c.tombs.dom().contains(k)
            &&& c.index[k].latest_live(now_ms) is Some
        }
    &&& forall|k: Seq<u8>| #[trigger]
        out.index.dom().contains(k) ==> same_versions(
            versions_of(out.index[k]),
            unexpired(versions_of(c.index[k]), now_ms),
        )
}

proof fn lemma_live_again(ns: Seq<char>, policy: ConflictPolicy, c: CellsV, keys: Seq<Seq<u8>>, now_ms: u64)
    requires
        ordmap::ascending(keys),
        entry::fits_policy(c, policy),
        forall|i: int| 0 <= i < keys.len() ==> c.index.dom().contains(#[trigger] keys[i]),
    ensures
        live_like(
            rebuilt(ns, policy, CellsV::empty(), live_records(c, keys, now_ms), 0),
            c,
            keys,
            now_ms,
        ),
    decreases keys.len(),
{
    if keys.len() == 0 {
        assert(rebuilt(ns, policy, CellsV::empty(), live_records(c, keys, now_ms), 0) == CellsV::empty());
    } else {
        let front = keys.drop_last();
        let k = keys.last();
        assert(k == keys[keys.len() - 1]);
        assert forall|i: int| 0 <= i < front.len() implies c.index.dom().contains(#[trigger] front[i]) by {
            assert(front[i] == keys[i]);
        }
        assert(ordmap::ascending(front)) by {
            assert forall|i: int, j: int| 0 <= i < j < front.len() implies ordmap::lex_lt(
                #[trigger] front[i],
                #[trigger] front[j],
            ) by {
                assert(ordmap::lex_lt(keys[i], keys[j]));
            }
        }
        lemma_live_again(ns, policy, c, front, now_ms);
        let had = rebuilt(ns, policy, CellsV::empty(), live_records(c, front, now_ms), 0);
        let out = rebuilt(ns, policy, CellsV::empty(), live_records(c, keys, now_ms), 0);
        assert(!front.contains(k)) by {
            if front.contains(k) {
                let i = front.index_of(k);
                assert(ordmap::lex_lt(keys[i], keys[keys.len() - 1]));
                ordmap::lemma_lex_irreflexive(k);
            }
        }
        assert forall|q: Seq<u8>| keys.contains(q) <==> front.contains(q) || q == k by {
            if front.contains(q) {
                let i = front.index_of(q);
                assert(keys[i] == q);
            }
            if keys.contains(q) && q != k {
                let i = keys.index_of(q);
                assert(front[i] == q);
            }
        }
        if !c.tombs.dom().contains(k) && c.index[k].latest_live(now_ms) is Some {
            let vs = versions_of(c.index[k]);
            lemma_latest_unexpired(vs, now_ms);
            lemma_latest_alone(c.index[k]);
            let mine = version_records(k, vs, now_ms);
            let n = live_records(c, front, now_ms).len() as int;
            lemma_rebuilt_concat(ns, policy, CellsV::empty(), live_records(c, front, now_ms), mine, 0);
            assert(out == rebuilt(ns, policy, had, mine, n));
            assert(!had.index.dom().contains(k));
            lemma_entry_again(ns, policy, had, k, c.index[k], now_ms, n);
        }
        assert(live_like(out, c, keys, now_ms));
    }
}

/// Writing the unexpired versions of an entry again gives the entry without the rest.
proof fn lemma_entry_again(
    ns: Seq<char>,
    policy: ConflictPolicy,
    c: CellsV,
    key: Seq<u8>,
    e: EntryV,
    now_ms: u64,
    off: int,
)
    requires
        !c.index.dom().contains(key),
        match policy {
            ConflictPolicy::Lww => e is Lww,
            ConflictPolicy::CrdtRegister => e is Register,
        },
    ensures
        ({
            let out = rebuilt(ns, policy, c, version_records(key, versions_of(e), now_ms), off);
            let live = unexpired(versions_of(e), now_ms);
            if live.len() == 0 {
                out == c
            } else {
                &&& out.tombs == c.tombs
                &&& out.index.dom() == c.index.dom().insert(key)
                &&& same_versions(versions_of(out.index[key]), live)
                &&& forall|k: Seq<u8>| #![trigger out.index[k]] k != key ==> out.index[k] == c.index[k]
            }
        }),
{
    let vs = versions_of(e);
    let live = unexpired(vs, now_ms);
    match policy {
        ConflictPolicy::Lww => {
            let v = e->Lww_0;
            let recs = version_records(key, vs, now_ms);
            assert(vs.drop_last() =~= Seq::empty());
            assert(version_records(key, vs.drop_last(), now_ms) =~= Seq::empty());
            assert(unexpired(vs.drop_last(), now_ms) =~= Seq::empty());
            if !expired(v, now_ms) {
                assert(recs =~= seq![put_again(key, v)]);
                assert(recs.drop_last() =~= Seq::empty());
                let out = rebuilt(ns, policy, c, recs, off);
                let w = entry::version_of(recs.last().op, (off + 1) as u64);
                assert(rebuilt(ns, policy, c, recs.drop_last(), off) == c);
                assert(out == c.with_entry(key, EntryV::Lww(w)));
                assert(out.index.dom() =~= c.index.dom().insert(key));
                assert(unnumbered(w) =~= unnumbered(v));
                assert(live =~= seq![v]);
            }
        },
        ConflictPolicy::CrdtRegister => {
            lemma_register_again(ns, c, key, vs, now_ms, off);
        },
    }
}

/// The deletes put the tombstones back and touch no live key.
proof fn lemma_tombs_again(
    ns: Seq<char>,
    policy: ConflictPolicy,
    live: CellsV,
    c: CellsV,
    keys: Seq<Seq<u8>>,
    off: int,
)
    requires
        live.tombs == Map::<Seq<u8>, u64>::empty(),
        forall|i: int|
            0 <= i < keys.len() ==> c.tombs.dom().contains(#[trigger] keys[i]) && !live.index.dom().contains(
                keys[i],
            ),
    ensures
        ({
            let out = rebuilt(ns, policy, live, tomb_records(c, keys), off);
            &&& out.index == live.index
            &&& forall|k: Seq<u8>| #[trigger] out.tombs.dom().contains(k) <==> keys.contains(k)
            &&& forall|k: Seq<u8>| #[trigger] out.tombs.dom().contains(k) ==> out.tombs[k] == c.tombs[k]
        }),
    decreases keys.len(),
{
    let recs = tomb_records(c, keys);
    if keys.len() > 0 {
        let front = keys.drop_last();
        let k = keys.last();
        assert(k == keys[keys.len() - 1]);
        assert forall|i: int| 0 <= i < front.len() implies c.tombs.dom().contains(#[trigger] front[i])
            && !live.index.dom().contains(front[i]) by {
            assert(front[i] == keys[i]);
        }
        lemma_tombs_again(ns, policy, live, c, front, off);
        assert(recs.drop_last() =~= tomb_records(c, front));
        let had = rebuilt(ns, policy, live, tomb_records(c, front), off);
        let out = rebuilt(ns, policy, live, recs, off);
        assert(out == had.bury(k, c.tombs[k]));
        assert(out.index =~= live.index);
        assert forall|q: Seq<u8>| #[trigger] out.tombs.dom().contains(q) <==> keys.contains(q) by {
            if front.contains(q) {
                let i = front.index_of(q);
                assert(keys[i] == q);
            }
            if keys.contains(q) && q != k {
                let i = keys.index_of(q);
                assert(front[i] == q);
            }
        }
    }
}

/// Compaction keeps what is read: every tombstone stays, a key that a read sees a value of
/// keeps exactly its unexpired versions in their order, and any other is gone. Only the
/// record numbers change.
pub proof fn law_compaction_keeps_data(ns: Seq<char>, policy: ConflictPolicy, c: CellsV, now_ms: u64)
    requires
        entry::fits_policy(c, policy),
        crate::storage::snapshot::listable(c.index),
        crate::storage::snapshot::listable(c.tombs),
    ensures
        ({
            let after = rebuilt(ns, policy, CellsV::empty(), kept(c, now_ms), 0);
            &&& after.tombs == c.tombs
            &&& forall|k: Seq<u8>|
                #![trigger after.get(k)]
                after.get(k) is Some <==> (c.get(k) matches Some(e) && e.latest_live(now_ms) is Some)
            &&& forall|k: Seq<u8>|
                #![trigger after.get(k)]
                after.get(k) is Some ==> same_versions(
                    versions_of(after.get(k)->0),
                    unexpired(versions_of(c.get(k)->0), now_ms),
                )
        }),
{
    let keys = ordmap::listed(c.index.dom());
    let dels = ordmap::listed(c.tombs.dom());
    let live = rebuilt(ns, policy, CellsV::empty(), live_records(c, keys, now_ms), 0);
    let after = rebuilt(ns, policy, CellsV::empty(), kept(c, now_ms), 0);
    assert forall|i: int| 0 <= i < keys.len() implies c.index.dom().contains(#[trigger] keys[i]) by {
        assert(keys.contains(keys[i]));
    }
    lemma_live_again(ns, policy, c, keys, now_ms);
    lemma_rebuilt_concat(
        ns,
        policy,
        CellsV::empty(),
        live_records(c, keys, now_ms),
        tomb_records(c, dels),
        0,
    );
    assert forall|i: int| 0 <= i < dels.len() implies c.tombs.dom().contains(#[trigger] dels[i])
        && !live.index.dom().contains(dels[i]) by {
        assert(dels.contains(dels[i]));
    }
    lemma_tombs_again(ns, policy, live, c, dels, live_records(c, keys, now_ms).len() as int);
    assert forall|k: Seq<u8>| #[trigger] after.tombs.dom().contains(k) <==> c.tombs.dom().contains(k) by {
        assert(dels.contains(k) <==> c.tombs.dom().contains(k));
    }
    assert(after.tombs =~= c.tombs);
    assert forall|k: Seq<u8>|
        #![trigger after.get(k)]
        after.get(k) is Some <==> (c.get(k) matches Some(e) && e.latest_live(now_ms) is Some) by {
        assert(keys.contains(k) <==> c.index.dom().contains(k));
        assert(live.index.dom().contains(k) == after.index.dom().contains(k));
    }
    assert forall|k: Seq<u8>| #![trigger after.get(k)] after.get(k) is Some implies same_versions(
        versions_of(after.get(k)->0),
        unexpired(versions_of(c.get(k)->0), now_ms),
    ) by {
        assert(live.index.dom().contains(k));
    }
}

/// The version that a read of a key sees, but for its record number.
pub open spec fn seen_of(e: Option<EntryV>, at_ms: u64) -> Option<VersionV> {
    match e {
        Some(e) => match e.latest_live(at_ms) {
            Some(v) => Some(unnumbered(v)),
            None => None,
        },
        None => None,
    }
}

proof fn lemma_latest_unexpired(vs: Seq<VersionV>, now_ms: u64)
    ensures
        ({
            let u = unexpired(vs, now_ms);
            match (entry::latest_of(vs), entry::latest_of(u)) {
                (None, w) => w is None && u.len() == 0,
                (Some(v), None) => u.len() == 0 && expired(v, now_ms),
                (Some(v), Some(w)) => entry::not_before(v.hlc, v.replica, w.hlc, w.replica) && (!expired(v, now_ms)
                    ==> w == v),
            }
        }),
    decreases vs.len(),
{
    if vs.len() > 0 {
        let front = vs.drop_last();
        let last = vs.last();
        lemma_latest_unexpired(front, now_ms);
        let u = unexpired(front, now_ms);
        if !expired(last, now_ms) {
            assert(u.push(last).drop_last() =~= u);
        }
        entry::lemma_write_order(last.hlc, last.replica, last.hlc, last.replica, last.hlc, last.replica);
        if let Some(v) = entry::latest_of(front) {
            entry::lemma_write_order(last.hlc, last.replica, v.hlc, v.replica, v.hlc, v.replica);
            if let Some(w) = entry::latest_of(u) {
                entry::lemma_write_order(last.hlc, last.replica, v.hlc, v.replica, w.hlc, w.replica);
            }
        }
    }
}

proof fn lemma_latest_same(a: Seq<VersionV>, b: Seq<VersionV>)
    requires
        same_versions(a, b),
    ensures
        match (entry::latest_of(a), entry::latest_of(b)) {
            (Some(x), Some(y)) => unnumbered(x) == unnumbered(y),
            (x, y) => x is None && y is None,
        },
    decreases a.len(),
{
    if a.len() > 0 {
        let (x, y) = (a.drop_last(), b.drop_last());
        assert forall|i: int| 0 <= i < x.len() implies unnumbered(#[trigger] x[i]) == unnumbered(y[i]) by {
            assert(x[i] == a[i] && y[i] == b[i]);
        }
        lemma_latest_same(x, y);
        assert(unnumbered(a[a.len() - 1]) == unnumbered(b[a.len() - 1]));
        let (p, q) = (unnumbered(a.last()), unnumbered(b.last()));
        assert(p.hlc == q.hlc && p.replica == q.replica);
        if let (Some(v), Some(w)) = (entry::latest_of(x), entry::latest_of(y)) {
            let (v0, w0) = (unnumbered(v), unnumbered(w));
            assert(v0.hlc == w0.hlc && v0.replica == w0.replica);
        }
    }
}

/// Reads see the same after compaction as before it, from then on: a deleted or expired
/// key reads as absent, and any other shows its greatest version.
pub proof fn law_compaction_keeps_reads(
    ns: Seq<char>,
    policy: ConflictPolicy,
    c: CellsV,
    now_ms: u64,
    key: Seq<u8>,
    at_ms: u64,
)
    requires
        entry::fits_policy(c, policy),
        crate::storage::snapshot::listable(c.index),
        crate::storage::snapshot::listable(c.tombs),
        now_ms <= at_ms,
    ensures
        seen_of(rebuilt(ns, policy, CellsV::empty(), kept(c, now_ms), 0).get(key), at_ms) == seen_of(
            c.get(key),
            at_ms,
        ),
{
    law_compaction_keeps_data(ns, policy, c, now_ms);
    let after = rebuilt(ns, policy, CellsV::empty(), kept(c, now_ms), 0);
    if let Some(e) = c.get(key) {
        let vs = versions_of(e);
        lemma_latest_unexpired(vs, now_ms);
        lemma_latest_alone(e);
        if let Some(f) = after.get(key) {
            lemma_latest_alone(f);
            lemma_latest_same(versions_of(f), unexpired(vs, now_ms));
            if let (Some(v), Some(w)) = (e.latest(), f.latest()) {
                assert(unnumbered(v) == unnumbered(w));
                assert(unnumbered(v).expires_at == unnumbered(w).expires_at);
            }
        }
    }
}

/// What is seen of an entry is the greatest of its versions.
proof fn lemma_latest_alone(e: EntryV)
    ensures
        e.latest() == entry::latest_of(versions_of(e)),
{
    match e {
        EntryV::Lww(v) => {
            assert(versions_of(e).drop_last() =~= Seq::empty());
            assert(entry::latest_of(Seq::<VersionV>::empty()) is None);
        },
        EntryV::Register(_) => {},
    }
}

} // verus!
