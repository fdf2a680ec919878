//! What holds of a store's listings, indexes and synced records.

use crate::hash;
use crate::json;
use crate::ordmap;
use crate::storage::entry;
use crate::storage::entry::{CellsV, EntryV};
use crate::storage::error::StorageFault;
use crate::storage::model;
use crate::storage::model::StoreV;
use crate::storage::record;
use crate::storage::record::{OpV, Record, TAG_INDEX};
use crate::storage::rows::RowV;
use crate::storage::space;
use crate::storage::store;
use crate::storage::store::recovery;
use crate::storage::store::Store;
use crate::text;
use vstd::prelude::*;

verus! {

// ---------- scans ----------

/// What stands in a listing of a row of keys.
proof fn lemma_under(c: CellsV, ks: Seq<Seq<u8>>, prefix: Seq<u8>)
    requires
        ordmap::ascending(ks),
    ensures
        ({
            let l = store::under(c, ks, prefix);
            &&& l.len() == store::keys_under(c, ks, prefix).len()
            &&& forall|i: int|
                0 <= i < l.len() ==> (#[trigger] l[i]).0 == store::keys_under(c, ks, prefix)[i] && ks.contains(l[i].0)
                    && store::has_prefix(l[i].0, prefix) && c.get(l[i].0) == Some(l[i].1)
            &&& forall|i: int, j: int|
                0 <= i < j < l.len() ==> ordmap::lex_lt((#[trigger] l[i]).0, (#[trigger] l[j]).0)
            &&& forall|k: Seq<u8>|
                #![trigger c.get(k)]
                ks.contains(k) && store::has_prefix(k, prefix) && c.get(k) is Some ==> l.contains((k, c.get(k)->0))
        }),
    decreases ks.len(),
{
    if ks.len() > 0 {
        let front = ks.drop_last();
        let last = ks.last();
        assert(ordmap::ascending(front)) by {
            assert forall|i: int, j: int| 0 <= i < j < front.len() implies ordmap::lex_lt(
                #[trigger] front[i],
                #[trigger] front[j],
            ) by {
                assert(front[i] == ks[i] && front[j] == ks[j]);
            }
        }
        lemma_under(c, front, prefix);
        let had = store::under(c, front, prefix);
        let l = store::under(c, ks, prefix);
        assert(ks[ks.len() - 1] == last);
        assert forall|k: Seq<u8>| #[trigger] front.contains(k) implies ks.contains(k) && ordmap::lex_lt(k, last) by {
            let i = front.index_of(k);
            assert(ks[i] == k);
            assert(ordmap::lex_lt(ks[i], ks[ks.len() - 1]));
        }
        assert forall|i: int| 0 <= i < had.len() implies #[trigger] l[i] == had[i] by {}
        assert forall|i: int| 0 <= i < l.len() implies (#[trigger] l[i]).0 == store::keys_under(c, ks, prefix)[i]
            && ks.contains(l[i].0) && store::has_prefix(l[i].0, prefix) && c.get(l[i].0) == Some(l[i].1) by {
            if i < had.len() {
                assert(l[i] == had[i]);
                assert(front.contains(had[i].0));
            }
        }
        assert forall|i: int, j: int| 0 <= i < j < l.len() implies ordmap::lex_lt(
            (#[trigger] l[i]).0,
            (#[trigger] l[j]).0,
        ) by {
            assert(l[i] == had[i]);
            assert(front.contains(had[i].0));
            if j < had.len() {
                assert(l[j] == had[j]);
            }
        }
        assert forall|k: Seq<u8>|
            #![trigger c.get(k)]
            ks.contains(k) && store::has_prefix(k, prefix) && c.get(k) is Some implies l.contains((k, c.get(k)->0)) by {
            if k != last {
                let i = ks.index_of(k);
                assert(front[i] == k);
                assert(front.contains(k));
                let j = had.index_of((k, c.get(k)->0));
                assert(l[j] == had[j]);
            } else {
                assert(l[l.len() - 1] == (k, c.get(k)->0));
            }
        }
    }
}

/// A scan lists, in strictly ascending order, exactly the keys under the prefix that a
/// read answers, each with the entry that the read gives; a scan for keys lists the same.
pub proof fn law_scan_lists_what_reads_see(s: Store, ns: Seq<char>, prefix: Seq<u8>)
    requires
        s.wf(),
    ensures
        ({
            let l = store::scanned(s@, ns, prefix);
            &&& forall|i: int, j: int|
                0 <= i < j < l.len() ==> ordmap::lex_lt((#[trigger] l[i]).0, (#[trigger] l[j]).0)
            &&& forall|k: Seq<u8>, e: EntryV| #[trigger]
                l.contains((k, e)) <==> store::has_prefix(k, prefix) && s@.get(ns, k) == Some(e)
            &&& store::scanned_keys(s@, ns, prefix) == Seq::new(l.len(), |i: int| l[i].0)
        }),
{
    let l = store::scanned(s@, ns, prefix);
    let names = Seq::new(l.len(), |i: int| l[i].0);
    if s@.has(ns) {
        let c = s@.space(ns).cells;
        let ks = ordmap::listed(c.index.dom());
        s.lemma_index_listed(ns);
        lemma_under(c, ks, prefix);
        assert forall|k: Seq<u8>, e: EntryV| #[trigger] l.contains((k, e)) <==> store::has_prefix(k, prefix) && s@.get(
            ns,
            k,
        ) == Some(e) by {
            if l.contains((k, e)) {
                let i = l.index_of((k, e));
                assert(l[i].0 == k && l[i].1 == e);
            }
            if store::has_prefix(k, prefix) && s@.get(ns, k) == Some(e) {
                assert(c.get(k) == Some(e));
                assert(ks.contains(k));
            }
        }
        assert(store::scanned_keys(s@, ns, prefix) =~= names);
    } else {
        assert(store::scanned_keys(s@, ns, prefix) =~= names);
    }
}

// ---------- secondary indexes ----------

/// Is the pair a row of an index over a field: a key that a read answers, and the scalar
/// under the field in the value that is seen?
pub open spec fn is_row(s: StoreV, ns: Seq<char>, field: Seq<char>, p: RowV) -> bool {
    s.get(ns, p.1) matches Some(e) && e.latest() matches Some(v) && entry::field_value(v.value, field) == Some(p.0)
}

/// An index is a function of the data: after the definition of one, as at any time, a
/// field of a namespace is answered from the data exactly where it is defined. The
/// definition takes the place of the one before, changes that of no other namespace, and
/// touches no data.
pub proof fn law_index_follows_the_data(
    s: StoreV,
    ns: Seq<char>,
    value: Option<Seq<u8>>,
    hlc: u64,
    replica: Seq<u8>,
    author: Seq<u8>,
    m: Seq<char>,
    field: Seq<char>,
    p: RowV,
)
    requires
        s.has(ns),
        model::single(model::def_op(TAG_INDEX, value, hlc, replica, author)).fits(),
    ensures
        ({
            let step = s.define(
                ns,
                model::index_key(ns),
                model::def_op(TAG_INDEX, value, hlc, replica, author),
                value,
            );
            let t = step.store;
            &&& step.result is Ok
            &&& t.get(m, p.1) == s.get(m, p.1)
            &&& model::fields_of(t.meta, m) == if m == ns {
                model::fields_in(value)
            } else {
                model::fields_of(s.meta, m)
            }
            &&& store::index_rows(t, m, field).contains(p) <==> model::fields_of(t.meta, m).contains(field) && is_row(
                t,
                m,
                field,
                p,
            )
            &&& store::index_rows(s, m, field).contains(p) <==> model::fields_of(s.meta, m).contains(field) && is_row(
                s,
                m,
                field,
                p,
            )
            &&& !ordmap::lex_lt(p.0, Seq::empty())
        }),
{
    recovery::lemma_def_keys(ns, m);
    recovery::lemma_def_keys(m, ns);
    let t = s.define(ns, model::index_key(ns), model::def_op(TAG_INDEX, value, hlc, replica, author), value).store;
    text::lemma_utf8_decodes(ns);
    text::lemma_utf8_decodes(m);
    assert(t.has(m) == s.has(m));
    if s.has(m) {
        assert(t.space(m).cells == s.space(m).cells);
    }
}

// ---------- synced records ----------

/// A put or a delete of a peer is taken in once: it is new exactly where no record of the
/// log has its tag, clock and replica. A new one makes the log longer by one; one that is
/// not changes nothing, and taking it in again is no news. The one refusal is of a new
/// record that its length field cannot hold.
pub proof fn law_synced_record_is_taken_in_once(s: Store, ns: Seq<char>, r: Record)
    requires
        s.wf(),
        s@.has(ns),
        record::is_op_tag(r.tag),
    ensures
        ({
            let fresh = !model::seen(s@.space(ns).log.records, (r.tag, r.hlc, r.replica@));
            let t = s@.sync(ns, r@);
            if fresh && !r@.fits() {
                t.result == Err::<bool, StorageFault>(space::too_large()) && t.store == s@
            } else {
                &&& t.result == Ok::<bool, StorageFault>(fresh)
                &&& !fresh ==> t.store == s@
                &&& fresh ==> t.store.space(ns).log.records.len() == s@.space(ns).log.records.len() + 1
                &&& t.store.sync(ns, r@).result == Ok::<bool, StorageFault>(false)
                &&& t.store.sync(ns, r@).store == t.store
            }
        }),
{
    assert(r@.sound());
    assert(model::version_id(r@) == (r.tag, r.hlc, r.replica@));
    if r@.fits() {
        recovery::law_sync_goes_through(s, ns, r@);
    }
}

// ---------- local writes ----------

/// A local write that goes through is the next record of its namespace: the log holds
/// all that it held and that record, linked to the head, and the answer is its number;
/// the count of changes goes up by one. One that does not go through leaves the log of
/// every other namespace as it was.
pub proof fn law_write_is_the_next_record(s: StoreV, ns: Seq<char>, o: OpV)
    requires
        s.has(ns),
        s.space(ns).log.records.len() < u64::MAX,
        s.revision < u64::MAX,
    ensures
        ({
            let t = s.put(ns, o);
            let (was, now) = (s.space(ns).log, t.store.space(ns).log);
            t.result matches Ok(seq) ==> {
                &&& seq == was.records.len() + 1
                &&& now.records == was.records.push(model::single(o).bytes(was.head))
                &&& now.head == hash::sha256_digest(record::prev_of(now.records.last()) + now.records.last())
                &&& t.store.revision == s.revision + 1
                &&& t.store.meta == s.meta
                &&& t.store.clocks == s.clocks
                &&& t.store.space(ns).policy == s.space(ns).policy
            }
        }),
        ({
            let t = s.delete(ns, o);
            let (was, now) = (s.space(ns).log, t.store.space(ns).log);
            t.result matches Ok(seq) ==> {
                &&& seq == was.records.len() + 1
                &&& now.records == was.records.push(model::single(o).bytes(was.head))
                &&& t.store.revision == s.revision + 1
            }
        }),
{
}

/// A write of a peer shows where it was made after what is there, or nothing is there;
/// else what is there stays. A delete of a peer always holds, and a key that was deleted
/// stays unread whatever a peer writes.
pub proof fn law_later_write_of_a_peer_shows(
    s: StoreV,
    ns: Seq<char>,
    key: Seq<u8>,
    value: Seq<u8>,
    hlc: u64,
    replica: Seq<u8>,
    author: Seq<u8>,
    expires_at: u64,
)
    requires
        s.has(ns),
        s.space(ns).policy is Lww,
        entry::fits_policy(s.space(ns).cells, s.space(ns).policy),
    ensures
        ({
            let put = model::single(model::put_op(key, value, hlc, replica, author, expires_at));
            let t = s.sync(ns, put);
            let was = s.space(ns).cells;
            let there = was.index.dom().contains(key);
            let old_one = was.index[key]->Lww_0;
            let later = hlc > old_one.hlc || (hlc == old_one.hlc && (replica == old_one.replica || ordmap::lex_lt(
                old_one.replica,
                replica,
            )));
            t.result == Ok::<bool, StorageFault>(true) ==> if was.tombs.dom().contains(key) {
                t.store.get(ns, key) is None
            } else if !there || later {
                t.store.get(ns, key) matches Some(EntryV::Lww(v)) && v.value == value && v.hlc == hlc && v.replica
                    == replica && v.author == author && v.expires_at == expires_at
            } else {
                t.store.get(ns, key) == s.get(ns, key)
            }
        }),
        ({
            let t = s.sync(ns, model::single(model::del_op(key, hlc, replica, author)));
            t.result == Ok::<bool, StorageFault>(true) ==> t.store.get(ns, key) is None
        }),
{
    let was = s.space(ns).cells;
    if was.index.dom().contains(key) {
        let v = was.index[key]->Lww_0;
        ordmap::lemma_lex_total(replica, v.replica);
        ordmap::lemma_lex_irreflexive(replica);
        if ordmap::lex_lt(replica, v.replica) && ordmap::lex_lt(v.replica, replica) {
            ordmap::lemma_lex_asymmetric(replica, v.replica);
        }
    }
}

/// A value is indexed under the scalar that it has in the field, as text: a text as it
/// is, true and false by name, a number as it was written. What is no JSON, and a field
/// that is missing or holds no scalar, is not indexed.
pub proof fn law_values_are_indexed_as_text(value: Seq<u8>, field: Seq<char>, m: Seq<(Seq<char>, json::JsonV)>, i: int)
    requires
        json::json_read(text::lossy_text(value)) == Some(json::JsonV::Obj(m)),
        0 <= i < m.len(),
        m[i].0 == field,
        forall|j: int| 0 <= j < i ==> (#[trigger] m[j]).0 != field,
    ensures
        m[i].1 matches json::JsonV::Str(t) ==> entry::field_value(value, field) == Some(text::utf8(t)),
        m[i].1 matches json::JsonV::Num(n) ==> entry::field_value(value, field) == Some(text::utf8(n.numeral)),
        m[i].1 matches json::JsonV::Bool(b) ==> entry::field_value(value, field) == Some(
            if b {
                seq![116u8, 114u8, 117u8, 101u8]
            } else {
                seq![102u8, 97u8, 108u8, 115u8, 101u8]
            },
        ),
        m[i].1 is Null || m[i].1 is Arr || m[i].1 is Obj ==> entry::field_value(value, field) is None,
{
    json::lemma_member_at(m, i);
    reveal_strlit("true");
    reveal_strlit("false");
    text::lemma_utf8_ascii("true"@);
    text::lemma_utf8_ascii("false"@);
    assert(text::utf8("true"@) =~= seq![116u8, 114u8, 117u8, 101u8]);
    assert(text::utf8("false"@) =~= seq![102u8, 97u8, 108u8, 115u8, 101u8]);
}

// ---------- definitions of peers ----------

/// A definition that a peer made holds here too: the schema, or the fields that are
/// indexed, of the namespace become what the record says, an empty value clears them, and
/// no data changes.
pub proof fn law_definition_of_a_peer_holds(
    s: StoreV,
    ns: Seq<char>,
    value: Option<Seq<u8>>,
    hlc: u64,
    replica: Seq<u8>,
    author: Seq<u8>,
    other: Seq<char>,
    key: Seq<u8>,
)
    requires
        s.has(ns),
        value matches Some(v) ==> v.len() > 0,
    ensures
        ({
            let t = s.sync(ns, model::single(model::def_op(4, value, hlc, replica, author)));
            t.result == Ok::<bool, StorageFault>(true) ==> {
                &&& model::look(t.store.meta, text::utf8("schema/"@ + ns)) == value
                &&& model::look(t.store.meta, text::utf8("index/"@ + other)) == model::look(
                    s.meta,
                    text::utf8("index/"@ + other),
                )
                &&& t.store.get(other, key) == s.get(other, key)
            }
        }),
        ({
            let t = s.sync(ns, model::single(model::def_op(5, value, hlc, replica, author)));
            t.result == Ok::<bool, StorageFault>(true) ==> {
                &&& model::look(t.store.meta, text::utf8("index/"@ + ns)) == value
                &&& model::look(t.store.meta, text::utf8("schema/"@ + other)) == model::look(
                    s.meta,
                    text::utf8("schema/"@ + other),
                )
                &&& t.store.get(other, key) == s.get(other, key)
            }
        }),
{
    recovery::lemma_def_keys(ns, other);
    recovery::lemma_def_keys(other, ns);
    text::lemma_utf8_decodes(ns);
    text::lemma_utf8_decodes(other);
    let t = s.sync(ns, model::single(model::def_op(4, value, hlc, replica, author))).store;
    let u = s.sync(ns, model::single(model::def_op(5, value, hlc, replica, author))).store;
    assert(t.has(other) == s.has(other));
    assert(u.has(other) == s.has(other));
    if s.has(other) {
        assert(t.space(other).cells == s.space(other).cells);
        assert(u.space(other).cells == s.space(other).cells);
    }
}

} // verus!
