//! What the data routes answer, in the words of their callers: seconds, values and keys.

use crate::caps::CapV;
use crate::hexes;
use crate::ns;
use crate::ordmap;
use crate::segments;
use crate::server::batch;
use crate::server::batch::{BatchOpV, PlanV, WriterV};
use crate::server::data;
use crate::server::data::{Method, ParamsV};
use crate::server::laws;
use crate::server::reply::{EntryOutV, OpOutV, ReplyV, VersionOutV};
use crate::server::state;
use crate::server::state::ApiV;
use crate::storage::entry;
use crate::storage::entry::{ConflictPolicy, EntryV, VersionV};
use crate::storage::model;
use crate::storage::model::StoreV;
use crate::storage::naming;
use crate::storage::record;
use crate::storage::record::{OpV, RecordV, TAG_BATCH, TAG_DEL};
use crate::storage::store;
use crate::storage::store::Store;
use crate::text;
use crate::util;
use vstd::prelude::*;

verus! {

// ---------- times to live ----------

/// A time to live counts seconds from the write: the answer says when the value expires,
/// reads find the value up to that millisecond, and nothing from then on.
#[verifier::rlimit(40)]
pub proof fn law_time_to_live_counts_seconds(
    a: ApiV,
    cs: Option<Seq<CapV>>,
    n: Seq<char>,
    key: Seq<char>,
    q: ParamsV,
    secs: u64,
    body: Seq<u8>,
    odd: Set<(u64, u64)>,
    now_ms: u64,
    reader: Option<Seq<CapV>>,
    later_ms: u64,
)
    requires
        q.ttl == Some(text::decimal(secs as int)),
        secs > 0,
        now_ms + 1000 * secs < 0x1_0000_0000_0000_0000,
        laws::put(a, cs, n, key, q, body, odd, now_ms).reply is Stored,
        laws::put(a, cs, n, key, q, body, odd, now_ms).api.store.space(n).policy is Lww,
        laws::may_read(laws::put(a, cs, n, key, q, body, odd, now_ms).api, reader, n, key, later_ms),
    ensures
        ({
            let out = laws::put(a, cs, n, key, q, body, odd, now_ms);
            let got = laws::get(out.api, reader, n, key, false, later_ms).reply;
            &&& out.reply->expires_at == now_ms + 1000 * secs
            &&& later_ms < now_ms + 1000 * secs ==> got == ReplyV::Value(body)
            &&& later_ms >= now_ms + 1000 * secs ==> got == (ReplyV::Error { status: 404, code: "not_found"@ })
        }),
{
    text::law_decimal_reads_back(secs);
    laws::law_stored_value_is_read_back(a, cs, n, key, q, body, odd, now_ms, reader, later_ms);
    assert((now_ms + secs * 1000) % 0x1_0000_0000_0000_0000 == now_ms + secs * 1000) by (nonlinear_arith)
        requires
            now_ms + 1000 * secs < 0x1_0000_0000_0000_0000,
            now_ms >= 0,
            secs >= 0,
    ;
}

/// A write without a time to live, or with one of no seconds or that is no number, never
/// expires.
pub proof fn law_no_time_to_live_never_expires(
    a: ApiV,
    cs: Option<Seq<CapV>>,
    n: Seq<char>,
    key: Seq<char>,
    q: ParamsV,
    body: Seq<u8>,
    odd: Set<(u64, u64)>,
    now_ms: u64,
    reader: Option<Seq<CapV>>,
    later_ms: u64,
)
    requires
        q.ttl matches Some(t) ==> t == text::decimal(0) || exists|i: int|
            0 < i < t.len() && !('0' <= #[trigger] t[i] <= '9'),
        laws::put(a, cs, n, key, q, body, odd, now_ms).reply is Stored,
        laws::put(a, cs, n, key, q, body, odd, now_ms).api.store.space(n).policy is Lww,
        laws::may_read(laws::put(a, cs, n, key, q, body, odd, now_ms).api, reader, n, key, later_ms),
    ensures
        ({
            let out = laws::put(a, cs, n, key, q, body, odd, now_ms);
            &&& out.reply->expires_at == 0
            &&& laws::get(out.api, reader, n, key, false, later_ms).reply == ReplyV::Value(body)
        }),
{
    text::law_decimal_reads_back(0);
    if q.ttl is Some && q.ttl->0 != text::decimal(0) {
        let t = q.ttl->0;
        let i = choose|i: int| 0 < i < t.len() && !('0' <= #[trigger] t[i] <= '9');
        let d = text::unsigned(t);
        if t[0] == '+' {
            assert(d[i - 1] == t[i]);
        } else {
            assert(d[i] == t[i]);
        }
        assert(!text::all_digits(d));
    }
    laws::law_stored_value_is_read_back(a, cs, n, key, q, body, odd, now_ms, reader, later_ms);
}

// ---------- lists ----------

/// Is the version not past its expiry? 0 is never.
pub open spec fn lasts(v: VersionV, now_ms: u64) -> bool {
    v.expires_at == 0 || now_ms < v.expires_at
}

/// What stands in a list for a key and the version that is seen under it.
pub open spec fn listed_as(k: Seq<u8>, v: VersionV, o: EntryOutV) -> bool {
    o.key == text::lossy_text(k) && o.value_b64 == util::b64_text(false, v.value) && o.expires_at == v.expires_at
}

/// The rows of a scan whose visible version lasts.
proof fn lemma_entries(rows: Seq<(Seq<u8>, EntryV)>, now_ms: u64) -> (live: Seq<(Seq<u8>, VersionV)>)
    requires
        forall|i: int, j: int|
            0 <= i < j < rows.len() ==> ordmap::lex_lt((#[trigger] rows[i]).0, (#[trigger] rows[j]).0),
    ensures
        data::entries(rows, now_ms).len() == live.len(),
        forall|i: int|
            #![trigger live[i]]
            0 <= i < live.len() ==> listed_as(live[i].0, live[i].1, data::entries(rows, now_ms)[i]) && exists|j: int|
                0 <= j < rows.len() && (#[trigger] rows[j]).0 == live[i].0 && rows[j].1.latest() == Some(live[i].1)
                    && lasts(live[i].1, now_ms),
        forall|j: int|
            #![trigger rows[j]]
            0 <= j < rows.len() && (rows[j].1.latest() matches Some(v) && lasts(v, now_ms)) ==> live.contains(
                (rows[j].0, rows[j].1.latest()->0),
            ),
        forall|i: int, j: int|
            0 <= i < j < live.len() ==> ordmap::lex_lt((#[trigger] live[i]).0, (#[trigger] live[j]).0),
    decreases rows.len(),
{
    if rows.len() == 0 {
        Seq::empty()
    } else {
        let front = rows.drop_last();
        let last = rows[rows.len() - 1];
        assert forall|i: int, j: int| 0 <= i < j < front.len() implies ordmap::lex_lt(
            (#[trigger] front[i]).0,
            (#[trigger] front[j]).0,
        ) by {
            assert(front[i] == rows[i] && front[j] == rows[j]);
        }
        let had = lemma_entries(front, now_ms);
        let shows = last.1.latest() matches Some(v) && lasts(v, now_ms);
        let live = if shows {
            had.push((last.0, last.1.latest()->0))
        } else {
            had
        };
        assert forall|i: int| #![trigger live[i]] 0 <= i < live.len() implies listed_as(
            live[i].0,
            live[i].1,
            data::entries(rows, now_ms)[i],
        ) && exists|j: int|
            0 <= j < rows.len() && (#[trigger] rows[j]).0 == live[i].0 && rows[j].1.latest() == Some(live[i].1)
                && lasts(live[i].1, now_ms) by {
            if i < had.len() {
                assert(live[i] == had[i]);
                let j = choose|j: int|
                    0 <= j < front.len() && (#[trigger] front[j]).0 == had[i].0 && front[j].1.latest() == Some(had[i].1)
                        && lasts(had[i].1, now_ms);
                assert(rows[j] == front[j]);
            } else {
                assert(rows[rows.len() - 1].0 == live[i].0);
            }
        }
        assert forall|j: int|
            #![trigger rows[j]]
            0 <= j < rows.len() && (rows[j].1.latest() matches Some(v) && lasts(v, now_ms)) implies live.contains(
            (rows[j].0, rows[j].1.latest()->0),
        ) by {
            let p = (rows[j].0, rows[j].1.latest()->0);
            if j < front.len() {
                assert(front[j] == rows[j]);
                assert(had.contains(p));
                assert(live[had.index_of(p)] == p);
            } else {
                assert(live[live.len() - 1] == p);
            }
        }
        assert forall|i: int, j: int| 0 <= i < j < live.len() implies ordmap::lex_lt(
            (#[trigger] live[i]).0,
            (#[trigger] live[j]).0,
        ) by {
            assert(live[i] == had[i]);
            if j < had.len() {
                assert(live[j] == had[j]);
            } else {
                let x = choose|x: int|
                    0 <= x < front.len() && (#[trigger] front[x]).0 == had[i].0 && front[x].1.latest() == Some(had[i].1)
                        && lasts(had[i].1, now_ms);
                assert(rows[x] == front[x]);
                assert(ordmap::lex_lt(rows[x].0, rows[rows.len() - 1].0));
            }
        }
        live
    }
}

/// A list under a prefix, by the one route or the other, shows exactly the keys under it
/// whose value is seen and not past its expiry, in ascending order and each once, with
/// the value and the expiry. The law gives the keys and the versions.
pub proof fn law_list_shows_what_lasts(
    s: Store,
    a: ApiV,
    cs: Option<Seq<CapV>>,
    n: Seq<char>,
    key: Seq<char>,
    prefix: Seq<char>,
    q: ParamsV,
    now_ms: u64,
) -> (live: Seq<(Seq<u8>, VersionV)>)
    requires
        s.wf(),
        a.store == s@,
        q.prefix == Some(prefix),
        state::gate(a, cs, state::prefix_scope(a.host, n, prefix), 1, now_ms).result is Ok,
    ensures
        forall|i: int, j: int|
            0 <= i < j < live.len() ==> ordmap::lex_lt((#[trigger] live[i]).0, (#[trigger] live[j]).0),
        forall|k: Seq<u8>, v: VersionV| #[trigger]
            live.contains((k, v)) <==> text::utf8(prefix).is_prefix_of(k) && s@.get(n, k) is Some && s@.get(n, k)->0.latest()
                == Some(v) && lasts(v, now_ms),
        ({
            let one = data::scan(a, cs, n, Some(prefix), now_ms).reply;
            let two = data::data(a, cs, n, key, Method::Get, q, Seq::empty(), Set::empty(), now_ms).reply;
            &&& one == two
            &&& one matches ReplyV::Entries(l) && l.len() == live.len() && forall|i: int|
                #![trigger live[i]]
                0 <= i < live.len() ==> listed_as(live[i].0, live[i].1, l[i])
        }),
{
    let p = text::utf8(prefix);
    store::laws::law_scan_lists_what_reads_see(s, n, p);
    let rows = store::scanned(s@, n, p);
    let live = lemma_entries(rows, now_ms);
    assert forall|k: Seq<u8>, v: VersionV| #[trigger] live.contains((k, v)) <==> p.is_prefix_of(k) && s@.get(n, k) is Some
        && s@.get(n, k)->0.latest() == Some(v) && lasts(v, now_ms) by {
        if p.len() <= k.len() {
            assert(k.take(p.len() as int) =~= k.subrange(0, p.len() as int));
        }
        if live.contains((k, v)) {
            let i = live.index_of((k, v));
            let j = choose|j: int|
                0 <= j < rows.len() && (#[trigger] rows[j]).0 == live[i].0 && rows[j].1.latest() == Some(live[i].1)
                    && lasts(live[i].1, now_ms);
            assert(rows[j] == (k, rows[j].1));
            assert(rows.contains((k, rows[j].1)));
        }
        if p.is_prefix_of(k) && s@.get(n, k) is Some && s@.get(n, k)->0.latest() == Some(v) && lasts(v, now_ms) {
            let e = s@.get(n, k)->0;
            assert(rows.contains((k, e)));
            let j = rows.index_of((k, e));
            assert(rows[j] == (k, e));
        }
    }
    live
}

/// Does an answer show the version?
pub open spec fn version_shown(v: VersionV, o: VersionOutV) -> bool {
    &&& o.hlc == v.hlc
    &&& o.replica == hexes::hex_text(v.replica)
    &&& o.seq == v.seq
    &&& o.expires_at == v.expires_at
    &&& o.value_b64 == util::b64_text(false, v.value)
}

/// A read of all versions shows each of them, in order, past its expiry or not; a read
/// of a register alone gives the value of one that no other was written after.
pub proof fn law_versions_show_all(
    a: ApiV,
    cs: Option<Seq<CapV>>,
    n: Seq<char>,
    key: Seq<char>,
    vs: Seq<VersionV>,
    now_ms: u64,
)
    requires
        laws::may_read(a, cs, n, key, now_ms),
        a.store.get(n, text::utf8(key)) == Some(EntryV::Register(vs)) || (vs.len() == 1 && a.store.get(n, text::utf8(key))
            == Some(EntryV::Lww(vs[0]))),
        vs.len() > 0,
    ensures
        ({
            let got = laws::get(a, cs, n, key, true, now_ms).reply;
            &&& got is Versions
            &&& got->Versions_key == key
            &&& got->versions.len() == vs.len()
            &&& forall|i: int| #![trigger vs[i]] 0 <= i < vs.len() ==> version_shown(vs[i], got->versions[i])
        }),
        ({
            let got = laws::get(a, cs, n, key, false, now_ms).reply;
            exists|i: int|
                0 <= i < vs.len() && (forall|j: int| 0 <= j < vs.len() ==> !entry::later(#[trigger] vs[j], vs[i]))
                    && got == if lasts(#[trigger] vs[i], now_ms) {
                    ReplyV::Value(vs[i].value)
                } else {
                    ReplyV::Error { status: 404, code: "not_found"@ }
                }
        }),
{
    entry::law_latest_is_the_greatest(vs);
    let e = a.store.get(n, text::utf8(key))->0;
    if e is Lww {
        ordmap::lemma_lex_irreflexive(vs[0].replica);
        assert(e.latest() == Some(vs[0]));
        assert forall|j: int| 0 <= j < vs.len() implies !entry::later(#[trigger] vs[j], vs[0]) by {}
        assert(seq![vs[0]] =~= vs);
    } else {
        assert(e.latest() == entry::latest_of(vs));
    }
    let k = choose|k: int|
        0 <= k < vs.len() && e.latest() == Some(#[trigger] vs[k]) && forall|j: int|
            0 <= j < vs.len() ==> !entry::later((#[trigger] vs[j]), vs[k]);
    assert(lasts(vs[k], now_ms) == entry::live(vs[k], now_ms));
}

proof fn lemma_conflicts(rows: Seq<(Seq<u8>, EntryV)>) -> (split: Seq<(Seq<u8>, Seq<VersionV>)>)
    ensures
        data::conflicts_in(rows).len() == split.len(),
        forall|i: int|
            #![trigger split[i]]
            0 <= i < split.len() ==> data::conflicts_in(rows)[i].key == text::lossy_text(split[i].0)
                && data::conflicts_in(rows)[i].versions.len() == split[i].1.len() && (forall|x: int|
                #![trigger split[i].1[x]]
                0 <= x < split[i].1.len() ==> version_shown(split[i].1[x], data::conflicts_in(rows)[i].versions[x]))
                && rows.contains((split[i].0, EntryV::Register(split[i].1))) && split[i].1.len() > 1,
        forall|j: int|
            #![trigger rows[j]]
            0 <= j < rows.len() && (rows[j].1 matches EntryV::Register(vs) && vs.len() > 1) ==> split.contains(
                (rows[j].0, rows[j].1->Register_0),
            ),
    decreases rows.len(),
{
    if rows.len() == 0 {
        Seq::empty()
    } else {
        let front = rows.drop_last();
        let last = rows[rows.len() - 1];
        let had = lemma_conflicts(front);
        let splits = last.1 matches EntryV::Register(vs) && vs.len() > 1;
        let split = if splits {
            had.push((last.0, last.1->Register_0))
        } else {
            had
        };
        let out = data::conflicts_in(rows);
        assert forall|i: int| #![trigger split[i]] 0 <= i < split.len() implies out[i].key == text::lossy_text(split[i].0)
            && out[i].versions.len() == split[i].1.len() && (forall|x: int|
            #![trigger split[i].1[x]]
            0 <= x < split[i].1.len() ==> version_shown(split[i].1[x], out[i].versions[x])) && rows.contains(
            (split[i].0, EntryV::Register(split[i].1)),
        ) && split[i].1.len() > 1 by {
            if i < had.len() {
                assert(split[i] == had[i]);
                let p = (split[i].0, EntryV::Register(split[i].1));
                assert(front.contains(p));
                assert(rows[front.index_of(p)] == p);
            } else {
                assert(rows[rows.len() - 1] == last);
            }
        }
        assert forall|j: int|
            #![trigger rows[j]]
            0 <= j < rows.len() && (rows[j].1 matches EntryV::Register(vs) && vs.len() > 1) implies split.contains(
            (rows[j].0, rows[j].1->Register_0),
        ) by {
            let p = (rows[j].0, rows[j].1->Register_0);
            if j < front.len() {
                assert(front[j] == rows[j]);
                assert(had.contains(p));
                assert(split[had.index_of(p)] == p);
            } else {
                assert(split[split.len() - 1] == p);
            }
        }
        split
    }
}

/// The conflicts of a namespace are its keys with more than one version, each with all
/// of them. The law gives the keys and the versions.
pub proof fn law_conflicts_show_what_differs(s: Store, a: ApiV, cs: Option<Seq<CapV>>, n: Seq<char>, now_ms: u64) -> (split:
    Seq<(Seq<u8>, Seq<VersionV>)>)
    requires
        s.wf(),
        a.store == s@,
        data::namespace_gate(a, cs, n, 1, now_ms).result is Ok,
    ensures
        forall|k: Seq<u8>, vs: Seq<VersionV>| #[trigger]
            split.contains((k, vs)) <==> s@.get(n, k) == Some(EntryV::Register(vs)) && vs.len() > 1,
        data::conflicts(a, cs, n, now_ms).reply matches ReplyV::Conflicts(l) && l.len() == split.len() && forall|i: int|
            #![trigger split[i]]
            0 <= i < split.len() ==> l[i].key == text::lossy_text(split[i].0) && l[i].versions.len() == split[i].1.len()
                && forall|x: int|
                #![trigger split[i].1[x]]
                0 <= x < split[i].1.len() ==> version_shown(split[i].1[x], l[i].versions[x]),
{
    let none = Seq::<u8>::empty();
    store::laws::law_scan_lists_what_reads_see(s, n, none);
    let rows = store::scanned(s@, n, none);
    let split = lemma_conflicts(rows);
    assert forall|k: Seq<u8>, vs: Seq<VersionV>| #[trigger] split.contains((k, vs)) <==> s@.get(n, k) == Some(
        EntryV::Register(vs),
    ) && vs.len() > 1 by {
        assert(k.take(0) =~= none);
        if split.contains((k, vs)) {
            let i = split.index_of((k, vs));
            assert(rows.contains((k, EntryV::Register(vs))));
        }
        if s@.get(n, k) == Some(EntryV::Register(vs)) && vs.len() > 1 {
            assert(rows.contains((k, EntryV::Register(vs))));
            let j = rows.index_of((k, EntryV::Register(vs)));
            assert(rows[j].1 == EntryV::Register(vs));
        }
    }
    split
}

// ---------- the change feed ----------

/// The feed behind a number shows the records that follow it, at most ten thousand, each
/// under its number: the key and the value that it holds, what it does, its expiry and
/// its clock. The answer says how far the log goes.
pub proof fn law_feed_shows_the_records(
    a: ApiV,
    cs: Option<Seq<CapV>>,
    n: Seq<char>,
    since: u64,
    now_ms: u64,
    i: int,
    r: RecordV,
    prev: Seq<u8>,
)
    requires
        data::namespace_gate(a, cs, n, 1, now_ms).result is Ok,
        a.store.has(n),
        a.store.space(n).log.records.len() <= u64::MAX,
        0 <= i,
        since + i < a.store.space(n).log.records.len(),
        i < 10_000,
        r.canonical(),
        r.fits(),
        prev.len() == 32,
        a.store.space(n).log.records[since + i] == r.bytes(prev),
    ensures
        ({
            let got = data::changes(a, cs, n, Some(text::decimal(since as int)), now_ms).reply;
            let left = a.store.space(n).log.records.len() - since;
            let o = got->changes[i].record->0;
            &&& got is Changes
            &&& got->since == since
            &&& got->Changes_seq == a.store.space(n).log.records.len()
            &&& got->Changes_hash == hexes::hex_text(a.store.space(n).log.head)
            &&& got->changes.len() == if left < 10_000 {
                left
            } else {
                10_000
            }
            &&& got->changes[i].seq == since + i + 1
            &&& got->changes[i].record is Some
            &&& o.key_b64 == util::b64_text(false, r.op.key)
            &&& o.value_b64 == util::b64_text(false, r.op.value)
            &&& o.del == (r.op.tag == TAG_DEL)
            &&& o.batch == (r.op.tag == TAG_BATCH)
            &&& o.ttl == (r.op.expires_at != 0)
            &&& o.expires_at == r.op.expires_at
            &&& o.hlc == r.op.hlc
            &&& o.ops == r.ops.len()
        }),
{
    text::law_decimal_reads_back(since);
    record::law_record_round_trip(r, prev);
}

// ---------- refusals ----------

/// A value that would take a namespace over its quota is answered 409 and not stored;
/// neither is it counted.
pub proof fn law_quota_refuses(
    a: ApiV,
    cs: Option<Seq<CapV>>,
    n: Seq<char>,
    key: Seq<char>,
    q: ParamsV,
    body: Seq<u8>,
    odd: Set<(u64, u64)>,
    now_ms: u64,
)
    requires
        state::gate(a, cs, state::key_scope(a.host, n, key), 2, now_ms).result is Ok,
        a.store.has(n),
        !segments::starts(n, "u/"@),
        data::violation(a.store, n, body, odd) is None,
        ns::written(a.store, n) + body.len() > a.quota,
    ensures
        ({
            let out = laws::put(a, cs, n, key, q, body, odd, now_ms);
            &&& out.reply == (ReplyV::Error { status: 409, code: "quota_exceeded"@ })
            &&& out.api.store == a.store
            &&& out.api.clock == a.clock
        }),
{
}

/// A batch of no operations or of more than a thousand is answered 400, and changes
/// nothing.
pub proof fn law_batch_size_is_bounded(
    a: ApiV,
    cs: Option<Seq<CapV>>,
    n: Seq<char>,
    ops: Seq<BatchOpV>,
    odd: Set<(u64, u64)>,
    now_ms: u64,
)
    requires
        data::namespace_gate(a, cs, n, 2, now_ms).result is Ok,
        ops.len() == 0 || ops.len() > 1000,
    ensures
        batch::batch(a, cs, n, ops, odd, now_ms).reply == (ReplyV::Error { status: 400, code: "bad_request"@ }),
        batch::batch(a, cs, n, ops, odd, now_ms).api.store == a.store,
{
}

// ---------- batches ----------

proof fn lemma_plan_at(ops: Seq<BatchOpV>, s: StoreV, w: WriterV, clock: u64, i: int) -> (c: u64)
    requires
        0 <= i < ops.len(),
    ensures
        batch::plan_all(ops, s, w, clock).plans.len() == ops.len(),
        batch::plan_all(ops, s, w, clock).plans[i] == batch::planned(ops[i], s, w, c),
    decreases ops.len(),
{
    let front = ops.drop_last();
    let before = batch::plan_all(front, s, w, clock);
    lemma_plan_len(front, s, w, clock);
    if i < front.len() {
        let c = lemma_plan_at(front, s, w, clock, i);
        assert(front[i] == ops[i]);
        c
    } else {
        crate::node::hlc::issued(before.clock, w.now_ms)
    }
}

proof fn lemma_plan_len(ops: Seq<BatchOpV>, s: StoreV, w: WriterV, clock: u64)
    ensures
        batch::plan_all(ops, s, w, clock).plans.len() == ops.len(),
    decreases ops.len(),
{
    if ops.len() > 0 {
        lemma_plan_len(ops.drop_last(), s, w, clock);
    }
}

proof fn lemma_charge_at(plans: Seq<PlanV>, s: StoreV, n: Seq<char>, limit: u64)
    ensures
        ({
            let c = batch::charge_all(plans, s, n, limit);
            &&& c.plans.len() == plans.len()
            &&& forall|i: int|
                #![trigger c.plans[i]]
                0 <= i < plans.len() ==> c.plans[i] == plans[i] || c.plans[i] is Fail
            &&& forall|i: int|
                #![trigger plans[i]]
                0 <= i < plans.len() && !(plans[i] is Write) ==> c.plans[i] == plans[i]
            &&& c.store.has(n) == s.has(n)
            &&& s.has(n) ==> c.store.space(n).cells == s.space(n).cells && c.store.space(n).policy == s.space(n).policy
                && c.store.space(n).log == s.space(n).log
        }),
    decreases plans.len(),
{
    if plans.len() > 0 {
        let front = plans.drop_last();
        lemma_charge_at(front, s, n, limit);
        let b = batch::charge_all(front, s, n, limit);
        let c = batch::charge_all(plans, s, n, limit);
        assert forall|i: int| #![trigger c.plans[i]] 0 <= i < plans.len() implies c.plans[i] == plans[i] || c.plans[i] is Fail by {
            if i < front.len() {
                assert(c.plans[i] == b.plans[i]);
                assert(front[i] == plans[i]);
            }
        }
        assert forall|i: int| #![trigger plans[i]] 0 <= i < plans.len() && !(plans[i] is Write) implies c.plans[i] == plans[i] by {
            if i < front.len() {
                assert(c.plans[i] == b.plans[i]);
                assert(front[i] == plans[i]);
            }
        }
    }
}

/// The place of a write among the writes of some plans; what is behind it there is
/// behind it in the plans.
proof fn lemma_write_at(plans: Seq<PlanV>, i: int) -> (m: int)
    requires
        0 <= i < plans.len(),
        plans[i] is Write,
    ensures
        ({
            let l = batch::writes_in(plans);
            &&& 0 <= m < l.len()
            &&& l[m] == plans[i]->Write_0
            &&& forall|x: int|
                #![trigger l[x]]
                m < x < l.len() ==> exists|j: int| i < j < plans.len() && #[trigger] plans[j] == PlanV::Write(l[x])
        }),
    decreases plans.len(),
{
    let front = plans.drop_last();
    let l = batch::writes_in(plans);
    if i < front.len() {
        let m = lemma_write_at(front, i);
        let had = batch::writes_in(front);
        assert forall|x: int| #![trigger l[x]] m < x < l.len() implies exists|j: int|
            i < j < plans.len() && #[trigger] plans[j] == PlanV::Write(l[x]) by {
            if x < had.len() {
                assert(l[x] == had[x]);
                let j = choose|j: int| i < j < front.len() && #[trigger] front[j] == PlanV::Write(had[x]);
                assert(plans[j] == front[j]);
            } else {
                assert(plans[plans.len() - 1] == PlanV::Write(l[x]));
            }
        }
        assert(front[i] == plans[i]);
        m
    } else {
        l.len() - 1
    }
}

/// Every write of some plans stands in one of them.
proof fn lemma_writes_from(plans: Seq<PlanV>)
    ensures
        forall|x: int|
            #![trigger batch::writes_in(plans)[x]]
            0 <= x < batch::writes_in(plans).len() ==> exists|j: int|
                0 <= j < plans.len() && #[trigger] plans[j] == PlanV::Write(batch::writes_in(plans)[x]),
    decreases plans.len(),
{
    if plans.len() > 0 {
        let front = plans.drop_last();
        lemma_writes_from(front);
        let had = batch::writes_in(front);
        let l = batch::writes_in(plans);
        assert forall|x: int| #![trigger l[x]] 0 <= x < l.len() implies exists|j: int|
            0 <= j < plans.len() && #[trigger] plans[j] == PlanV::Write(l[x]) by {
            if x < had.len() {
                assert(l[x] == had[x]);
                let j = choose|j: int| 0 <= j < front.len() && #[trigger] front[j] == PlanV::Write(had[x]);
                assert(plans[j] == front[j]);
            } else {
                assert(plans[plans.len() - 1] == PlanV::Write(l[x]));
            }
        }
    }
}

proof fn lemma_results_at(plans: Seq<PlanV>, s: StoreV, n: Seq<char>, seq: u64, now_ms: u64)
    ensures
        ({
            let out = batch::results_of(plans, s, n, seq, now_ms).out;
            &&& out.len() == plans.len()
            &&& forall|i: int|
                #![trigger out[i]]
                0 <= i < plans.len() ==> (out[i] is Put ==> plans[i] is Write && out[i] == OpOutV::Put(seq)) && (out[i]
                    is Deleted ==> plans[i] is Write) && (plans[i] is Fail ==> out[i] == OpOutV::Failed(plans[i]->Fail_0))
        }),
    decreases plans.len(),
{
    if plans.len() > 0 {
        let front = plans.drop_last();
        lemma_results_at(front, s, n, seq, now_ms);
        let b = batch::results_of(front, s, n, seq, now_ms).out;
        let out = batch::results_of(plans, s, n, seq, now_ms).out;
        assert forall|i: int| #![trigger out[i]] 0 <= i < plans.len() implies (out[i] is Put ==> plans[i] is Write && out[i]
            == OpOutV::Put(seq)) && (out[i] is Deleted ==> plans[i] is Write) && (plans[i] is Fail ==> out[i]
            == OpOutV::Failed(plans[i]->Fail_0)) by {
            if i < front.len() {
                assert(out[i] == b[i]);
                assert(front[i] == plans[i]);
            }
        }
    }
}

/// The key that an operation writes, if it writes one.
pub open spec fn key_written(op: BatchOpV) -> Option<Seq<char>> {
    match op {
        BatchOpV::Put { key, value_b64, ttl } => Some(key),
        BatchOpV::Del { key } => Some(key),
        _ => None,
    }
}

/// A batch does what its operations say, the last of them on a key deciding: a put whose
/// answer is the number of a record has its value under the key, from then on and for
/// its seconds; a delete leaves nothing under the key; and keys that no operation writes
/// stay as they were.
#[verifier::rlimit(40)]
pub proof fn law_batch_does_what_it_says(
    a: ApiV,
    cs: Option<Seq<CapV>>,
    n: Seq<char>,
    ops: Seq<BatchOpV>,
    odd: Set<(u64, u64)>,
    now_ms: u64,
    i: int,
    key: Seq<char>,
    body: Seq<u8>,
    ttl: u64,
    other: Seq<char>,
)
    requires
        batch::batch(a, cs, n, ops, odd, now_ms).reply is Results,
        a.store.has(n),
        a.store.space(n).policy is Lww,
        0 <= i < ops.len(),
        forall|j: int| i < j < ops.len() ==> key_written(#[trigger] ops[j]) != Some(key),
        forall|j: int| 0 <= j < ops.len() ==> key_written(#[trigger] ops[j]) != Some(other),
        now_ms + 1000 * ttl < 0x1_0000_0000_0000_0000,
    ensures
        ({
            let out = batch::batch(a, cs, n, ops, odd, now_ms);
            let res = out.reply->Results_0;
            let held = out.api.store.get(n, text::utf8(key));
            &&& res.len() == ops.len()
            &&& ops[i] == (BatchOpV::Put { key, value_b64: util::b64_text(false, body), ttl }) && res[i] is Put ==> {
                &&& held is Some && held->0 is Lww
                &&& held->0->Lww_0.value == body
                &&& held->0->Lww_0.seq == res[i]->Put_0
                &&& held->0->Lww_0.expires_at == if ttl == 0 {
                    0
                } else {
                    now_ms + 1000 * ttl
                }
            }
            &&& ops[i] == (BatchOpV::Del { key }) && res[i] is Deleted ==> held is None
            &&& out.api.store.get(n, text::utf8(other)) == a.store.get(n, text::utf8(other))
        }),
{
    let g = data::namespace_gate(a, cs, n, 2, now_ms);
    let p = g.result->Ok_0;
    let opened = data::opened(a.store, n, p)->0;
    assert(opened.has(n) && opened.space(n) == a.store.space(n)) by {
        if segments::starts(n, "u/"@) && !a.store.has(ns::sandbox(p)) {
            assert(text::utf8(ns::sandbox(p)) != text::utf8(n));
        }
    }
    let b = state::with_store(g.api, opened);
    let w = WriterV { ns: n, root: a.root, principal: p, odd, now_ms };
    let planned = batch::plan_all(ops, opened, w, b.clock);
    let c = batch::charge_all(planned.plans, opened, n, b.quota);
    let writes = batch::writes_in(c.plans);
    lemma_plan_len(ops, opened, w, b.clock);
    lemma_charge_at(planned.plans, opened, n, b.quota);
    assert forall|j: int| #![trigger c.plans[j]] 0 <= j < ops.len() && c.plans[j] is Write implies key_written(ops[j]) is Some
        && c.plans[j]->Write_0.key == text::utf8(key_written(ops[j])->0) by {
        let t = lemma_plan_at(ops, opened, w, b.clock, j);
        assert(c.plans[j] == planned.plans[j]);
    }
    lemma_writes_from(c.plans);
    assert forall|x: int| 0 <= x < writes.len() implies (#[trigger] writes[x]).key != text::utf8(other) by {
        let j = choose|j: int| 0 <= j < c.plans.len() && #[trigger] c.plans[j] == PlanV::Write(writes[x]);
        assert(key_written(ops[j]) != Some(other));
        text::lemma_utf8_injective(key_written(ops[j])->0, other);
    }
    let t = lemma_plan_at(ops, opened, w, b.clock, i);
    if writes.len() == 0 {
        lemma_results_at(c.plans, c.store, n, 0, now_ms);
        if c.plans[i] is Write {
            let m = lemma_write_at(c.plans, i);
        }
    } else {
        let step = c.store.put_batch(n, writes);
        let seq = step.result->Ok_0;
        let cells = c.store.space(n).cells;
        lemma_results_at(c.plans, step.store, n, seq, now_ms);
        assert(model::first_bad_tag(writes) is None);
        model::lemma_others_stay(cells, n, writes, seq, text::utf8(other));
        if c.plans[i] is Write && key_written(ops[i]) == Some(key) {
            let m = lemma_write_at(c.plans, i);
            assert forall|x: int| m < x < writes.len() implies (#[trigger] writes[x]).key != writes[m].key by {
                let j = choose|j: int| i < j < c.plans.len() && #[trigger] c.plans[j] == PlanV::Write(writes[x]);
                assert(key_written(ops[j]) != Some(key));
                text::lemma_utf8_injective(key_written(ops[j])->0, key);
            }
            model::law_last_op_of_batch_decides(cells, n, writes, seq, m);
            util::law_b64_padding(body, 0);
            let t64 = text::utf8(util::b64_text(false, body));
            assert(t64 + Seq::new(0, |x: int| 61u8) =~= t64);
            assert((now_ms + ttl * 1000) % 0x1_0000_0000_0000_0000 == now_ms + ttl * 1000) by (nonlinear_arith)
                requires
                    now_ms + 1000 * ttl < 0x1_0000_0000_0000_0000,
                    now_ms >= 0,
                    ttl >= 0,
            ;
        }
    }
}

/// A value that is larger than a batch may be keeps the whole batch out: it is answered
/// 413, and changes nothing.
pub proof fn law_large_batch_is_refused(
    a: ApiV,
    cs: Option<Seq<CapV>>,
    n: Seq<char>,
    ops: Seq<BatchOpV>,
    odd: Set<(u64, u64)>,
    now_ms: u64,
    i: int,
    key: Seq<char>,
    body: Seq<u8>,
    ttl: u64,
)
    requires
        data::namespace_gate(a, cs, n, 2, now_ms).result is Ok,
        a.store.has(n),
        !segments::starts(n, "u/"@),
        0 < ops.len() <= 1000,
        0 <= i < ops.len(),
        ops[i] == (BatchOpV::Put { key, value_b64: util::b64_text(false, body), ttl }),
        data::violation(a.store, n, body, odd) is None,
        body.len() > 6_291_456,
    ensures
        batch::batch(a, cs, n, ops, odd, now_ms).reply == (ReplyV::Error { status: 413, code: "batch_too_large"@ }),
        batch::batch(a, cs, n, ops, odd, now_ms).api.store == a.store,
{
    let g = data::namespace_gate(a, cs, n, 2, now_ms);
    let p = g.result->Ok_0;
    let w = WriterV { ns: n, root: a.root, principal: p, odd, now_ms };
    let plans = batch::plan_all(ops, a.store, w, a.clock).plans;
    lemma_plan_len(ops, a.store, w, a.clock);
    let c = lemma_plan_at(ops, a.store, w, a.clock, i);
    util::law_b64_padding(body, 0);
    let t64 = text::utf8(util::b64_text(false, body));
    assert(t64 + Seq::new(0, |x: int| 61u8) =~= t64);
    assert(plans[i] is Write && plans[i]->Write_0.value == body);
    let m = lemma_write_at(plans, i);
    let l = batch::writes_in(plans);
    lemma_weight(l, m);
    assert(l[m].frame().len() >= body.len());
}

proof fn lemma_weight(ops: Seq<OpV>, m: int)
    requires
        0 <= m < ops.len(),
    ensures
        batch::weight(ops) >= ops[m].frame().len(),
        batch::weight(ops) >= 0,
    decreases ops.len(),
{
    let front = ops.drop_last();
    if front.len() > 0 {
        lemma_weight(front, if m < front.len() {
            m
        } else {
            0
        });
        if m < front.len() {
            assert(front[m] == ops[m]);
        }
    } else {
        assert(batch::weight(front) == 0);
    }
}

/// How many bytes the answers to reads give back in all.
pub open spec fn given_back(out: Seq<OpOutV>) -> int
    decreases out.len(),
{
    if out.len() == 0 {
        0
    } else {
        given_back(out.drop_last()) + match out.last() {
            OpOutV::Got(Some(t)) => t.len() as int * 3 / 4,
            _ => 0,
        }
    }
}

/// How many bytes the reads of a batch ask for in all.
pub open spec fn asked_for(ops: Seq<BatchOpV>, s: StoreV, n: Seq<char>, now_ms: u64) -> int
    decreases ops.len(),
{
    if ops.len() == 0 {
        0
    } else {
        asked_for(ops.drop_last(), s, n, now_ms) + match ops.last() {
            BatchOpV::Get { key } => match batch::read_value(s, n, text::utf8(key), now_ms) {
                Some(v) => v.len() as int,
                None => 0,
            },
            _ => 0,
        }
    }
}

proof fn lemma_text_bytes(v: Seq<u8>)
    ensures
        util::b64_text(false, v).len() as int * 3 / 4 == v.len(),
{
    if v.len() > 0 {
        util::law_b64_writes_six_bits_a_letter(false, v, 0);
    }
}

#[verifier::rlimit(40)]
proof fn lemma_given_back(ops: Seq<BatchOpV>, plans: Seq<PlanV>, s: StoreV, n: Seq<char>, seq: u64, now_ms: u64)
    requires
        plans.len() == ops.len(),
        forall|i: int|
            #![trigger plans[i]]
            0 <= i < ops.len() ==> (plans[i] is Read ==> ops[i] is Get && plans[i]->Read_0 == text::utf8(ops[i]->Get_key))
                && (ops[i] is Get ==> plans[i] is Read),
    ensures
        ({
            let r = batch::results_of(plans, s, n, seq, now_ms);
            &&& r.out.len() == plans.len()
            &&& given_back(r.out) == r.total
            &&& 0 <= r.total <= 8_388_608
            &&& r.total <= asked_for(ops, s, n, now_ms)
            &&& asked_for(ops, s, n, now_ms) <= 8_388_608 ==> !r.over && forall|i: int|
                #![trigger r.out[i]]
                0 <= i < ops.len() && ops[i] is Get ==> r.out[i] is Got
        }),
    decreases ops.len(),
{
    if ops.len() > 0 {
        let (fo, fp) = (ops.drop_last(), plans.drop_last());
        assert forall|i: int| #![trigger fp[i]] 0 <= i < fo.len() implies (fp[i] is Read ==> fo[i] is Get && fp[i]->Read_0
            == text::utf8(fo[i]->Get_key)) && (fo[i] is Get ==> fp[i] is Read) by {
            assert(fp[i] == plans[i]);
        }
        lemma_given_back(fo, fp, s, n, seq, now_ms);
        let b = batch::results_of(fp, s, n, seq, now_ms);
        let r = batch::results_of(plans, s, n, seq, now_ms);
        let k = plans.len() - 1;
        assert(plans[k] == plans.last());
        assert(r.out.drop_last() =~= b.out);
        if plans.last() is Read {
            match batch::read_value(s, n, plans.last()->Read_0, now_ms) {
                Some(v) => {
                    lemma_text_bytes(v);
                },
                None => {},
            }
        }
        if asked_for(ops, s, n, now_ms) <= 8_388_608 {
            assert forall|i: int| #![trigger r.out[i]] 0 <= i < ops.len() && ops[i] is Get implies r.out[i] is Got by {
                if i < fo.len() {
                    assert(r.out[i] == b.out[i]);
                    assert(fo[i] == ops[i]);
                }
            }
        }
    } else {
        assert(given_back(batch::results_of(plans, s, n, seq, now_ms).out) == 0);
    }
}

/// The reads of a batch give back 8 MiB at most; where all that they ask for stays within
/// that, none of them fails.
#[verifier::rlimit(40)]
pub proof fn law_reads_of_a_batch_are_bounded(
    a: ApiV,
    cs: Option<Seq<CapV>>,
    n: Seq<char>,
    ops: Seq<BatchOpV>,
    odd: Set<(u64, u64)>,
    now_ms: u64,
    i: int,
)
    requires
        batch::batch(a, cs, n, ops, odd, now_ms).reply is Results,
        0 <= i < ops.len(),
    ensures
        ({
            let out = batch::batch(a, cs, n, ops, odd, now_ms);
            let res = out.reply->Results_0;
            &&& res.len() == ops.len()
            &&& given_back(res) <= 8_388_608
            &&& asked_for(ops, out.api.store, n, now_ms) <= 8_388_608 && ops[i] is Get ==> res[i] is Got
        }),
{
    let g = data::namespace_gate(a, cs, n, 2, now_ms);
    let p = g.result->Ok_0;
    let opened = data::opened(a.store, n, p)->0;
    let b = state::with_store(g.api, opened);
    let w = WriterV { ns: n, root: a.root, principal: p, odd, now_ms };
    let planned = batch::plan_all(ops, opened, w, b.clock);
    let c = batch::charge_all(planned.plans, opened, n, b.quota);
    lemma_plan_len(ops, opened, w, b.clock);
    lemma_charge_at(planned.plans, opened, n, b.quota);
    assert forall|j: int| #![trigger c.plans[j]] 0 <= j < ops.len() implies (c.plans[j] is Read ==> ops[j] is Get
        && c.plans[j]->Read_0 == text::utf8(ops[j]->Get_key)) && (ops[j] is Get ==> c.plans[j] is Read) by {
        let t = lemma_plan_at(ops, opened, w, b.clock, j);
        assert(planned.plans[j] == batch::planned(ops[j], opened, w, t));
    }
    let writes = batch::writes_in(c.plans);
    if writes.len() == 0 {
        lemma_given_back(ops, c.plans, c.store, n, 0, now_ms);
    } else {
        let step = c.store.put_batch(n, writes);
        lemma_given_back(ops, c.plans, step.store, n, step.result->Ok_0, now_ms);
    }
}

/// An operation of a batch that cannot be done fails in its place, with the reason: a
/// value that is no Base64, one that the schema of the namespace refuses, and one that
/// could not be read.
pub proof fn law_bad_operation_fails_in_its_place(
    a: ApiV,
    cs: Option<Seq<CapV>>,
    n: Seq<char>,
    ops: Seq<BatchOpV>,
    odd: Set<(u64, u64)>,
    now_ms: u64,
    i: int,
)
    requires
        batch::batch(a, cs, n, ops, odd, now_ms).reply is Results,
        a.store.has(n),
        !segments::starts(n, "u/"@),
        0 <= i < ops.len(),
    ensures
        ({
            let res = batch::batch(a, cs, n, ops, odd, now_ms).reply->Results_0;
            &&& res.len() == ops.len()
            &&& ops[i] matches BatchOpV::Bad(m) ==> res[i] == OpOutV::Failed(m)
            &&& ops[i] matches BatchOpV::Put { key, value_b64, ttl } ==> match util::b64_bytes(
                false,
                util::unpadded(text::utf8(value_b64)),
            ) {
                Err(_) => res[i] == OpOutV::Failed("bad_value_b64"@),
                Ok(v) => data::violation(a.store, n, v, odd) matches Some(m) ==> res[i] == OpOutV::Failed(m),
            }
        }),
{
    let g = data::namespace_gate(a, cs, n, 2, now_ms);
    let p = g.result->Ok_0;
    let w = WriterV { ns: n, root: a.root, principal: p, odd, now_ms };
    let planned = batch::plan_all(ops, a.store, w, a.clock);
    let c = batch::charge_all(planned.plans, a.store, n, a.quota);
    lemma_plan_len(ops, a.store, w, a.clock);
    lemma_charge_at(planned.plans, a.store, n, a.quota);
    let t = lemma_plan_at(ops, a.store, w, a.clock, i);
    assert(planned.plans[i] == batch::planned(ops[i], a.store, w, t));
    let writes = batch::writes_in(c.plans);
    if writes.len() == 0 {
        lemma_results_at(c.plans, c.store, n, 0, now_ms);
    } else {
        let step = c.store.put_batch(n, writes);
        lemma_results_at(c.plans, step.store, n, step.result->Ok_0, now_ms);
    }
}

/// The first write of an owner makes the namespace of the owner: a value that is stored
/// there is in it, whether it was there before or not.
#[verifier::rlimit(40)]
pub proof fn law_first_write_makes_the_owners_namespace(
    a: ApiV,
    cs: Seq<CapV>,
    key: Seq<char>,
    q: ParamsV,
    body: Seq<u8>,
    odd: Set<(u64, u64)>,
    now_ms: u64,
)
    requires
        cs.len() > 0,
        cs[0].subject.len() == 32,
        state::gate(
            a,
            Some(cs),
            state::key_scope(a.host, "u/"@ + hexes::hex_text(cs[0].subject), key),
            2,
            now_ms,
        ).result is Ok,
        !a.store.has("u/"@ + hexes::hex_text(cs[0].subject)),
        data::schema_in(a.store, "u/"@ + hexes::hex_text(cs[0].subject)) is None,
        ns::written(a.store, "u/"@ + hexes::hex_text(cs[0].subject)) + body.len() <= a.quota,
        model::single(
            model::put_op(
                text::utf8(key),
                body,
                crate::node::hlc::issued(a.clock, now_ms),
                a.root,
                cs[0].subject,
                data::expires_of(q.ttl, now_ms),
            ),
        ).fits(),
    ensures
        ({
            let n = "u/"@ + hexes::hex_text(cs[0].subject);
            let out = laws::put(a, Some(cs), n, key, q, body, odd, now_ms);
            &&& out.reply is Stored
            &&& out.reply->Stored_seq == 1
            &&& out.api.store.has(n)
            &&& out.api.store.space(n).policy is Lww
            &&& out.api.store.get(n, text::utf8(key)) matches Some(EntryV::Lww(v)) && v.value == body && v.author
                == cs[0].subject
        }),
{
    let n = "u/"@ + hexes::hex_text(cs[0].subject);
    hexes::law_hex_round_trip(cs[0].subject);
    reveal_strlit("u/");
    assert(n[0] == 'u' && n[1] == '/');
    assert(n.skip(2) =~= hexes::hex_text(cs[0].subject));
    assert(naming::owner_name(n));
    assert(segments::starts(n, "u/"@)) by {
        assert(n.take(2) =~= "u/"@);
    }
    assert(n == ns::sandbox(cs[0].subject));
    text::lemma_utf8_decodes(n);
    let s = a.store.create(n, ConflictPolicy::Lww).store;
    assert(s.has(n));
    assert(s.meta == a.store.meta);
    let t = data::charged(s, n, body.len() as int, a.quota)->0;
    assert(t.has(n) && t.space(n).policy is Lww && t.space(n).log.records.len() == 0);
}

/// The bytes of the values that some plans write.
pub open spec fn value_bytes(plans: Seq<PlanV>) -> int
    decreases plans.len(),
{
    if plans.len() == 0 {
        0
    } else {
        value_bytes(plans.drop_last()) + match plans.last() {
            PlanV::Write(o) => if o.tag == 2 {
                0
            } else {
                o.value.len() as int
            },
            _ => 0,
        }
    }
}

proof fn lemma_charged(plans: Seq<PlanV>, s: StoreV, n: Seq<char>, limit: u64)
    requires
        ns::written(s, n) <= limit,
    ensures
        ({
            let c = batch::charge_all(plans, s, n, limit);
            &&& ns::written(c.store, n) == ns::written(s, n) + value_bytes(c.plans)
            &&& ns::written(c.store, n) <= limit
            &&& c.plans.len() == plans.len()
        }),
    decreases plans.len(),
{
    if plans.len() > 0 {
        let front = plans.drop_last();
        lemma_charged(front, s, n, limit);
        let b = batch::charge_all(front, s, n, limit);
        let c = batch::charge_all(plans, s, n, limit);
        assert(c.plans.drop_last() =~= b.plans);
        if plans.last() is Write && plans.last()->Write_0.tag != 2 {
            let delta = plans.last()->Write_0.value.len();
            if ns::written(b.store, n) + delta <= limit {
                ns::law_quota_counts_up(b.store, n, delta as u64, limit);
            }
        }
    } else {
        assert(value_bytes(batch::charge_all(plans, s, n, limit).plans) == 0);
    }
}

/// A batch is counted against the quota: by the bytes of the values that it writes, one
/// that would go over failing by itself, and the count never goes over. Deletes cost
/// nothing.
#[verifier::rlimit(40)]
pub proof fn law_batch_is_counted(a: ApiV, cs: Option<Seq<CapV>>, n: Seq<char>, ops: Seq<BatchOpV>, odd: Set<(u64, u64)>, now_ms: u64)
    requires
        batch::batch(a, cs, n, ops, odd, now_ms).reply is Results,
        a.store.has(n),
        !segments::starts(n, "u/"@),
        ns::written(a.store, n) <= a.quota,
    ensures
        ({
            let out = batch::batch(a, cs, n, ops, odd, now_ms);
            &&& ns::written(out.api.store, n) <= a.quota
            &&& ns::written(out.api.store, n) >= ns::written(a.store, n)
            &&& (forall|i: int| 0 <= i < ops.len() ==> !((#[trigger] ops[i]) is Put)) ==> ns::written(out.api.store, n)
                == ns::written(a.store, n)
        }),
{
    let g = data::namespace_gate(a, cs, n, 2, now_ms);
    let p = g.result->Ok_0;
    let w = WriterV { ns: n, root: a.root, principal: p, odd, now_ms };
    let planned = batch::plan_all(ops, a.store, w, a.clock);
    let c = batch::charge_all(planned.plans, a.store, n, a.quota);
    lemma_charged(planned.plans, a.store, n, a.quota);
    lemma_value_bytes(c.plans);
    lemma_plan_len(ops, a.store, w, a.clock);
    lemma_charge_at(planned.plans, a.store, n, a.quota);
    if forall|i: int| 0 <= i < ops.len() ==> !((#[trigger] ops[i]) is Put) {
        assert forall|i: int| 0 <= i < c.plans.len() implies !((#[trigger] c.plans[i]) is Write && c.plans[i]->Write_0.tag
            != 2) by {
            let t = lemma_plan_at(ops, a.store, w, a.clock, i);
            assert(!(ops[i] is Put));
        }
        lemma_no_values(c.plans);
    }
    let writes = batch::writes_in(c.plans);
    if writes.len() > 0 {
        let step = c.store.put_batch(n, writes);
        assert(step.store.meta == c.store.meta);
    }
}

proof fn lemma_value_bytes(plans: Seq<PlanV>)
    ensures
        value_bytes(plans) >= 0,
    decreases plans.len(),
{
    if plans.len() > 0 {
        lemma_value_bytes(plans.drop_last());
    }
}

proof fn lemma_no_values(plans: Seq<PlanV>)
    requires
        forall|i: int| 0 <= i < plans.len() ==> !((#[trigger] plans[i]) is Write && plans[i]->Write_0.tag != 2),
    ensures
        value_bytes(plans) == 0,
    decreases plans.len(),
{
    if plans.len() > 0 {
        let front = plans.drop_last();
        assert forall|i: int| 0 <= i < front.len() implies !((#[trigger] front[i]) is Write && front[i]->Write_0.tag != 2) by {
            assert(front[i] == plans[i]);
        }
        lemma_no_values(front);
        assert(plans[plans.len() - 1] == plans.last());
    }
}

/// A stored value is stamped with who wrote it, by whose host and when: the principal of
/// the request, the key of the host, and a clock later than any before; its number is
/// that of the answer.
pub proof fn law_stored_value_is_stamped(
    a: ApiV,
    cs: Option<Seq<CapV>>,
    n: Seq<char>,
    key: Seq<char>,
    q: ParamsV,
    body: Seq<u8>,
    odd: Set<(u64, u64)>,
    now_ms: u64,
)
    requires
        laws::put(a, cs, n, key, q, body, odd, now_ms).reply is Stored,
        laws::put(a, cs, n, key, q, body, odd, now_ms).api.store.space(n).policy is Lww,
        a.clock < u64::MAX,
    ensures
        ({
            let out = laws::put(a, cs, n, key, q, body, odd, now_ms);
            let held = out.api.store.get(n, text::utf8(key));
            &&& held is Some && held->0 is Lww
            &&& held->0->Lww_0.value == body
            &&& held->0->Lww_0.author == cs->0[0].subject
            &&& held->0->Lww_0.replica == a.root
            &&& held->0->Lww_0.hlc > a.clock
            &&& held->0->Lww_0.hlc == out.api.clock
            &&& held->0->Lww_0.seq == out.reply->Stored_seq
            &&& held->0->Lww_0.expires_at == out.reply->expires_at
        }),
{
}

} // verus!
