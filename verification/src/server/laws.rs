//! What holds of the data routes as a whole.

use crate::caps;
use crate::caps::CapV;
use crate::ns;
use crate::segments;
use crate::server::batch;
use crate::server::batch::BatchOpV;
use crate::server::data;
use crate::server::data::{Method, ParamsV, MAX_CHANGES};
use crate::server::reply;
use crate::server::reply::ReplyV;
use crate::server::state;
use crate::server::state::{ApiV, Outcome};
use crate::storage::entry;
use crate::storage::entry::ConflictPolicy;
use crate::storage::model;
use crate::storage::model::StoreV;
use crate::storage::record;
use crate::text;
use vstd::prelude::*;

verus! {

/// A write, with an optional time to live.
pub open spec fn put(
    a: ApiV,
    cs: Option<Seq<CapV>>,
    n: Seq<char>,
    key: Seq<char>,
    q: ParamsV,
    body: Seq<u8>,
    odd: Set<(u64, u64)>,
    now_ms: u64,
) -> Outcome {
    data::data(a, cs, n, key, Method::Put, q, body, odd, now_ms)
}

/// A read of a key; `all` asks for every version.
pub open spec fn get(a: ApiV, cs: Option<Seq<CapV>>, n: Seq<char>, key: Seq<char>, all: bool, now_ms: u64) -> Outcome {
    let versions = if all {
        Some("true"@)
    } else {
        None
    };
    let q = ParamsV { prefix: None, versions, ttl: None };
    data::data(a, cs, n, key, Method::Get, q, Seq::empty(), Set::empty(), now_ms)
}

/// Is a read of a key let in?
pub open spec fn may_read(a: ApiV, cs: Option<Seq<CapV>>, n: Seq<char>, key: Seq<char>, now_ms: u64) -> bool {
    state::gate(a, cs, state::key_scope(a.host, n, key), 1, now_ms).result is Ok
}

/// The store that an accepted write goes to: the namespace is there, and the write is
/// counted.
proof fn lemma_put(
    a: ApiV,
    cs: Option<Seq<CapV>>,
    n: Seq<char>,
    key: Seq<char>,
    q: ParamsV,
    body: Seq<u8>,
    odd: Set<(u64, u64)>,
    now_ms: u64,
) -> (r: (StoreV, StoreV, model::Step<u64>, record::OpV))
    requires
        put(a, cs, n, key, q, body, odd, now_ms).reply is Stored,
    ensures
        ({
            let out = put(a, cs, n, key, q, body, odd, now_ms);
            let g = state::gate(a, cs, state::key_scope(a.host, n, key), 2, now_ms);
            let (s, t, step, o) = r;
            let p = g.result->Ok_0;
            &&& g.result is Ok
            &&& data::opened(a.store, n, p) == Some(s)
            &&& data::violation(s, n, body, odd) is None
            &&& data::charged(s, n, body.len() as int, a.quota) == Some(t)
            &&& step == t.put(n, o)
            &&& step.result == Ok::<u64, crate::storage::error::StorageFault>(out.reply->Stored_seq)
            &&& out.api.store == step.store
            &&& out.reply->expires_at == data::expires_of(q.ttl, now_ms)
            &&& o == model::put_op(
                text::utf8(key),
                body,
                state::ticked(g.api, now_ms).clock,
                a.root,
                p,
                out.reply->expires_at,
            )
            &&& s.meta == a.store.meta
            &&& t.has(n) && s.has(n)
            &&& t.space(n).log == s.space(n).log
            &&& t.space(n).cells == s.space(n).cells
            &&& t.space(n).policy == s.space(n).policy
            &&& step.store.space(n).policy == t.space(n).policy
            &&& step.store.has(n)
        }),
{
    let g = state::gate(a, cs, state::key_scope(a.host, n, key), 2, now_ms);
    let p = g.result->Ok_0;
    let s = data::opened(a.store, n, p)->0;
    let t = data::charged(s, n, body.len() as int, a.quota)->0;
    let e = data::expires_of(q.ttl, now_ms);
    let o = model::put_op(text::utf8(key), body, state::ticked(g.api, now_ms).clock, a.root, p, e);
    let step = t.put(n, o);
    (s, t, step, o)
}

/// What is written is read back: a last-writer-wins namespace answers a read of the key
/// with the value until it expires, and 404 from then on.
pub proof fn law_stored_value_is_read_back(
    a: ApiV,
    cs: Option<Seq<CapV>>,
    n: Seq<char>,
    key: Seq<char>,
    q: ParamsV,
    body: Seq<u8>,
    odd: Set<(u64, u64)>,
    now_ms: u64,
    reader: Option<Seq<CapV>>,
    later_ms: u64,
)
    requires
        put(a, cs, n, key, q, body, odd, now_ms).reply is Stored,
        put(a, cs, n, key, q, body, odd, now_ms).api.store.space(n).policy is Lww,
        may_read(put(a, cs, n, key, q, body, odd, now_ms).api, reader, n, key, later_ms),
    ensures
        ({
            let out = put(a, cs, n, key, q, body, odd, now_ms);
            let e = out.reply->expires_at;
            get(out.api, reader, n, key, false, later_ms).reply == if e == 0 || later_ms < e {
                ReplyV::Value(body)
            } else {
                reply::refusal(404, "not_found"@)
            }
        }),
{
    let (s, t, step, o) = lemma_put(a, cs, n, key, q, body, odd, now_ms);
    entry::law_local_write_reads_back(t.space(n).cells, n, o, model::next_seq(t.space(n)));
}

/// A register keeps what is written: a read of every version shows the value.
pub proof fn law_stored_version_is_kept(
    a: ApiV,
    cs: Option<Seq<CapV>>,
    n: Seq<char>,
    key: Seq<char>,
    q: ParamsV,
    body: Seq<u8>,
    odd: Set<(u64, u64)>,
    now_ms: u64,
    reader: Option<Seq<CapV>>,
    later_ms: u64,
)
    requires
        put(a, cs, n, key, q, body, odd, now_ms).reply is Stored,
        put(a, cs, n, key, q, body, odd, now_ms).api.store.space(n).policy is CrdtRegister,
        may_read(put(a, cs, n, key, q, body, odd, now_ms).api, reader, n, key, later_ms),
    ensures
        ({
            let out = put(a, cs, n, key, q, body, odd, now_ms);
            let got = get(out.api, reader, n, key, true, later_ms).reply;
            &&& got is Versions
            &&& got->versions.len() > 0
            &&& got->versions.last().value_b64 == crate::util::b64_text(false, body)
            &&& got->versions.last().seq == out.reply->Stored_seq
        }),
{
    let (s, t, step, o) = lemma_put(a, cs, n, key, q, body, odd, now_ms);
    let c = t.space(n).cells;
    let seq = model::next_seq(t.space(n));
    assert(c.local(n, ConflictPolicy::CrdtRegister, o, seq).fault is None);
    entry::law_register_keeps_all(c, n, o, seq);
    let e = step.store.space(n).cells.get(text::utf8(key))->0;
    let vs = e->Register_0;
    assert(vs.last() == entry::version_of(o, seq));
    assert(data::versions_out(e).last() == reply::version_out(vs.last()));
}

/// What is deleted is not found.
pub proof fn law_deleted_value_is_not_found(
    a: ApiV,
    cs: Option<Seq<CapV>>,
    n: Seq<char>,
    key: Seq<char>,
    q: ParamsV,
    now_ms: u64,
    reader: Option<Seq<CapV>>,
    all: bool,
    later_ms: u64,
)
    requires
        data::data(a, cs, n, key, Method::Delete, q, Seq::empty(), Set::empty(), now_ms).reply is Done,
        may_read(
            data::data(a, cs, n, key, Method::Delete, q, Seq::empty(), Set::empty(), now_ms).api,
            reader,
            n,
            key,
            later_ms,
        ),
    ensures
        get(
            data::data(a, cs, n, key, Method::Delete, q, Seq::empty(), Set::empty(), now_ms).api,
            reader,
            n,
            key,
            all,
            later_ms,
        ).reply == reply::refusal(404, "not_found"@),
{
}

/// The schema of a namespace holds of every value that is stored: a value that it
/// refuses is answered 400, neither stored nor counted against the quota.
pub proof fn law_schema_is_enforced(
    a: ApiV,
    cs: Option<Seq<CapV>>,
    n: Seq<char>,
    key: Seq<char>,
    q: ParamsV,
    body: Seq<u8>,
    odd: Set<(u64, u64)>,
    now_ms: u64,
    other: Seq<char>,
    k: Seq<u8>,
)
    requires
        data::violation(a.store, n, body, odd) is Some,
    ensures
        ({
            let out = put(a, cs, n, key, q, body, odd, now_ms);
            let g = state::gate(a, cs, state::key_scope(a.host, n, key), 2, now_ms);
            &&& !(out.reply is Stored)
            &&& g.result is Ok && data::opened(a.store, n, g.result->Ok_0) is Some ==> out.reply == reply::refusal(
                400,
                data::violation(a.store, n, body, odd)->0,
            )
            &&& out.api.store.get(other, k) == a.store.get(other, k)
            &&& out.api.store.meta == a.store.meta
        }),
{
    let g = state::gate(a, cs, state::key_scope(a.host, n, key), 2, now_ms);
    if g.result is Ok {
        let p = g.result->Ok_0;
        let home = ns::sandbox(p);
        if segments::starts(n, "u/"@) && !a.store.has(home) {
            if text::utf8(other) == text::utf8(home) {
                assert(entry::CellsV::empty().get(k) is None);
            }
        }
    }
}

/// The quota of a namespace is never gone over: a stored value is counted, and the count
/// stays within the quota.
pub proof fn law_quota_is_kept(
    a: ApiV,
    cs: Option<Seq<CapV>>,
    n: Seq<char>,
    key: Seq<char>,
    q: ParamsV,
    body: Seq<u8>,
    odd: Set<(u64, u64)>,
    now_ms: u64,
)
    requires
        put(a, cs, n, key, q, body, odd, now_ms).reply is Stored,
    ensures
        ({
            let out = put(a, cs, n, key, q, body, odd, now_ms);
            ns::written(out.api.store, n) == ns::written(a.store, n) + body.len() && ns::written(out.api.store, n)
                <= a.quota
        }),
{
    let (s, t, step, o) = lemma_put(a, cs, n, key, q, body, odd, now_ms);
    ns::law_quota_counts_up(s, n, body.len() as u64, a.quota);
}

/// A stored value is in the change feed, under the number of the answer: the feed
/// behind the number before is that one change.
pub proof fn law_stored_value_is_in_the_feed(
    a: ApiV,
    cs: Option<Seq<CapV>>,
    n: Seq<char>,
    key: Seq<char>,
    q: ParamsV,
    body: Seq<u8>,
    odd: Set<(u64, u64)>,
    now_ms: u64,
)
    requires
        put(a, cs, n, key, q, body, odd, now_ms).reply is Stored,
        a.root.len() == 32,
        cs->0[0].subject.len() == 32,
        a.store.has(n) ==> a.store.space(n).log.head.len() == 32,
        put(a, cs, n, key, q, body, odd, now_ms).api.store.space(n).log.records.len() <= u64::MAX,
    ensures
        ({
            let out = put(a, cs, n, key, q, body, odd, now_ms);
            let seq = out.reply->Stored_seq;
            let feed = data::changes_after(out.api.store.space(n).log.records, (seq - 1) as u64);
            &&& seq == out.api.store.space(n).log.records.len()
            &&& feed.len() == 1
            &&& feed[0].seq == seq
            &&& feed[0].record is Some
            &&& feed[0].record->0.key_b64 == crate::util::b64_text(false, text::utf8(key))
            &&& feed[0].record->0.value_b64 == crate::util::b64_text(false, body)
            &&& feed[0].record->0.expires_at == out.reply->expires_at
            &&& !feed[0].record->0.del && !feed[0].record->0.batch
        }),
{
    let (s, t, step, o) = lemma_put(a, cs, n, key, q, body, odd, now_ms);
    let before = t.space(n).log;
    let r = model::single(o);
    assert(before.head.len() == 32);
    assert(r.sound());
    record::law_sound_record_reads(r, before.head);
    let after = step.store.space(n).log;
    assert(after.records == before.records.push(r.bytes(before.head)));
    assert(r.plain().op == o);
}

/// The change feed has no gaps: the changes behind a number follow one another from the
/// next number on, each with its own record. A page that is not full ends at the head,
/// and the page behind the last number of a full one goes on where it ended.
pub proof fn law_feed_is_gapless(records: Seq<Seq<u8>>, since: u64, i: int)
    requires
        records.len() <= u64::MAX,
        0 <= i < data::changes_after(records, since).len(),
    ensures
        ({
            let page = data::changes_after(records, since);
            let last = page.last().seq;
            &&& page.len() <= MAX_CHANGES
            &&& page[i] == data::change_out((since + 1 + i) as u64, records[since + i])
            &&& page[i].seq == since + 1 + i
            &&& page.len() < MAX_CHANGES ==> last == records.len()
            &&& last < records.len() ==> data::changes_after(records, last)[0].seq == last + 1
        }),
{
}

/// A feed that is read page by page to its end is the whole log: there is a change
/// behind every number but the last.
pub proof fn law_feed_reaches_the_head(records: Seq<Seq<u8>>, since: u64)
    requires
        records.len() <= u64::MAX,
    ensures
        data::changes_after(records, since).len() > 0 <==> since < records.len(),
{
}

/// Reads change no data, and issue no clock.
pub proof fn law_reads_change_nothing(
    a: ApiV,
    cs: Option<Seq<CapV>>,
    n: Seq<char>,
    key: Seq<char>,
    q: ParamsV,
    at: Option<Seq<char>>,
    now_ms: u64,
)
    ensures
        ({
            let one = data::data(a, cs, n, key, Method::Get, q, Seq::empty(), Set::empty(), now_ms).api;
            one.store == a.store && one.clock == a.clock
        }),
        data::scan(a, cs, n, at, now_ms).api.store == a.store,
        data::head(a, cs, n, now_ms).api.store == a.store,
        data::changes(a, cs, n, at, now_ms).api.store == a.store,
        data::conflicts(a, cs, n, now_ms).api.store == a.store,
{
}

/// Without a capability no route to data does anything, and each answers 401.
pub proof fn law_no_capability_no_data(
    a: ApiV,
    n: Seq<char>,
    key: Seq<char>,
    method: Method,
    q: ParamsV,
    body: Seq<u8>,
    odd: Set<(u64, u64)>,
    since: Option<Seq<char>>,
    prefix: Seq<char>,
    expr: Seq<char>,
    ops: Seq<BatchOpV>,
    now_ms: u64,
)
    ensures
        data::data(a, None, n, key, method, q, body, odd, now_ms) == nothing(a),
        data::scan(a, None, n, Some(prefix), now_ms) == nothing(a),
        data::head(a, None, n, now_ms) == nothing(a),
        data::changes(a, None, n, since, now_ms) == nothing(a),
        data::conflicts(a, None, n, now_ms) == nothing(a),
        data::ql(a, None, n, expr, now_ms) == nothing(a),
        batch::batch(a, None, n, ops, odd, now_ms) == nothing(a),
{
}

/// Nothing is done, and 401 answered.
pub open spec fn nothing(a: ApiV) -> Outcome {
    Outcome { api: a, reply: reply::refusal(401, "invalid_capability"@) }
}

/// Does no capability of a row grant what is asked?
pub open spec fn none_grants(cs: Option<Seq<CapV>>, q: ns::RequestV) -> bool {
    cs matches Some(l) ==> forall|i: int| 0 <= i < l.len() ==> !ns::grants(#[trigger] l[i], q)
}

proof fn lemma_refused(a: ApiV, cs: Option<Seq<CapV>>, scope: caps::ScopeV, perms: u8, now_ms: u64)
    requires
        none_grants(cs, state::request(a, cs->0[0].subject, scope, perms, now_ms)),
    ensures
        state::gate(a, cs, scope, perms, now_ms).result is Err,
{
    if cs is Some && cs->0.len() > 0 && scope.host == a.host {
        let q = state::request(a, cs->0[0].subject, scope, perms, now_ms);
        ns::law_granted_iff_admitted(cs->0, q, a.verdicts);
    }
}

/// Capabilities that only read do not write: a write or a delete with them is answered
/// 403, and changes nothing.
pub proof fn law_read_only_capability_writes_nothing(
    a: ApiV,
    cs: Seq<CapV>,
    n: Seq<char>,
    key: Seq<char>,
    method: Method,
    q: ParamsV,
    body: Seq<u8>,
    odd: Set<(u64, u64)>,
    now_ms: u64,
)
    requires
        cs.len() > 0,
        forall|i: int| 0 <= i < cs.len() ==> !caps::allows((#[trigger] cs[i]).perms, 2),
        !(method is Get),
    ensures
        data::data(a, Some(cs), n, key, method, q, body, odd, now_ms) == (Outcome {
            api: a,
            reply: reply::refusal(403, "forbidden"@),
        }),
{
    let scope = state::key_scope(a.host, n, key);
    lemma_refused(a, Some(cs), scope, 2, now_ms);
    state::law_refused_request_changes_nothing(a, Some(cs), scope, 2, now_ms);
}

/// Capabilities of another host open nothing here, of whatever tier they are: neither
/// data nor administration. A request with them is answered 403, and changes nothing.
pub proof fn law_other_hosts_capabilities_open_nothing(
    a: ApiV,
    cs: Seq<CapV>,
    n: Seq<char>,
    key: Seq<char>,
    method: Method,
    q: ParamsV,
    body: Seq<u8>,
    odd: Set<(u64, u64)>,
    now_ms: u64,
)
    requires
        cs.len() > 0,
        forall|i: int| 0 <= i < cs.len() ==> (#[trigger] cs[i]).scope.host != a.host,
    ensures
        data::data(a, Some(cs), n, key, method, q, body, odd, now_ms) == (Outcome {
            api: a,
            reply: reply::refusal(403, "forbidden"@),
        }),
        state::admin_gate(a, Some(cs), now_ms).api == a,
        state::admin_gate(a, Some(cs), now_ms).result == Err::<Seq<u8>, ReplyV>(reply::refusal(403, "forbidden"@)),
{
    let scope = match (method, q.prefix) {
        (Method::Get, Some(p)) => state::prefix_scope(a.host, n, p),
        _ => state::key_scope(a.host, n, key),
    };
    let perms: u8 = if method is Get {
        1
    } else {
        2
    };
    lemma_refused(a, Some(cs), scope, perms, now_ms);
    state::law_refused_request_changes_nothing(a, Some(cs), scope, perms, now_ms);
    let top = state::l1_scope_of(a.host);
    lemma_refused(a, Some(cs), top, 4, now_ms);
    state::law_refused_request_changes_nothing(a, Some(cs), top, 4, now_ms);
}

} // verus!
