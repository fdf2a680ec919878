//! The routes to the data of a namespace.

use crate::caps::{CapV, PermSet};
use crate::hexes;
use crate::json;
use crate::json::{Json, JsonV};
use crate::node::ident::PublicKey;
use crate::ns;
use crate::ns::{account_write, ensure_l3_namespace};
use crate::query::eval;
use crate::query::eval::{classify, eval_at, QueryCtx, StmtKind, StoreRef};
use crate::query::syntax;
use crate::query::value;
use crate::schema;
use crate::schema::OddPairs;
use crate::segments;
use crate::server::reply;
use crate::server::reply::{
    refuse, ChangeOut, ChangeOutV, ConflictOut, ConflictOutV, EntryOut, EntryOutV, RecordOut, RecordOutV, Reply, ReplyV,
};
use crate::server::state;
use crate::server::state::{ApiV, AppState, AuthCaps, Outcome};
use crate::storage::entry;
use crate::storage::entry::{Entry, EntryV};
use crate::storage::log;
use crate::storage::model;
use crate::storage::model::StoreV;
use crate::storage::record;
use crate::storage::record::{Record, RecordV, TAG_BATCH, TAG_DEL};
use crate::storage::store;
use crate::storage::store::Store;
use crate::text;
use crate::util;
use vstd::prelude::*;

verus! {

/// How many records one answer of the change feed holds.
pub const MAX_CHANGES: u64 = 10_000;

#[derive(Debug, Clone, Copy, PartialEq, Eq, Structural)]
pub enum Method {
    Get,
    Put,
    Delete,
    Other,
}

/// The parameters of a data route, as they were given.
pub struct Params {
    pub prefix: Option<String>,
    pub versions: Option<String>,
    pub ttl: Option<String>,
}

/// The parameters as a value of the model.
pub struct ParamsV {
    pub prefix: Option<Seq<char>>,
    pub versions: Option<Seq<char>>,
    pub ttl: Option<Seq<char>>,
}

/// The view of a text, where there is one.
pub open spec fn opt(s: Option<String>) -> Option<Seq<char>> {
    match s {
        Some(t) => Some(t@),
        None => None,
    }
}

impl View for Params {
    type V = ParamsV;

    open spec fn view(&self) -> ParamsV {
        ParamsV { prefix: opt(self.prefix), versions: opt(self.versions), ttl: opt(self.ttl) }
    }
}

// ---------- what is read ----------

/// The value that a read sees: the visible one, unless it is past its expiry.
pub open spec fn live_value(e: EntryV, now_ms: u64) -> Option<Seq<u8>> {
    match e.latest_live(now_ms) {
        Some(v) => Some(v.value),
        None => None,
    }
}

/// The expiry of the visible version; 0 is never.
pub open spec fn expiry(e: EntryV) -> u64 {
    match e.latest() {
        Some(v) => v.expires_at,
        None => 0,
    }
}

/// The value that a read sees: the visible one, unless it is past its expiry.
pub fn latest_value(e: &Entry, now_ms: u64) -> (r: Option<Vec<u8>>)
    ensures
        match live_value(e@, now_ms) {
            Some(v) => r matches Some(b) && b@ == v,
            None => r is None,
        },
{
    match e.latest_live(now_ms) {
        Some(v) => Some(v.value.clone()),
        None => None,
    }
}

/// The expiry of the visible version.
pub fn entry_expires_at(e: &Entry) -> (r: u64)
    ensures
        r == expiry(e@),
{
    match e.latest() {
        Some(v) => v.expires_at,
        None => 0,
    }
}

/// The keys of a scan whose values are not past their expiry.
pub open spec fn entries(rows: Seq<(Seq<u8>, EntryV)>, now_ms: u64) -> Seq<EntryOutV>
    decreases rows.len(),
{
    if rows.len() == 0 {
        Seq::empty()
    } else {
        let before = entries(rows.drop_last(), now_ms);
        match live_value(rows.last().1, now_ms) {
            Some(v) => before.push(
                EntryOutV {
                    key: text::lossy_text(rows.last().0),
                    value_b64: util::b64_text(false, v),
                    expires_at: expiry(rows.last().1),
                },
            ),
            None => before,
        }
    }
}

/// The views of some entries.
pub open spec fn entry_outs(l: Seq<EntryOut>) -> Seq<EntryOutV> {
    Seq::new(l.len(), |i: int| l[i]@)
}

fn list_entries(rows: &Vec<(Vec<u8>, Entry)>, now_ms: u64) -> (r: Vec<EntryOut>)
    ensures
        entry_outs(r@) == entries(store::scan_views(rows@), now_ms),
{
    let ghost all = store::scan_views(rows@);
    let mut out: Vec<EntryOut> = Vec::new();
    let mut i: usize = 0;
    proof {
        assert(all.take(0) =~= Seq::empty());
        assert(entry_outs(out@) =~= Seq::empty());
    }
    while i < rows.len()
        invariant
            i <= rows@.len(),
            all == store::scan_views(rows@),
            entry_outs(out@) == entries(all.take(i as int), now_ms),
        decreases rows@.len() - i,
    {
        let ghost had = entry_outs(out@);
        proof {
            assert(all.take(i + 1).drop_last() =~= all.take(i as int));
            assert(all.take(i + 1).last() == all[i as int]);
        }
        match latest_value(&rows[i].1, now_ms) {
            Some(v) => {
                let e = EntryOut {
                    key: text::lossy_string(rows[i].0.as_slice()),
                    value_b64: util::b64_encode(v.as_slice()),
                    expires_at: entry_expires_at(&rows[i].1),
                };
                let ghost ev = e@;
                out.push(e);
                assert(entry_outs(out@) =~= had.push(ev));
            },
            None => {},
        }
        i += 1;
    }
    assert(all.take(i as int) =~= all);
    out
}

/// The versions of an entry for an answer.
pub open spec fn versions_out(e: EntryV) -> Seq<reply::VersionOutV> {
    let vs = eval::versions_of(e);
    Seq::new(vs.len(), |i: int| reply::version_out(vs[i]))
}

/// What a read of a key or a prefix is answered.
pub open spec fn get_reply(s: StoreV, n: Seq<char>, key: Seq<char>, q: ParamsV, now_ms: u64) -> ReplyV {
    match q.prefix {
        Some(p) => ReplyV::Entries(entries(store::scanned(s, n, text::utf8(p)), now_ms)),
        None => match s.get(n, text::utf8(key)) {
            None => reply::refusal(404, "not_found"@),
            Some(e) => if q.versions == Some("true"@) {
                ReplyV::Versions { key, versions: versions_out(e) }
            } else {
                match live_value(e, now_ms) {
                    Some(v) => ReplyV::Value(v),
                    None => reply::refusal(404, "not_found"@),
                }
            },
        },
    }
}

// ---------- what is written ----------

/// When a write with a time to live in seconds expires; 0 is never. Past the end of
/// time the count starts again.
pub open spec fn expires_of(ttl: Option<Seq<char>>, now_ms: u64) -> u64 {
    match ttl {
        None => 0,
        Some(t) => match text::u64_of(t) {
            Some(secs) => if secs > 0 {
                ((now_ms + secs * 1000) % 0x1_0000_0000_0000_0000) as u64
            } else {
                0
            },
            None => 0,
        },
    }
}

fn expires_at(ttl: Option<&str>, now_ms: u64) -> (r: u64)
    ensures
        r == expires_of(text::opt_view(ttl), now_ms),
{
    match ttl {
        None => 0,
        Some(t) => match text::parse_u64(t) {
            Some(secs) => if secs > 0 {
                ((now_ms as u128 + secs as u128 * 1000) % 0x1_0000_0000_0000_0000) as u64
            } else {
                0
            },
            None => 0,
        },
    }
}

/// The schema that values of a namespace are held to; none where none is set.
pub open spec fn schema_in(s: StoreV, n: Seq<char>) -> Option<JsonV> {
    match model::look(s.meta, model::schema_key(n)) {
        None => None,
        Some(b) => match json::json_read(text::lossy_text(b)) {
            Some(j) => Some(j),
            None => Some(JsonV::Null),
        },
    }
}

/// Why a value is not let into a namespace.
pub open spec fn violation(s: StoreV, n: Seq<char>, body: Seq<u8>, odd: Set<(u64, u64)>) -> Option<Seq<char>> {
    match schema_in(s, n) {
        None => None,
        Some(j) => match json::json_read(text::lossy_text(body)) {
            None => Some("schema_violation: value is not valid JSON"@),
            Some(v) => match schema::fault_at(j, v, "$"@, odd) {
                Some(m) => Some("schema_violation: "@ + m),
                None => None,
            },
        },
    }
}

fn read_schema(store: &Store, n: &str) -> (r: Option<Json>)
    requires
        store.wf(),
    ensures
        match schema_in(store@, n@) {
            Some(j) => r matches Some(x) && x.value() == j,
            None => r is None,
        },
{
    match store.schema(n) {
        None => None,
        Some(b) => match json::read_json(text::lossy_string(b.as_slice()).as_str()) {
            Some(j) => Some(j),
            None => Some(Json::Null),
        },
    }
}

/// Why a value is not let into a namespace.
pub fn check_value(store: &Store, n: &str, body: &[u8], odd: &OddPairs) -> (r: Option<String>)
    requires
        store.wf(),
    ensures
        match violation(store@, n@, body@, schema::odd_set(odd@)) {
            Some(m) => r matches Some(e) && e@ == m,
            None => r is None,
        },
{
    match read_schema(store, n) {
        None => None,
        Some(j) => match json::read_json(text::lossy_string(body).as_str()) {
            None => Some(text::copy_text("schema_violation: value is not valid JSON")),
            Some(v) => match schema::validate_schema(&j, &v, odd) {
                Err(m) => Some(text::join2("schema_violation: ", m.as_str())),
                Ok(_) => None,
            },
        },
    }
}

/// The numbers of a value and of the schema it is held to.
pub open spec fn numbers_of(s: StoreV, n: Seq<char>, body: Seq<u8>) -> (Seq<u64>, Seq<u64>) {
    match (schema_in(s, n), json::json_read(text::lossy_text(body))) {
        (Some(j), Some(v)) => (schema::numbers(v), schema::numbers(j)),
        _ => (Seq::empty(), Seq::empty()),
    }
}

/// The numbers of a value and of the schema it is held to: the pairs of which it is to
/// be worked out whether one is a multiple of the other.
pub fn schema_numbers(store: &Store, n: &str, body: &[u8]) -> (r: (Vec<u64>, Vec<u64>))
    requires
        store.wf(),
    ensures
        (r.0@, r.1@) == numbers_of(store@, n@, body@),
{
    let mut values: Vec<u64> = Vec::new();
    let mut steps: Vec<u64> = Vec::new();
    match read_schema(store, n) {
        None => {},
        Some(j) => match json::read_json(text::lossy_string(body).as_str()) {
            None => {},
            Some(v) => {
                schema::numbers_in(&v, &mut values);
                schema::numbers_in(&j, &mut steps);
                assert(Seq::<u64>::empty() + schema::numbers(v.value()) =~= schema::numbers(v.value()));
                assert(Seq::<u64>::empty() + schema::numbers(j.value()) =~= schema::numbers(j.value()));
            },
        },
    }
    (values, steps)
}

/// The store with a namespace to write to: a sandbox is made where there is none; any
/// other namespace has to be there.
pub open spec fn opened(s: StoreV, n: Seq<char>, principal: Seq<u8>) -> Option<StoreV> {
    if segments::starts(n, "u/"@) {
        if s.has(ns::sandbox(principal)) {
            Some(s)
        } else {
            Some(s.create(ns::sandbox(principal), entry::ConflictPolicy::Lww).store)
        }
    } else if s.has(n) {
        Some(s)
    } else {
        None
    }
}

/// The store with a write counted against a quota; none where it would go over.
pub open spec fn charged(s: StoreV, n: Seq<char>, delta: int, limit: u64) -> Option<StoreV> {
    if ns::written(s, n) + delta > limit {
        None
    } else {
        Some(
            s.with_meta(
                s.meta.insert(ns::quota_key(n), record::le64(ns::written(s, n) + delta)),
            ).bumped(1),
        )
    }
}

/// Write a value: the namespace, then the schema, then the quota, then the write. What
/// is refused by the schema is not counted.
pub open spec fn put_out(
    a: ApiV,
    n: Seq<char>,
    key: Seq<char>,
    ttl: Option<Seq<char>>,
    body: Seq<u8>,
    odd: Set<(u64, u64)>,
    principal: Seq<u8>,
    now_ms: u64,
) -> Outcome {
    match opened(a.store, n, principal) {
        None => Outcome { api: a, reply: reply::refusal(404, "namespace_not_found"@) },
        Some(s) => match violation(s, n, body, odd) {
            Some(m) => Outcome { api: state::with_store(a, s), reply: reply::refusal(400, m) },
            None => match charged(s, n, body.len() as int, a.quota) {
                None => Outcome { api: state::with_store(a, s), reply: reply::refusal(409, "quota_exceeded"@) },
                Some(t) => {
                    let next = state::ticked(a, now_ms);
                    let e = expires_of(ttl, now_ms);
                    let step = t.put(n, model::put_op(text::utf8(key), body, next.clock, a.root, principal, e));
                    Outcome {
                        api: state::with_store(next, step.store),
                        reply: match step.result {
                            Ok(seq) => ReplyV::Stored { seq, expires_at: e },
                            Err(_) => reply::refusal(500, "internal"@),
                        },
                    }
                },
            },
        },
    }
}

/// Delete a key.
pub open spec fn delete_out(a: ApiV, n: Seq<char>, key: Seq<char>, principal: Seq<u8>, now_ms: u64) -> Outcome {
    let next = state::ticked(a, now_ms);
    let step = a.store.delete(n, model::del_op(text::utf8(key), next.clock, a.root, principal));
    if !a.store.has(n) {
        Outcome { api: a, reply: reply::refusal(404, "namespace_not_found"@) }
    } else {
        Outcome {
            api: state::with_store(next, step.store),
            reply: match step.result {
                Ok(_) => ReplyV::Done,
                Err(_) => reply::refusal(500, "internal"@),
            },
        }
    }
}

/// A request for a key. A read under a prefix needs a capability for the prefix, any
/// other request one for the key; a read needs `read`, anything else `write`.
pub open spec fn data(
    a: ApiV,
    cs: Option<Seq<CapV>>,
    n: Seq<char>,
    key: Seq<char>,
    method: Method,
    q: ParamsV,
    body: Seq<u8>,
    odd: Set<(u64, u64)>,
    now_ms: u64,
) -> Outcome {
    let scope = match (method, q.prefix) {
        (Method::Get, Some(p)) => state::prefix_scope(a.host, n, p),
        _ => state::key_scope(a.host, n, key),
    };
    let perms: u8 = if method is Get {
        1
    } else {
        2
    };
    let g = state::gate(a, cs, scope, perms, now_ms);
    match g.result {
        Err(r) => Outcome { api: g.api, reply: r },
        Ok(p) => match method {
            Method::Get => Outcome { api: g.api, reply: get_reply(a.store, n, key, q, now_ms) },
            Method::Put => put_out(g.api, n, key, q.ttl, body, odd, p, now_ms),
            Method::Delete => delete_out(g.api, n, key, p, now_ms),
            Method::Other => Outcome { api: g.api, reply: reply::refusal(405, "method_not_allowed"@) },
        },
    }
}

/// A scan of a namespace; a prefix has to be given.
pub open spec fn scan(a: ApiV, cs: Option<Seq<CapV>>, n: Seq<char>, prefix: Option<Seq<char>>, now_ms: u64) -> Outcome {
    match prefix {
        None => Outcome { api: a, reply: reply::refusal(400, "bad_request"@) },
        Some(p) => {
            let g = state::gate(a, cs, state::prefix_scope(a.host, n, p), 1, now_ms);
            match g.result {
                Err(r) => Outcome { api: g.api, reply: r },
                Ok(_) => Outcome {
                    api: g.api,
                    reply: ReplyV::Entries(entries(store::scanned(a.store, n, text::utf8(p)), now_ms)),
                },
            }
        },
    }
}

/// Let in who may read or write a whole namespace.
pub open spec fn namespace_gate(a: ApiV, cs: Option<Seq<CapV>>, n: Seq<char>, perms: u8, now_ms: u64) -> state::Gate {
    state::gate(a, cs, state::key_scope(a.host, n, Seq::empty()), perms, now_ms)
}

pub open spec fn head(a: ApiV, cs: Option<Seq<CapV>>, n: Seq<char>, now_ms: u64) -> Outcome {
    let g = namespace_gate(a, cs, n, 1, now_ms);
    match g.result {
        Err(r) => Outcome { api: g.api, reply: r },
        Ok(_) => Outcome {
            api: g.api,
            reply: if a.store.has(n) {
                ReplyV::Head {
                    seq: a.store.space(n).log.records.len() as u64,
                    hash: hexes::hex_text(a.store.space(n).log.head),
                }
            } else {
                reply::refusal(404, "namespace_not_found"@)
            },
        },
    }
}

/// A record for an answer.
pub open spec fn record_out(r: RecordV) -> RecordOutV {
    RecordOutV {
        key_b64: util::b64_text(false, r.op.key),
        value_b64: util::b64_text(false, r.op.value),
        del: r.op.tag == TAG_DEL,
        ttl: r.op.expires_at != 0,
        expires_at: r.op.expires_at,
        hlc: r.op.hlc,
        batch: r.op.tag == TAG_BATCH,
        ops: r.ops.len() as int,
    }
}

pub open spec fn change_out(seq: u64, bytes: Seq<u8>) -> ChangeOutV {
    ChangeOutV {
        seq,
        record: match record::parse_record(bytes, None) {
            Ok(r) => Some(record_out(r)),
            Err(_) => None,
        },
    }
}

/// The records behind number `since`, in order, at most as many as an answer holds.
pub open spec fn changes_after(records: Seq<Seq<u8>>, since: u64) -> Seq<ChangeOutV> {
    let left = records.len() - since;
    Seq::new(
        if left <= 0 {
            0
        } else if left > MAX_CHANGES {
            MAX_CHANGES as nat
        } else {
            left as nat
        },
        |i: int| change_out((since + 1 + i) as u64, records[since + i]),
    )
}

/// The number that a text gives; 0 where it gives none.
pub open spec fn number_or_zero(s: Option<Seq<char>>) -> u64 {
    match s {
        None => 0,
        Some(t) => match text::u64_of(t) {
            Some(n) => n,
            None => 0,
        },
    }
}

pub open spec fn changes(a: ApiV, cs: Option<Seq<CapV>>, n: Seq<char>, since: Option<Seq<char>>, now_ms: u64) -> Outcome {
    let g = namespace_gate(a, cs, n, 1, now_ms);
    match g.result {
        Err(r) => Outcome { api: g.api, reply: r },
        Ok(_) => Outcome {
            api: g.api,
            reply: if a.store.has(n) {
                let l = a.store.space(n).log;
                ReplyV::Changes {
                    since: number_or_zero(since),
                    seq: l.records.len() as u64,
                    hash: hexes::hex_text(l.head),
                    changes: changes_after(l.records, number_or_zero(since)),
                }
            } else {
                reply::refusal(404, "namespace_not_found"@)
            },
        },
    }
}

/// The keys of a scan with more than one version.
pub open spec fn conflicts_in(rows: Seq<(Seq<u8>, EntryV)>) -> Seq<ConflictOutV>
    decreases rows.len(),
{
    if rows.len() == 0 {
        Seq::empty()
    } else {
        let before = conflicts_in(rows.drop_last());
        if eval::versions_of(rows.last().1).len() > 1 {
            before.push(
                ConflictOutV { key: text::lossy_text(rows.last().0), versions: versions_out(rows.last().1) },
            )
        } else {
            before
        }
    }
}

pub open spec fn conflicts(a: ApiV, cs: Option<Seq<CapV>>, n: Seq<char>, now_ms: u64) -> Outcome {
    let g = namespace_gate(a, cs, n, 1, now_ms);
    match g.result {
        Err(r) => Outcome { api: g.api, reply: r },
        Ok(_) => Outcome {
            api: g.api,
            reply: ReplyV::Conflicts(conflicts_in(store::scanned(a.store, n, Seq::empty()))),
        },
    }
}

/// The context that a statement of a remote caller runs in.
pub open spec fn remote_ctx(a: ApiV, n: Seq<char>, writable: bool) -> eval::CtxV {
    eval::CtxV { store: a.store, writable, scope: Some(n), host: a.root, remote: true, clock: a.clock }
}

/// Run a statement: one that only reads gets a store that is only read.
pub open spec fn ql(a: ApiV, cs: Option<Seq<CapV>>, n: Seq<char>, expr: Seq<char>, now_ms: u64) -> Outcome {
    let g = namespace_gate(a, cs, n, 2, now_ms);
    match g.result {
        Err(r) => Outcome { api: g.api, reply: r },
        Ok(_) => match syntax::statement(text::utf8(expr)) {
            Err(_) => Outcome { api: g.api, reply: reply::refusal(400, "query_error"@) },
            Ok(call) => {
                let ran = eval::run(call, remote_ctx(g.api, n, eval::mutates(call)), now_ms);
                Outcome {
                    api: ApiV { store: ran.ctx.store, clock: ran.ctx.clock, ..g.api },
                    reply: match ran.result {
                        Ok(v) => ReplyV::Json(value::shown(v, false)),
                        Err(_) => reply::refusal(400, "query_error"@),
                    },
                }
            },
        },
    }
}

// ---------- handlers ----------

/// A read of a key or a prefix.
fn read_data(s: &Store, n: &str, key: &str, q: &Params, now_ms: u64) -> (r: Reply)
    requires
        s.wf(),
    ensures
        r@ == get_reply(s@, n@, key@, q@, now_ms),
{
    match &q.prefix {
        Some(p) => {
            let rows = s.scan(n, text::bytes_of(p.as_str()).as_slice());
            let l = list_entries(&rows, now_ms);
            assert(Reply::Entries(l)@->Entries_0 =~= entry_outs(l@));
            Reply::Entries(l)
        },
        None => {
            let k = text::bytes_of(key);
            let all = match &q.versions {
                Some(v) => text::same_text(v.as_str(), "true"),
                None => false,
            };
            match s.get(n, &k) {
                None => refuse(404, "not_found"),
                Some(e) => if all {
                    let vs = list_all(e);
                    Reply::Versions { key: text::copy_text(key), versions: vs }
                } else {
                    match latest_value(e, now_ms) {
                        Some(v) => Reply::Value(v),
                        None => refuse(404, "not_found"),
                    }
                },
            }
        },
    }
}

/// Every version of an entry.
fn list_all(e: &Entry) -> (r: Vec<reply::VersionOut>)
    ensures
        reply::version_outs(r@) == versions_out(e@),
{
    match e {
        Entry::Lww(v) => {
            let mut out: Vec<reply::VersionOut> = Vec::new();
            let one = reply::version_json(v);
            out.push(one);
            assert(reply::version_outs(out@) =~= versions_out(e@));
            out
        },
        Entry::Register(vs) => {
            let out = reply::list_versions(vs);
            assert(reply::version_outs(out@) =~= versions_out(e@));
            out
        },
    }
}

fn show_record(r: &Record) -> (o: RecordOut)
    ensures
        o@ == record_out(r@),
{
    RecordOut {
        key_b64: util::b64_encode(r.key.as_slice()),
        value_b64: util::b64_encode(r.value.as_slice()),
        del: r.tag == TAG_DEL,
        ttl: r.expires_at != 0,
        expires_at: r.expires_at,
        hlc: r.hlc,
        batch: r.tag == TAG_BATCH,
        ops: r.ops.len() as u64,
    }
}

/// The views of some changes.
pub open spec fn change_outs(l: Seq<ChangeOut>) -> Seq<ChangeOutV> {
    Seq::new(l.len(), |i: int| l[i]@)
}

/// The records of a namespace behind number `since`.
pub fn list_changes(s: &Store, n: &str, since: u64) -> (r: Vec<ChangeOut>)
    requires
        s.wf(),
        s@.has(n@),
    ensures
        change_outs(r@) == changes_after(s@.space(n@).log.records, since),
{
    let ghost recs = s@.space(n@).log.records;
    let mut out: Vec<ChangeOut> = Vec::new();
    match s.head(n) {
        Some((seq, _)) => {
            if since >= seq {
                assert(change_outs(out@) =~= changes_after(recs, since));
                return out;
            }
        },
        None => {},
    }
    match s.log_records(n, since + 1, MAX_CHANGES) {
        Err(_) => {},
        Ok(found) => {
            let mut i: usize = 0;
            while i < found.len()
                invariant
                    i <= found@.len(),
                    since < u64::MAX,
                    log::numbered(
                        found@,
                        recs,
                        since + 1,
                        log::window_end(recs.len() as int, since + 1, MAX_CHANGES as int),
                    ),
                    out@.len() == i,
                    forall|j: int|
                        0 <= j < i ==> (#[trigger] out@[j])@ == change_out((since + 1 + j) as u64, recs[since + j]),
                decreases found@.len() - i,
            {
                let c = ChangeOut {
                    seq: found[i].0,
                    record: match Record::parse_chain(found[i].1.as_slice(), None) {
                        Ok((rec, _)) => Some(show_record(&rec)),
                        Err(_) => None,
                    },
                };
                out.push(c);
                i += 1;
            }
            assert(change_outs(out@) =~= changes_after(recs, since));
        },
    }
    out
}

/// The views of some conflicts.
pub open spec fn conflict_outs(l: Seq<ConflictOut>) -> Seq<ConflictOutV> {
    Seq::new(l.len(), |i: int| l[i]@)
}

fn list_conflicts(rows: &Vec<(Vec<u8>, Entry)>) -> (r: Vec<ConflictOut>)
    ensures
        conflict_outs(r@) == conflicts_in(store::scan_views(rows@)),
{
    let ghost all = store::scan_views(rows@);
    let mut out: Vec<ConflictOut> = Vec::new();
    let mut i: usize = 0;
    proof {
        assert(all.take(0) =~= Seq::empty());
        assert(conflict_outs(out@) =~= Seq::empty());
    }
    while i < rows.len()
        invariant
            i <= rows@.len(),
            all == store::scan_views(rows@),
            conflict_outs(out@) == conflicts_in(all.take(i as int)),
        decreases rows@.len() - i,
    {
        let ghost had = conflict_outs(out@);
        proof {
            assert(all.take(i + 1).drop_last() =~= all.take(i as int));
            assert(all.take(i + 1).last() == all[i as int]);
        }
        let many = match &rows[i].1 {
            Entry::Lww(_) => false,
            Entry::Register(vs) => vs.len() > 1,
        };
        if many {
            let c = ConflictOut {
                key: text::lossy_string(rows[i].0.as_slice()),
                versions: list_all(&rows[i].1),
            };
            let ghost cv = c@;
            out.push(c);
            assert(conflict_outs(out@) =~= had.push(cv));
        }
        i += 1;
    }
    assert(all.take(i as int) =~= all);
    out
}

impl AppState {
    /// Write a value for a principal that was let in.
    fn put_data(
        &mut self,
        n: &str,
        key: &str,
        ttl: Option<&str>,
        body: &[u8],
        odd: &OddPairs,
        principal: PublicKey,
        now_ms: u64,
    ) -> (r: Reply)
        requires
            old(self).wf(),
        ensures
            final(self).wf(),
            final(self).store.is_durable() == old(self).store.is_durable(),
            ({
                let want = put_out(
                    old(self)@,
                    n@,
                    key@,
                    text::opt_view(ttl),
                    body@,
                    schema::odd_set(odd@),
                    principal@,
                    now_ms,
                );
                final(self)@ == want.api && r@ == want.reply
            }),
    {
        if state::is_owned(n) {
            match ensure_l3_namespace(&mut self.store, &principal) {
                Ok(_) => {},
                Err(e) => {
                    return state::auth_to_response(e);
                },
            }
        } else if self.store.policy(n).is_none() {
            return refuse(404, "namespace_not_found");
        }
        match check_value(&self.store, n, body, odd) {
            Some(m) => {
                return refuse(400, m.as_str());
            },
            None => {},
        }
        match account_write(&mut self.store, n, body.len() as u64, self.default_quota) {
            Ok(_) => {},
            Err(e) => {
                return state::auth_to_response(e);
            },
        }
        let at: u64 = self.tick(now_ms);
        let expires: u64 = expires_at(ttl, now_ms);
        let k = text::bytes_of(key);
        match self.store.put(n, &k, body, at, self.root.to_bytes(), principal.to_bytes(), expires) {
            Ok(seq) => Reply::Stored { seq, expires_at: expires },
            Err(_) => refuse(500, "internal"),
        }
    }

    fn delete_data(&mut self, n: &str, key: &str, principal: PublicKey, now_ms: u64) -> (r: Reply)
        requires
            old(self).wf(),
        ensures
            final(self).wf(),
            final(self).store.is_durable() == old(self).store.is_durable(),
            ({
                let want = delete_out(old(self)@, n@, key@, principal@, now_ms);
                final(self)@ == want.api && r@ == want.reply
            }),
    {
        if self.store.policy(n).is_none() {
            return refuse(404, "namespace_not_found");
        }
        let at: u64 = self.tick(now_ms);
        let k = text::bytes_of(key);
        match self.store.delete(n, &k, at, self.root.to_bytes(), principal.to_bytes()) {
            Ok(_) => Reply::Done,
            Err(_) => refuse(500, "internal"),
        }
    }

    /// `GET`, `PUT` and `DELETE` of a key.
    pub fn handle_data(
        &mut self,
        caps: Option<&AuthCaps>,
        n: &str,
        key: &str,
        method: Method,
        q: &Params,
        body: &[u8],
        odd: &OddPairs,
        now_ms: u64,
    ) -> (r: Reply)
        requires
            old(self).wf(),
        ensures
            final(self).wf(),
            final(self).store.is_durable() == old(self).store.is_durable(),
            ({
                let want = data(
                    old(self)@,
                    state::held(caps),
                    n@,
                    key@,
                    method,
                    q@,
                    body@,
                    schema::odd_set(odd@),
                    now_ms,
                );
                final(self)@ == want.api && r@ == want.reply
            }),
    {
        let scope = match (method, &q.prefix) {
            (Method::Get, Some(p)) => self.scan_scope(n, p.as_str()),
            _ => self.data_scope(n, key),
        };
        let perms = match method {
            Method::Get => PermSet::read(),
            _ => PermSet::write(),
        };
        match self.auth(caps, &scope, perms, now_ms) {
            Err(e) => e,
            Ok(principal) => match method {
                Method::Get => read_data(&self.store, n, key, q, now_ms),
                Method::Put => {
                    let ttl = match &q.ttl {
                        Some(t) => Some(t.as_str()),
                        None => None,
                    };
                    self.put_data(n, key, ttl, body, odd, principal, now_ms)
                },
                Method::Delete => self.delete_data(n, key, principal, now_ms),
                Method::Other => refuse(405, "method_not_allowed"),
            },
        }
    }

    /// `GET` of a namespace with a prefix.
    pub fn handle_scan(&mut self, caps: Option<&AuthCaps>, n: &str, prefix: Option<&str>, now_ms: u64) -> (r: Reply)
        requires
            old(self).wf(),
        ensures
            final(self).wf(),
            final(self).store.is_durable() == old(self).store.is_durable(),
            ({
                let want = scan(old(self)@, state::held(caps), n@, text::opt_view(prefix), now_ms);
                final(self)@ == want.api && r@ == want.reply
            }),
    {
        match prefix {
            None => refuse(400, "bad_request"),
            Some(p) => {
                let scope = self.scan_scope(n, p);
                match self.auth(caps, &scope, PermSet::read(), now_ms) {
                    Err(e) => e,
                    Ok(_) => {
                        let rows = self.store.scan(n, text::bytes_of(p).as_slice());
                        let l = list_entries(&rows, now_ms);
                        assert(Reply::Entries(l)@->Entries_0 =~= entry_outs(l@));
                        Reply::Entries(l)
                    },
                }
            },
        }
    }

    /// Let in who may read or write a whole namespace.
    pub fn auth_namespace(&mut self, caps: Option<&AuthCaps>, n: &str, perms: PermSet, now_ms: u64) -> (r: Result<
        PublicKey,
        Reply,
    >)
        requires
            old(self).wf(),
        ensures
            final(self).wf(),
            final(self).store.is_durable() == old(self).store.is_durable(),
            ({
                let g = namespace_gate(old(self)@, state::held(caps), n@, perms.0, now_ms);
                &&& final(self)@ == g.api
                &&& match g.result {
                    Ok(p) => r matches Ok(k) && k@ == p,
                    Err(f) => r matches Err(e) && e@ == f,
                }
            }),
    {
        let scope = self.data_scope(n, "");
        proof {
            reveal_strlit("");
            assert(""@ =~= Seq::empty());
        }
        self.auth(caps, &scope, perms, now_ms)
    }

    /// `GET` of a namespace's head.
    pub fn handle_head(&mut self, caps: Option<&AuthCaps>, n: &str, now_ms: u64) -> (r: Reply)
        requires
            old(self).wf(),
        ensures
            final(self).wf(),
            final(self).store.is_durable() == old(self).store.is_durable(),
            ({
                let want = head(old(self)@, state::held(caps), n@, now_ms);
                final(self)@ == want.api && r@ == want.reply
            }),
    {
        match self.auth_namespace(caps, n, PermSet::read(), now_ms) {
            Err(e) => e,
            Ok(_) => match self.store.head(n) {
                None => refuse(404, "namespace_not_found"),
                Some((seq, h)) => Reply::Head { seq, hash: hexes::hex_encode(h.as_slice()) },
            },
        }
    }

    /// `GET` of what was written behind a number.
    pub fn handle_changes(&mut self, caps: Option<&AuthCaps>, n: &str, since: Option<&str>, now_ms: u64) -> (r: Reply)
        requires
            old(self).wf(),
        ensures
            final(self).wf(),
            final(self).store.is_durable() == old(self).store.is_durable(),
            ({
                let want = changes(old(self)@, state::held(caps), n@, text::opt_view(since), now_ms);
                final(self)@ == want.api && r@ == want.reply
            }),
    {
        match self.auth_namespace(caps, n, PermSet::read(), now_ms) {
            Err(e) => e,
            Ok(_) => match self.store.head(n) {
                None => refuse(404, "namespace_not_found"),
                Some((seq, h)) => {
                    let from: u64 = match since {
                        None => 0,
                        Some(t) => match text::parse_u64(t) {
                            Some(x) => x,
                            None => 0,
                        },
                    };
                    let l = list_changes(&self.store, n, from);
                    let r = Reply::Changes { since: from, seq, hash: hexes::hex_encode(h.as_slice()), changes: l };
                    assert(r@->Changes_changes =~= change_outs(l@));
                    r
                },
            },
        }
    }

    /// `GET` of the keys with more than one version.
    pub fn handle_conflicts(&mut self, caps: Option<&AuthCaps>, n: &str, now_ms: u64) -> (r: Reply)
        requires
            old(self).wf(),
        ensures
            final(self).wf(),
            final(self).store.is_durable() == old(self).store.is_durable(),
            ({
                let want = conflicts(old(self)@, state::held(caps), n@, now_ms);
                final(self)@ == want.api && r@ == want.reply
            }),
    {
        match self.auth_namespace(caps, n, PermSet::read(), now_ms) {
            Err(e) => e,
            Ok(_) => {
                let none: Vec<u8> = Vec::new();
                assert(none@ =~= Seq::empty());
                let rows = self.store.scan(n, none.as_slice());
                let l = list_conflicts(&rows);
                assert(Reply::Conflicts(l)@->Conflicts_0 =~= conflict_outs(l@));
                Reply::Conflicts(l)
            },
        }
    }

    /// `POST` of a statement.
    pub fn run_ql(&mut self, caps: Option<&AuthCaps>, n: &str, expr: &str, now_ms: u64) -> (r: Reply)
        requires
            old(self).wf(),
        ensures
            final(self).wf(),
            final(self).store.is_durable() == old(self).store.is_durable(),
            ({
                let want = ql(old(self)@, state::held(caps), n@, expr@, now_ms);
                final(self)@ == want.api && r@ == want.reply
            }),
    {
        match self.auth_namespace(caps, n, PermSet::write(), now_ms) {
            Err(e) => {
                return e;
            },
            Ok(_) => {},
        }
        let kind = match classify(expr) {
            Err(_) => {
                return refuse(400, "query_error");
            },
            Ok(k) => k,
        };
        let last = self.clock;
        let (out, next) = if kind == StmtKind::Mutating {
            let mut ctx = QueryCtx {
                store: StoreRef::Write(&mut self.store),
                scope: Some(text::copy_text(n)),
                host_id: self.root,
                remote: true,
                clock: last,
            };
            let out = eval_at(&mut ctx, expr, now_ms);
            (out, ctx.clock)
        } else {
            let mut ctx = QueryCtx {
                store: StoreRef::Read(&self.store),
                scope: Some(text::copy_text(n)),
                host_id: self.root,
                remote: true,
                clock: last,
            };
            let out = eval_at(&mut ctx, expr, now_ms);
            (out, ctx.clock)
        };
        self.clock = next;
        match out {
            Err(_) => refuse(400, "query_error"),
            Ok(v) => Reply::Json(v.json()),
        }
    }
}

} // verus!
