//! The routes of the host's administration.

use crate::caps;
use crate::caps::{CapV, Capability, PermSet, Scope, ScopeV, Tier};
use crate::hexes;
use crate::json;
use crate::node::ident;
use crate::node::ident::PublicKey;
use crate::ns;
use crate::ordmap;
use crate::schema;
use crate::segments;
use crate::server::config;
use crate::server::config::{Config, Peer, PeerV};
use crate::server::reply;
use crate::server::reply::{refuse, Reply, ReplyV};
use crate::server::state;
use crate::server::state::{ApiV, AppState, AuthCaps, Outcome};
use crate::storage::entry::ConflictPolicy;
use crate::storage::error::{StorageError, StorageFault};
use crate::storage::model;
use crate::storage::model::StoreV;
use crate::storage::record::{TAG_INDEX, TAG_SCHEMA};
use crate::storage::store::Store;
use crate::text;
use vstd::prelude::*;

verus! {

/// The name of a conflict policy.
pub open spec fn policy_name(p: ConflictPolicy) -> Seq<char> {
    match p {
        ConflictPolicy::Lww => "lww"@,
        ConflictPolicy::CrdtRegister => "register"@,
    }
}

pub fn policy_str(p: ConflictPolicy) -> (s: &'static str)
    ensures
        s@ == policy_name(p),
{
    match p {
        ConflictPolicy::Lww => "lww",
        ConflictPolicy::CrdtRegister => "register",
    }
}

/// The conflict policy of a name.
pub open spec fn policy_named(s: Seq<char>) -> Option<ConflictPolicy> {
    if s == "lww"@ {
        Some(ConflictPolicy::Lww)
    } else if s == "register"@ {
        Some(ConflictPolicy::CrdtRegister)
    } else {
        None
    }
}

// ---------- namespaces ----------

/// The namespaces of a store with their policies, in name order.
pub open spec fn namespace_list(s: StoreV) -> Seq<(Seq<char>, ConflictPolicy)> {
    let ks = ordmap::listed(s.spaces.dom());
    Seq::new(ks.len(), |i: int| (vstd::utf8::decode_utf8(ks[i]), s.spaces[ks[i]].policy))
}

pub open spec fn list_namespaces(a: ApiV, cs: Option<Seq<CapV>>, now_ms: u64) -> Outcome {
    let g = state::admin_gate(a, cs, now_ms);
    match g.result {
        Err(r) => Outcome { api: g.api, reply: r },
        Ok(_) => Outcome { api: g.api, reply: ReplyV::Namespaces(namespace_list(a.store)) },
    }
}

/// The answer to the making of a namespace.
pub open spec fn created_reply(r: Result<(), StorageFault>) -> ReplyV {
    match r {
        Ok(_) => ReplyV::Done,
        Err(f) => match f {
            StorageFault::NamespaceExists(_) => reply::refusal(409, "namespace_exists"@),
            StorageFault::BadName(_) => reply::refusal(400, "bad_request"@),
            _ => reply::refusal(500, "internal"@),
        },
    }
}

/// Make a namespace; those of owners are not made here.
pub open spec fn create_namespace(a: ApiV, cs: Option<Seq<CapV>>, name: Seq<char>, policy: Seq<char>, now_ms: u64) -> Outcome {
    let g = state::admin_gate(a, cs, now_ms);
    match g.result {
        Err(r) => Outcome { api: g.api, reply: r },
        Ok(_) => if segments::starts(name, "u/"@) {
            Outcome { api: g.api, reply: reply::refusal(403, "forbidden"@) }
        } else {
            match policy_named(policy) {
                None => Outcome { api: g.api, reply: reply::refusal(400, "bad_request"@) },
                Some(p) => {
                    let step = a.store.create(name, p);
                    Outcome { api: state::with_store(g.api, step.store), reply: created_reply(step.result) }
                },
            }
        },
    }
}

// ---------- definitions: schema and index ----------

/// A JSON text written anew; `null` where it is none.
pub open spec fn json_or_null(s: Seq<char>) -> Seq<char> {
    match json::json_read(s) {
        Some(j) => json::tree_text(j),
        None => "null"@,
    }
}

pub open spec fn schema_get(a: ApiV, cs: Option<Seq<CapV>>, n: Seq<char>, now_ms: u64) -> Outcome {
    let g = state::admin_gate(a, cs, now_ms);
    match g.result {
        Err(r) => Outcome { api: g.api, reply: r },
        Ok(_) => Outcome {
            api: g.api,
            reply: match model::look(a.store.meta, model::schema_key(n)) {
                Some(b) => ReplyV::Json(json_or_null(text::lossy_text(b))),
                None => reply::refusal(404, "no_schema"@),
            },
        },
    }
}

/// Set or clear a definition, in a namespace that there is.
pub open spec fn define(a: ApiV, n: Seq<char>, tag: u8, value: Option<Seq<u8>>, now_ms: u64) -> Outcome {
    let next = state::ticked(a, now_ms);
    let key = if tag == TAG_INDEX {
        model::index_key(n)
    } else {
        model::schema_key(n)
    };
    let step = a.store.define(n, key, model::def_op(tag, value, next.clock, a.root, a.root), value);
    if !a.store.has(n) {
        Outcome { api: a, reply: reply::refusal(404, "namespace_not_found"@) }
    } else {
        Outcome {
            api: state::with_store(next, step.store),
            reply: match step.result {
                Ok(seq) => ReplyV::Written(seq),
                Err(_) => reply::refusal(500, "internal"@),
            },
        }
    }
}

/// Set a schema: a JSON value that can be enforced.
pub open spec fn schema_set(a: ApiV, cs: Option<Seq<CapV>>, n: Seq<char>, body: Seq<u8>, now_ms: u64) -> Outcome {
    let g = state::admin_gate(a, cs, now_ms);
    match g.result {
        Err(r) => Outcome { api: g.api, reply: r },
        Ok(_) => match json::json_read(text::lossy_text(body)) {
            None => Outcome { api: g.api, reply: reply::refusal(400, "bad_json"@) },
            Some(j) => match schema::unsupported(j) {
                Some(m) => Outcome { api: g.api, reply: reply::refusal(400, "unsupported_schema: "@ + m) },
                None => define(g.api, n, TAG_SCHEMA, Some(body), now_ms),
            },
        },
    }
}

/// Clear a schema or an index definition.
pub open spec fn clear(a: ApiV, cs: Option<Seq<CapV>>, n: Seq<char>, tag: u8, now_ms: u64) -> Outcome {
    let g = state::admin_gate(a, cs, now_ms);
    match g.result {
        Err(r) => Outcome { api: g.api, reply: r },
        Ok(_) => define(g.api, n, tag, None, now_ms),
    }
}

pub open spec fn index_get(a: ApiV, cs: Option<Seq<CapV>>, n: Seq<char>, now_ms: u64) -> Outcome {
    let g = state::admin_gate(a, cs, now_ms);
    match g.result {
        Err(r) => Outcome { api: g.api, reply: r },
        Ok(_) => Outcome {
            api: g.api,
            reply: if model::fields_of(a.store.meta, n).len() == 0 {
                reply::refusal(404, "no_index"@)
            } else {
                ReplyV::Fields(model::fields_of(a.store.meta, n))
            },
        },
    }
}

/// Set the indexed fields: a JSON list of texts; an empty one clears them.
pub open spec fn index_set(a: ApiV, cs: Option<Seq<CapV>>, n: Seq<char>, body: Seq<u8>, now_ms: u64) -> Outcome {
    let g = state::admin_gate(a, cs, now_ms);
    match g.result {
        Err(r) => Outcome { api: g.api, reply: r },
        Ok(_) => match json::strings_read(text::lossy_text(body)) {
            None => Outcome { api: g.api, reply: reply::refusal(400, "bad_index_def"@) },
            Some(l) => define(
                g.api,
                n,
                TAG_INDEX,
                if l.len() == 0 {
                    None
                } else {
                    Some(body)
                },
                now_ms,
            ),
        },
    }
}

// ---------- capabilities ----------

/// What a metadata text holds; empty where there is none.
pub open spec fn ledger_text(s: StoreV, key: Seq<char>) -> Seq<char> {
    match model::look(s.meta, text::utf8(key)) {
        Some(b) => text::lossy_text(b),
        None => Seq::empty(),
    }
}

/// A store with a line more in a metadata text.
pub open spec fn noted(s: StoreV, key: Seq<char>, line: Seq<char>) -> StoreV {
    s.with_meta(s.meta.insert(text::utf8(key), text::utf8(ledger_text(s, key) + line))).bumped(1)
}

/// The scope that a capability may be issued for: data of this host.
pub open spec fn issuable(url: Seq<char>, host: Seq<char>) -> Option<ScopeV> {
    match caps::scope_of(url) {
        Ok(s) => if s.tier != Tier::L1 && s.host == host {
            Some(s)
        } else {
            None
        },
        Err(_) => None,
    }
}

/// Is this a capability with the given content, signed by the host?
pub open spec fn issued_as(c: CapV, a: ApiV, scope: ScopeV, perms: u8, expiry_ms: Option<u64>, nonce: u64, subject: Seq<u8>) -> bool {
    &&& c == (CapV {
        scope,
        perms,
        expiry_ms,
        nonce,
        issuer: ident::public_of(a.seed),
        subject,
        sig: ident::signature_of(a.seed, caps::canonical(c)),
    })
    &&& ident::verifies(c.issuer, caps::canonical(c), c.sig)
}

/// Whom a capability is issued to: a key by its text, else the one who asks.
pub open spec fn addressee(to: Option<Seq<char>>, principal: Seq<u8>) -> Option<Seq<u8>> {
    match to {
        None => Some(principal),
        Some(t) => if ident::is_key_text(t) {
            Some(hexes::hex_bytes(t))
        } else {
            None
        },
    }
}

/// What a capability is to say, where all of it can be read.
pub open spec fn terms(host: Seq<char>, url: Seq<char>, perms: Seq<Seq<char>>, to: Option<Seq<char>>, principal: Seq<u8>) -> Option<
    (ScopeV, u8, Seq<u8>),
> {
    match (issuable(url, host), caps::perms_of(perms), addressee(to, principal)) {
        (Some(scope), Ok(bits), Some(subject)) => Some((scope, bits, subject)),
        _ => None,
    }
}

/// A capability was issued, noted in the ledger and answered as JSON.
pub open spec fn issued_out(c: CapV, api: ApiV, store: StoreV) -> Outcome {
    let j = json::object_text(caps::cap_members(c));
    Outcome {
        api: state::with_store(api, noted(store, "sys/caps"@, j + "\n"@)),
        reply: ReplyV::Json(j),
    }
}

/// Issue a capability: what cannot be read is answered 400, and nothing is issued.
pub open spec fn issues(
    a: ApiV,
    cs: Option<Seq<CapV>>,
    url: Seq<char>,
    perms: Seq<Seq<char>>,
    expiry_ms: Option<u64>,
    to: Option<Seq<char>>,
    nonce: u64,
    now_ms: u64,
    out: Outcome,
) -> bool {
    let g = state::admin_gate(a, cs, now_ms);
    match g.result {
        Err(r) => out == (Outcome { api: g.api, reply: r }),
        Ok(p) => match terms(a.host, url, perms, to, p) {
            None => out == (Outcome { api: g.api, reply: reply::refusal(400, "bad_request"@) }),
            Some(t) => exists|c: CapV| #[trigger]
                issued_as(c, a, t.0, t.1, expiry_ms, nonce, t.2) && out == issued_out(c, g.api, a.store),
        },
    }
}

/// The lines of a text that are JSON.
pub open spec fn json_lines(lines: Seq<Seq<char>>) -> Seq<Seq<char>>
    decreases lines.len(),
{
    if lines.len() == 0 {
        Seq::empty()
    } else if json::json_read(lines.last()) is Some {
        json_lines(lines.drop_last()).push(lines.last())
    } else {
        json_lines(lines.drop_last())
    }
}

pub open spec fn list_caps(a: ApiV, cs: Option<Seq<CapV>>, now_ms: u64) -> Outcome {
    let g = state::admin_gate(a, cs, now_ms);
    match g.result {
        Err(r) => Outcome { api: g.api, reply: r },
        Ok(_) => Outcome {
            api: g.api,
            reply: ReplyV::Ledger(json_lines(segments::split(ledger_text(a.store, "sys/caps"@), '\n'))),
        },
    }
}

/// The line that notes a revocation.
pub open spec fn revocation_line(scope: ScopeV, key: Seq<u8>) -> Seq<char> {
    scope.url() + "\t"@ + hexes::hex_text(key) + "\n"@
}

/// Revoke what a key holds for a scope: at once, for every verdict that was kept, and
/// after a restart.
pub open spec fn revoke(a: ApiV, cs: Option<Seq<CapV>>, url: Seq<char>, to: Seq<char>, now_ms: u64) -> Outcome {
    let g = state::admin_gate(a, cs, now_ms);
    let bad = Outcome { api: g.api, reply: reply::refusal(400, "bad_request"@) };
    match g.result {
        Err(r) => Outcome { api: g.api, reply: r },
        Ok(_) => match caps::scope_of(url) {
            Err(_) => bad,
            Ok(scope) => if !ident::is_key_text(to) {
                bad
            } else {
                let key = hexes::hex_bytes(to);
                Outcome {
                    api: ApiV {
                        rev: caps::RevokedV {
                            pairs: a.rev.pairs.insert((scope.url(), hexes::hex_text(key))),
                            ..a.rev
                        },
                        epoch: next_epoch(a.epoch),
                        store: noted(a.store, "sys/revocations"@, revocation_line(scope, key)),
                        ..g.api
                    },
                    reply: ReplyV::Done,
                }
            },
        },
    }
}

/// The epoch after another one.
pub open spec fn next_epoch(e: u64) -> u64 {
    if e == u64::MAX {
        0
    } else {
        (e + 1) as u64
    }
}

// ---------- peers ----------

pub open spec fn list_peers(a: ApiV, cs: Option<Seq<CapV>>, ps: Seq<PeerV>, now_ms: u64) -> Outcome {
    let g = state::admin_gate(a, cs, now_ms);
    match g.result {
        Err(r) => Outcome { api: g.api, reply: r },
        Ok(_) => Outcome { api: g.api, reply: ReplyV::Peers(ps) },
    }
}

/// The peers after one was added, and the answer.
pub open spec fn add_peer(a: ApiV, cs: Option<Seq<CapV>>, ps: Seq<PeerV>, p: PeerV, now_ms: u64) -> (Outcome, Seq<PeerV>) {
    let g = state::admin_gate(a, cs, now_ms);
    match g.result {
        Err(r) => (Outcome { api: g.api, reply: r }, ps),
        Ok(_) => match config::add_fault(ps, p.name, p.addr, p.pin) {
            Some(f) => (Outcome { api: g.api, reply: reply::refusal(400, "bad_request: "@ + f) }, ps),
            None => (Outcome { api: g.api, reply: ReplyV::Done }, ps.push(p)),
        },
    }
}

/// The peers after one was removed, and the answer.
pub open spec fn remove_peer(a: ApiV, cs: Option<Seq<CapV>>, ps: Seq<PeerV>, name: Seq<char>, now_ms: u64) -> (
    Outcome,
    Seq<PeerV>,
) {
    let g = state::admin_gate(a, cs, now_ms);
    match g.result {
        Err(r) => (Outcome { api: g.api, reply: r }, ps),
        Ok(_) => (
            Outcome {
                api: g.api,
                reply: if config::without(ps, name).len() == ps.len() {
                    reply::refusal(404, "peer_not_found"@)
                } else {
                    ReplyV::Done
                },
            },
            config::without(ps, name),
        ),
    }
}

// ---------- handlers ----------

fn text_in(store: &Store, key: &str) -> (r: String)
    requires
        store.wf(),
    ensures
        r@ == ledger_text(store@, key@),
{
    match store.meta_get(key) {
        Some(v) => text::lossy_string(v.as_slice()),
        None => {
            let r = String::new();
            assert(r@ =~= Seq::empty());
            r
        },
    }
}

fn note(store: &mut Store, key: &str, line: &str)
    requires
        old(store).wf(),
    ensures
        final(store).wf(),
        final(store).is_durable() == old(store).is_durable(),
        final(store)@ == noted(old(store)@, key@, line@),
{
    let mut t = text_in(store, key);
    t.push_str(line);
    store.meta_set(key, text::bytes_of(t.as_str()));
}

impl AppState {
    /// `GET /l1/namespaces`.
    pub fn l1_list_namespaces(&mut self, caps: Option<&AuthCaps>, now_ms: u64) -> (r: Reply)
        requires
            old(self).wf(),
        ensures
            final(self).wf(),
            final(self).store.is_durable() == old(self).store.is_durable(),
            ({
                let want = list_namespaces(old(self)@, state::held(caps), now_ms);
                final(self)@ == want.api && r@ == want.reply
            }),
    {
        match self.auth_admin(caps, now_ms) {
            Err(e) => e,
            Ok(_) => {
                let l = self.store.namespaces();
                let r = Reply::Namespaces(l);
                proof {
                    let want = namespace_list(self.store@);
                    assert forall|i: int| 0 <= i < l@.len() implies (#[trigger] l@[i]).0@ == want[i].0 by {
                        text::lemma_utf8_decodes(l@[i].0@);
                    }
                    assert(r@->Namespaces_0 =~= want);
                }
                r
            },
        }
    }

    /// `POST /l1/namespaces`.
    pub fn l1_create_namespace(&mut self, caps: Option<&AuthCaps>, name: &str, policy: &str, now_ms: u64) -> (r: Reply)
        requires
            old(self).wf(),
        ensures
            final(self).wf(),
            final(self).store.is_durable() == old(self).store.is_durable(),
            ({
                let want = create_namespace(old(self)@, state::held(caps), name@, policy@, now_ms);
                final(self)@ == want.api && r@ == want.reply
            }),
    {
        match self.auth_admin(caps, now_ms) {
            Err(e) => e,
            Ok(_) => {
                if state::is_owned(name) {
                    return refuse(403, "forbidden");
                }
                let p = if text::same_text(policy, "lww") {
                    ConflictPolicy::Lww
                } else if text::same_text(policy, "register") {
                    ConflictPolicy::CrdtRegister
                } else {
                    return refuse(400, "bad_request");
                };
                match self.store.create_namespace(name, p) {
                    Ok(_) => Reply::Done,
                    Err(StorageError::NamespaceExists(_)) => refuse(409, "namespace_exists"),
                    Err(StorageError::BadName(_)) => refuse(400, "bad_request"),
                    Err(_) => refuse(500, "internal"),
                }
            },
        }
    }

    /// `GET /l1/namespaces/{ns}/schema`.
    pub fn l1_schema_get(&mut self, caps: Option<&AuthCaps>, n: &str, now_ms: u64) -> (r: Reply)
        requires
            old(self).wf(),
        ensures
            final(self).wf(),
            final(self).store.is_durable() == old(self).store.is_durable(),
            ({
                let want = schema_get(old(self)@, state::held(caps), n@, now_ms);
                final(self)@ == want.api && r@ == want.reply
            }),
    {
        match self.auth_admin(caps, now_ms) {
            Err(e) => e,
            Ok(_) => match self.store.schema(n) {
                None => refuse(404, "no_schema"),
                Some(b) => {
                    let s = text::lossy_string(b.as_slice());
                    match json::rewrite(s.as_str()) {
                        Some(t) => Reply::Json(t),
                        None => Reply::Json(text::copy_text("null")),
                    }
                },
            },
        }
    }

    /// Set or clear a definition.
    fn redefine(&mut self, n: &str, index: bool, value: Option<&[u8]>, now_ms: u64) -> (r: Reply)
        requires
            old(self).wf(),
        ensures
            final(self).wf(),
            final(self).store.is_durable() == old(self).store.is_durable(),
            ({
                let v = match value {
                    Some(b) => Some(b@),
                    None => None,
                };
                let tag = if index {
                    TAG_INDEX
                } else {
                    TAG_SCHEMA
                };
                let want = define(old(self)@, n@, tag, v, now_ms);
                final(self)@ == want.api && r@ == want.reply
            }),
    {
        if self.store.policy(n).is_none() {
            return refuse(404, "namespace_not_found");
        }
        let at: u64 = self.tick(now_ms);
        let rid = self.root.to_bytes();
        let out = if index {
            self.store.set_index(n, value, at, rid, rid)
        } else {
            self.store.set_schema(n, value, at, rid, rid)
        };
        match out {
            Ok(seq) => Reply::Written(seq),
            Err(_) => refuse(500, "internal"),
        }
    }

    /// `POST /l1/namespaces/{ns}/schema`.
    pub fn l1_schema_set(&mut self, caps: Option<&AuthCaps>, n: &str, body: &[u8], now_ms: u64) -> (r: Reply)
        requires
            old(self).wf(),
        ensures
            final(self).wf(),
            final(self).store.is_durable() == old(self).store.is_durable(),
            ({
                let want = schema_set(old(self)@, state::held(caps), n@, body@, now_ms);
                final(self)@ == want.api && r@ == want.reply
            }),
    {
        match self.auth_admin(caps, now_ms) {
            Err(e) => e,
            Ok(_) => match json::read_json(text::lossy_string(body).as_str()) {
                None => refuse(400, "bad_json"),
                Some(j) => match schema::check_supported(&j) {
                    Err(m) => refuse(400, text::join2("unsupported_schema: ", m.as_str()).as_str()),
                    Ok(_) => self.redefine(n, false, Some(body), now_ms),
                },
            },
        }
    }

    /// `DELETE /l1/namespaces/{ns}/schema`.
    pub fn l1_schema_clear(&mut self, caps: Option<&AuthCaps>, n: &str, now_ms: u64) -> (r: Reply)
        requires
            old(self).wf(),
        ensures
            final(self).wf(),
            final(self).store.is_durable() == old(self).store.is_durable(),
            ({
                let want = clear(old(self)@, state::held(caps), n@, TAG_SCHEMA, now_ms);
                final(self)@ == want.api && r@ == want.reply
            }),
    {
        match self.auth_admin(caps, now_ms) {
            Err(e) => e,
            Ok(_) => self.redefine(n, false, None, now_ms),
        }
    }

    /// `GET /l1/namespaces/{ns}/index`.
    pub fn l1_index_get(&mut self, caps: Option<&AuthCaps>, n: &str, now_ms: u64) -> (r: Reply)
        requires
            old(self).wf(),
        ensures
            final(self).wf(),
            final(self).store.is_durable() == old(self).store.is_durable(),
            ({
                let want = index_get(old(self)@, state::held(caps), n@, now_ms);
                final(self)@ == want.api && r@ == want.reply
            }),
    {
        match self.auth_admin(caps, now_ms) {
            Err(e) => e,
            Ok(_) => {
                let l = self.store.index_fields(n);
                assert(json::texts(l@).len() == l@.len());
                if l.len() == 0 {
                    refuse(404, "no_index")
                } else {
                    Reply::Fields(l)
                }
            },
        }
    }

    /// `POST /l1/namespaces/{ns}/index`.
    pub fn l1_index_set(&mut self, caps: Option<&AuthCaps>, n: &str, body: &[u8], now_ms: u64) -> (r: Reply)
        requires
            old(self).wf(),
        ensures
            final(self).wf(),
            final(self).store.is_durable() == old(self).store.is_durable(),
            ({
                let want = index_set(old(self)@, state::held(caps), n@, body@, now_ms);
                final(self)@ == want.api && r@ == want.reply
            }),
    {
        match self.auth_admin(caps, now_ms) {
            Err(e) => e,
            Ok(_) => match json::read_strings(text::lossy_string(body).as_str()) {
                None => refuse(400, "bad_index_def"),
                Some(l) => {
                    assert(json::texts(l@).len() == l@.len());
                    if l.len() == 0 {
                        self.redefine(n, true, None, now_ms)
                    } else {
                        self.redefine(n, true, Some(body), now_ms)
                    }
                },
            },
        }
    }

    /// `DELETE /l1/namespaces/{ns}/index`.
    pub fn l1_index_clear(&mut self, caps: Option<&AuthCaps>, n: &str, now_ms: u64) -> (r: Reply)
        requires
            old(self).wf(),
        ensures
            final(self).wf(),
            final(self).store.is_durable() == old(self).store.is_durable(),
            ({
                let want = clear(old(self)@, state::held(caps), n@, TAG_INDEX, now_ms);
                final(self)@ == want.api && r@ == want.reply
            }),
    {
        match self.auth_admin(caps, now_ms) {
            Err(e) => e,
            Ok(_) => self.redefine(n, true, None, now_ms),
        }
    }

    /// Issue a capability with a nonce that was drawn for it.
    pub fn issue_cap_with(
        &mut self,
        caps: Option<&AuthCaps>,
        url: &str,
        perms: &Vec<String>,
        expiry_ms: Option<u64>,
        to: Option<&str>,
        nonce: u64,
        now_ms: u64,
    ) -> (r: Reply)
        requires
            old(self).wf(),
        ensures
            final(self).wf(),
            final(self).store.is_durable() == old(self).store.is_durable(),
            issues(
                old(self)@,
                state::held(caps),
                url@,
                json::texts(perms@),
                expiry_ms,
                text::opt_view(to),
                nonce,
                now_ms,
                (Outcome { api: final(self)@, reply: r@ }),
            ),
    {
        let ghost before = self@;
        match self.auth_admin(caps, now_ms) {
            Err(e) => e,
            Ok(principal) => match self.read_terms(url, perms, to, principal) {
                None => refuse(400, "bad_request"),
                Some((scope, bits, subject)) => {
                    let ghost sv = scope@;
                    let cap = Capability::sign_for(scope, bits, expiry_ms, nonce, subject, &self.kp);
                    let j = cap.to_json();
                    let line = text::join2(j.as_str(), "\n");
                    note(&mut self.store, "sys/caps", line.as_str());
                    assert(issued_as(cap@, before, sv, bits.0, expiry_ms, nonce, subject@));
                    Reply::Json(j)
                },
            },
        }
    }

    /// What a capability is to say.
    fn read_terms(&self, url: &str, perms: &Vec<String>, to: Option<&str>, principal: PublicKey) -> (r: Option<
        (Scope, PermSet, PublicKey),
    >)
        ensures
            match terms(self.host_name@, url@, json::texts(perms@), text::opt_view(to), principal@) {
                Some(t) => r matches Some((s, p, k)) && s@ == t.0 && p.0 == t.1 && k@ == t.2,
                None => r is None,
            },
    {
        let scope = match Scope::parse(url) {
            Err(_) => {
                return None;
            },
            Ok(s) => s,
        };
        if scope.tier == Tier::L1 || !text::same_text(scope.host.as_str(), self.host_name.as_str()) {
            return None;
        }
        let bits = match PermSet::parse_list(perms) {
            Err(_) => {
                return None;
            },
            Ok(p) => p,
        };
        let subject = match to {
            None => principal,
            Some(t) => match PublicKey::from_hex(t) {
                Err(_) => {
                    return None;
                },
                Ok(k) => k,
            },
        };
        Some((scope, bits, subject))
    }

    /// `POST /l1/caps`: issue a capability. Its nonce is drawn at random; without
    /// randomness none is issued.
    pub fn l1_issue_cap(
        &mut self,
        caps: Option<&AuthCaps>,
        url: &str,
        perms: &Vec<String>,
        expiry_ms: Option<u64>,
        to: Option<&str>,
        now_ms: u64,
    ) -> (r: Reply)
        requires
            old(self).wf(),
        ensures
            final(self).wf(),
            final(self).store.is_durable() == old(self).store.is_durable(),
            (final(self)@ == old(self)@ && r@ == reply::refusal(500, "internal"@)) || exists|nonce: u64| #[trigger]
                issues(
                    old(self)@,
                    state::held(caps),
                    url@,
                    json::texts(perms@),
                    expiry_ms,
                    text::opt_view(to),
                    nonce,
                    now_ms,
                    (Outcome { api: final(self)@, reply: r@ }),
                ),
    {
        match ident::random_nonce() {
            None => refuse(500, "internal"),
            Some(nonce) => self.issue_cap_with(caps, url, perms, expiry_ms, to, nonce, now_ms),
        }
    }

    /// `GET /l1/caps`: the ledger of what was issued.
    pub fn l1_list_caps(&mut self, caps: Option<&AuthCaps>, now_ms: u64) -> (r: Reply)
        requires
            old(self).wf(),
        ensures
            final(self).wf(),
            final(self).store.is_durable() == old(self).store.is_durable(),
            ({
                let want = list_caps(old(self)@, state::held(caps), now_ms);
                final(self)@ == want.api && r@ == want.reply
            }),
    {
        match self.auth_admin(caps, now_ms) {
            Err(e) => e,
            Ok(_) => {
                let lines = segments::split_text(text_in(&self.store, "sys/caps").as_str(), '\n');
                let ghost all = json::texts(lines@);
                let mut out: Vec<String> = Vec::new();
                let mut i: usize = 0;
                proof {
                    assert(all.take(0) =~= Seq::empty());
                    assert(json::texts(out@) =~= Seq::empty());
                }
                while i < lines.len()
                    invariant
                        i <= lines@.len(),
                        all == json::texts(lines@),
                        json::texts(out@) == json_lines(all.take(i as int)),
                    decreases lines@.len() - i,
                {
                    let ghost had = json::texts(out@);
                    proof {
                        assert(all.take(i + 1).drop_last() =~= all.take(i as int));
                        assert(all.take(i + 1).last() == lines@[i as int]@);
                    }
                    if json::read_json(lines[i].as_str()).is_some() {
                        out.push(text::copy_text(lines[i].as_str()));
                        assert(json::texts(out@) =~= had.push(lines@[i as int]@));
                    }
                    i += 1;
                }
                assert(all.take(i as int) =~= all);
                Reply::Ledger(out)
            },
        }
    }

    /// `POST /l1/revoke`.
    pub fn l1_revoke(&mut self, caps: Option<&AuthCaps>, url: &str, to: &str, now_ms: u64) -> (r: Reply)
        requires
            old(self).wf(),
        ensures
            final(self).wf(),
            final(self).store.is_durable() == old(self).store.is_durable(),
            ({
                let want = revoke(old(self)@, state::held(caps), url@, to@, now_ms);
                final(self)@ == want.api && r@ == want.reply
            }),
    {
        match self.auth_admin(caps, now_ms) {
            Err(e) => {
                return e;
            },
            Ok(_) => {},
        }
        let scope = match Scope::parse(url) {
            Err(_) => {
                return refuse(400, "bad_request");
            },
            Ok(s) => s,
        };
        let key = match PublicKey::from_hex(to) {
            Err(_) => {
                return refuse(400, "bad_request");
            },
            Ok(k) => k,
        };
        let hex = key.to_hex();
        self.revocations.revoke_principal(&scope, hex.as_str());
        self.rev_epoch = if self.rev_epoch == u64::MAX {
            0
        } else {
            self.rev_epoch + 1
        };
        let mut line = text::join3(scope.to_url().as_str(), "\t", hex.as_str());
        line.push_str("\n");
        note(&mut self.store, "sys/revocations", line.as_str());
        Reply::Done
    }

    /// `GET /l1/peers`.
    pub fn l1_list_peers(&mut self, caps: Option<&AuthCaps>, cfg: &Config, now_ms: u64) -> (r: Reply)
        requires
            old(self).wf(),
        ensures
            final(self).wf(),
            final(self).store.is_durable() == old(self).store.is_durable(),
            ({
                let want = list_peers(old(self)@, state::held(caps), config::peer_views(cfg.peers@), now_ms);
                final(self)@ == want.api && r@ == want.reply
            }),
    {
        match self.auth_admin(caps, now_ms) {
            Err(e) => e,
            Ok(_) => {
                let mut out: Vec<Peer> = Vec::new();
                let mut i: usize = 0;
                while i < cfg.peers.len()
                    invariant
                        i <= cfg.peers@.len(),
                        config::peer_views(out@) =~= config::peer_views(cfg.peers@).take(i as int),
                    decreases cfg.peers@.len() - i,
                {
                    let ghost had = config::peer_views(out@);
                    let p = cfg.peers[i].copy();
                    out.push(p);
                    assert(config::peer_views(out@) =~= had.push(p@));
                    i += 1;
                }
                Reply::Peers(out)
            },
        }
    }

    /// `POST /l1/peers`.
    pub fn l1_add_peer(
        &mut self,
        caps: Option<&AuthCaps>,
        cfg: &mut Config,
        name: &str,
        addr: &str,
        pin: &str,
        namespaces: Option<Vec<String>>,
        now_ms: u64,
    ) -> (r: Reply)
        requires
            old(self).wf(),
        ensures
            final(self).wf(),
            final(self).store.is_durable() == old(self).store.is_durable(),
            final(cfg).node == old(cfg).node,
            ({
                let p = PeerV {
                    name: name@,
                    addr: addr@,
                    pin: pin@,
                    namespaces: match namespaces {
                        Some(l) => Some(json::texts(l@)),
                        None => None,
                    },
                };
                let want = add_peer(old(self)@, state::held(caps), config::peer_views(old(cfg).peers@), p, now_ms);
                &&& final(self)@ == want.0.api
                &&& r@ == want.0.reply
                &&& config::peer_views(final(cfg).peers@) == want.1
            }),
    {
        match self.auth_admin(caps, now_ms) {
            Err(e) => e,
            Ok(_) => match cfg.add_peer_with(name, addr, pin, namespaces) {
                Ok(_) => Reply::Done,
                Err(e) => refuse(400, text::join2("bad_request: ", e.as_str()).as_str()),
            },
        }
    }

    /// `DELETE /l1/peers/{name}`.
    pub fn l1_remove_peer(&mut self, caps: Option<&AuthCaps>, cfg: &mut Config, name: &str, now_ms: u64) -> (r: Reply)
        requires
            old(self).wf(),
        ensures
            final(self).wf(),
            final(self).store.is_durable() == old(self).store.is_durable(),
            final(cfg).node == old(cfg).node,
            ({
                let want = remove_peer(
                    old(self)@,
                    state::held(caps),
                    config::peer_views(old(cfg).peers@),
                    name@,
                    now_ms,
                );
                &&& final(self)@ == want.0.api
                &&& r@ == want.0.reply
                &&& config::peer_views(final(cfg).peers@) == want.1
            }),
    {
        match self.auth_admin(caps, now_ms) {
            Err(e) => e,
            Ok(_) => {
                let gone = cfg.remove_peer(name);
                assert(config::peer_views(cfg.peers@).len() == cfg.peers@.len());
                if gone {
                    Reply::Done
                } else {
                    refuse(404, "peer_not_found")
                }
            },
        }
    }
}

// ---------- laws ----------

/// A revocation takes effect at once, and no verdict that was kept outlives it: the
/// capability opens nothing to the key any more. Verdicts are kept for epochs that
/// were, and never for one to come.
pub proof fn law_revoked_capability_is_refused(
    a: ApiV,
    cs: Option<Seq<CapV>>,
    c: CapV,
    to: Seq<char>,
    now_ms: u64,
    scope: ScopeV,
    perms: u8,
    later_ms: u64,
)
    requires
        c.scope.plain(),
        ident::is_key_text(to),
        hexes::hex_bytes(to) == c.subject,
        a.verdicts.len() == 256,
        !ns::cached(a.verdicts, caps::cap_digest(c), next_epoch(a.epoch)),
        revoke(a, cs, c.scope.url(), to, now_ms).reply is Done,
    ensures
        ({
            let after = revoke(a, cs, c.scope.url(), to, now_ms).api;
            &&& after.epoch != a.epoch
            &&& caps::cap_check(c, after.keys, c.subject, after.rev, later_ms, false) is Err
            &&& !ns::admits(c, state::request(after, c.subject, scope, perms, later_ms), after.verdicts)
        }),
{
    caps::law_scope_url_round_trip(c.scope);
    let after = revoke(a, cs, c.scope.url(), to, now_ms).api;
    let q = state::request(a, cs->0[0].subject, state::l1_scope_of(a.host), 4, now_ms);
    ns::lemma_keeps_its_epoch(cs->0, q, a.verdicts, caps::cap_digest(c), after.epoch);
}

} // verus!
