//! What the routes of administration do.

use crate::caps;
use crate::caps::{CapV, ScopeV, Tier};
use crate::hexes;
use crate::json;
use crate::node::ident;
use crate::node::ident::PublicKey;
use crate::ns;
use crate::ordmap;
use crate::schema;
use crate::segments;
use crate::server::access;
use crate::server::admin;
use crate::server::boot;
use crate::server::config;
use crate::server::config::PeerV;
use crate::server::data;
use crate::server::reply::ReplyV;
use crate::server::state;
use crate::server::state::{ApiV, Outcome};
use crate::storage::entry::ConflictPolicy;
use crate::storage::naming;
use crate::storage::record::{TAG_INDEX, TAG_SCHEMA};
use crate::storage::store::recovery;
use crate::text;
use vstd::prelude::*;

verus! {

// ---------- namespaces ----------

/// The list of namespaces names every one, once, with its policy.
pub proof fn law_namespaces_are_listed(a: ApiV, cs: Option<Seq<CapV>>, n: Seq<char>, p: ConflictPolicy, now_ms: u64)
    requires
        state::admin_gate(a, cs, now_ms).result is Ok,
        a.store.spaces.dom().finite(),
        forall|k: Seq<u8>| #[trigger] a.store.spaces.dom().contains(k) ==> vstd::utf8::valid_utf8(k),
    ensures
        ({
            let got = admin::list_namespaces(a, cs, now_ms).reply;
            &&& got is Namespaces
            &&& got->Namespaces_0.contains((n, p)) <==> a.store.has(n) && a.store.space(n).policy == p
            &&& forall|i: int, j: int|
                0 <= i < j < got->Namespaces_0.len() ==> (#[trigger] got->Namespaces_0[i]).0 != (
                #[trigger] got->Namespaces_0[j]).0
        }),
{
    let d = a.store.spaces.dom();
    ordmap::lemma_has_list(d);
    let ks = ordmap::listed(d);
    let l = admin::namespace_list(a.store);
    text::lemma_utf8_decodes(n);
    assert forall|j: int| 0 <= j < ks.len() implies text::utf8((#[trigger] l[j]).0) == ks[j] by {
        assert(ks.contains(ks[j]));
        assert(d.contains(ks[j]));
        text::lemma_utf8_encodes(ks[j]);
    }
    if a.store.has(n) {
        assert(ks.contains(text::utf8(n)));
        let j = ks.index_of(text::utf8(n));
        assert(l[j] == (n, a.store.space(n).policy));
    }
    if l.contains((n, p)) {
        let j = l.index_of((n, p));
        assert(ks.contains(ks[j]));
        assert(d.contains(ks[j]));
    }
    assert forall|i: int, j: int| 0 <= i < j < l.len() implies (#[trigger] l[i]).0 != (#[trigger] l[j]).0 by {
        assert(ordmap::lex_lt(ks[i], ks[j]));
        ordmap::lemma_lex_irreflexive(ks[i]);
    }
}

/// A namespace is made empty, with the policy that is asked for, where its name is free
/// and may be one; what is not made changes nothing, and an owner's is never made here.
/// No other namespace is touched.
pub proof fn law_namespace_is_made(
    a: ApiV,
    cs: Option<Seq<CapV>>,
    n: Seq<char>,
    policy: Seq<char>,
    other: Seq<char>,
    key: Seq<u8>,
    now_ms: u64,
)
    requires
        state::admin_gate(a, cs, now_ms).result is Ok,
    ensures
        ({
            let out = admin::create_namespace(a, cs, n, policy, now_ms);
            let t = out.api.store;
            &&& out.reply == ReplyV::Done <==> !("u/"@.is_prefix_of(n)) && (policy == "lww"@ || policy == "register"@)
                && naming::is_ns(n) && !a.store.has(n)
            &&& out.reply == ReplyV::Done ==> t.has(n) && t.space(n).policy == (if policy == "lww"@ {
                ConflictPolicy::Lww
            } else {
                ConflictPolicy::CrdtRegister
            }) && t.get(n, key) is None
            &&& out.reply != ReplyV::Done ==> t == a.store
            &&& "u/"@.is_prefix_of(n) ==> out.reply == (ReplyV::Error { status: 403, code: "forbidden"@ })
            &&& !("u/"@.is_prefix_of(n)) && (policy == "lww"@ || policy == "register"@) && naming::is_ns(n) && a.store.has(n)
                ==> out.reply == (ReplyV::Error { status: 409, code: "namespace_exists"@ })
            &&& !("u/"@.is_prefix_of(n)) && !(policy == "lww"@ || policy == "register"@) ==> out.reply == (
            ReplyV::Error { status: 400, code: "bad_request"@ })
            &&& other != n ==> t.has(other) == a.store.has(other) && t.get(other, key) == a.store.get(other, key)
        }),
{
    reveal_strlit("u/");
    reveal_strlit("lww");
    reveal_strlit("register");
    assert("lww"@.len() == 3 && "register"@.len() == 8);
    if n.len() >= 2 {
        assert(n.subrange(0, 2) =~= n.take(2));
    }
    if other != n {
        text::lemma_utf8_injective(other, n);
    }
}

// ---------- definitions ----------

/// A schema that is set is the one that is shown, and the one that values are held to:
/// afterwards a value of the namespace is refused exactly where it is no JSON or does
/// not meet the schema. Other namespaces are held to theirs, and no data changes.
pub proof fn law_schema_that_is_set_holds(
    a: ApiV,
    cs: Option<Seq<CapV>>,
    reader: Option<Seq<CapV>>,
    n: Seq<char>,
    body: Seq<u8>,
    now_ms: u64,
    value: Seq<u8>,
    odd: Set<(u64, u64)>,
    other: Seq<char>,
    key: Seq<u8>,
    later_ms: u64,
)
    requires
        admin::schema_set(a, cs, n, body, now_ms).reply is Written,
        state::admin_gate(admin::schema_set(a, cs, n, body, now_ms).api, reader, later_ms).result is Ok,
    ensures
        ({
            let t = admin::schema_set(a, cs, n, body, now_ms).api;
            let j = json::json_read(text::lossy_text(body));
            &&& j is Some
            &&& admin::schema_get(t, reader, n, later_ms).reply == ReplyV::Json(json::tree_text(j->0))
            &&& data::violation(t.store, n, value, odd) is None <==> (json::json_read(text::lossy_text(value)) matches Some(v)
                && schema::fault_at(j->0, v, "$"@, odd) is None)
            &&& other != n ==> data::violation(t.store, other, value, odd) == data::violation(a.store, other, value, odd)
            &&& t.store.get(other, key) == a.store.get(other, key)
        }),
{
    recovery::lemma_def_keys(n, other);
    recovery::lemma_def_keys(other, n);
    text::lemma_utf8_decodes(n);
    text::lemma_utf8_decodes(other);
    let t = admin::schema_set(a, cs, n, body, now_ms).api;
    assert(t.store.has(other) == a.store.has(other));
    if a.store.has(other) {
        assert(t.store.space(other).cells == a.store.space(other).cells);
    }
}

/// A schema that is cleared is gone: none is shown, and every value is let in.
pub proof fn law_cleared_schema_is_gone(
    a: ApiV,
    cs: Option<Seq<CapV>>,
    reader: Option<Seq<CapV>>,
    n: Seq<char>,
    now_ms: u64,
    value: Seq<u8>,
    odd: Set<(u64, u64)>,
    later_ms: u64,
)
    requires
        admin::clear(a, cs, n, TAG_SCHEMA, now_ms).reply is Written,
        state::admin_gate(admin::clear(a, cs, n, TAG_SCHEMA, now_ms).api, reader, later_ms).result is Ok,
    ensures
        ({
            let t = admin::clear(a, cs, n, TAG_SCHEMA, now_ms).api;
            &&& admin::schema_get(t, reader, n, later_ms).reply == (ReplyV::Error { status: 404, code: "no_schema"@ })
            &&& data::violation(t.store, n, value, odd) is None
        }),
{
}

/// The fields of an index that is set are those that are shown; after a clear, and after
/// a list of none, none are.
pub proof fn law_index_that_is_set_is_shown(
    a: ApiV,
    cs: Option<Seq<CapV>>,
    reader: Option<Seq<CapV>>,
    n: Seq<char>,
    body: Seq<u8>,
    fields: Seq<Seq<char>>,
    now_ms: u64,
    later_ms: u64,
)
    requires
        json::strings_read(text::lossy_text(body)) == Some(fields),
        admin::index_set(a, cs, n, body, now_ms).reply is Written,
        admin::clear(a, cs, n, TAG_INDEX, now_ms).reply is Written,
        state::admin_gate(admin::index_set(a, cs, n, body, now_ms).api, reader, later_ms).result is Ok,
        state::admin_gate(admin::clear(a, cs, n, TAG_INDEX, now_ms).api, reader, later_ms).result is Ok,
    ensures
        ({
            let t = admin::index_set(a, cs, n, body, now_ms).api;
            let u = admin::clear(a, cs, n, TAG_INDEX, now_ms).api;
            let none = ReplyV::Error { status: 404, code: "no_index"@ };
            &&& admin::index_get(t, reader, n, later_ms).reply == if fields.len() > 0 {
                ReplyV::Fields(fields)
            } else {
                none
            }
            &&& admin::index_get(u, reader, n, later_ms).reply == none
        }),
{
}

// ---------- capabilities ----------

/// An issued capability says what was asked for, is signed by the host, and lets its
/// holder in until it expires or is revoked. It is for data of this host, never for its
/// administration.
#[verifier::rlimit(40)]
pub proof fn law_issued_capability_holds(
    a: ApiV,
    cs: Option<Seq<CapV>>,
    url: Seq<char>,
    perms: Seq<Seq<char>>,
    expiry_ms: Option<u64>,
    to: Option<Seq<char>>,
    nonce: u64,
    now_ms: u64,
    out: Outcome,
    later_ms: u64,
) -> (c: CapV)
    requires
        admin::issues(a, cs, url, perms, expiry_ms, to, nonce, now_ms, out),
        out.reply is Json,
        a.keys.active == ident::public_of(a.seed),
        expiry_ms is None || later_ms < expiry_ms->0,
        !a.rev.nonces.contains(nonce),
    ensures
        out.reply == ReplyV::Json(json::object_text(caps::cap_members(c))),
        caps::scope_of(url) == Ok::<ScopeV, Seq<char>>(c.scope),
        c.scope.host == a.host,
        c.scope.tier != Tier::L1,
        caps::perms_of(perms) == Ok::<u8, Seq<char>>(c.perms),
        c.expiry_ms == expiry_ms,
        c.nonce == nonce,
        to is None ==> c.subject == cs->0[0].subject,
        to matches Some(t) ==> c.subject == hexes::hex_bytes(t),
        !a.rev.pairs.contains((c.scope.url(), hexes::hex_text(c.subject))) ==> access::holds(
            c,
            out.api,
            c.subject,
            later_ms,
        ),
{
    let p = state::admin_gate(a, cs, now_ms).result->Ok_0;
    let t = admin::terms(a.host, url, perms, to, p)->0;
    let g = state::admin_gate(a, cs, now_ms);
    choose|c: CapV| #[trigger]
        admin::issued_as(c, a, t.0, t.1, expiry_ms, nonce, t.2) && out == admin::issued_out(c, g.api, a.store)
}

/// The permissions that names write hold each one that is named, and no other.
pub proof fn law_permissions_are_those_named(names: Seq<Seq<char>>)
    requires
        forall|i: int|
            0 <= i < names.len() ==> (#[trigger] names[i]) == "read"@ || names[i] == "write"@ || names[i] == "admin"@,
    ensures
        caps::perms_of(names) matches Ok(p) && p < 8 && (access::has_bit(p, 1) <==> names.contains("read"@)) && (
        access::has_bit(p, 2) <==> names.contains("write"@)) && (access::has_bit(p, 4) <==> names.contains("admin"@)),
    decreases names.len(),
{
    reveal_strlit("read");
    reveal_strlit("write");
    reveal_strlit("admin");
    assert("read"@[0] == 'r' && "write"@[0] == 'w' && "admin"@[0] == 'a');
    if names.len() > 0 {
        let front = names.drop_last();
        let last = names[names.len() - 1];
        assert forall|i: int| 0 <= i < front.len() implies (#[trigger] front[i]) == "read"@ || front[i] == "write"@
            || front[i] == "admin"@ by {
            assert(front[i] == names[i]);
        }
        law_permissions_are_those_named(front);
        let p = caps::perms_of(front)->Ok_0;
        assert forall|x: Seq<char>| #[trigger] names.contains(x) <==> front.contains(x) || x == last by {
            if names.contains(x) {
                let i = names.index_of(x);
                if i < front.len() {
                    assert(front[i] == x);
                }
            }
            if front.contains(x) {
                assert(names[front.index_of(x)] == x);
            }
        }
        assert(last == "read"@ || last == "write"@ || last == "admin"@);
        let b: u8 = caps::perm_bit(last)->0;
        assert(b == 1 || b == 2 || b == 4);
        let q: u8 = p | b;
        assert(p < 8 && (b == 1 || b == 2 || b == 4) ==> (p | b) < 8 && (((p | b) / 1 % 2 == 1) == (p / 1 % 2 == 1 || b
            == 1)) && (((p | b) / 2 % 2 == 1) == (p / 2 % 2 == 1 || b == 2)) && (((p | b) / 4 % 2 == 1) == (p / 4 % 2 == 1
            || b == 4))) by (bit_vector);
    }
}

/// An issued capability is in the list of them.
pub proof fn law_issued_capability_is_listed(
    a: ApiV,
    cs: Option<Seq<CapV>>,
    url: Seq<char>,
    perms: Seq<Seq<char>>,
    expiry_ms: Option<u64>,
    to: Option<Seq<char>>,
    nonce: u64,
    now_ms: u64,
    out: Outcome,
    reader: Option<Seq<CapV>>,
    later_ms: u64,
)
    requires
        admin::issues(a, cs, url, perms, expiry_ms, to, nonce, now_ms, out),
        out.reply is Json,
        state::admin_gate(out.api, reader, later_ms).result is Ok,
        !out.reply->Json_0.contains('\n'),
        json::json_read(out.reply->Json_0) is Some,
        admin::ledger_text(a.store, "sys/caps"@).len() > 0 ==> admin::ledger_text(a.store, "sys/caps"@).last() == '\n',
    ensures
        ({
            let got = admin::list_caps(out.api, reader, later_ms).reply;
            got is Ledger && got->Ledger_0.contains(out.reply->Json_0)
        }),
{
    let j = out.reply->Json_0;
    let p = state::admin_gate(a, cs, now_ms).result->Ok_0;
    let had = admin::ledger_text(a.store, "sys/caps"@);
    let now = admin::ledger_text(out.api.store, "sys/caps"@);
    reveal_strlit("\n");
    let line = j + "\n"@;
    assert("\n"@ =~= seq!['\n']);
    text::lemma_utf8_decodes(had + line);
    assert(now == had + line);
    lemma_line_is_split(had, j);
    let lines = segments::split(now, '\n');
    lemma_json_line(lines, j);
}

proof fn lemma_line_is_split(had: Seq<char>, j: Seq<char>)
    requires
        !j.contains('\n'),
        had.len() > 0 ==> had.last() == '\n',
    ensures
        segments::split(had + (j + seq!['\n']), '\n').contains(j),
    decreases had.len(),
{
    let s = had + (j + seq!['\n']);
    if had.len() == 0 {
        let none = Seq::<char>::empty();
        assert(s =~= j + seq!['\n'] + none);
        segments::lemma_split_front(j, none, '\n');
        assert((seq![j] + segments::split(none, '\n'))[0] == j);
    } else {
        segments::lemma_find(had, '\n');
        let i = segments::find(had, '\n');
        assert(had[had.len() - 1] == '\n');
        assert(i < had.len()) by {
            if i >= had.len() {
                assert(had[had.len() - 1] != '\n');
            }
        }
        let a = had.take(i);
        let b = had.skip(i + 1);
        assert(!a.contains('\n')) by {
            if a.contains('\n') {
                let x = a.index_of('\n');
                assert(had[x] == '\n');
            }
        }
        lemma_line_is_split(b, j);
        assert(s =~= a + seq!['\n'] + (b + (j + seq!['\n'])));
        segments::lemma_split_front(a, b + (j + seq!['\n']), '\n');
        let rest = segments::split(b + (j + seq!['\n']), '\n');
        let k = rest.index_of(j);
        assert((seq![a] + rest)[k + 1] == j);
    }
}

proof fn lemma_json_line(lines: Seq<Seq<char>>, j: Seq<char>)
    requires
        lines.contains(j),
        json::json_read(j) is Some,
    ensures
        admin::json_lines(lines).contains(j),
    decreases lines.len(),
{
    let front = lines.drop_last();
    let l = admin::json_lines(lines);
    let i = lines.index_of(j);
    if i < front.len() {
        assert(front[i] == j);
        lemma_json_line(front, j);
        let had = admin::json_lines(front);
        assert(l[had.index_of(j)] == j);
    } else {
        assert(l[l.len() - 1] == j);
    }
}

// ---------- peers ----------

/// A peer that is added stands behind those there are; it is refused where its name is
/// taken, its address is none, or its pin is no key or another peer's. A refused one
/// changes nothing.
pub proof fn law_peer_is_added(a: ApiV, cs: Option<Seq<CapV>>, ps: Seq<PeerV>, p: PeerV, now_ms: u64, i: int)
    requires
        state::admin_gate(a, cs, now_ms).result is Ok,
    ensures
        ({
            let (out, after) = admin::add_peer(a, cs, ps, p, now_ms);
            &&& out.reply == ReplyV::Done ==> after == ps.push(p) && config::multiaddr_text(p.addr) is Some && (p.pin.len() == 0
                || p.pin.len() == 64)
            &&& out.reply != ReplyV::Done ==> after == ps && out.reply is Error && out.reply->status == 400
            &&& 0 <= i < ps.len() && ps[i].name == p.name ==> out.reply is Error
            &&& 0 <= i < ps.len() && p.pin.len() == 64 && ps[i].pin == p.pin ==> out.reply is Error
            &&& config::multiaddr_text(p.addr) is Some && p.pin.len() == 0 && (forall|j: int|
                0 <= j < ps.len() ==> (#[trigger] ps[j]).name != p.name) ==> out.reply == ReplyV::Done
            &&& out.api.store == a.store
        }),
{
    if 0 <= i < ps.len() && ps[i].name == p.name {
        config::lemma_place_found(ps, p.name, 0, i);
    }
    if 0 <= i < ps.len() && p.pin.len() == 64 && ps[i].pin == p.pin && ident::is_key_text(p.pin) {
        config::lemma_pin_found(ps, hexes::hex_bytes(p.pin), 0, i);
    }
    if forall|j: int| 0 <= j < ps.len() ==> (#[trigger] ps[j]).name != p.name {
        lemma_no_place(ps, p.name, 0);
    }
}

proof fn lemma_no_place(ps: Seq<PeerV>, name: Seq<char>, i: int)
    requires
        0 <= i <= ps.len(),
        forall|j: int| 0 <= j < ps.len() ==> (#[trigger] ps[j]).name != name,
    ensures
        config::place_of(ps, name, i) == ps.len(),
    decreases ps.len() - i,
{
    if i < ps.len() {
        lemma_no_place(ps, name, i + 1);
    }
}

/// A peer that is removed is gone, all others stay in their order, and a name that no
/// peer has is answered 404.
pub proof fn law_peer_is_removed(a: ApiV, cs: Option<Seq<CapV>>, ps: Seq<PeerV>, name: Seq<char>, now_ms: u64)
    requires
        state::admin_gate(a, cs, now_ms).result is Ok,
    ensures
        ({
            let (out, after) = admin::remove_peer(a, cs, ps, name, now_ms);
            let there = exists|i: int| 0 <= i < ps.len() && (#[trigger] ps[i]).name == name;
            &&& after == ps.filter(|p: PeerV| p.name != name)
            &&& there ==> out.reply == ReplyV::Done
            &&& !there ==> out.reply == (ReplyV::Error { status: 404, code: "peer_not_found"@ }) && after == ps
        }),
{
    lemma_without(ps, name);
}

proof fn lemma_without(ps: Seq<PeerV>, name: Seq<char>)
    ensures
        config::without(ps, name) == ps.filter(|p: PeerV| p.name != name),
        config::without(ps, name).len() <= ps.len(),
        config::without(ps, name).len() < ps.len() <==> exists|i: int|
            0 <= i < ps.len() && (#[trigger] ps[i]).name == name,
        config::without(ps, name).len() == ps.len() ==> config::without(ps, name) == ps,
    decreases ps.len(),
{
    reveal(Seq::filter);
    if ps.len() > 0 {
        let front = ps.drop_last();
        let last = ps[ps.len() - 1];
        lemma_without(front, name);
        if exists|i: int| 0 <= i < ps.len() && (#[trigger] ps[i]).name == name {
            let i = choose|i: int| 0 <= i < ps.len() && (#[trigger] ps[i]).name == name;
            if i < front.len() {
                assert(front[i].name == name);
            }
        }
        if exists|i: int| 0 <= i < front.len() && (#[trigger] front[i]).name == name {
            let i = choose|i: int| 0 <= i < front.len() && (#[trigger] front[i]).name == name;
            assert(ps[i].name == name);
        }
        if last.name != name {
            assert(front.push(last) =~= ps);
        }
    } else {
        assert(ps =~= Seq::empty());
    }
}

// ---------- revocations ----------

proof fn lemma_revoked_in(lines: Seq<Seq<char>>, p: (Seq<char>, Seq<char>))
    ensures
        boot::revoked_in(lines).contains(p) <==> exists|i: int|
            0 <= i < lines.len() && boot::revoked_by(#[trigger] lines[i]) == Some(p),
    decreases lines.len(),
{
    if lines.len() > 0 {
        let front = lines.drop_last();
        lemma_revoked_in(front, p);
        if exists|i: int| 0 <= i < front.len() && boot::revoked_by(#[trigger] front[i]) == Some(p) {
            let i = choose|i: int| 0 <= i < front.len() && boot::revoked_by(#[trigger] front[i]) == Some(p);
            assert(lines[i] == front[i]);
        }
        if exists|i: int| 0 <= i < lines.len() && boot::revoked_by(#[trigger] lines[i]) == Some(p) {
            let i = choose|i: int| 0 <= i < lines.len() && boot::revoked_by(#[trigger] lines[i]) == Some(p);
            if i < front.len() {
                assert(front[i] == lines[i]);
            }
        }
        if boot::revoked_by(lines.last()) == Some(p) {
            assert(boot::revoked_by(lines[lines.len() - 1]) == Some(p));
        }
    }
}

proof fn lemma_lines_stay(had: Seq<char>, j: Seq<char>, l: Seq<char>)
    requires
        !j.contains('\n'),
        had.len() > 0 ==> had.last() == '\n',
        segments::split(had, '\n').contains(l),
        l.len() > 0,
    ensures
        segments::split(had + (j + seq!['\n']), '\n').contains(l),
    decreases had.len(),
{
    let s = had + (j + seq!['\n']);
    segments::lemma_find(had, '\n');
    let i = segments::find(had, '\n');
    if had.len() == 0 {
        assert(segments::split(had, '\n') == seq![had]);
        assert(l == had);
    } else {
        assert(had[had.len() - 1] == '\n');
        assert(i < had.len()) by {
            if i >= had.len() {
                assert(had[had.len() - 1] != '\n');
            }
        }
        let a = had.take(i);
        let b = had.skip(i + 1);
        assert(!a.contains('\n')) by {
            if a.contains('\n') {
                let x = a.index_of('\n');
                assert(had[x] == '\n');
            }
        }
        assert(segments::split(had, '\n') == seq![a] + segments::split(b, '\n'));
        assert(s =~= a + seq!['\n'] + (b + (j + seq!['\n'])));
        segments::lemma_split_front(a, b + (j + seq!['\n']), '\n');
        let rest = segments::split(b + (j + seq!['\n']), '\n');
        let all = segments::split(had, '\n');
        let x = all.index_of(l);
        if x == 0 {
            assert((seq![a] + rest)[0] == l);
        } else {
            assert(segments::split(b, '\n')[x - 1] == l);
            lemma_lines_stay(b, j, l);
            assert((seq![a] + rest)[rest.index_of(l) + 1] == l);
        }
    }
}

/// A revocation outlives a restart, and so do those before it: what the store's ledger
/// revokes afterwards holds the pair of the scope and the key, and all that it held.
#[verifier::rlimit(40)]
pub proof fn law_revocations_outlive_a_restart(
    a: ApiV,
    cs: Option<Seq<CapV>>,
    scope: ScopeV,
    key: PublicKey,
    now_ms: u64,
    p: (Seq<char>, Seq<char>),
)
    requires
        admin::revoke(a, cs, scope.url(), hexes::hex_text(key@), now_ms).reply is Done,
        scope.plain(),
        !scope.url().contains('\t'),
        !scope.url().contains('\n'),
        !text::is_white(scope.url()[0]),
        admin::ledger_text(a.store, "sys/revocations"@).len() > 0 ==> admin::ledger_text(
            a.store,
            "sys/revocations"@,
        ).last() == '\n',
        boot::revoked_by(Seq::empty()) is None,
    ensures
        ({
            let t = admin::revoke(a, cs, scope.url(), hexes::hex_text(key@), now_ms).api;
            &&& t.rev.pairs.contains((scope.url(), hexes::hex_text(key@)))
            &&& a.rev.pairs.subset_of(t.rev.pairs)
            &&& boot::revocations_of(t.store).pairs.contains((scope.url(), hexes::hex_text(key@)))
            &&& boot::revocations_of(a.store).pairs.contains(p) ==> boot::revocations_of(t.store).pairs.contains(p)
        }),
{
    key.lemma_len();
    hexes::law_hex_round_trip(key@);
    caps::law_scope_url_round_trip(scope);
    boot::law_noted_revocation_reads_back(scope, key);
    let t = admin::revoke(a, cs, scope.url(), hexes::hex_text(key@), now_ms).api;
    let had = admin::ledger_text(a.store, "sys/revocations"@);
    let hex = hexes::hex_text(key@);
    reveal_strlit("\n");
    reveal_strlit("\t");
    let j = scope.url() + "\t"@ + hex;
    assert("\n"@ =~= seq!['\n']);
    let line = admin::revocation_line(scope, key@);
    assert(line =~= j + seq!['\n']);
    text::lemma_utf8_decodes(had + line);
    assert(admin::ledger_text(t.store, "sys/revocations"@) == had + line);
    assert(!j.contains('\n')) by {
        if j.contains('\n') {
            let x = j.index_of('\n');
            let u = scope.url().len() as int;
            if x < u {
                assert(scope.url()[x] == '\n');
            } else if x > u {
                assert(hex[x - u - 1] == '\n');
                assert(hexes::is_hex_char(hex[x - u - 1]));
            }
        }
    }
    lemma_line_is_split(had, j);
    let before = segments::split(had, '\n');
    let now = segments::split(had + line, '\n');
    let q = (scope.url(), hex);
    lemma_revoked_in(now, q);
    assert(boot::revoked_by(now[now.index_of(j)]) == Some(q));
    lemma_revoked_in(before, p);
    lemma_revoked_in(now, p);
    if boot::revoked_in(before).contains(p) {
        let i = choose|i: int| 0 <= i < before.len() && boot::revoked_by(#[trigger] before[i]) == Some(p);
        let l = before[i];
        assert(before.contains(l));
        if l.len() == 0 {
            assert(l =~= Seq::empty());
        }
        lemma_lines_stay(had, j, l);
        assert(boot::revoked_by(now[now.index_of(l)]) == Some(p));
    }
}

// ---------- the admin token ----------

/// The admin token that a host signs at its first start opens its administration, for
/// good: it does not expire, and only a revocation ends it.
pub proof fn law_admin_token_opens_administration(a: ApiV, c: CapV, seed: Seq<u8>, nonce: u64, now_ms: u64)
    requires
        boot::is_admin_cap(c, a.host, seed, nonce),
        a.keys.active == ident::public_of(seed),
        a.verdicts == ns::no_verdicts(),
        !a.rev.nonces.contains(nonce),
        !a.rev.pairs.contains((c.scope.url(), hexes::hex_text(c.subject))),
    ensures
        state::admin_gate(a, Some(seq![c]), now_ms).result == Ok::<Seq<u8>, ReplyV>(ident::public_of(seed)),
        c.expiry_ms is None,
{
    let cs = seq![c];
    access::law_administration_opens_by_capability(a, cs, now_ms);
    assert(cs[0] == c);
    assert(access::has_bit(4, 4));
    assert(access::holds(cs[0], a, cs[0].subject, now_ms));
}

// ---------- what is not there ----------

/// A namespace that is not there is answered 404 by every route that needs it, and
/// nothing changes; so are a key that is not there, a schema and an index.
pub proof fn law_missing_is_answered_404(
    a: ApiV,
    cs: Option<Seq<CapV>>,
    n: Seq<char>,
    key: Seq<char>,
    q: data::ParamsV,
    body: Seq<u8>,
    odd: Set<(u64, u64)>,
    since: Option<Seq<char>>,
    now_ms: u64,
)
    requires
        !a.store.has(n),
        !segments::starts(n, "u/"@),
        state::gate(a, cs, state::key_scope(a.host, n, key), 1, now_ms).result is Ok,
        state::gate(a, cs, state::key_scope(a.host, n, key), 2, now_ms).result is Ok,
        data::namespace_gate(a, cs, n, 1, now_ms).result is Ok,
        q.prefix is None,
    ensures
        ({
            let none = ReplyV::Error { status: 404, code: "namespace_not_found"@ };
            let put = data::data(a, cs, n, key, data::Method::Put, q, body, odd, now_ms);
            let del = data::data(a, cs, n, key, data::Method::Delete, q, body, odd, now_ms);
            &&& put.reply == none && put.api.store == a.store
            &&& del.reply == none && del.api.store == a.store
            &&& data::head(a, cs, n, now_ms).reply == none
            &&& data::changes(a, cs, n, since, now_ms).reply == none
            &&& data::data(a, cs, n, key, data::Method::Get, q, body, odd, now_ms).reply == (ReplyV::Error {
                status: 404,
                code: "not_found"@,
            })
            &&& admin::define(a, n, TAG_INDEX, Some(body), now_ms).reply == none
            &&& admin::define(a, n, TAG_SCHEMA, Some(body), now_ms).reply == none
        }),
{
}

} // verus!
