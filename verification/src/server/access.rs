//! Who is let in.

use crate::caps;
use crate::caps::{CapV, ScopeV, Tier};
use crate::hexes;
use crate::node::ident;
use crate::ns;
use crate::query::eval;
use crate::query::syntax::CallV;
use crate::query::value;
use crate::query::written;
use crate::segments;
use crate::server::batch;
use crate::server::batch::BatchOpV;
use crate::server::data;
use crate::server::data::{Method, ParamsV};
use crate::server::reply::ReplyV;
use crate::server::state;
use crate::server::state::{ApiV, Outcome};
use crate::text;
use vstd::prelude::*;

verus! {

/// Does the capability hold by itself: a key of the host signed it, it was given to the
/// principal, it is not past its expiry, and neither it nor what the principal holds for
/// its scope was revoked?
pub open spec fn holds(c: CapV, a: ApiV, principal: Seq<u8>, now_ms: u64) -> bool {
    &&& c.issuer == a.keys.active || a.keys.retired.contains(c.issuer)
    &&& ident::verifies(c.issuer, caps::canonical(c), c.sig)
    &&& c.subject == principal
    &&& c.expiry_ms is None || now_ms < c.expiry_ms->0
    &&& !a.rev.nonces.contains(c.nonce)
    &&& !a.rev.pairs.contains((c.scope.url(), hexes::hex_text(principal)))
}

/// Does a directory lie within a prefix, by whole segments? A missing prefix bounds
/// nothing, and no directory but the top lies within any that is given.
pub open spec fn within(prefix: Option<Seq<char>>, dir: Option<Seq<char>>) -> bool {
    match (prefix, dir) {
        (None, _) => true,
        (Some(p), None) => false,
        (Some(p), Some(d)) => {
            ||| p.len() == 0
            ||| d == p
            ||| p.is_prefix_of(d) && (p.last() == '/' || d[p.len() as int] == '/')
        },
    }
}

/// Is the permission in the set? Permissions are powers of two.
pub open spec fn has_bit(set: u8, bit: u8) -> bool {
    set as int / bit as int % 2 == 1
}

proof fn lemma_bits(set: u8)
    ensures
        caps::allows(set, 1) == has_bit(set, 1),
        caps::allows(set, 2) == has_bit(set, 2),
        caps::allows(set, 4) == has_bit(set, 4),
{
    assert((set & 1 == 1) == (set / 1 % 2 == 1)) by (bit_vector);
    assert((set & 2 == 2) == (set / 2 % 2 == 1)) by (bit_vector);
    assert((set & 4 == 4) == (set / 4 % 2 == 1)) by (bit_vector);
}

proof fn lemma_within(a: ScopeV, b: ScopeV)
    ensures
        a.covers(b) <==> a.host == b.host && a.tier == b.tier && a.ns == b.ns && within(a.prefix, b.prefix),
{
    if a.prefix is Some && b.prefix is Some {
        let p = a.prefix->0;
        let d = b.prefix->0;
        if p.len() <= d.len() {
            assert(d.subrange(0, p.len() as int) =~= d.take(p.len() as int));
        }
        if p.is_prefix_of(d) && p.len() == d.len() {
            assert(p =~= d);
        }
    }
}

#[verifier::rlimit(40)]
proof fn lemma_gate(a: ApiV, cs: Seq<CapV>, scope: ScopeV, perms: u8, now_ms: u64)
    requires
        cs.len() > 0,
        a.verdicts == ns::no_verdicts(),
        scope.host == a.host,
    ensures
        ({
            let q = state::request(a, cs[0].subject, scope, perms, now_ms);
            let g = state::gate(a, Some(cs), scope, perms, now_ms);
            &&& g.result is Ok <==> exists|i: int|
                0 <= i < cs.len() && holds(#[trigger] cs[i], a, cs[0].subject, now_ms) && ns::grants(cs[i], q)
            &&& g.result is Ok ==> g.result->Ok_0 == cs[0].subject
            &&& g.result is Err ==> g.result->Err_0 == (ReplyV::Error { status: 403, code: "forbidden"@ })
            &&& g.api.store == a.store
        }),
{
    let q = state::request(a, cs[0].subject, scope, perms, now_ms);
    ns::law_granted_iff_admitted(cs, q, a.verdicts);
    assert forall|i: int| 0 <= i < cs.len() implies ns::admits(#[trigger] cs[i], q, a.verdicts) == (holds(
        cs[i],
        a,
        cs[0].subject,
        now_ms,
    ) && ns::grants(cs[i], q)) by {
        let d = caps::cap_digest(cs[i]);
        let b = ns::shard_of(d);
        assert(0 <= b < 256);
        assert(!ns::cached(a.verdicts, d, q.epoch));
    }
    if state::gate(a, Some(cs), scope, perms, now_ms).result is Ok {
        let i = choose|i: int| 0 <= i < cs.len() && ns::admits(#[trigger] cs[i], q, a.verdicts);
        assert(holds(cs[i], a, cs[0].subject, now_ms) && ns::grants(cs[i], q));
    }
    if exists|i: int| 0 <= i < cs.len() && holds(#[trigger] cs[i], a, cs[0].subject, now_ms) && ns::grants(cs[i], q) {
        let i = choose|i: int|
            0 <= i < cs.len() && holds(#[trigger] cs[i], a, cs[0].subject, now_ms) && ns::grants(cs[i], q);
        assert(ns::admits(cs[i], q, a.verdicts));
    }
}

/// Who may read or write a key of a shared namespace: whoever holds, as the principal of
/// the first capability that it shows, a capability of this host for the namespace, with
/// the permission, and with a prefix that the directory of the key lies within. Anyone
/// else is answered 403. (What was verified before changes no answer.)
pub proof fn law_shared_namespace_opens_by_capability(
    a: ApiV,
    cs: Seq<CapV>,
    n: Seq<char>,
    key: Seq<char>,
    bit: u8,
    now_ms: u64,
)
    requires
        cs.len() > 0,
        a.verdicts == ns::no_verdicts(),
        !("u/"@.is_prefix_of(n)),
        bit == 1 || bit == 2,
    ensures
        ({
            let g = state::gate(a, Some(cs), state::key_scope(a.host, n, key), bit, now_ms);
            &&& g.result is Ok <==> exists|i: int|
                0 <= i < cs.len() && holds(#[trigger] cs[i], a, cs[0].subject, now_ms) && cs[i].scope.host == a.host
                    && cs[i].scope.tier == Tier::L2 && cs[i].scope.ns == n && within(
                    cs[i].scope.prefix,
                    state::directory(key),
                ) && has_bit(cs[i].perms, bit)
            &&& g.result is Ok ==> g.result->Ok_0 == cs[0].subject
            &&& g.result is Err ==> g.result->Err_0 == (ReplyV::Error { status: 403, code: "forbidden"@ })
        }),
{
    let scope = state::key_scope(a.host, n, key);
    let q = state::request(a, cs[0].subject, scope, bit, now_ms);
    lemma_gate(a, cs, scope, bit, now_ms);
    reveal_strlit("u/");
    if segments::starts(n, "u/"@) {
        assert(n.subrange(0, 2) =~= n.take(2));
    }
    assert forall|i: int| 0 <= i < cs.len() implies ns::grants(#[trigger] cs[i], q) == (cs[i].scope.host == a.host
        && cs[i].scope.tier == Tier::L2 && cs[i].scope.ns == n && within(cs[i].scope.prefix, state::directory(key))
        && has_bit(cs[i].perms, bit)) by {
        lemma_bits(cs[i].perms);
        lemma_within(cs[i].scope, scope);
    }
}

/// Who may read or write a key of an owner's namespace: the owner alone, with a
/// capability of this host for it, the permission, and a prefix that the directory of the
/// key lies within.
pub proof fn law_owners_namespace_opens_to_its_owner(
    a: ApiV,
    cs: Seq<CapV>,
    n: Seq<char>,
    key: Seq<char>,
    bit: u8,
    now_ms: u64,
)
    requires
        cs.len() > 0,
        a.verdicts == ns::no_verdicts(),
        "u/"@.is_prefix_of(n),
        bit == 1 || bit == 2,
    ensures
        ({
            let g = state::gate(a, Some(cs), state::key_scope(a.host, n, key), bit, now_ms);
            &&& g.result is Ok <==> exists|i: int|
                0 <= i < cs.len() && holds(#[trigger] cs[i], a, cs[0].subject, now_ms) && cs[i].scope.host == a.host
                    && cs[i].scope.tier == Tier::L3 && cs[i].scope.ns == n && n == "u/"@ + hexes::hex_text(cs[i].subject)
                    && within(cs[i].scope.prefix, state::directory(key)) && has_bit(cs[i].perms, bit)
            &&& g.result is Ok ==> g.result->Ok_0 == cs[0].subject && n == "u/"@ + hexes::hex_text(cs[0].subject)
            &&& g.result is Err ==> g.result->Err_0 == (ReplyV::Error { status: 403, code: "forbidden"@ })
        }),
{
    let scope = state::key_scope(a.host, n, key);
    let q = state::request(a, cs[0].subject, scope, bit, now_ms);
    lemma_gate(a, cs, scope, bit, now_ms);
    reveal_strlit("u/");
    assert(n.subrange(0, 2) =~= n.take(2));
    assert(segments::starts(n, "u/"@));
    assert forall|i: int| 0 <= i < cs.len() implies ns::grants(#[trigger] cs[i], q) == (cs[i].scope.host == a.host
        && cs[i].scope.tier == Tier::L3 && cs[i].scope.ns == n && n == "u/"@ + hexes::hex_text(cs[i].subject) && within(
        cs[i].scope.prefix,
        state::directory(key),
    ) && has_bit(cs[i].perms, bit)) by {
        lemma_bits(cs[i].perms);
        lemma_within(cs[i].scope, scope);
    }
}

/// Who may administer the host: whoever holds a capability of its highest tier, for all
/// namespaces of this host, with the permission to administer.
pub proof fn law_administration_opens_by_capability(a: ApiV, cs: Seq<CapV>, now_ms: u64)
    requires
        cs.len() > 0,
        a.verdicts == ns::no_verdicts(),
    ensures
        ({
            let g = state::admin_gate(a, Some(cs), now_ms);
            &&& g.result is Ok <==> exists|i: int|
                0 <= i < cs.len() && holds(#[trigger] cs[i], a, cs[0].subject, now_ms) && cs[i].scope.host == a.host
                    && cs[i].scope.tier == Tier::L1 && cs[i].scope.ns == "*"@ && has_bit(cs[i].perms, 4)
            &&& g.result is Err ==> g.result->Err_0 == (ReplyV::Error { status: 403, code: "forbidden"@ })
        }),
{
    let scope = state::l1_scope_of(a.host);
    let q = state::request(a, cs[0].subject, scope, 4, now_ms);
    lemma_gate(a, cs, scope, 4, now_ms);
    assert forall|i: int| 0 <= i < cs.len() implies ns::grants(#[trigger] cs[i], q) == (cs[i].scope.host == a.host
        && cs[i].scope.tier == Tier::L1 && cs[i].scope.ns == "*"@ && has_bit(cs[i].perms, 4)) by {
        lemma_bits(cs[i].perms);
    }
}

/// The directory of a key is what stands before its last slash, without the slashes that
/// it starts with; a key without a slash in it lies at the top.
pub proof fn law_directory_ends_at_the_last_slash(slashes: nat, dir: Seq<char>, file: Seq<char>)
    requires
        !file.contains('/'),
        dir.len() > 0 ==> dir[0] != '/',
        dir.len() == 0 && file.len() > 0 ==> file[0] != '/',
    ensures
        ({
            let lead = Seq::new(slashes, |i: int| '/');
            &&& dir.len() > 0 ==> state::directory(lead + dir + seq!['/'] + file) == Some(dir)
            &&& state::directory(lead + file) is None
        }),
{
    let lead = Seq::new(slashes, |i: int| '/');
    let whole = dir + seq!['/'] + file;
    if dir.len() > 0 {
        assert(whole[0] == dir[0]);
        lemma_unslashed(slashes, whole);
        assert(lead + dir + seq!['/'] + file =~= lead + whole);
        lemma_last_slash(whole, dir.len() as int, whole.len() as int);
        assert(whole.take(whole.len() as int) =~= whole);
        assert(whole.take(dir.len() as int) =~= dir);
    }
    if file.len() > 0 {
        assert(file.contains(file[0]));
    }
    lemma_unslashed(slashes, file);
    lemma_no_slash(file);
}

proof fn lemma_unslashed(n: nat, s: Seq<char>)
    requires
        s.len() > 0 ==> s[0] != '/',
    ensures
        state::unslashed(Seq::new(n, |i: int| '/') + s) == s,
    decreases n,
{
    let t = Seq::new(n, |i: int| '/') + s;
    if n == 0 {
        assert(t =~= s);
    } else {
        lemma_unslashed((n - 1) as nat, s);
        assert(t.skip(1) =~= Seq::new((n - 1) as nat, |i: int| '/') + s);
    }
}

proof fn lemma_last_slash(s: Seq<char>, p: int, n: int)
    requires
        0 <= p < n <= s.len(),
        s[p] == '/',
        forall|i: int| p < i < n ==> #[trigger] s[i] != '/',
    ensures
        state::last_slash(s.take(n)) == p,
    decreases n - p,
{
    let t = s.take(n);
    assert(t.last() == s[n - 1]);
    if n - 1 > p {
        assert(t.drop_last() =~= s.take(n - 1));
        lemma_last_slash(s, p, n - 1);
    }
}

proof fn lemma_no_slash(s: Seq<char>)
    requires
        !s.contains('/'),
    ensures
        state::last_slash(s) == -1,
    decreases s.len(),
{
    if s.len() > 0 {
        let t = s.drop_last();
        assert(s.contains(s[s.len() - 1]));
        assert forall|i: int| 0 <= i < t.len() implies t[i] != '/' by {
            assert(s.contains(s[i]));
        }
        lemma_no_slash(t);
    }
}

// ---------- the routes ----------

/// Does one of the capabilities open a directory of a shared namespace?
pub open spec fn opens(a: ApiV, cs: Seq<CapV>, n: Seq<char>, dir: Option<Seq<char>>, bit: u8, now_ms: u64) -> bool {
    exists|i: int|
        0 <= i < cs.len() && holds(#[trigger] cs[i], a, cs[0].subject, now_ms) && cs[i].scope.host == a.host
            && cs[i].scope.tier == Tier::L2 && cs[i].scope.ns == n && within(cs[i].scope.prefix, dir) && has_bit(
            cs[i].perms,
            bit,
        )
}

proof fn lemma_opens(a: ApiV, cs: Seq<CapV>, n: Seq<char>, dir: Option<Seq<char>>, bit: u8, now_ms: u64)
    requires
        cs.len() > 0,
        a.verdicts == ns::no_verdicts(),
        !("u/"@.is_prefix_of(n)),
        bit == 1 || bit == 2,
    ensures
        ({
            let scope = ScopeV { host: a.host, tier: Tier::L2, ns: n, prefix: dir };
            let g = state::gate(a, Some(cs), scope, bit, now_ms);
            &&& g.result is Ok <==> opens(a, cs, n, dir, bit, now_ms)
            &&& g.result is Err ==> g.result->Err_0 == (ReplyV::Error { status: 403, code: "forbidden"@ }) && g.api == a
            &&& state::tier_for(n) == Tier::L2
        }),
{
    let scope = ScopeV { host: a.host, tier: Tier::L2, ns: n, prefix: dir };
    let q = state::request(a, cs[0].subject, scope, bit, now_ms);
    lemma_gate(a, cs, scope, bit, now_ms);
    reveal_strlit("u/");
    if segments::starts(n, "u/"@) {
        assert(n.subrange(0, 2) =~= n.take(2));
    }
    assert forall|i: int| 0 <= i < cs.len() implies ns::grants(#[trigger] cs[i], q) == (cs[i].scope.host == a.host
        && cs[i].scope.tier == Tier::L2 && cs[i].scope.ns == n && within(cs[i].scope.prefix, dir) && has_bit(
        cs[i].perms,
        bit,
    )) by {
        lemma_bits(cs[i].perms);
        lemma_within(cs[i].scope, scope);
    }
    if state::gate(a, Some(cs), scope, bit, now_ms).result is Err {
        state::law_refused_request_changes_nothing(a, Some(cs), scope, bit, now_ms);
    }
}

/// Each route to the data of a shared namespace asks for what it needs: a read for `read`
/// on the directory of the key, a list for `read` on its prefix, a write and a delete for
/// `write` on the directory, the head, the feed and the conflicts for `read` on the whole
/// namespace, a batch and a statement for `write` on it. Without that each answers 403,
/// and changes nothing.
#[verifier::rlimit(40)]
pub proof fn law_routes_ask_for_what_they_need(
    a: ApiV,
    cs: Seq<CapV>,
    n: Seq<char>,
    key: Seq<char>,
    prefix: Seq<char>,
    q: ParamsV,
    body: Seq<u8>,
    odd: Set<(u64, u64)>,
    since: Option<Seq<char>>,
    expr: Seq<char>,
    ops: Seq<BatchOpV>,
    now_ms: u64,
)
    requires
        cs.len() > 0,
        a.verdicts == ns::no_verdicts(),
        !("u/"@.is_prefix_of(n)),
        prefix.len() > 0,
    ensures
        ({
            let no = Outcome { api: a, reply: ReplyV::Error { status: 403, code: "forbidden"@ } };
            let dir = state::directory(key);
            &&& q.prefix is None && !opens(a, cs, n, dir, 1, now_ms) ==> data::data(
                a,
                Some(cs),
                n,
                key,
                Method::Get,
                q,
                body,
                odd,
                now_ms,
            ) == no
            &&& q.prefix == Some(prefix) && !opens(a, cs, n, Some(prefix), 1, now_ms) ==> data::data(
                a,
                Some(cs),
                n,
                key,
                Method::Get,
                q,
                body,
                odd,
                now_ms,
            ) == no
            &&& !opens(a, cs, n, Some(prefix), 1, now_ms) ==> data::scan(a, Some(cs), n, Some(prefix), now_ms) == no
            &&& !opens(a, cs, n, dir, 2, now_ms) ==> data::data(a, Some(cs), n, key, Method::Put, q, body, odd, now_ms)
                == no && data::data(a, Some(cs), n, key, Method::Delete, q, body, odd, now_ms) == no
            &&& !opens(a, cs, n, None, 1, now_ms) ==> data::head(a, Some(cs), n, now_ms) == no && data::changes(
                a,
                Some(cs),
                n,
                since,
                now_ms,
            ) == no && data::conflicts(a, Some(cs), n, now_ms) == no
            &&& !opens(a, cs, n, None, 2, now_ms) ==> data::ql(a, Some(cs), n, expr, now_ms) == no && batch::batch(
                a,
                Some(cs),
                n,
                ops,
                odd,
                now_ms,
            ) == no
        }),
{
    let none = Seq::<char>::empty();
    assert(state::directory(none) is None) by {
        assert(state::unslashed(none) == none);
        assert(state::last_slash(none) == -1);
    }
    lemma_opens(a, cs, n, state::directory(key), 1, now_ms);
    lemma_opens(a, cs, n, state::directory(key), 2, now_ms);
    lemma_opens(a, cs, n, Some(prefix), 1, now_ms);
    lemma_opens(a, cs, n, None, 1, now_ms);
    lemma_opens(a, cs, n, None, 2, now_ms);
}

/// A statement of a remote caller runs in the namespace of the route and no other, as the
/// host, and is answered with its value as JSON; one that fails is answered 400.
pub proof fn law_statement_runs_in_its_namespace(
    a: ApiV,
    cs: Option<Seq<CapV>>,
    n: Seq<char>,
    expr: Seq<char>,
    call: CallV,
    now_ms: u64,
)
    requires
        data::namespace_gate(a, cs, n, 2, now_ms).result is Ok,
        written::well_named(call),
        text::utf8(expr) == written::written(call),
    ensures
        ({
            let out = data::ql(a, cs, n, expr, now_ms);
            let c = eval::CtxV {
                store: a.store,
                writable: eval::mutates(call),
                scope: Some(n),
                host: a.root,
                remote: true,
                clock: a.clock,
            };
            let ran = eval::run(call, c, now_ms);
            &&& out.api.store == ran.ctx.store
            &&& out.api.clock == ran.ctx.clock
            &&& ran.result matches Ok(v) ==> out.reply == ReplyV::Json(value::shown(v, false))
            &&& ran.result is Err ==> out.reply == (ReplyV::Error { status: 400, code: "query_error"@ })
        }),
{
    written::law_statement_is_read_as_written(call);
}

} // verus!
