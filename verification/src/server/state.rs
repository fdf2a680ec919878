//! The state of the API and who is let in.

use crate::caps;
use crate::caps::{CapV, Capability, KeyringV, PermSet, RevocationSet, RevokedV, RootKeyring, Scope, ScopeV, Tier, TokenCache};
use crate::hexes;
use crate::node::hlc;
use crate::node::hlc::Hlc;
use crate::node::ident::{Keypair, PublicKey};
use crate::ns;
use crate::ns::{authorize_cached, AuthError, AuthFault, CapCache, RequestV};
use crate::segments;
use crate::server::reply;
use crate::server::reply::{refuse, Reply, ReplyV};
use crate::storage::model::StoreV;
use crate::storage::store::Store;
use crate::text;
use vstd::prelude::*;

verus! {

/// What the API works on.
pub struct AppState {
    pub store: Store,
    pub root: PublicKey,
    pub kp: Keypair,
    pub keyring: RootKeyring,
    pub revocations: RevocationSet,
    pub host_name: String,
    pub default_quota: u64,
    /// Counts the revocations: a verdict is kept for one epoch.
    pub rev_epoch: u64,
    pub cap_cache: CapCache,
    pub token_cache: TokenCache,
    /// The last clock that was issued.
    pub clock: Hlc,
}

/// The state as a value of the model.
#[verifier::ext_equal]
pub struct ApiV {
    pub store: StoreV,
    pub root: Seq<u8>,
    pub seed: Seq<u8>,
    pub keys: KeyringV,
    pub rev: RevokedV,
    pub host: Seq<char>,
    pub quota: u64,
    pub epoch: u64,
    pub verdicts: Seq<Map<Seq<u8>, u64>>,
    pub tokens: Map<Seq<u8>, CapV>,
    pub clock: u64,
}

impl View for AppState {
    type V = ApiV;

    open spec fn view(&self) -> ApiV {
        ApiV {
            store: self.store@,
            root: self.root@,
            seed: self.kp.seed(),
            keys: self.keyring@,
            rev: self.revocations@,
            host: self.host_name@,
            quota: self.default_quota,
            epoch: self.rev_epoch,
            verdicts: self.cap_cache@,
            tokens: self.token_cache@,
            clock: self.clock.value(),
        }
    }
}

impl AppState {
    pub open spec fn wf(&self) -> bool {
        self.store.wf() && self.cap_cache.wf() && self.token_cache.wf()
    }
}

/// The capabilities that a request came with.
pub struct AuthCaps(pub Vec<Capability>);

/// The views of the capabilities that a request came with, if any.
pub open spec fn held(caps: Option<&AuthCaps>) -> Option<Seq<CapV>> {
    match caps {
        Some(c) => Some(ns::cap_views(c.0@)),
        None => None,
    }
}

/// The state after a request, and the answer.
pub struct Outcome {
    pub api: ApiV,
    pub reply: ReplyV,
}

// ---------- the header ----------

/// What an `Authorization` header is taken for: none, or a capability that was read
/// now or before.
pub open spec fn presented(a: ApiV, header: Option<Seq<char>>) -> Result<Option<Seq<CapV>>, ReplyV> {
    match header {
        None => Ok(None),
        Some(h) => if a.tokens.dom().contains(caps::token_id(h)) {
            Ok(Some(seq![a.tokens[caps::token_id(h)]]))
        } else {
            match caps::cap_of_header(h) {
                Ok(c) => Ok(Some(seq![c])),
                Err(_) => Err(reply::refusal(401, "invalid_capability"@)),
            }
        },
    }
}

/// The state after a header was read.
pub open spec fn after_header(a: ApiV, header: Option<Seq<char>>) -> ApiV {
    match header {
        None => a,
        Some(h) => ApiV { tokens: caps::kept_tokens(a.tokens, h), ..a },
    }
}

/// The bucket that a request counts in: its own for a header that is a capability, one
/// for all others.
pub open spec fn bucket_name(a: ApiV, header: Option<Seq<char>>) -> Seq<char> {
    match header {
        Some(h) => if presented(a, header) is Ok {
            hexes::hex_text(caps::token_id(h))
        } else {
            "anon"@
        },
        None => "anon"@,
    }
}

impl AppState {
    /// Read the `Authorization` header of a request.
    pub fn identify(&mut self, header: Option<&str>) -> (r: Result<Option<AuthCaps>, Reply>)
        requires
            old(self).wf(),
        ensures
            final(self).wf(),
            final(self).store.is_durable() == old(self).store.is_durable(),
            final(self)@ == after_header(old(self)@, text::opt_view(header)),
            final(self).store == old(self).store,
            match presented(
                old(self)@,
                text::opt_view(header),
            ) {
                Ok(None) => r matches Ok(None),
                Ok(Some(cs)) => r matches Ok(Some(c)) && ns::cap_views(c.0@) == cs,
                Err(f) => r matches Err(e) && e@ == f,
            },
    {
        match header {
            None => Ok(None),
            Some(h) => match self.token_cache.lookup(h) {
                Ok(c) => {
                    let mut v: Vec<Capability> = Vec::new();
                    let ghost cv = c@;
                    v.push(c);
                    assert(ns::cap_views(v@) =~= seq![cv]);
                    Ok(Some(AuthCaps(v)))
                },
                Err(_) => Err(refuse(401, "invalid_capability")),
            },
        }
    }

    /// The name of the bucket that a request counts in. A header that is no capability
    /// has no bucket of its own.
    pub fn client_key(&mut self, header: Option<&str>) -> (r: String)
        requires
            old(self).wf(),
        ensures
            final(self).wf(),
            final(self).store.is_durable() == old(self).store.is_durable(),
            final(self)@ == after_header(old(self)@, text::opt_view(header)),
            final(self).store == old(self).store,
            r@ == bucket_name(
                old(self)@,
                text::opt_view(header),
            ),
    {
        match header {
            None => text::copy_text("anon"),
            Some(h) => match self.token_cache.lookup(h) {
                Ok(_) => {
                    let d = caps::token_digest(h);
                    hexes::hex_encode(d.as_slice())
                },
                Err(_) => text::copy_text("anon"),
            },
        }
    }
}

// ---------- authorization ----------

/// The request that is put to the capabilities.
pub open spec fn request(a: ApiV, principal: Seq<u8>, scope: ScopeV, perms: u8, now_ms: u64) -> RequestV {
    RequestV {
        scope,
        principal,
        perms,
        keys: a.keys,
        rev: a.rev,
        host: a.host,
        now_ms,
        epoch: a.epoch,
    }
}

/// Who is let in, or the answer to who is not; and the state with the verdict kept.
pub struct Gate {
    pub api: ApiV,
    pub result: Result<Seq<u8>, ReplyV>,
}

/// No capability is 401, one that does not do is 403.
pub open spec fn gate(a: ApiV, cs: Option<Seq<CapV>>, scope: ScopeV, perms: u8, now_ms: u64) -> Gate {
    if cs is None || cs->0.len() == 0 {
        Gate { api: a, result: Err(reply::refusal(401, "invalid_capability"@)) }
    } else {
        let c = cs->0;
        let q = request(a, c[0].subject, scope, perms, now_ms);
        Gate {
            api: ApiV { verdicts: ns::cache_after(c, q, a.verdicts), ..a },
            result: match ns::ruling(c, q, a.verdicts) {
                Ok(_) => Ok(c[0].subject),
                Err(f) => Err(auth_reply(f)),
            },
        }
    }
}

/// The answer to an authorization error.
pub open spec fn auth_reply(f: AuthFault) -> ReplyV {
    match f {
        AuthFault::QuotaExceeded { ns, limit } => reply::refusal(409, "quota_exceeded"@),
        _ => reply::refusal(403, "forbidden"@),
    }
}

/// The answer to an authorization error.
pub fn auth_to_response(e: AuthError) -> (r: Reply)
    ensures
        r@ == auth_reply(e@),
{
    match e {
        AuthError::QuotaExceeded { ns: _, limit: _ } => refuse(409, "quota_exceeded"),
        _ => refuse(403, "forbidden"),
    }
}

/// The scope of the host's administration.
pub open spec fn l1_scope_of(host: Seq<char>) -> ScopeV {
    ScopeV { host, tier: Tier::L1, ns: "*"@, prefix: None }
}

/// The tier of a namespace: those of owners are sandboxes.
pub open spec fn tier_for(ns: Seq<char>) -> Tier {
    if segments::starts(ns, "u/"@) {
        Tier::L3
    } else {
        Tier::L2
    }
}

/// A text without leading slashes.
pub open spec fn unslashed(s: Seq<char>) -> Seq<char>
    decreases s.len(),
{
    if s.len() > 0 && s[0] == '/' {
        unslashed(s.skip(1))
    } else {
        s
    }
}

/// The place of the last slash; -1 where there is none.
pub open spec fn last_slash(s: Seq<char>) -> int
    decreases s.len(),
{
    if s.len() == 0 {
        -1
    } else if s.last() == '/' {
        s.len() - 1
    } else {
        last_slash(s.drop_last())
    }
}

/// The directory that a key lies in.
pub open spec fn directory(key: Seq<char>) -> Option<Seq<char>> {
    let k = unslashed(key);
    if last_slash(k) > 0 {
        Some(k.take(last_slash(k)))
    } else {
        None
    }
}

/// The scope of a key.
pub open spec fn key_scope(host: Seq<char>, ns: Seq<char>, key: Seq<char>) -> ScopeV {
    ScopeV { host, tier: tier_for(ns), ns, prefix: directory(key) }
}

/// The scope of all keys under a prefix: the prefix itself.
pub open spec fn prefix_scope(host: Seq<char>, ns: Seq<char>, prefix: Seq<char>) -> ScopeV {
    ScopeV {
        host,
        tier: tier_for(ns),
        ns,
        prefix: if prefix.len() == 0 {
            None
        } else {
            Some(prefix)
        },
    }
}

/// Is the namespace an owner's?
pub fn is_owned(ns: &str) -> (r: bool)
    ensures
        r == segments::starts(ns@, "u/"@),
{
    segments::strip_prefix(ns, "u/").is_some()
}

fn tier_of_ns(ns: &str) -> (t: Tier)
    ensures
        t == tier_for(ns@),
{
    if is_owned(ns) {
        Tier::L3
    } else {
        Tier::L2
    }
}

/// The directory that a key lies in.
fn directory_of(key: &str) -> (r: Option<String>)
    ensures
        match directory(key@) {
            Some(d) => r matches Some(s) && s@ == d,
            None => r is None,
        },
{
    let c = text::chars_of(key);
    let mut from: usize = 0;
    assert(c@.skip(0) =~= c@);
    while from < c.len() && c[from] == '/'
        invariant
            from <= c@.len(),
            unslashed(c@) == unslashed(c@.skip(from as int)),
        decreases c@.len() - from,
    {
        assert(c@.skip(from as int).skip(1) =~= c@.skip(from + 1));
        from += 1;
    }
    let ghost k = c@.skip(from as int);
    assert(k == unslashed(key@));
    let mut end: usize = c.len();
    assert(k.take(end - from) =~= k);
    while end > from
        invariant
            from <= end <= c@.len(),
            k == c@.skip(from as int),
            k == unslashed(key@),
            last_slash(k) == last_slash(k.take(end - from)),
        decreases end - from,
    {
        let ghost t = k.take(end - from);
        assert(t.last() == c@[end - 1]);
        assert(t.drop_last() =~= k.take(end - from - 1));
        if c[end - 1] == '/' {
            if end - 1 > from {
                let mut out = String::new();
                let mut i: usize = from;
                assert(out@ =~= k.take(0));
                while i < end - 1
                    invariant
                        from <= i <= end - 1,
                        end <= c@.len(),
                        k == c@.skip(from as int),
                        out@ == k.take(i - from),
                    decreases end - i,
                {
                    out.push(c[i]);
                    i += 1;
                    assert(out@ =~= k.take(i - from));
                }
                return Some(out);
            }
            return None;
        }
        end -= 1;
    }
    assert(k.take(0).len() == 0);
    None
}

impl AppState {
    pub fn l1_scope(&self) -> (s: Scope)
        ensures
            s@ == l1_scope_of(self.host_name@),
    {
        Scope { host: text::copy_text(self.host_name.as_str()), tier: Tier::L1, ns: text::copy_text("*"), prefix: None }
    }

    /// The scope of a key of a namespace.
    pub fn data_scope(&self, ns: &str, key: &str) -> (s: Scope)
        ensures
            s@ == key_scope(self.host_name@, ns@, key@),
    {
        Scope {
            host: text::copy_text(self.host_name.as_str()),
            tier: tier_of_ns(ns),
            ns: text::copy_text(ns),
            prefix: directory_of(key),
        }
    }

    /// The scope of all keys of a namespace under a prefix.
    pub fn scan_scope(&self, ns: &str, prefix: &str) -> (s: Scope)
        ensures
            s@ == prefix_scope(self.host_name@, ns@, prefix@),
    {
        proof {
            text::lemma_utf8_len(prefix@);
        }
        Scope {
            host: text::copy_text(self.host_name.as_str()),
            tier: tier_of_ns(ns),
            ns: text::copy_text(ns),
            prefix: if prefix.as_bytes().len() == 0 {
                None
            } else {
                Some(text::copy_text(prefix))
            },
        }
    }

    /// Let a request in, or answer it. The principal is who the first capability was
    /// issued to.
    pub fn auth(&mut self, caps: Option<&AuthCaps>, scope: &Scope, perms: PermSet, now_ms: u64) -> (r: Result<
        PublicKey,
        Reply,
    >)
        requires
            old(self).wf(),
        ensures
            final(self).wf(),
            final(self).store.is_durable() == old(self).store.is_durable(),
            ({
                let g = gate(old(self)@, held(caps), scope@, perms.0, now_ms);
                &&& final(self)@ == g.api
                &&& match g.result {
                    Ok(p) => r matches Ok(k) && k@ == p,
                    Err(f) => r matches Err(e) && e@ == f,
                }
            }),
    {
        match caps {
            None => Err(refuse(401, "invalid_capability")),
            Some(c) => {
                if c.0.len() == 0 {
                    return Err(refuse(401, "invalid_capability"));
                }
                let principal = c.0[0].subject;
                match authorize_cached(
                    scope,
                    &principal,
                    perms,
                    &c.0,
                    &self.keyring,
                    &self.revocations,
                    self.host_name.as_str(),
                    now_ms,
                    &mut self.cap_cache,
                    self.rev_epoch,
                ) {
                    Ok(_) => Ok(principal),
                    Err(e) => Err(auth_to_response(e)),
                }
            },
        }
    }

    /// Let an administrator in.
    pub fn auth_admin(&mut self, caps: Option<&AuthCaps>, now_ms: u64) -> (r: Result<PublicKey, Reply>)
        requires
            old(self).wf(),
        ensures
            final(self).wf(),
            final(self).store.is_durable() == old(self).store.is_durable(),
            ({
                let g = admin_gate(old(self)@, held(caps), now_ms);
                &&& final(self)@ == g.api
                &&& match g.result {
                    Ok(p) => r matches Ok(k) && k@ == p,
                    Err(f) => r matches Err(e) && e@ == f,
                }
            }),
    {
        let scope = self.l1_scope();
        self.auth(caps, &scope, PermSet::admin(), now_ms)
    }

    /// Issue a clock.
    pub fn tick(&mut self, now_ms: u64) -> (h: u64)
        requires
            old(self).wf(),
        ensures
            final(self).wf(),
            final(self).store.is_durable() == old(self).store.is_durable(),
            h == final(self)@.clock,
            final(self)@ == ticked(old(self)@, now_ms),
    {
        self.clock = Hlc::issue(self.clock, now_ms);
        self.clock.to_u64()
    }
}

/// Only an administrator is let in.
pub open spec fn admin_gate(a: ApiV, cs: Option<Seq<CapV>>, now_ms: u64) -> Gate {
    gate(a, cs, l1_scope_of(a.host), 4, now_ms)
}

/// The state with one more clock issued.
pub open spec fn ticked(a: ApiV, now_ms: u64) -> ApiV {
    ApiV { clock: hlc::issued(a.clock, now_ms), ..a }
}

/// The state with another store.
pub open spec fn with_store(a: ApiV, s: StoreV) -> ApiV {
    ApiV { store: s, ..a }
}

// ---------- laws ----------

/// A request that is not let in is answered 401 or 403, and changes nothing.
pub proof fn law_refused_request_changes_nothing(a: ApiV, cs: Option<Seq<CapV>>, scope: ScopeV, perms: u8, now_ms: u64)
    requires
        gate(a, cs, scope, perms, now_ms).result is Err,
    ensures
        gate(a, cs, scope, perms, now_ms).api == a,
        gate(a, cs, scope, perms, now_ms).result matches Err(r) && (r == reply::refusal(401, "invalid_capability"@)
            || r == reply::refusal(403, "forbidden"@)),
{
}

/// An owner's namespace lets in its owner alone: the path is no credential.
pub proof fn law_sandbox_needs_its_owner(a: ApiV, cs: Option<Seq<CapV>>, n: Seq<char>, key: Seq<char>, perms: u8, now_ms: u64)
    requires
        segments::starts(n, "u/"@),
        gate(a, cs, key_scope(a.host, n, key), perms, now_ms).result is Ok,
    ensures
        gate(a, cs, key_scope(a.host, n, key), perms, now_ms).result matches Ok(p) && n == ns::sandbox(p),
{
    let scope = key_scope(a.host, n, key);
    let c = cs->0;
    ns::law_sandbox_is_the_owners(c, request(a, c[0].subject, scope, perms, now_ms), a.verdicts);
}

/// The tokens that are kept after a row of headers was read.
pub open spec fn tokens_over(hs: Seq<Seq<char>>) -> Map<Seq<u8>, CapV>
    decreases hs.len(),
{
    if hs.len() == 0 {
        Map::empty()
    } else {
        caps::kept_tokens(tokens_over(hs.drop_last()), hs.last())
    }
}

/// What is kept was read from one of the headers.
proof fn lemma_kept_from(hs: Seq<Seq<char>>, d: Seq<u8>)
    requires
        tokens_over(hs).dom().contains(d),
    ensures
        exists|i: int|
            0 <= i < hs.len() && caps::token_id(#[trigger] hs[i]) == d && caps::cap_of_header(hs[i]) == Ok::<
                CapV,
                Seq<char>,
            >(tokens_over(hs)[d]),
    decreases hs.len(),
{
    if hs.len() > 0 {
        let rest = hs.drop_last();
        let before = tokens_over(rest);
        let h = hs.last();
        if before.dom().contains(d) && tokens_over(hs)[d] == before[d] {
            lemma_kept_from(rest, d);
            let i = choose|i: int|
                0 <= i < rest.len() && caps::token_id(#[trigger] rest[i]) == d && caps::cap_of_header(rest[i]) == Ok::<
                    CapV,
                    Seq<char>,
                >(before[d]);
            assert(hs[i] == rest[i]);
        } else {
            assert(hs[hs.len() - 1] == h);
        }
    }
}

/// A header stands for the capability that it reads as, whatever headers were read
/// before, where none of those shares its digest by chance.
pub proof fn law_header_is_its_capability(a: ApiV, hs: Seq<Seq<char>>, h: Seq<char>)
    requires
        a.tokens == tokens_over(hs),
        forall|i: int| 0 <= i < hs.len() && caps::token_id(#[trigger] hs[i]) == caps::token_id(h) ==> hs[i] == h,
    ensures
        presented(a, Some(h)) == match caps::cap_of_header(h) {
            Ok(c) => Ok::<Option<Seq<CapV>>, ReplyV>(Some(seq![c])),
            Err(_) => Err(reply::refusal(401, "invalid_capability"@)),
        },
{
    let d = caps::token_id(h);
    if a.tokens.dom().contains(d) {
        lemma_kept_from(hs, d);
    }
}

/// Reading a header first, as for its bucket, changes neither what it is taken for nor
/// its bucket.
pub proof fn law_reading_a_header_changes_no_answer(a: ApiV, h: Seq<char>)
    ensures
        presented(after_header(a, Some(h)), Some(h)) == presented(a, Some(h)),
        bucket_name(after_header(a, Some(h)), Some(h)) == bucket_name(a, Some(h)),
        after_header(after_header(a, Some(h)), Some(h)) == after_header(a, Some(h)),
{
}

/// Headers that are no capabilities share one bucket, whatever headers were read before.
pub proof fn law_junk_headers_share_a_bucket(a: ApiV, hs: Seq<Seq<char>>, h: Seq<char>)
    requires
        a.tokens == tokens_over(hs),
        forall|i: int| 0 <= i < hs.len() && caps::token_id(#[trigger] hs[i]) == caps::token_id(h) ==> hs[i] == h,
        caps::cap_of_header(h) is Err,
    ensures
        bucket_name(a, Some(h)) == bucket_name(a, None),
{
    law_header_is_its_capability(a, hs, h);
}

/// Two headers that are capabilities, and whose digests differ, count in buckets of their
/// own, apart from that of requests without one.
pub proof fn law_capabilities_count_apart(a: ApiV, g: Seq<char>, h: Seq<char>)
    requires
        presented(a, Some(g)) is Ok,
        presented(a, Some(h)) is Ok,
        caps::token_id(g) != caps::token_id(h),
        caps::token_id(g).len() == 32,
    ensures
        bucket_name(a, Some(g)) != bucket_name(a, Some(h)),
        bucket_name(a, Some(g)) != bucket_name(a, None),
{
    hexes::law_hex_round_trip(caps::token_id(g));
    hexes::law_hex_round_trip(caps::token_id(h));
    reveal_strlit("anon");
}

} // verus!
