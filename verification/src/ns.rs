//! Authorization on the tiers, write quotas and user sandboxes.

use crate::caps;
use crate::caps::{CapV, Capability, KeyringV, PermSet, RevocationSet, RevokedV, RootKeyring, Scope, ScopeV, Tier};
use crate::hexes;
use crate::node::ident;
use crate::node::ident::PublicKey;
use crate::ordmap;
use crate::ordmap::OrdMap;
use crate::storage::entry::ConflictPolicy;
use crate::storage::model;
use crate::storage::model::StoreV;
use crate::storage::naming;
use crate::storage::record;
use crate::storage::store::Store;
use crate::text;
use vstd::bytes::*;
use vstd::prelude::*;

verus! {

#[derive(Debug, PartialEq, Eq)]
pub enum AuthError {
    /// No capability, or none that counts, covers the request.
    Unauthorized(String),
    /// Authenticated, but not permitted.
    Forbidden(String),
    /// The write would go over the namespace's quota.
    QuotaExceeded { ns: String, limit: u64 },
}

/// An authorization error as a value of the model.
pub enum AuthFault {
    Unauthorized(Seq<char>),
    Forbidden(Seq<char>),
    QuotaExceeded { ns: Seq<char>, limit: u64 },
}

impl View for AuthError {
    type V = AuthFault;

    open spec fn view(&self) -> AuthFault {
        match self {
            AuthError::Unauthorized(m) => AuthFault::Unauthorized(m@),
            AuthError::Forbidden(m) => AuthFault::Forbidden(m@),
            AuthError::QuotaExceeded { ns, limit } => AuthFault::QuotaExceeded { ns: ns@, limit: *limit },
        }
    }
}

impl AuthFault {
    /// The message for a person.
    pub open spec fn message(self) -> Seq<char> {
        match self {
            AuthFault::Unauthorized(m) => "unauthorized: "@ + m,
            AuthFault::Forbidden(m) => "forbidden: "@ + m,
            AuthFault::QuotaExceeded { ns, limit } => "quota exceeded for "@ + ns + " (limit "@ + text::decimal(
                limit as int,
            ) + " bytes)"@,
        }
    }
}

impl AuthError {
    /// The message for a person.
    pub fn message(&self) -> (r: String)
        ensures
            r@ == self@.message(),
    {
        match self {
            AuthError::Unauthorized(m) => text::join2("unauthorized: ", m.as_str()),
            AuthError::Forbidden(m) => text::join2("forbidden: ", m.as_str()),
            AuthError::QuotaExceeded { ns, limit } => {
                let mut r = text::join3("quota exceeded for ", ns.as_str(), " (limit ");
                r.push_str(text::dec(*limit).as_str());
                r.push_str(" bytes)");
                r
            },
        }
    }
}

// ---------- verified capabilities ----------

/// Verdicts kept in one shard.
pub const SHARD_MAX: usize = 8192;

/// Capabilities that were fully verified, by the digest of their content, with the
/// revocation epoch in which that was. Any change to a capability changes the digest,
/// so a ruling never carries over to another capability.
pub struct CapCache {
    shards: Vec<OrdMap<u64>>,
}

/// The shard of a digest.
pub open spec fn shard_of(digest: Seq<char>) -> int {
    text::utf8(digest)[0] as int
}

/// Was the digest's capability fully verified in the epoch?
pub open spec fn cached(c: Seq<Map<Seq<u8>, u64>>, digest: Seq<char>, epoch: u64) -> bool {
    let m = c[shard_of(digest)];
    m.dom().contains(text::utf8(digest)) && m[text::utf8(digest)] == epoch
}

/// The cache with one more ruling; a full shard is emptied first.
pub open spec fn marked(c: Seq<Map<Seq<u8>, u64>>, digest: Seq<char>, epoch: u64) -> Seq<Map<Seq<u8>, u64>> {
    let i = shard_of(digest);
    let had = if ordmap::listed(c[i].dom()).len() >= SHARD_MAX {
        Map::<Seq<u8>, u64>::empty()
    } else {
        c[i]
    };
    c.update(i, had.insert(text::utf8(digest), epoch))
}

impl View for CapCache {
    type V = Seq<Map<Seq<u8>, u64>>;

    closed spec fn view(&self) -> Seq<Map<Seq<u8>, u64>> {
        Seq::new(self.shards@.len(), |i: int| self.shards@[i]@)
    }
}

impl CapCache {
    pub closed spec fn wf(&self) -> bool {
        self.shards@.len() == 256 && forall|i: int| 0 <= i < 256 ==> (#[trigger] self.shards@[i]).wf()
    }

    pub fn new() -> (c: CapCache)
        ensures
            c.wf(),
            c@ == Seq::new(256, |i: int| Map::<Seq<u8>, u64>::empty()),
    {
        let mut shards: Vec<OrdMap<u64>> = Vec::new();
        let mut i: usize = 0;
        while i < 256
            invariant
                i <= 256,
                shards@.len() == i,
                forall|j: int|
                    0 <= j < i ==> (#[trigger] shards@[j]).wf() && shards@[j]@ == Map::<Seq<u8>, u64>::empty(),
            decreases 256 - i,
        {
            shards.push(OrdMap::new());
            i += 1;
        }
        let c = CapCache { shards };
        assert(c@ =~= Seq::new(256, |j: int| Map::<Seq<u8>, u64>::empty()));
        c
    }

    /// Was the digest's capability fully verified in the epoch?
    pub fn epoch_ok(&self, digest: &str, epoch: u64) -> (r: bool)
        requires
            self.wf(),
            digest@.len() > 0,
        ensures
            r == cached(self@, digest@, epoch),
    {
        proof {
            text::lemma_utf8_len(digest@);
        }
        let key = text::bytes_of(digest);
        let i: usize = key[0] as usize;
        match self.shards[i].get(key.as_slice()) {
            Some(e) => *e == epoch,
            None => false,
        }
    }

    /// Keep a ruling.
    pub fn mark_verified(&mut self, digest: &str, epoch: u64)
        requires
            old(self).wf(),
            digest@.len() > 0,
        ensures
            final(self).wf(),
            final(self)@ == marked(old(self)@, digest@, epoch),
    {
        proof {
            text::lemma_utf8_len(digest@);
        }
        let key = text::bytes_of(digest);
        let i: usize = key[0] as usize;
        let ghost before = *self;
        proof {
            self.shards@[i as int].lemma_keys();
        }
        let shard = &mut self.shards[i];
        if shard.len() >= SHARD_MAX {
            *shard = OrdMap::new();
        }
        shard.insert(key, epoch);
        assert(self@ =~= marked(before@, digest@, epoch));
    }
}

// ---------- authorization ----------

/// A request to be authorized.
pub struct RequestV {
    pub scope: ScopeV,
    pub principal: Seq<u8>,
    pub perms: u8,
    pub keys: KeyringV,
    pub rev: RevokedV,
    pub host: Seq<char>,
    pub now_ms: u64,
    pub epoch: u64,
}

/// Does the capability grant what is asked, should it count?
pub open spec fn grants(c: CapV, q: RequestV) -> bool {
    match q.scope.tier {
        Tier::L1 => c.scope.tier == Tier::L1 && c.scope.host == q.scope.host && c.scope.ns == "*"@ && caps::allows(
            c.perms,
            4,
        ),
        Tier::L2 => c.scope.tier == Tier::L2 && c.scope.covers(q.scope) && caps::allows(c.perms, q.perms),
        Tier::L3 => c.scope.tier == Tier::L3 && c.scope.covers(q.scope) && "u/"@ + hexes::hex_text(c.subject)
            == q.scope.ns && caps::allows(c.perms, q.perms),
    }
}

/// Does the capability count and grant what is asked?
pub open spec fn admits(c: CapV, q: RequestV, cache: Seq<Map<Seq<u8>, u64>>) -> bool {
    caps::cap_check(c, q.keys, q.principal, q.rev, q.now_ms, cached(cache, caps::cap_digest(c), q.epoch)) is Ok
        && grants(c, q)
}

/// The first capability of a row that admits the request.
pub open spec fn first_admitting(cs: Seq<CapV>, q: RequestV, cache: Seq<Map<Seq<u8>, u64>>) -> Option<CapV>
    decreases cs.len(),
{
    if cs.len() == 0 {
        None
    } else if admits(cs[0], q, cache) {
        Some(cs[0])
    } else {
        first_admitting(cs.drop_first(), q, cache)
    }
}

/// A list of texts as `Debug` writes it.
pub open spec fn debug_list(names: Seq<Seq<char>>) -> Seq<char> {
    "["@ + debug_items(names) + "]"@
}

pub open spec fn debug_items(names: Seq<Seq<char>>) -> Seq<char>
    decreases names.len(),
{
    if names.len() == 0 {
        Seq::empty()
    } else if names.len() == 1 {
        text::debug_text(names[0])
    } else {
        debug_items(names.drop_last()) + ", "@ + text::debug_text(names.last())
    }
}

/// Why a request that no capability admits is refused.
pub open spec fn refusal(q: RequestV) -> AuthFault {
    AuthFault::Unauthorized(
        match q.scope.tier {
            Tier::L1 => "no valid L1 admin capability"@,
            Tier::L2 => "no capability covers "@ + q.scope.url() + " with "@ + debug_list(
                caps::perm_names(q.perms),
            ),
            Tier::L3 => "no capability covers "@ + q.scope.url() + " for its owner"@,
        },
    )
}

/// A scope of another host.
pub open spec fn wrong_host(q: RequestV) -> AuthFault {
    AuthFault::Unauthorized(
        "scope host "@ + text::debug_text(q.scope.host) + " is not this host ("@ + text::debug_text(q.host)
            + ")"@,
    )
}

/// What a request is answered.
pub open spec fn ruling(cs: Seq<CapV>, q: RequestV, cache: Seq<Map<Seq<u8>, u64>>) -> Result<(), AuthFault> {
    if q.scope.host != q.host {
        Err(wrong_host(q))
    } else if first_admitting(cs, q, cache) is Some {
        Ok(())
    } else {
        Err(refusal(q))
    }
}

/// The cache after a request: the capability that admitted it is kept.
pub open spec fn cache_after(
    cs: Seq<CapV>,
    q: RequestV,
    cache: Seq<Map<Seq<u8>, u64>>,
) -> Seq<Map<Seq<u8>, u64>> {
    if q.scope.host != q.host {
        cache
    } else {
        match first_admitting(cs, q, cache) {
            None => cache,
            Some(c) => if cached(cache, caps::cap_digest(c), q.epoch) {
                cache
            } else {
                marked(cache, caps::cap_digest(c), q.epoch)
            },
        }
    }
}

/// The views of some capabilities.
pub open spec fn cap_views(cs: Seq<Capability>) -> Seq<CapV> {
    Seq::new(cs.len(), |i: int| cs[i]@)
}

fn write_list(names: &Vec<String>) -> (r: String)
    ensures
        r@ == debug_list(crate::json::texts(names@)),
{
    let ghost all = crate::json::texts(names@);
    let mut out = text::copy_text("[");
    let mut i: usize = 0;
    proof {
        assert(all.take(0) =~= Seq::empty());
        assert("["@ + debug_items(all.take(0)) =~= "["@);
    }
    while i < names.len()
        invariant
            i <= names@.len(),
            all == crate::json::texts(names@),
            out@ == "["@ + debug_items(all.take(i as int)),
        decreases names@.len() - i,
    {
        if i > 0 {
            out.push_str(", ");
        }
        out.push_str(text::debug_string(names[i].as_str()).as_str());
        proof {
            let t = all.take(i + 1);
            assert(t.drop_last() =~= all.take(i as int));
            assert(t.last() == names@[i as int]@);
            if i == 0 {
                assert(t[0] == t.last());
            }
            assert(out@ =~= "["@ + debug_items(t));
        }
        i += 1;
    }
    assert(all.take(i as int) =~= all);
    out.push_str("]");
    out
}

/// Does the capability grant what is asked, should it count?
fn cap_grants(c: &Capability, scope: &Scope, perms: PermSet) -> (r: bool)
    ensures
        forall|q: RequestV| q.scope == scope@ && q.perms == perms.0 ==> r == #[trigger] grants(c@, q),
{
    match scope.tier {
        Tier::L1 => c.scope.tier == Tier::L1 && text::same_text(c.scope.host.as_str(), scope.host.as_str())
            && text::same_text(c.scope.ns.as_str(), "*") && c.perms.contains(PermSet::admin()),
        Tier::L2 => c.scope.tier == Tier::L2 && c.scope.covers(scope) && c.perms.contains(perms),
        Tier::L3 => {
            let owner = text::join2("u/", c.subject.to_hex().as_str());
            c.scope.tier == Tier::L3 && c.scope.covers(scope) && text::same_text(
                owner.as_str(),
                scope.ns.as_str(),
            ) && c.perms.contains(perms)
        },
    }
}

/// Authorize `perms` on `scope` for `principal`. A capability that was verified in the
/// same revocation epoch is not verified again; the cheap checks always run.
pub fn authorize_cached(
    scope: &Scope,
    principal: &PublicKey,
    perms: PermSet,
    caps: &Vec<Capability>,
    keyring: &RootKeyring,
    revocations: &RevocationSet,
    host_name: &str,
    now_ms: u64,
    cache: &mut CapCache,
    epoch: u64,
) -> (r: Result<(), AuthError>)
    requires
        old(cache).wf(),
    ensures
        final(cache).wf(),
        ({
            let q = RequestV {
                scope: scope@,
                principal: principal@,
                perms: perms.0,
                keys: keyring@,
                rev: revocations@,
                host: host_name@,
                now_ms,
                epoch,
            };
            &&& final(cache)@ == cache_after(cap_views(caps@), q, old(cache)@)
            &&& match ruling(cap_views(caps@), q, old(cache)@) {
                Ok(_) => r is Ok,
                Err(f) => r matches Err(e) && e@ == f,
            }
        }),
{
    let ghost q = RequestV {
        scope: scope@,
        principal: principal@,
        perms: perms.0,
        keys: keyring@,
        rev: revocations@,
        host: host_name@,
        now_ms,
        epoch,
    };
    let ghost all = cap_views(caps@);
    if !text::same_text(scope.host.as_str(), host_name) {
        let mut m = text::join3(
            "scope host ",
            text::debug_string(scope.host.as_str()).as_str(),
            " is not this host (",
        );
        m.push_str(text::debug_string(host_name).as_str());
        m.push_str(")");
        return Err(AuthError::Unauthorized(m));
    }
    let mut i: usize = 0;
    assert(all.skip(0) =~= all);
    while i < caps.len()
        invariant
            i <= caps@.len(),
            all == cap_views(caps@),
            cache.wf(),
            *cache == *old(cache),
            q == (RequestV {
                scope: scope@,
                principal: principal@,
                perms: perms.0,
                keys: keyring@,
                rev: revocations@,
                host: host_name@,
                now_ms,
                epoch,
            }),
            q.scope.host == q.host,
            first_admitting(all, q, cache@) == first_admitting(all.skip(i as int), q, cache@),
        decreases caps@.len() - i,
    {
        proof {
            let rest = all.skip(i as int);
            assert(rest[0] == caps@[i as int]@);
            assert(rest.drop_first() =~= all.skip(i + 1));
        }
        let cap = &caps[i];
        let digest = cap.digest_hex();
        let known = cache.epoch_ok(digest.as_str(), epoch);
        let valid = cap.verify_or_cached(keyring, principal, revocations, now_ms, known).is_ok();
        let granted = cap_grants(cap, scope, perms);
        assert(granted == grants(cap@, q));
        if valid && granted {
            if !known {
                cache.mark_verified(digest.as_str(), epoch);
            }
            return Ok(());
        }
        i += 1;
    }
    assert(all.skip(i as int).len() == 0);
    match scope.tier {
        Tier::L1 => Err(AuthError::Unauthorized(text::copy_text("no valid L1 admin capability"))),
        Tier::L2 => {
            let mut m = text::join3("no capability covers ", scope.to_url().as_str(), " with ");
            m.push_str(write_list(&perms.names()).as_str());
            Err(AuthError::Unauthorized(m))
        },
        Tier::L3 => Err(
            AuthError::Unauthorized(
                text::join3("no capability covers ", scope.to_url().as_str(), " for its owner"),
            ),
        ),
    }
}

/// A cache without verdicts.
pub open spec fn no_verdicts() -> Seq<Map<Seq<u8>, u64>> {
    Seq::new(256, |i: int| Map::<Seq<u8>, u64>::empty())
}

/// Authorize `perms` on `scope` for `principal`, with everything checked. The host of
/// the scope must be this one.
pub fn authorize(
    scope: &Scope,
    principal: &PublicKey,
    perms: PermSet,
    caps: &Vec<Capability>,
    keyring: &RootKeyring,
    revocations: &RevocationSet,
    host_name: &str,
    now_ms: u64,
) -> (r: Result<(), AuthError>)
    ensures
        ({
            let q = RequestV {
                scope: scope@,
                principal: principal@,
                perms: perms.0,
                keys: keyring@,
                rev: revocations@,
                host: host_name@,
                now_ms,
                epoch: 0,
            };
            match ruling(cap_views(caps@), q, no_verdicts()) {
                Ok(_) => r is Ok,
                Err(f) => r matches Err(e) && e@ == f,
            }
        }),
{
    let mut cache = CapCache::new();
    authorize_cached(
        scope,
        principal,
        perms,
        caps,
        keyring,
        revocations,
        host_name,
        now_ms,
        &mut cache,
        0,
    )
}

// ---------- laws of authorization ----------

/// Without capabilities nothing is granted: the path alone is no credential.
pub proof fn law_no_capability_no_access(q: RequestV, cache: Seq<Map<Seq<u8>, u64>>)
    ensures
        ruling(Seq::empty(), q, cache) is Err,
{
}

proof fn lemma_admitting(cs: Seq<CapV>, q: RequestV, cache: Seq<Map<Seq<u8>, u64>>)
    ensures
        match first_admitting(cs, q, cache) {
            Some(c) => cs.contains(c) && admits(c, q, cache),
            None => forall|i: int| 0 <= i < cs.len() ==> !admits(#[trigger] cs[i], q, cache),
        },
    decreases cs.len(),
{
    if cs.len() > 0 {
        if admits(cs[0], q, cache) {
            assert(cs.contains(cs[0]));
        } else {
            let rest = cs.drop_first();
            lemma_admitting(rest, q, cache);
            match first_admitting(rest, q, cache) {
                Some(c) => {
                    let i = rest.index_of(c);
                    assert(cs[i + 1] == c);
                },
                None => {
                    assert forall|i: int| 0 <= i < cs.len() implies !admits(#[trigger] cs[i], q, cache) by {
                        if i > 0 {
                            assert(cs[i] == rest[i - 1]);
                        }
                    }
                },
            }
        }
    }
}

/// A request is granted exactly where one of the capabilities counts and grants it.
pub proof fn law_granted_iff_admitted(cs: Seq<CapV>, q: RequestV, cache: Seq<Map<Seq<u8>, u64>>)
    requires
        q.scope.host == q.host,
    ensures
        ruling(cs, q, cache) is Ok <==> exists|i: int| 0 <= i < cs.len() && admits(#[trigger] cs[i], q, cache),
{
    lemma_admitting(cs, q, cache);
    match first_admitting(cs, q, cache) {
        Some(c) => {
            let i = cs.index_of(c);
            assert(admits(cs[i], q, cache));
        },
        None => {},
    }
}

/// A sandbox opens to its owner alone: whoever is let in holds a capability bound to
/// the key in the namespace's name.
pub proof fn law_sandbox_is_the_owners(cs: Seq<CapV>, q: RequestV, cache: Seq<Map<Seq<u8>, u64>>)
    requires
        q.scope.tier == Tier::L3,
        ruling(cs, q, cache) is Ok,
    ensures
        q.scope.ns == "u/"@ + hexes::hex_text(q.principal),
{
    lemma_admitting(cs, q, cache);
}

/// A forged capability opens nothing: one whose signature is not good and whose own
/// content was not verified before never admits a request, whatever else was cached.
pub proof fn law_forged_capability_opens_nothing(c: CapV, q: RequestV, cache: Seq<Map<Seq<u8>, u64>>)
    requires
        !ident::verifies(c.issuer, caps::canonical(c), c.sig),
        !cached(cache, caps::cap_digest(c), q.epoch),
    ensures
        ruling(seq![c], q, cache) is Err,
{
    let cs = seq![c];
    lemma_admitting(cs, q, cache);
    assert(cs[0] == c);
}

/// A new epoch forgets every ruling that was kept in others.
pub proof fn law_new_epoch_verifies_again(cache: Seq<Map<Seq<u8>, u64>>, digest: Seq<char>, old_epoch: u64, epoch: u64)
    requires
        cached(cache, digest, old_epoch),
        epoch != old_epoch,
    ensures
        !cached(cache, digest, epoch),
{
}

/// A request keeps a ruling for its own epoch alone.
pub proof fn lemma_keeps_its_epoch(
    cs: Seq<CapV>,
    q: RequestV,
    cache: Seq<Map<Seq<u8>, u64>>,
    digest: Seq<char>,
    epoch: u64,
)
    requires
        cache.len() == 256,
        epoch != q.epoch,
        !cached(cache, digest, epoch),
    ensures
        !cached(cache_after(cs, q, cache), digest, epoch),
{
    if first_admitting(cs, q, cache) is Some {
        let d = caps::cap_digest(first_admitting(cs, q, cache)->0);
        let after = marked(cache, d, q.epoch);
        if shard_of(d) == shard_of(digest) && text::utf8(d) == text::utf8(digest) {
            assert(after[shard_of(digest)][text::utf8(digest)] == q.epoch);
        }
    }
}

/// The cache after a row of requests, each with its capabilities.
pub open spec fn cache_over(rs: Seq<(Seq<CapV>, RequestV)>) -> Seq<Map<Seq<u8>, u64>>
    decreases rs.len(),
{
    if rs.len() == 0 {
        no_verdicts()
    } else {
        cache_after(rs.last().0, rs.last().1, cache_over(rs.drop_last()))
    }
}

/// Are the signature and the revocation of a capability in order?
pub open spec fn vetted(c: CapV, rev: RevokedV) -> bool {
    ident::verifies(c.issuer, caps::canonical(c), c.sig) && !rev.hits(
        c.scope.url(),
        hexes::hex_text(c.subject),
        c.nonce,
    )
}

/// Do the two capabilities say the same under the same signature?
pub open spec fn same_signed(c: CapV, d: CapV) -> bool {
    caps::canonical(c) == caps::canonical(d) && c.sig == d.sig && c.issuer == d.issuer && c.subject == d.subject
        && c.nonce == d.nonce && c.scope.url() == d.scope.url()
}

/// Was a capability with this digest presented in one of the requests of the epoch, and
/// is it in order?
spec fn shown(rs: Seq<(Seq<CapV>, RequestV)>, i: int, j: int, digest: Seq<char>, epoch: u64, rev: RevokedV) -> bool {
    0 <= i < rs.len() && 0 <= j < rs[i].0.len() && text::utf8(caps::cap_digest(rs[i].0[j])) == text::utf8(digest)
        && vetted(rs[i].0[j], rev)
}

/// The revocations that the requests of an epoch were checked against.
pub open spec fn epoch_revokes(rs: Seq<(Seq<CapV>, RequestV)>, epoch: u64, rev: RevokedV) -> bool {
    forall|i: int| 0 <= i < rs.len() && (#[trigger] rs[i]).1.epoch == epoch ==> rs[i].1.rev == rev
}

/// Does no capability of the earlier requests share its digest with one that says
/// something else?
pub open spec fn digests_tell(rs: Seq<(Seq<CapV>, RequestV)>, cs: Seq<CapV>) -> bool {
    forall|i: int, j: int, k: int|
        0 <= i < rs.len() && 0 <= j < rs[i].0.len() && 0 <= k < cs.len() && caps::cap_digest(#[trigger] rs[i].0[j])
            == caps::cap_digest(#[trigger] cs[k]) ==> same_signed(rs[i].0[j], cs[k])
}

/// What is kept of an epoch was presented in it, and was in order.
proof fn lemma_kept_is_vetted(rs: Seq<(Seq<CapV>, RequestV)>, epoch: u64, rev: RevokedV, digest: Seq<char>)
    requires
        epoch_revokes(rs, epoch, rev),
    ensures
        cache_over(rs).len() == 256,
        cached(cache_over(rs), digest, epoch) ==> exists|i: int, j: int|
            #[trigger] shown(rs, i, j, digest, epoch, rev),
    decreases rs.len(),
{
    if rs.len() > 0 {
        let rest = rs.drop_last();
        let (cs, q) = rs.last();
        let before = cache_over(rest);
        assert forall|i: int| 0 <= i < rest.len() && (#[trigger] rest[i]).1.epoch == epoch implies rest[i].1.rev
            == rev by {
            assert(rest[i] == rs[i]);
        }
        lemma_kept_is_vetted(rest, epoch, rev, digest);
        if cached(cache_over(rs), digest, epoch) {
            if cached(before, digest, epoch) {
                let (i, j) = choose|i: int, j: int| #[trigger] shown(rest, i, j, digest, epoch, rev);
                assert(rest[i] == rs[i]);
                assert(shown(rs, i, j, digest, epoch, rev));
            } else {
                lemma_admitting(cs, q, before);
                let c = first_admitting(cs, q, before)->0;
                let d = caps::cap_digest(c);
                if q.epoch != epoch {
                    lemma_keeps_its_epoch(cs, q, before, digest, epoch);
                }
                assert(text::utf8(d) == text::utf8(digest));
                let j = cs.index_of(c);
                assert(rs[rs.len() - 1] == (cs, q));
                assert(shown(rs, rs.len() - 1, j, digest, epoch, rev));
            }
        }
    }
}

/// A cache changes no answer: whatever earlier requests left in it, a request is answered
/// as with everything checked anew, where the revocations have not changed within the
/// epoch and no two of the capabilities share a digest by chance.
pub proof fn law_cache_changes_no_answer(rs: Seq<(Seq<CapV>, RequestV)>, cs: Seq<CapV>, q: RequestV)
    requires
        epoch_revokes(rs, q.epoch, q.rev),
        digests_tell(rs, cs),
    ensures
        ruling(cs, q, cache_over(rs)) == ruling(cs, RequestV { epoch: 0, ..q }, no_verdicts()),
        first_admitting(cs, q, cache_over(rs)) == first_admitting(cs, RequestV { epoch: 0, ..q }, no_verdicts()),
{
    assert forall|k: int| 0 <= k < cs.len() implies admits(#[trigger] cs[k], q, cache_over(rs)) == admits(
        cs[k],
        RequestV { epoch: 0, ..q },
        no_verdicts(),
    ) by {
        let c = cs[k];
        let digest = caps::cap_digest(c);
        lemma_kept_is_vetted(rs, q.epoch, q.rev, digest);
        if cached(cache_over(rs), digest, q.epoch) {
            let (i, j) = choose|i: int, j: int| #[trigger] shown(rs, i, j, digest, q.epoch, q.rev);
            let h = rs[i].0[j];
            text::lemma_utf8_decodes(digest);
            text::lemma_utf8_decodes(caps::cap_digest(h));
            assert(same_signed(h, c));
            assert(vetted(c, q.rev));
        }
    }
    lemma_same_first(cs, q, cache_over(rs), RequestV { epoch: 0, ..q }, no_verdicts());
}

proof fn lemma_same_first(
    cs: Seq<CapV>,
    q: RequestV,
    cache: Seq<Map<Seq<u8>, u64>>,
    p: RequestV,
    other: Seq<Map<Seq<u8>, u64>>,
)
    requires
        forall|k: int| 0 <= k < cs.len() ==> admits(#[trigger] cs[k], q, cache) == admits(cs[k], p, other),
    ensures
        first_admitting(cs, q, cache) == first_admitting(cs, p, other),
    decreases cs.len(),
{
    if cs.len() > 0 {
        assert(admits(cs[0], q, cache) == admits(cs[0], p, other));
        let rest = cs.drop_first();
        assert forall|k: int| 0 <= k < rest.len() implies admits(#[trigger] rest[k], q, cache) == admits(
            rest[k],
            p,
            other,
        ) by {
            assert(rest[k] == cs[k + 1]);
        }
        lemma_same_first(rest, q, cache, p, other);
    }
}

/// A forged capability stays out, whatever was let in before: copying the nonce of a
/// capability that is kept does not help it.
pub proof fn law_forged_copy_stays_out(rs: Seq<(Seq<CapV>, RequestV)>, c: CapV, q: RequestV)
    requires
        epoch_revokes(rs, q.epoch, q.rev),
        digests_tell(rs, seq![c]),
        !ident::verifies(c.issuer, caps::canonical(c), c.sig),
    ensures
        ruling(seq![c], q, cache_over(rs)) is Err,
{
    law_cache_changes_no_answer(rs, seq![c], q);
    law_forged_capability_opens_nothing(c, RequestV { epoch: 0, ..q }, no_verdicts());
}

// ---------- quotas and sandboxes ----------

/// The metadata key of a namespace's write count.
pub open spec fn quota_key(ns: Seq<char>) -> Seq<u8> {
    text::utf8("quota:"@ + ns)
}

/// The bytes written to a namespace so far.
pub open spec fn written(s: StoreV, ns: Seq<char>) -> u64 {
    match model::look(s.meta, quota_key(ns)) {
        Some(v) => if v.len() == 8 {
            record::un64(v)
        } else {
            0
        },
        None => 0,
    }
}

/// The bytes written to a namespace so far.
pub fn bytes_written(store: &Store, ns: &str) -> (n: u64)
    requires
        store.wf(),
    ensures
        n == written(store@, ns@),
{
    match store.meta_get(text::join2("quota:", ns).as_str()) {
        Some(v) => if v.len() == 8 {
            u64_from_le_bytes(v.as_slice())
        } else {
            0
        },
        None => 0,
    }
}

/// Count `delta` bytes against a namespace's quota; over the limit nothing is counted.
/// Deletes never shrink the count.
pub fn account_write(store: &mut Store, ns: &str, delta: u64, limit: u64) -> (r: Result<(), AuthError>)
    requires
        old(store).wf(),
    ensures
        final(store).wf(),
        final(store).is_durable() == old(store).is_durable(),
        if written(old(store)@, ns@) + delta > limit {
            r matches Err(e) && e@ == (AuthFault::QuotaExceeded { ns: ns@, limit }) && final(store)@ == old(
                store,
            )@
        } else {
            r is Ok && final(store)@ == old(store)@.with_meta(
                old(store)@.meta.insert(
                    quota_key(ns@),
                    record::le64(written(old(store)@, ns@) + delta),
                ),
            ).bumped(1)
        },
{
    let so_far: u64 = bytes_written(store, ns);
    let total: u128 = so_far as u128 + delta as u128;
    if total > limit as u128 {
        return Err(AuthError::QuotaExceeded { ns: text::copy_text(ns), limit });
    }
    let mut v: Vec<u8> = Vec::new();
    record::push_u64(&mut v, total as u64);
    assert(v@ =~= record::le64(so_far + delta));
    store.meta_set(text::join2("quota:", ns).as_str(), v);
    Ok(())
}

/// The write count never passes the limit, and grows by just what was counted.
pub proof fn law_quota_counts_up(s: StoreV, ns: Seq<char>, delta: u64, limit: u64)
    requires
        written(s, ns) + delta <= limit,
    ensures
        ({
            let t = s.with_meta(
                s.meta.insert(quota_key(ns), record::le64(written(s, ns) + delta)),
            ).bumped(1);
            written(t, ns) == written(s, ns) + delta && written(t, ns) <= limit
        }),
{
    lemma_auto_spec_u64_to_from_le_bytes();
}

/// The sandbox namespace of a key.
pub open spec fn sandbox(key: Seq<u8>) -> Seq<char> {
    "u/"@ + hexes::hex_text(key)
}

/// Make the sandbox of a principal, if it is not there; its name comes back.
pub fn ensure_l3_namespace(store: &mut Store, principal: &PublicKey) -> (r: Result<String, AuthError>)
    requires
        old(store).wf(),
    ensures
        final(store).wf(),
        final(store).is_durable() == old(store).is_durable(),
        r matches Ok(ns) && ns@ == sandbox(principal@),
        final(store)@ == (if old(store)@.has(sandbox(principal@)) {
            old(store)@
        } else {
            old(store)@.create(sandbox(principal@), ConflictPolicy::Lww).store
        }),
        final(store)@.has(sandbox(principal@)),
{
    let ns = text::join2("u/", principal.to_hex().as_str());
    if store.policy(ns.as_str()).is_none() {
        proof {
            lemma_sandbox_name(principal);
        }
        match store.create_namespace(ns.as_str(), ConflictPolicy::Lww) {
            Ok(_) => {},
            Err(e) => {
                return Err(
                    AuthError::Unauthorized(
                        text::join2("provision L3 namespace: ", e.message().as_str()),
                    ),
                );
            },
        }
    }
    Ok(ns)
}

/// A sandbox has a name that a namespace may have.
pub proof fn lemma_sandbox_name(principal: &PublicKey)
    ensures
        naming::is_ns(sandbox(principal@)),
{
    principal.lemma_len();
    hexes::law_hex_round_trip(principal@);
    reveal_strlit("u/");
    let s = sandbox(principal@);
    assert(s.skip(2) =~= hexes::hex_text(principal@));
    assert(naming::owner_name(s));
}

} // verus!
